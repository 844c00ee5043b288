//! The canonical identity of a tag set: its pairs written as `key=value`,
//! sorted lexicographically and joined with commas.
use vstd::prelude::*;
use vstd::seq_lib::lemma_sorted_unique;
use crate::order::{
    lemma_map_keeps_multiset, lemma_same_items_same_multiset,
    lemma_stable_sorted, lemma_stable_sorted_push, lemma_to_seq_no_duplicates, slot,
    stable_sorted,
};
use crate::grammar::tags_of;
use crate::text::{joined, lemma_lex_order_total, lex_le_chars, lex_order};

verus! {

/// One pair as it stands in an identity.
pub open spec fn entry_text(key: Seq<char>, value: Seq<char>) -> Seq<char> {
    key + seq!['='] + value
}

/// The text of the pair that `tags` holds under a key.
pub open spec fn entry_text_in(tags: Map<Seq<char>, Seq<char>>) -> spec_fn(Seq<char>) -> Seq<
    char,
> {
    |key: Seq<char>| entry_text(key, tags[key])
}

/// The texts of all pairs of a tag set, in lexicographic order.
pub open spec fn entry_texts(tags: Map<Seq<char>, Seq<char>>) -> Seq<Seq<char>> {
    stable_sorted(tags.dom().to_seq().map_values(entry_text_in(tags)), lex_order())
}

/// The canonical identity of a tag set. The empty tag set has the empty
/// identity.
pub open spec fn canonical_id(tags: Map<Seq<char>, Seq<char>>) -> Seq<char> {
    joined(entry_texts(tags), seq![','])
}

/// Whatever duplicate-free listing of the keys one starts from, sorting the
/// texts of the pairs gives the same sequence.
pub proof fn lemma_entry_texts_of_listing(tags: Map<Seq<char>, Seq<char>>, keys: Seq<Seq<char>>)
    requires
        tags.dom().finite(),
        keys.no_duplicates(),
        keys.to_set() == tags.dom(),
    ensures
        stable_sorted(keys.map_values(entry_text_in(tags)), lex_order()) == entry_texts(tags),
{
    let listed = tags.dom().to_seq();
    let f = entry_text_in(tags);
    lemma_to_seq_no_duplicates(tags.dom());
    lemma_same_items_same_multiset(keys, listed);
    lemma_map_keeps_multiset(keys, listed, f);
    lemma_lex_order_total();
    lemma_stable_sorted(keys.map_values(f), lex_order());
    lemma_stable_sorted(listed.map_values(f), lex_order());
    lemma_sorted_unique(
        stable_sorted(keys.map_values(f), lex_order()),
        stable_sorted(listed.map_values(f), lex_order()),
        lex_order(),
    );
}

/// The keys of a sequence of pairs.
pub open spec fn keys_of(pairs: Seq<(Seq<char>, Seq<char>)>) -> Seq<Seq<char>> {
    pairs.map_values(|pair: (Seq<char>, Seq<char>)| pair.0)
}

/// The tag set that pairs with distinct keys build holds exactly these
/// pairs.
pub proof fn lemma_tags_of_distinct(pairs: Seq<(Seq<char>, Seq<char>)>)
    requires
        keys_of(pairs).no_duplicates(),
    ensures
        forall|key: Seq<char>|
            tags_of(pairs).contains_key(key) <==> keys_of(pairs).contains(key),
        forall|i: int|
            0 <= i < pairs.len() ==> tags_of(pairs).contains_key((#[trigger] pairs[i]).0)
                && tags_of(pairs)[pairs[i].0] == pairs[i].1,
    decreases pairs.len(),
{
    if pairs.len() > 0 {
        let front = pairs.drop_last();
        let last = pairs.last();
        assert(keys_of(front) =~= keys_of(pairs).drop_last());
        lemma_tags_of_distinct(front);
        assert forall|key: Seq<char>| tags_of(pairs).contains_key(key) <==> keys_of(
            pairs,
        ).contains(key) by {
            if keys_of(front).contains(key) {
                let i = keys_of(front).index_of(key);
                assert(keys_of(pairs)[i] == key);
            }
            if key == last.0 {
                assert(keys_of(pairs)[pairs.len() - 1] == key);
            }
            if keys_of(pairs).contains(key) {
                let i = keys_of(pairs).index_of(key);
                if i < front.len() {
                    assert(keys_of(front)[i] == key);
                }
            }
        }
        assert forall|i: int| 0 <= i < pairs.len() implies tags_of(pairs).contains_key(
            (#[trigger] pairs[i]).0,
        ) && tags_of(pairs)[pairs[i].0] == pairs[i].1 by {
            if i < front.len() {
                assert(front[i] == pairs[i]);
                assert(keys_of(pairs)[i] == pairs[i].0);
                assert(keys_of(pairs)[pairs.len() - 1] == last.0);
            }
        }
    }
}

/// The identity of a tag set does not depend on the order in which its
/// pairs were inserted: two sequences of the same pairs, no key twice among
/// them, build one tag set with one identity.
pub proof fn lemma_id_ignores_insertion_order(
    a: Seq<(Seq<char>, Seq<char>)>,
    b: Seq<(Seq<char>, Seq<char>)>,
)
    requires
        keys_of(a).no_duplicates(),
        a.to_multiset() == b.to_multiset(),
    ensures
        tags_of(a) == tags_of(b),
        canonical_id(tags_of(a)) == canonical_id(tags_of(b)),
{
    a.to_multiset_ensures();
    b.to_multiset_ensures();
    assert(a.no_duplicates()) by {
        assert forall|i: int, j: int| 0 <= i < a.len() && 0 <= j < a.len() && i != j implies a[i]
            != a[j] by {
            assert(keys_of(a)[i] == a[i].0 && keys_of(a)[j] == a[j].0);
        }
    }
    a.lemma_multiset_has_no_duplicates();
    b.lemma_multiset_has_no_duplicates_conv();
    assert forall|i: int, j: int|
        0 <= i < b.len() && 0 <= j < b.len() && i != j implies keys_of(b)[i] != keys_of(b)[j] by {
        assert(b.contains(b[i]) && b.contains(b[j]));
        assert(b.to_multiset().count(b[i]) > 0 && b.to_multiset().count(b[j]) > 0);
        assert(a.contains(b[i]) && a.contains(b[j]));
        let x = a.index_of(b[i]);
        let y = a.index_of(b[j]);
        assert(keys_of(a)[x] == b[i].0 && keys_of(a)[y] == b[j].0);
    }
    lemma_tags_of_distinct(a);
    lemma_tags_of_distinct(b);
    assert forall|key: Seq<char>| #[trigger]
        tags_of(a).dom().contains(key) <==> tags_of(b).dom().contains(key) by {
        if tags_of(a).contains_key(key) {
            assert(keys_of(a).contains(key));
            let i = keys_of(a).index_of(key);
            assert(keys_of(a)[i] == key);
            assert(a.contains(a[i]));
            assert(a.to_multiset().count(a[i]) > 0);
            assert(b.contains(a[i]));
            let j = b.index_of(a[i]);
            assert(b[j].0 == key);
        }
        if tags_of(b).contains_key(key) {
            assert(keys_of(b).contains(key));
            let j = keys_of(b).index_of(key);
            assert(keys_of(b)[j] == key);
            assert(b.contains(b[j]));
            assert(b.to_multiset().count(b[j]) > 0);
            assert(a.contains(b[j]));
            let i = a.index_of(b[j]);
            assert(a[i].0 == key);
        }
    }
    assert(tags_of(a).dom() =~= tags_of(b).dom());
    assert forall|key: Seq<char>| #[trigger] tags_of(a).dom().contains(key) implies tags_of(a)[key]
        == tags_of(b)[key] by {
        assert(keys_of(a).contains(key));
        let i = keys_of(a).index_of(key);
        assert(keys_of(a)[i] == key);
        assert(a.contains(a[i]));
        assert(a.to_multiset().count(a[i]) > 0);
        assert(b.contains(a[i]));
        let j = b.index_of(a[i]);
        assert(b[j].0 == key);
    }
    assert(tags_of(a) =~= tags_of(b));
}

/// Whether a text holds no comma.
pub open spec fn comma_free(text: Seq<char>) -> bool {
    forall|i: int| 0 <= i < text.len() ==> text[i] != ','
}

/// Whether a text holds no equals sign.
pub open spec fn sign_free(text: Seq<char>) -> bool {
    forall|i: int| 0 <= i < text.len() ==> text[i] != '='
}

/// Whether the pairs of a tag set can be told apart in its identity: no key
/// holds an equals sign, and neither keys nor values hold a comma.
pub open spec fn plain(tags: Map<Seq<char>, Seq<char>>) -> bool {
    forall|key: Seq<char>| #[trigger]
        tags.contains_key(key) ==> sign_free(key) && comma_free(key) && comma_free(tags[key])
}

/// The text of a pair with a key that holds no equals sign tells the key
/// and the value.
pub proof fn lemma_entry_text_injective(
    key: Seq<char>,
    value: Seq<char>,
    key2: Seq<char>,
    value2: Seq<char>,
)
    requires
        sign_free(key),
        sign_free(key2),
        entry_text(key, value) == entry_text(key2, value2),
    ensures
        key == key2,
        value == value2,
{
    let a = entry_text(key, value);
    let b = entry_text(key2, value2);
    let n = key.len() as int;
    let m = key2.len() as int;
    assert(a[n] == '=');
    assert(b[m] == '=');
    if n < m {
        assert(b[n] == key2[n]);
    }
    if m < n {
        assert(a[m] == key[m]);
    }
    assert forall|i: int| 0 <= i < n implies key[i] == key2[i] by {
        assert(a[i] == key[i] && b[i] == key2[i]);
    }
    assert(key =~= key2);
    assert(a.len() == n + 1 + value.len());
    assert(b.len() == m + 1 + value2.len());
    assert forall|i: int| 0 <= i < value.len() implies value[i] == value2[i] by {
        assert(a[n + 1 + i] == value[i] && b[n + 1 + i] == value2[i]);
    }
    assert(value =~= value2);
}

/// What `joined` gives for a sequence of two parts at least.
proof fn lemma_joined_last(parts: Seq<Seq<char>>)
    requires
        parts.len() >= 1,
    ensures
        parts.len() == 1 ==> joined(parts, seq![',']) == parts[0],
        parts.len() >= 2 ==> joined(parts, seq![',']) == joined(parts.drop_last(), seq![','])
            + seq![','] + parts.last(),
{
}

/// Texts without commas, none of them empty, can be told from what joining
/// them with commas gives.
pub proof fn lemma_joined_injective(a: Seq<Seq<char>>, b: Seq<Seq<char>>)
    requires
        forall|i: int| 0 <= i < a.len() ==> comma_free(#[trigger] a[i]) && a[i].len() > 0,
        forall|i: int| 0 <= i < b.len() ==> comma_free(#[trigger] b[i]) && b[i].len() > 0,
        joined(a, seq![',']) == joined(b, seq![',']),
    ensures
        a == b,
    decreases a.len(),
{
    let s = joined(a, seq![',']);
    if a.len() == 0 {
        if b.len() > 0 {
            lemma_joined_last(b);
            assert(b.last().len() > 0);
        }
        assert(a =~= b);
    } else if b.len() == 0 {
        lemma_joined_last(a);
        assert(a.last().len() > 0);
    } else {
        lemma_joined_last(a);
        lemma_joined_last(b);
        let x = a.last();
        let y = b.last();
        let n = s.len() as int;
        assert(comma_free(x) && x.len() > 0);
        assert(comma_free(y) && y.len() > 0);
        let ja = joined(a.drop_last(), seq![',']);
        let jb = joined(b.drop_last(), seq![',']);
        // Each of the two last parts is the end of `s`, and a comma stands before it unless
        // it is all of `s`.
        assert forall|k: int| 0 <= k < x.len() implies s[n - x.len() + k] == x[k] by {
            if a.len() >= 2 {
                assert(s == ja + seq![','] + x);
            }
        }
        assert forall|k: int| 0 <= k < y.len() implies s[n - y.len() + k] == y[k] by {
            if b.len() >= 2 {
                assert(s == jb + seq![','] + y);
            }
        }
        if a.len() >= 2 {
            assert(s[n - x.len() - 1] == ',');
        }
        if b.len() >= 2 {
            assert(s[n - y.len() - 1] == ',');
        }
        if x.len() < y.len() {
            if a.len() >= 2 {
                let k = y.len() - x.len() - 1;
                assert(s[n - y.len() + k] == y[k]);
            }
            assert(false);
        }
        if y.len() < x.len() {
            if b.len() >= 2 {
                let k = x.len() - y.len() - 1;
                assert(s[n - x.len() + k] == x[k]);
            }
            assert(false);
        }
        assert forall|k: int| 0 <= k < x.len() implies x[k] == y[k] by {
            assert(s[n - x.len() + k] == x[k]);
            assert(s[n - y.len() + k] == y[k]);
        }
        assert(x =~= y);
        if a.len() == 1 {
            assert(b.len() == 1);
            assert(a =~= b);
        } else {
            assert(b.len() >= 2);
            assert(ja =~= s.subrange(0, n - x.len() - 1));
            assert(jb =~= s.subrange(0, n - y.len() - 1));
            assert forall|i: int| 0 <= i < a.drop_last().len() implies comma_free(
                #[trigger] a.drop_last()[i],
            ) && a.drop_last()[i].len() > 0 by {
                assert(a.drop_last()[i] == a[i]);
            }
            assert forall|i: int| 0 <= i < b.drop_last().len() implies comma_free(
                #[trigger] b.drop_last()[i],
            ) && b.drop_last()[i].len() > 0 by {
                assert(b.drop_last()[i] == b[i]);
            }
            lemma_joined_injective(a.drop_last(), b.drop_last());
            assert(a =~= a.drop_last().push(x));
            assert(b =~= b.drop_last().push(y));
        }
    }
}

/// The texts of a tag set are the texts of its pairs.
pub proof fn lemma_entry_texts_are_of_pairs(tags: Map<Seq<char>, Seq<char>>)
    requires
        tags.dom().finite(),
    ensures
        forall|key: Seq<char>|
            tags.contains_key(key) ==> entry_texts(tags).contains(
                #[trigger] entry_text(key, tags[key]),
            ),
        forall|i: int|
            0 <= i < entry_texts(tags).len() ==> exists|key: Seq<char>|
                tags.contains_key(key) && #[trigger] entry_texts(tags)[i] == entry_text(
                    key,
                    tags[key],
                ),
{
    let listed = tags.dom().to_seq();
    let texts = listed.map_values(entry_text_in(tags));
    let sorted = entry_texts(tags);
    lemma_to_seq_no_duplicates(tags.dom());
    lemma_lex_order_total();
    lemma_stable_sorted(texts, lex_order());
    texts.to_multiset_ensures();
    sorted.to_multiset_ensures();
    assert forall|key: Seq<char>| tags.contains_key(key) implies entry_texts(tags).contains(
        #[trigger] entry_text(key, tags[key]),
    ) by {
        assert(listed.to_set().contains(key));
        assert(listed.contains(key));
        let i = listed.index_of(key);
        assert(texts[i] == entry_text(key, tags[key]));
        assert(texts.contains(entry_text(key, tags[key])));
        assert(texts.to_multiset().count(entry_text(key, tags[key])) > 0);
    }
    assert forall|i: int| 0 <= i < sorted.len() implies exists|key: Seq<char>|
        tags.contains_key(key) && #[trigger] sorted[i] == entry_text(key, tags[key]) by {
        assert(sorted.contains(sorted[i]));
        assert(sorted.to_multiset().count(sorted[i]) > 0);
        assert(texts.contains(sorted[i]));
        let j = texts.index_of(sorted[i]);
        let key = listed[j];
        assert(listed.contains(key));
        assert(listed.to_set().contains(key));
        assert(tags.contains_key(key) && sorted[i] == entry_text(key, tags[key]));
    }
}

/// The identity tells plain tag sets apart: two of them with one identity
/// are one tag set.
pub proof fn lemma_id_tells_plain_tags_apart(
    a: Map<Seq<char>, Seq<char>>,
    b: Map<Seq<char>, Seq<char>>,
)
    requires
        a.dom().finite(),
        b.dom().finite(),
        plain(a),
        plain(b),
        canonical_id(a) == canonical_id(b),
    ensures
        a == b,
{
    lemma_entry_texts_are_of_pairs(a);
    lemma_entry_texts_are_of_pairs(b);
    lemma_plain_texts(a);
    lemma_plain_texts(b);
    lemma_joined_injective(entry_texts(a), entry_texts(b));
    lemma_pairs_among(a, b);
    lemma_pairs_among(b, a);
    assert(a.dom() =~= b.dom());
    assert(a =~= b);
}

/// The texts of a plain tag set hold no comma, and none of them is empty.
proof fn lemma_plain_texts(tags: Map<Seq<char>, Seq<char>>)
    requires
        tags.dom().finite(),
        plain(tags),
    ensures
        forall|i: int|
            0 <= i < entry_texts(tags).len() ==> comma_free(#[trigger] entry_texts(tags)[i])
                && entry_texts(tags)[i].len() > 0,
{
    lemma_entry_texts_are_of_pairs(tags);
    assert forall|i: int| 0 <= i < entry_texts(tags).len() implies comma_free(
        #[trigger] entry_texts(tags)[i],
    ) && entry_texts(tags)[i].len() > 0 by {
        let key = choose|key: Seq<char>|
            tags.contains_key(key) && entry_texts(tags)[i] == entry_text(key, tags[key]);
        let text = entry_text(key, tags[key]);
        assert(sign_free(key) && comma_free(key) && comma_free(tags[key]));
        assert forall|k: int| 0 <= k < text.len() implies text[k] != ',' by {
            if k < key.len() {
                assert(text[k] == key[k]);
            } else if k == key.len() {
                assert(text[k] == '=');
            } else {
                assert(text[k] == tags[key][k - key.len() - 1]);
            }
        }
    }
}

/// Where two plain tag sets have the same texts, the pairs of the one are
/// pairs of the other.
proof fn lemma_pairs_among(a: Map<Seq<char>, Seq<char>>, b: Map<Seq<char>, Seq<char>>)
    requires
        a.dom().finite(),
        b.dom().finite(),
        plain(a),
        plain(b),
        entry_texts(a) == entry_texts(b),
    ensures
        forall|key: Seq<char>| #[trigger]
            a.dom().contains(key) ==> b.dom().contains(key) && b[key] == a[key],
{
    lemma_entry_texts_are_of_pairs(a);
    lemma_entry_texts_are_of_pairs(b);
    assert forall|key: Seq<char>| #[trigger] a.dom().contains(key) implies b.dom().contains(key)
        && b[key] == a[key] by {
        assert(a.contains_key(key));
        let text = entry_text(key, a[key]);
        assert(entry_texts(a).contains(text));
        let i = entry_texts(b).index_of(text);
        let key2 = choose|key2: Seq<char>|
            b.contains_key(key2) && entry_texts(b)[i] == entry_text(key2, b[key2]);
        lemma_entry_text_injective(key, a[key], key2, b[key2]);
    }
}

/// A text held twice: as characters, by which lines are ordered, and as a
/// string.
pub struct Line {
    pub chars: Vec<char>,
    pub text: String,
}

impl View for Line {
    type V = Seq<char>;

    open spec fn view(&self) -> Seq<char> {
        self.text@
    }
}

impl Line {
    /// Both forms hold the same text.
    pub open spec fn wf(&self) -> bool {
        self.chars@ == self.text@
    }
}

/// The texts of a sequence of lines.
pub open spec fn line_texts(lines: Seq<Line>) -> Seq<Seq<char>> {
    lines.map_values(|line: Line| line@)
}

/// Sorts lines lexicographically.
pub fn sort_lines(lines: Vec<Line>) -> (sorted: Vec<Line>)
    requires
        forall|i: int| 0 <= i < lines.len() ==> (#[trigger] lines[i]).wf(),
    ensures
        line_texts(sorted@) == stable_sorted(line_texts(lines@), lex_order()),
        forall|i: int| 0 <= i < sorted.len() ==> (#[trigger] sorted[i]).wf(),
{
    let ghost all = lines@;
    let mut sorted: Vec<Line> = Vec::new();
    assert(line_texts(all.take(0)) =~= Seq::<Seq<char>>::empty());
    for line in it: lines
        invariant
            it.seq() == all,
            forall|i: int| 0 <= i < all.len() ==> (#[trigger] all[i]).wf(),
            forall|i: int| 0 <= i < sorted.len() ==> (#[trigger] sorted[i]).wf(),
            line_texts(sorted@) == stable_sorted(line_texts(all.take(it.index())), lex_order()),
    {
        let ghost texts = line_texts(sorted@);
        let ghost done = all.take(it.index());
        assert(line == all[it.index()]);
        let mut k: usize = sorted.len();
        assert(texts.take(k as int) =~= texts);
        while k > 0 && !lex_le_chars(&sorted[k - 1].chars, &line.chars)
            invariant
                0 <= k <= sorted.len(),
                texts == line_texts(sorted@),
                line.wf(),
                forall|i: int| 0 <= i < sorted.len() ==> (#[trigger] sorted[i]).wf(),
                slot(texts, line@, lex_order()) == slot(texts.take(k as int), line@, lex_order()),
            decreases k,
        {
            assert(texts.take(k as int).last() == sorted[k - 1]@);
            assert(texts.take(k as int).drop_last() =~= texts.take(k - 1));
            k -= 1;
        }
        proof {
            if k > 0 {
                assert(texts.take(k as int).last() == sorted[k - 1]@);
            }
            lemma_stable_sorted_push(line_texts(done), line@, lex_order());
            assert(line_texts(done).push(line@) =~= line_texts(all.take(it.index() + 1)));
            assert(line_texts(sorted@.insert(k as int, line)) =~= texts.insert(k as int, line@));
        }
        sorted.insert(k, line);
    }
    assert(all.take(all.len() as int) =~= all);
    sorted
}

/// Joins the texts of the lines with commas.
pub fn join_lines(lines: &Vec<Line>) -> (text: String)
    ensures
        text@ == joined(line_texts(lines@), seq![',']),
{
    let ghost texts = line_texts(lines@);
    let mut text = String::new();
    let mut i: usize = 0;
    proof {
        reveal_strlit(",");
    }
    assert(texts.take(0) =~= Seq::<Seq<char>>::empty());
    while i < lines.len()
        invariant
            0 <= i <= lines.len(),
            texts == line_texts(lines@),
            ","@ == seq![','],
            text@ == joined(texts.take(i as int), seq![',']),
        decreases lines.len() - i,
    {
        assert(texts.take(i + 1).drop_last() =~= texts.take(i as int));
        assert(texts.take(i + 1).last() == lines[i as int]@);
        if i > 0 {
            text.append(",");
        }
        text.append(lines[i].text.as_str());
        i += 1;
    }
    assert(texts.take(lines.len() as int) =~= texts);
    text
}

} // verus!
