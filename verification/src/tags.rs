//! Tag sets, tag expressions and their parser.
use vstd::prelude::*;
use crate::grammar::{
    assignment_at, assignments_from, equality_at, equality_op_at, lemma_word_at_one,
    lemma_word_at_three, lemma_word_at_two, logical_from, logical_op_at, next_quote,
    parse_assignments, parse_logical, quoted_at, skip_blanks, tags_of, EqualityModel,
    LogicalModel,
};
use crate::identity::{
    canonical_id, entry_text, entry_text_in, join_lines, lemma_entry_texts_of_listing, line_texts,
    sort_lines, Line,
};
use crate::text::chars_of;

verus! {

/// How the two operands of an equality are compared.
#[derive(Clone, Copy, PartialEq, Eq, Debug)]
pub enum EqualityOp {
    Equals,
    NotEquals,
}

/// How an equality is joined to the rest of an expression.
#[derive(Clone, Copy, PartialEq, Eq, Debug)]
pub enum LogicalOp {
    And,
    Or,
}

/// One comparison of a tag expression.
#[derive(PartialEq, Eq, Debug)]
pub struct Equality {
    pub op: EqualityOp,
    pub lhs: String,
    pub rhs: String,
}

/// A tag expression: one equality, or an equality joined to a further
/// expression. Chains nest to the right.
#[derive(PartialEq, Eq, Debug)]
pub enum Logical {
    Just(Equality),
    Also(Equality, LogicalOp, Box<Logical>),
}

/// The text does not follow the grammar.
#[derive(Clone, Copy, PartialEq, Eq, Debug)]
pub struct ParseError;

impl View for Equality {
    type V = EqualityModel;

    open spec fn view(&self) -> EqualityModel {
        EqualityModel { op: self.op, lhs: self.lhs@, rhs: self.rhs@ }
    }
}

impl Logical {
    /// The expression with its operands taken as sequences of characters.
    pub open spec fn model(&self) -> LogicalModel
        decreases self,
    {
        match self {
            Logical::Just(e) => LogicalModel::Just(e@),
            Logical::Also(e, op, tail) => LogicalModel::Also(e@, *op, Box::new(tail.model())),
        }
    }
}

impl View for Logical {
    type V = LogicalModel;

    open spec fn view(&self) -> LogicalModel {
        self.model()
    }
}

/// What a tag set holds under a key: its value, or nothing.
pub open spec fn lookup(tags: Map<Seq<char>, Seq<char>>, key: Seq<char>) -> Option<Seq<char>> {
    if tags.contains_key(key) {
        Some(tags[key])
    } else {
        None
    }
}

/// Whether an equality holds of a tag set. Both operands are keys: what the
/// tag set holds under the one is compared with what it holds under the
/// other, and two absent keys compare equal.
pub open spec fn equality_holds(tags: Map<Seq<char>, Seq<char>>, e: EqualityModel) -> bool {
    match e.op {
        EqualityOp::Equals => lookup(tags, e.lhs) == lookup(tags, e.rhs),
        EqualityOp::NotEquals => lookup(tags, e.lhs) != lookup(tags, e.rhs),
    }
}

/// Whether an expression holds of a tag set: the chain is read from left to
/// right, `and` and `or` alike joining the head to all that follows.
pub open spec fn logical_holds(tags: Map<Seq<char>, Seq<char>>, l: LogicalModel) -> bool
    decreases l,
{
    match l {
        LogicalModel::Just(e) => equality_holds(tags, e),
        LogicalModel::Also(e, LogicalOp::And, tail) => equality_holds(tags, e) && logical_holds(
            tags,
            *tail,
        ),
        LogicalModel::Also(e, LogicalOp::Or, tail) => equality_holds(tags, e) || logical_holds(
            tags,
            *tail,
        ),
    }
}

/// An unordered set of tags: each key has one value.
pub struct TagSet {
    entries: Vec<(String, String)>,
}

impl View for TagSet {
    type V = Map<Seq<char>, Seq<char>>;

    closed spec fn view(&self) -> Map<Seq<char>, Seq<char>> {
        Map::new(
            |key: Seq<char>| self.keys().contains(key),
            |key: Seq<char>| self.entries@[self.keys().index_of(key)].1@,
        )
    }
}

impl TagSet {
    /// The keys in the order in which they were first inserted.
    pub closed spec fn keys(&self) -> Seq<Seq<char>> {
        self.entries@.map_values(|e: (String, String)| e.0@)
    }

    /// No key is held twice.
    pub closed spec fn wf(&self) -> bool {
        self.keys().no_duplicates()
    }

    /// A tag set is finite, and `keys` lists its keys.
    pub proof fn lemma_keys(&self)
        requires
            self.wf(),
        ensures
            self@.dom().finite(),
            self@.dom().len() == self.keys().len(),
            self.keys().no_duplicates(),
            self.keys().to_set() == self@.dom(),
    {
        broadcast use vstd::seq_lib::seq_to_set_is_finite;

        assert(self.keys().to_set() =~= self@.dom());
        self.keys().unique_seq_to_set();
    }

    proof fn lemma_entries(&self)
        requires
            self.wf(),
        ensures
            forall|i: int|
                0 <= i < self.entries.len() ==> self@.contains_key(#[trigger] self.keys()[i])
                    && self@[self.keys()[i]] == self.entries[i].1@,
            forall|key: Seq<char>| self@.contains_key(key) <==> self.keys().contains(key),
    {
        assert forall|i: int| 0 <= i < self.entries.len() implies self@.contains_key(
            #[trigger] self.keys()[i],
        ) && self@[self.keys()[i]] == self.entries[i].1@ by {
            let key = self.keys()[i];
            assert(self.keys().contains(key));
            let j = self.keys().index_of(key);
            assert(j == i);
        }
    }

    /// The empty tag set.
    pub fn new() -> (tags: TagSet)
        ensures
            tags.wf(),
            tags@ == Map::<Seq<char>, Seq<char>>::empty(),
    {
        let tags = TagSet { entries: Vec::new() };
        assert(tags@ =~= Map::<Seq<char>, Seq<char>>::empty());
        tags
    }

    fn position(&self, key: &String) -> (r: Option<usize>)
        requires
            self.wf(),
        ensures
            match r {
                Some(i) => i < self.entries.len() && self.keys()[i as int] == key@,
                None => !self.keys().contains(key@),
            },
    {
        let mut i: usize = 0;
        while i < self.entries.len()
            invariant
                0 <= i <= self.entries.len(),
                forall|j: int| 0 <= j < i ==> self.keys()[j] != key@,
            decreases self.entries.len() - i,
        {
            if self.entries[i].0 == *key {
                return Some(i);
            }
            i += 1;
        }
        None
    }

    /// Sets the value of `key`, and returns the value that it had.
    pub fn insert(&mut self, key: String, value: String) -> (previous: Option<String>)
        requires
            old(self).wf(),
        ensures
            final(self).wf(),
            final(self)@ == old(self)@.insert(key@, value@),
            match previous {
                Some(v) => old(self)@.contains_key(key@) && v@ == old(self)@[key@],
                None => !old(self)@.contains_key(key@),
            },
    {
        proof {
            self.lemma_entries();
        }
        let ghost before = *self;
        match self.position(&key) {
            Some(i) => {
                let previous = self.entries[i].1.clone();
                self.entries.set(i, (key, value));
                proof {
                    assert(self.keys() =~= before.keys());
                    self.lemma_entries();
                    assert(self@ =~= before@.insert(key@, value@));
                }
                Some(previous)
            },
            None => {
                self.entries.push((key, value));
                proof {
                    assert(self.keys() =~= before.keys().push(key@));
                    self.lemma_entries();
                    assert forall|k: Seq<char>| self@.contains_key(k) <==> before@.insert(
                        key@,
                        value@,
                    ).contains_key(k) by {
                        if before.keys().contains(k) {
                            let j = before.keys().index_of(k);
                            assert(self.keys()[j] == k);
                            assert(self.keys().contains(k));
                        }
                        if k == key@ {
                            assert(self.keys()[before.keys().len() as int] == k);
                            assert(self.keys().contains(k));
                        }
                        if self.keys().contains(k) {
                            let j = self.keys().index_of(k);
                            if j < before.keys().len() {
                                assert(before.keys()[j] == k);
                                assert(before.keys().contains(k));
                            }
                        }
                    }
                    assert forall|k: Seq<char>| self@.contains_key(k) implies self@[k]
                        == before@.insert(key@, value@)[k] by {
                        let j = self.keys().index_of(k);
                        if j < before.keys().len() {
                            assert(before.keys()[j] == k);
                        }
                    }
                    assert(self@ =~= before@.insert(key@, value@));
                }
                None
            },
        }
    }

    /// The number of tags.
    pub fn len(&self) -> (n: usize)
        requires
            self.wf(),
        ensures
            self@.dom().finite(),
            n == self@.dom().len(),
    {
        proof {
            self.lemma_keys();
        }
        self.entries.len()
    }

    /// The value of `key`, if the tag set has one.
    pub fn get(&self, key: &str) -> (r: Option<&String>)
        requires
            self.wf(),
        ensures
            match r {
                Some(value) => lookup(self@, key@) == Some(value@),
                None => lookup(self@, key@) is None,
            },
    {
        proof {
            self.lemma_entries();
        }
        let owned = key.to_owned();
        match self.position(&owned) {
            Some(i) => Some(&self.entries[i].1),
            None => None,
        }
    }

    /// The canonical identity: every pair as `key=value`, the pairs sorted
    /// lexicographically and joined with commas.
    pub fn id(&self) -> (id: String)
        requires
            self.wf(),
        ensures
            id@ == canonical_id(self@),
    {
        let ghost texts = self.keys().map_values(entry_text_in(self@));
        let mut lines: Vec<Line> = Vec::new();
        let mut i: usize = 0;
        proof {
            reveal_strlit("=");
            self.lemma_entries();
        }
        while i < self.entries.len()
            invariant
                self.wf(),
                0 <= i <= self.entries.len(),
                "="@ == seq!['='],
                texts == self.keys().map_values(entry_text_in(self@)),
                forall|j: int|
                    0 <= j < self.entries.len() ==> self@[#[trigger] self.keys()[j]]
                        == self.entries[j].1@,
                lines.len() == i,
                forall|j: int| 0 <= j < i ==> (#[trigger] lines[j]).wf(),
                line_texts(lines@) == texts.take(i as int),
            decreases self.entries.len() - i,
        {
            let text = self.entries[i].0.clone().concat("=").concat(self.entries[i].1.as_str());
            let chars = chars_of(text.as_str());
            proof {
                assert(text@ == entry_text(self.keys()[i as int], self.entries[i as int].1@));
                assert(text@ == texts[i as int]);
                assert(line_texts(lines@).push(text@) =~= texts.take(i + 1));
            }
            let line = Line { chars, text };
            let ghost earlier = lines@;
            lines.push(line);
            assert(line_texts(lines@) =~= line_texts(earlier).push(line@));
            i += 1;
        }
        assert(texts.take(self.entries.len() as int) =~= texts);
        let sorted = sort_lines(lines);
        proof {
            self.lemma_keys();
            lemma_entry_texts_of_listing(self@, self.keys());
        }
        join_lines(&sorted)
    }

    /// Parses a tag set: assignments separated by commas. Where a key is
    /// assigned twice, the later value stays.
    pub fn parse(input: &str) -> (r: Result<TagSet, ParseError>)
        ensures
            match parse_assignments(input@) {
                Some(pairs) => r matches Ok(tags) && tags.wf() && tags@ == tags_of(pairs),
                None => r is Err,
            },
    {
        TagsParser::new(input).tag_set()
    }

    /// Whether `equality` holds of this tag set.
    pub fn matches_eq(&self, equality: Equality) -> (r: bool)
        requires
            self.wf(),
        ensures
            r == equality_holds(self@, equality@),
    {
        let lhs = self.get(equality.lhs.as_str());
        let rhs = self.get(equality.rhs.as_str());
        let is_equal = match (lhs, rhs) {
            (Some(a), Some(b)) => *a == *b,
            (None, None) => true,
            _ => false,
        };
        match equality.op {
            EqualityOp::Equals => is_equal,
            EqualityOp::NotEquals => !is_equal,
        }
    }

    /// Whether `logical` holds of this tag set.
    pub fn matches_logical(&self, logical: Logical) -> (r: bool)
        requires
            self.wf(),
        ensures
            r == logical_holds(self@, logical@),
        decreases logical,
    {
        match logical {
            Logical::Just(eq) => self.matches_eq(eq),
            Logical::Also(eq, LogicalOp::And, tail) => self.matches_eq(eq) && self.matches_logical(
                *tail,
            ),
            Logical::Also(eq, LogicalOp::Or, tail) => self.matches_eq(eq) || self.matches_logical(
                *tail,
            ),
        }
    }
}

/// A scanner over one text, for the grammar of tag sets and tag expressions.
pub struct TagsParser<'a> {
    text: &'a str,
    chars: Vec<char>,
}

impl<'a> View for TagsParser<'a> {
    type V = Seq<char>;

    closed spec fn view(&self) -> Seq<char> {
        self.text@
    }
}

impl<'a> TagsParser<'a> {
    /// The scanner holds the characters of its text.
    pub closed spec fn wf(&self) -> bool {
        self.chars@ == self.text@
    }

    /// A scanner over `text`.
    pub fn new(text: &'a str) -> (parser: Self)
        ensures
            parser.wf(),
            parser@ == text@,
    {
        TagsParser { text, chars: chars_of(text) }
    }

    fn skip_blanks(&self, pos: usize) -> (end: usize)
        requires
            self.wf(),
            pos <= self@.len(),
        ensures
            end == skip_blanks(self@, pos as int),
            pos <= end <= self@.len(),
    {
        let mut i: usize = pos;
        while i < self.chars.len() && (self.chars[i] == ' ' || self.chars[i] == '\t'
            || self.chars[i] == '\n' || self.chars[i] == '\r')
            invariant
                self.wf(),
                pos <= i <= self.chars.len(),
                skip_blanks(self@, pos as int) == skip_blanks(self@, i as int),
            decreases self.chars.len() - i,
        {
            i += 1;
        }
        i
    }

    fn quoted(&self, pos: usize) -> (r: Option<(String, usize)>)
        requires
            self.wf(),
            pos <= self@.len(),
        ensures
            match quoted_at(self@, pos as int) {
                Some((text, end)) => r matches Some((t, e)) && t@ == text && e == end,
                None => r is None,
            },
            r matches Some((t, e)) ==> pos < e <= self@.len(),
    {
        if pos >= self.chars.len() || self.chars[pos] != '"' {
            return None;
        }
        let mut j: usize = pos + 1;
        while j < self.chars.len() && self.chars[j] != '"'
            invariant
                self.wf(),
                pos + 1 <= j <= self.chars.len(),
                next_quote(self@, pos + 1) == next_quote(self@, j as int),
            decreases self.chars.len() - j,
        {
            j += 1;
        }
        if j >= self.chars.len() {
            return None;
        }
        let inner = self.text.substring_char(pos + 1, j);
        Some((inner.to_owned(), j + 1))
    }

    /// Whether the character `c` stands at `pos`.
    fn holds(&self, pos: usize, c: char) -> (r: bool)
        requires
            self.wf(),
        ensures
            r == (pos < self@.len() && self@[pos as int] == c),
    {
        pos < self.chars.len() && self.chars[pos] == c
    }

    fn equality_op(&self, pos: usize) -> (r: Option<(EqualityOp, usize)>)
        requires
            self.wf(),
            pos <= self@.len(),
        ensures
            match equality_op_at(self@, pos as int) {
                Some((op, end)) => r matches Some((o, e)) && o == op && e == end,
                None => r is None,
            },
            r matches Some((o, e)) ==> pos < e <= self@.len(),
    {
        proof {
            lemma_word_at_two(self@, pos as int, '=', '=');
            lemma_word_at_two(self@, pos as int, '!', '=');
        }
        if pos >= self.chars.len() || pos + 1 >= self.chars.len() {
            return None;
        }
        if self.holds(pos, '=') && self.holds(pos + 1, '=') {
            Some((EqualityOp::Equals, pos + 2))
        } else if self.holds(pos, '!') && self.holds(pos + 1, '=') {
            Some((EqualityOp::NotEquals, pos + 2))
        } else {
            None
        }
    }

    fn logical_op(&self, pos: usize) -> (r: Option<(LogicalOp, usize)>)
        requires
            self.wf(),
            pos <= self@.len(),
        ensures
            match logical_op_at(self@, pos as int) {
                Some((op, end)) => r matches Some((o, e)) && o == op && e == end,
                None => r is None,
            },
            r matches Some((o, e)) ==> pos < e <= self@.len(),
    {
        proof {
            lemma_word_at_three(self@, pos as int, 'a', 'n', 'd');
            lemma_word_at_two(self@, pos as int, 'o', 'r');
        }
        if pos >= self.chars.len() || pos + 1 >= self.chars.len() {
            return None;
        }
        if self.holds(pos, 'a') && self.holds(pos + 1, 'n') && pos + 2 < self.chars.len()
            && self.holds(pos + 2, 'd') {
            Some((LogicalOp::And, pos + 3))
        } else if self.holds(pos, 'o') && self.holds(pos + 1, 'r') {
            Some((LogicalOp::Or, pos + 2))
        } else {
            None
        }
    }

    fn equality(&self, pos: usize) -> (r: Option<(Equality, usize)>)
        requires
            self.wf(),
            pos <= self@.len(),
        ensures
            match equality_at(self@, pos as int) {
                Some((eq, end)) => r matches Some((q, e)) && q@ == eq && e == end,
                None => r is None,
            },
            r matches Some((q, e)) ==> pos < e <= self@.len(),
    {
        let (lhs, after_lhs) = match self.quoted(pos) {
            Some(found) => found,
            None => { return None; },
        };
        let (op, after_op) = match self.equality_op(self.skip_blanks(after_lhs)) {
            Some(found) => found,
            None => { return None; },
        };
        let (rhs, end) = match self.quoted(self.skip_blanks(after_op)) {
            Some(found) => found,
            None => { return None; },
        };
        Some((Equality { op, lhs, rhs }, end))
    }

    fn assignment(&self, pos: usize) -> (r: Option<(String, String, usize)>)
        requires
            self.wf(),
            pos <= self@.len(),
        ensures
            match assignment_at(self@, pos as int) {
                Some((pair, end)) => r matches Some((k, v, e)) && k@ == pair.0 && v@ == pair.1
                    && e == end,
                None => r is None,
            },
            r matches Some((k, v, e)) ==> pos < e <= self@.len(),
    {
        let (key, after_key) = match self.quoted(pos) {
            Some(found) => found,
            None => { return None; },
        };
        let sign = self.skip_blanks(after_key);
        proof {
            lemma_word_at_one(self@, sign as int, '=');
        }
        if sign >= self.chars.len() || !self.holds(sign, '=') {
            return None;
        }
        let (value, end) = match self.quoted(self.skip_blanks(sign + 1)) {
            Some(found) => found,
            None => { return None; },
        };
        Some((key, value, end))
    }

    fn logical_from(&self, pos: usize) -> (r: Result<Logical, ParseError>)
        requires
            self.wf(),
            pos <= self@.len(),
        ensures
            match logical_from(self@, pos as int) {
                Some(expr) => r matches Ok(l) && l@ == expr,
                None => r is Err,
            },
        decreases self@.len() - pos,
    {
        let (head, end) = match self.equality(pos) {
            Some(found) => found,
            None => { return Err(ParseError); },
        };
        let next = self.skip_blanks(end);
        if next >= self.chars.len() {
            return Ok(Logical::Just(head));
        }
        let (op, after_op) = match self.logical_op(next) {
            Some(found) => found,
            None => { return Err(ParseError); },
        };
        match self.logical_from(self.skip_blanks(after_op)) {
            Ok(tail) => Ok(Logical::Also(head, op, Box::new(tail))),
            Err(e) => Err(e),
        }
    }

    /// Reads the whole text as a tag expression.
    pub fn logical(&self) -> (r: Result<Logical, ParseError>)
        requires
            self.wf(),
        ensures
            match parse_logical(self@) {
                Some(expr) => r matches Ok(l) && l@ == expr,
                None => r is Err,
            },
    {
        self.logical_from(self.skip_blanks(0))
    }

    /// Reads the whole text as a tag set.
    pub fn tag_set(&self) -> (r: Result<TagSet, ParseError>)
        requires
            self.wf(),
        ensures
            match parse_assignments(self@) {
                Some(pairs) => r matches Ok(tags) && tags.wf() && tags@ == tags_of(pairs),
                None => r is Err,
            },
    {
        let mut tags = TagSet::new();
        let mut pos: usize = self.skip_blanks(0);
        let ghost mut done: Seq<(Seq<char>, Seq<char>)> = Seq::empty();
        assert(done + Seq::<(Seq<char>, Seq<char>)>::empty() =~= done);
        loop
            invariant
                self.wf(),
                tags.wf(),
                pos <= self@.len(),
                tags@ == tags_of(done),
                match assignments_from(self@, pos as int) {
                    Some(rest) => parse_assignments(self@) == Some(done + rest),
                    None => parse_assignments(self@) is None,
                },
            decreases self@.len() - pos,
        {
            let (key, value, end) = match self.assignment(pos) {
                Some(found) => found,
                None => { return Err(ParseError); },
            };
            let ghost pair = (key@, value@);
            let ghost earlier = done;
            tags.insert(key, value);
            proof {
                done = done.push(pair);
                assert(done.drop_last() =~= earlier);
            }
            let next = self.skip_blanks(end);
            if next >= self.chars.len() {
                assert(earlier + seq![pair] =~= done);
                return Ok(tags);
            }
            if !self.holds(next, ',') {
                return Err(ParseError);
            }
            proof {
                if let Some(rest) = assignments_from(self@, skip_blanks(self@, next + 1)) {
                    assert(earlier + (seq![pair] + rest) =~= done + rest);
                }
            }
            pos = self.skip_blanks(next + 1);
        }
    }
}

impl Logical {
    /// Parses a tag expression. The text has to spell one expression from
    /// its first character to its last, blanks aside.
    pub fn parse(input: &str) -> (r: Result<Logical, ParseError>)
        ensures
            match parse_logical(input@) {
                Some(expr) => r matches Ok(l) && l@ == expr,
                None => r is Err,
            },
    {
        TagsParser::new(input).logical()
    }
}

} // verus!
