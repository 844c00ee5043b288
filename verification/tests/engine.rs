use tinytsdb::db::{Config, Slab, DB};
use tinytsdb::tags::TagSet;
use tinytsdb::TinyTSDB;

#[test]
fn lib_write_then_read_series() {
    let mut db = TinyTSDB::new(Config { slab_duration: 10 });

    let mut tag_set_a = TagSet::new(); // a=A,b=B

    tag_set_a.insert("a".to_string(), "A".to_string());
    tag_set_a.insert("b".to_string(), "B".to_string());

    let mut tag_set_b = TagSet::new(); // b=B,c=C

    tag_set_b.insert("b".to_string(), "B".to_string());
    tag_set_b.insert("c".to_string(), "C".to_string());

    // for `tag_set_a`, write the series
    //
    //     [5,   7,   8,   20,  22]
    //     [1.0, 8.1, 2.4, 3.0, 120.6]
    //
    db.write(&tag_set_a, 5, 1.0);
    db.write(&tag_set_a, 7, 8.1);
    db.write(&tag_set_a, 8, 2.4);
    db.write(&tag_set_a, 20, 3.0);
    db.write(&tag_set_a, 22, 120.6);

    // for `tag_set_b`, write the series
    //
    //     [7,    20]
    //     [2.2, -1.1]
    //
    db.write(&tag_set_b, 7, 2.2);
    db.write(&tag_set_b, 20, -1.1);

    let (actual_times0, actual_values0) = db.read(&tag_set_a, 6, 22);

    assert_eq!(actual_times0, vec![7, 8, 20]);
    assert_eq!(actual_values0, vec![8.1, 2.4, 3.0]);

    let (actual_times1, actual_values1) = db.read(&tag_set_a, 0, 50);

    assert_eq!(actual_times1, vec![5, 7, 8, 20, 22]);
    assert_eq!(actual_values1, vec![1.0, 8.1, 2.4, 3.0, 120.6]);

    let (actual_times2, actual_values2) = db.read(&tag_set_b, 0, 50);

    assert_eq!(actual_times2, vec![7, 20]);
    assert_eq!(actual_values2, vec![2.2, -1.1]);

    let (actual_times3, actual_values3) = db.read(&tag_set_b, 50, 100);

    assert_eq!(actual_times3, vec![]);
    assert_eq!(actual_values3, vec![]);
}

#[test]
fn db_write_then_read_series() {
    let mut db = DB::new(Config { slab_duration: 10 });

    let tag_set_a = TagSet::parse(r#""a" = "A", "b" = "B""#).unwrap();
    let tag_set_b = TagSet::parse(r#""b" = "B", "c" = "C""#).unwrap();

    // for `tag_set_a`, write the series
    //
    //     [5,   7,   8,   20,  22]
    //     [1.0, 8.1, 2.4, 3.0, 120.6]
    //
    db.write(&tag_set_a, 5, 1.0);
    db.write(&tag_set_a, 7, 8.1);
    db.write(&tag_set_a, 8, 2.4);
    db.write(&tag_set_a, 20, 3.0);
    db.write(&tag_set_a, 22, 120.6);

    // for `tag_set_b`, write the series
    //
    //     [7,    20]
    //     [2.2, -1.1]
    //
    db.write(&tag_set_b, 7, 2.2);
    db.write(&tag_set_b, 20, -1.1);

    let (actual_times0, actual_values0) = db.read(&tag_set_a, 6, 22);

    assert_eq!(actual_times0, vec![7, 8, 20]);
    assert_eq!(actual_values0, vec![8.1, 2.4, 3.0]);

    let (actual_times1, actual_values1) = db.read(&tag_set_a, 0, 50);

    assert_eq!(actual_times1, vec![5, 7, 8, 20, 22]);
    assert_eq!(actual_values1, vec![1.0, 8.1, 2.4, 3.0, 120.6]);

    let (actual_times2, actual_values2) = db.read(&tag_set_b, 0, 50);

    assert_eq!(actual_times2, vec![7, 20]);
    assert_eq!(actual_values2, vec![2.2, -1.1]);

    let (actual_times3, actual_values3) = db.read(&tag_set_b, 50, 100);

    assert_eq!(actual_times3, vec![]);
    assert_eq!(actual_values3, vec![]);
}

fn tags(pairs: &[(&str, &str)]) -> TagSet {
    let mut tags = TagSet::new();
    for (key, value) in pairs {
        tags.insert(key.to_string(), value.to_string());
    }
    tags
}

#[test]
fn new_engine_reads_empty() {
    let db: DB<f64> = DB::new(Config { slab_duration: 10 });

    assert_eq!(db.read(&tags(&[("a", "A")]), i64::MIN, i64::MAX), (vec![], vec![]));
    assert_eq!(db.read(&TagSet::new(), 0, 100), (vec![], vec![]));
}

#[test]
fn unknown_identity_reads_empty() {
    let mut db = DB::new(Config { slab_duration: 10 });

    db.write(&tags(&[("a", "A")]), 5, 1.5);

    assert_eq!(db.read(&tags(&[("a", "B")]), 0, 100), (vec![], vec![]));
    assert_eq!(db.read(&tags(&[("b", "A")]), 0, 100), (vec![], vec![]));
    assert_eq!(db.read(&tags(&[("a", "A"), ("b", "B")]), 0, 100), (vec![], vec![]));
    assert_eq!(db.read(&TagSet::new(), 0, 100), (vec![], vec![]));
}

#[test]
fn writes_to_one_tag_set_stay_out_of_the_others() {
    let mut db = DB::new(Config { slab_duration: 10 });
    let ab = tags(&[("a", "A"), ("b", "B")]);
    let bc = tags(&[("b", "B"), ("c", "C")]);

    db.write(&ab, 1, 10.0);
    let before = db.read(&ab, 0, 100);
    db.write(&bc, 2, 20.0);
    db.write(&bc, 3, 30.0);

    assert_eq!(db.read(&ab, 0, 100), before);
    assert_eq!(db.read(&ab, 0, 100), (vec![1], vec![10.0]));
    assert_eq!(db.read(&bc, 0, 100), (vec![2, 3], vec![20.0, 30.0]));

    db.write(&ab, 4, 40.0);

    assert_eq!(db.read(&bc, 0, 100), (vec![2, 3], vec![20.0, 30.0]));
    assert_eq!(db.read(&ab, 0, 100), (vec![1, 4], vec![10.0, 40.0]));
}

#[test]
fn tag_sets_are_told_apart_by_identity_alone() {
    let mut db = DB::new(Config { slab_duration: 10 });
    let one = tags(&[("a", "1,b=2")]);
    let two = tags(&[("a", "1"), ("b", "2")]);

    assert_eq!(one.id(), two.id());

    db.write(&one, 1, 1.0);

    assert_eq!(db.read(&two, 0, 10), (vec![1], vec![1.0]));
}

#[test]
fn insertion_order_of_tags_does_not_part_series() {
    let mut db = DB::new(Config { slab_duration: 10 });

    db.write(&tags(&[("a", "A"), ("b", "B")]), 1, 1.0);
    db.write(&tags(&[("b", "B"), ("a", "A")]), 2, 2.0);

    assert_eq!(db.read(&tags(&[("b", "B"), ("a", "A")]), 0, 10), (vec![1, 2], vec![1.0, 2.0]));
}

#[test]
fn window_without_data_reads_empty() {
    let mut db = DB::new(Config { slab_duration: 10 });
    let ab = tags(&[("a", "A")]);

    db.write(&ab, 5, 1.0);
    db.write(&ab, 7, 2.0);
    db.write(&ab, 22, 3.0);

    assert_eq!(db.read(&ab, 50, 100), (vec![], vec![]));
    assert_eq!(db.read(&ab, -100, 5), (vec![], vec![]));
    assert_eq!(db.read(&ab, 8, 9), (vec![], vec![]));
}

#[test]
fn window_that_ends_before_it_starts_reads_empty() {
    let mut db = DB::new(Config { slab_duration: 10 });
    let ab = tags(&[("a", "A")]);

    db.write(&ab, 5, 1.0);

    assert_eq!(db.read(&ab, 5, 5), (vec![], vec![]));
    assert_eq!(db.read(&ab, 6, 5), (vec![], vec![]));
    assert_eq!(db.read(&ab, 100, 0), (vec![], vec![]));
    assert_eq!(db.read(&ab, i64::MAX, i64::MIN), (vec![], vec![]));
}

#[test]
fn window_is_closed_at_its_start_and_open_at_its_end() {
    let mut db = DB::new(Config { slab_duration: 10 });
    let ab = tags(&[("a", "A")]);

    db.write(&ab, 5, 1.0);
    db.write(&ab, 6, 2.0);
    db.write(&ab, 7, 3.0);

    assert_eq!(db.read(&ab, 5, 7), (vec![5, 6], vec![1.0, 2.0]));
    assert_eq!(db.read(&ab, 6, 8), (vec![6, 7], vec![2.0, 3.0]));
    assert_eq!(db.read(&ab, 6, 7), (vec![6], vec![2.0]));
}

#[test]
fn series_ascends_whatever_the_order_of_the_writes() {
    let mut db = DB::new(Config { slab_duration: 10 });
    let ab = tags(&[("a", "A")]);

    db.write(&ab, 30, 3.0);
    db.write(&ab, 10, 1.0);
    db.write(&ab, 50, 5.0);
    db.write(&ab, 20, 2.0);
    db.write(&ab, 40, 4.0);
    db.write(&ab, -5, 0.5);

    // The slabs start at 30, 10, 20 and -5; the point of time 50 went into the first of them,
    // the one of time 40 into the second.
    assert_eq!(
        db.read(&ab, -10, 100),
        (vec![-5, 10, 20, 30, 40, 50], vec![0.5, 1.0, 2.0, 3.0, 4.0, 5.0])
    );
}

#[test]
fn points_of_one_time_come_out_in_the_order_of_their_slabs() {
    let mut db = DB::new(Config { slab_duration: 10 });
    let ab = tags(&[("a", "A")]);

    db.write(&ab, 7, 1.0);
    db.write(&ab, 5, 2.0);
    db.write(&ab, 7, 3.0);
    db.write(&ab, 5, 4.0);
    db.write(&ab, 7, 5.0);

    assert_eq!(db.read(&ab, 0, 10), (vec![5, 5, 7, 7, 7], vec![2.0, 4.0, 1.0, 3.0, 5.0]));
}

#[test]
fn slab_takes_a_point_only_after_its_window_has_ended() {
    let mut db = DB::new(Config { slab_duration: 10 });
    let ab = tags(&[("a", "A")]);

    db.write(&ab, 5, 1.0); // first slab, window [5, 15)
    db.write(&ab, 15, 2.0); // 5 + 10 < 15 does not hold: second slab, window [15, 25)
    db.write(&ab, 16, 3.0); // 5 + 10 < 16: into the first slab

    // The first slab is passed over where its window ends at or before the start of the read.
    assert_eq!(db.read(&ab, 15, 17), (vec![15], vec![2.0]));
    assert_eq!(db.read(&ab, 14, 17), (vec![15, 16], vec![2.0, 3.0]));
    assert_eq!(db.read(&ab, 16, 50), (vec![], vec![]));
    assert_eq!(db.read(&ab, 0, 50), (vec![5, 15, 16], vec![1.0, 2.0, 3.0]));
}

#[test]
fn read_passes_over_slabs_that_start_at_or_after_the_stop() {
    let mut db = DB::new(Config { slab_duration: 10 });
    let ab = tags(&[("a", "A"), ("b", "B")]);

    db.write(&ab, 5, 1.0);
    db.write(&ab, 7, 8.1);
    db.write(&ab, 8, 2.4);
    db.write(&ab, 20, 3.0);
    db.write(&ab, 22, 120.6);

    // The points of time 20 and 22 stand in the slab that starts at 5.
    assert_eq!(db.read(&ab, 16, 50), (vec![], vec![]));
    assert_eq!(db.read(&ab, 14, 21), (vec![20], vec![3.0]));
    assert_eq!(db.read(&ab, 0, 5), (vec![], vec![]));
    assert_eq!(db.read(&ab, 0, 6), (vec![5], vec![1.0]));
}

#[test]
fn negative_slab_duration_lets_the_first_slab_take_every_later_point() {
    let mut db = DB::new(Config { slab_duration: -10 });
    let ab = tags(&[("a", "A")]);

    db.write(&ab, 5, 1.0);
    db.write(&ab, 5, 2.0);
    db.write(&ab, 3, 3.0);
    db.write(&ab, 9, 4.0);

    // The first slab starts at 5 and ends at -5, the second starts at 3 and ends at -7: a read
    // passes over each of them unless it starts before that end.
    assert_eq!(db.read(&ab, 0, 10), (vec![], vec![]));
    assert_eq!(db.read(&ab, -5, 10), (vec![], vec![]));
    assert_eq!(db.read(&ab, -7, 10), (vec![5, 5, 9], vec![1.0, 2.0, 4.0]));
    assert_eq!(db.read(&ab, -8, 10), (vec![3, 5, 5, 9], vec![3.0, 1.0, 2.0, 4.0]));
}

#[test]
fn times_at_the_ends_of_the_range_do_not_overflow() {
    let mut db = DB::new(Config { slab_duration: i64::MAX });
    let ab = tags(&[("a", "A")]);

    db.write(&ab, 5, 1.0);
    db.write(&ab, i64::MAX, 2.0);
    db.write(&ab, i64::MIN, 3.0);
    db.write(&ab, i64::MAX - 1, 4.0);

    assert_eq!(
        db.read(&ab, i64::MIN, i64::MAX),
        (vec![i64::MIN, 5, i64::MAX - 1], vec![3.0, 1.0, 4.0])
    );
    assert_eq!(db.read(&ab, i64::MAX, i64::MAX), (vec![], vec![]));

    let mut db = DB::new(Config { slab_duration: i64::MIN });

    db.write(&ab, i64::MIN, 1.0);
    db.write(&ab, i64::MAX, 2.0);
    db.write(&ab, 0, 3.0);

    assert_eq!(db.read(&ab, i64::MIN, i64::MAX), (vec![], vec![]));
}

#[test]
fn write_at_takes_the_clock_reading_as_given() {
    let mut db = DB::new(Config { slab_duration: 10 });
    let ab = tags(&[("a", "A")]);

    db.write_at(&ab, 5, 1.0, Some(1_000));
    db.write_at(&ab, 7, 2.0, None);
    db.write_at(&ab, 6, 3.0, Some(-1));

    assert_eq!(db.read(&ab, 0, 10), (vec![5, 6, 7], vec![1.0, 3.0, 2.0]));
}

#[test]
fn engine_stores_values_of_any_copy_type() {
    let mut db = DB::new(Config { slab_duration: 10 });
    let ab = tags(&[("a", "A")]);

    db.write(&ab, 2, (2u8, 'b'));
    db.write(&ab, 1, (1u8, 'a'));

    assert_eq!(db.read(&ab, 0, 10), (vec![1, 2], vec![(1u8, 'a'), (2u8, 'b')]));
}

#[test]
fn flush_changes_nothing() {
    let mut db = TinyTSDB::new(Config { slab_duration: 10 });
    let ab = tags(&[("a", "A")]);

    db.write(&ab, 5, 1.0);
    db.flush();

    assert_eq!(db.read(&ab, 0, 10), (vec![5], vec![1.0]));
}

#[test]
fn slab_holds_what_was_appended() {
    let mut slab = Slab::new(5, 10, None);

    assert!(!slab.accepts(5));
    assert!(!slab.accepts(15));
    assert!(slab.accepts(16));
    assert!(!slab.accepts(4));
    assert!(slab.overlaps(14, 15));
    assert!(!slab.overlaps(15, 16));
    assert!(slab.overlaps(0, 6));
    assert!(!slab.overlaps(0, 5));

    slab.write(5, 1.0, Some(1));
    slab.write(30, 2.0, Some(2));
    slab.write(7, 3.0, None);

    let mut points = vec![(0, 0.0)];
    slab.collect(6, 31, &mut points);

    assert_eq!(points, vec![(0, 0.0), (30, 2.0), (7, 3.0)]);

    slab.collect(15, 100, &mut points);

    assert_eq!(points, vec![(0, 0.0), (30, 2.0), (7, 3.0)]);
}

#[test]
fn point_that_opens_a_slab_is_read_back() {
    let mut db = DB::new(Config { slab_duration: 10 });
    let ab = tags(&[("a", "A")]);

    // No slab has started at the time of a later write, so every write opens a slab.
    for time in [40, 30, 20, 10, 0, -10] {
        db.write(&ab, time, time as f64);

        // The window of that slab overlaps every window that holds the time of the point.
        assert_eq!(db.read(&ab, time, time + 1), (vec![time], vec![time as f64]));
    }

    // A point that went into an older slab is passed over with that slab.
    db.write(&ab, 25, 2.5);

    assert_eq!(db.read(&ab, 25, 26), (vec![], vec![]));
    assert_eq!(db.read(&ab, 19, 26), (vec![20, 25], vec![20.0, 2.5]));
}

#[test]
fn plain_tag_sets_have_identities_of_their_own() {
    let sets = [
        tags(&[]),
        tags(&[("a", "")]),
        tags(&[("a", "b")]),
        tags(&[("a", "b=c")]),
        tags(&[("a", "b"), ("c", "d")]),
        tags(&[("a", "b"), ("c", "")]),
        tags(&[("ab", ""), ("c", "d")]),
        tags(&[("", "a")]),
        tags(&[("", "")]),
    ];

    for i in 0..sets.len() {
        for j in 0..sets.len() {
            assert_eq!(sets[i].id() == sets[j].id(), i == j);
        }
    }
}
