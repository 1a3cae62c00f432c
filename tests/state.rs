use dataflow_state::result::{LookupResult, RecordResult};
use dataflow_state::rows::{Row, Rows};
use dataflow_state::state::{Record, State, Tag};
use dataflow_state::value::DataType;

fn num(i: i64) -> DataType {
    DataType::Int(i)
}

fn text(s: &str) -> DataType {
    DataType::Text(s.to_string())
}

fn found(r: LookupResult) -> Vec<Vec<DataType>> {
    match r {
        LookupResult::Found(rr) => rr.into_vec(),
        LookupResult::Missing => panic!("expected rows, got a hole"),
    }
}

fn is_missing(r: &LookupResult) -> bool {
    matches!(r, LookupResult::Missing)
}

fn count_of(rows: &[Vec<DataType>], row: &[DataType]) -> usize {
    rows.iter().filter(|r| r.as_slice() == row).count()
}

#[test]
fn full_index_insert_then_delete() {
    let mut s = State::new();
    s.add_key(&[0], None);
    let mut batch = vec![
        Record::Positive(vec![num(1), text("a")]),
        Record::Positive(vec![num(1), text("b")]),
        Record::Positive(vec![num(2), text("c")]),
        Record::Negative(vec![num(1), text("a")]),
    ];
    s.process_records(&mut batch, None);
    assert_eq!(batch.len(), 4);
    assert_eq!(s.len(), 2);
    let rows = found(s.lookup(&[0], &[num(1)]));
    assert_eq!(rows, vec![vec![num(1), text("b")]]);
    let rows = found(s.lookup(&[0], &[num(2)]));
    assert_eq!(rows, vec![vec![num(2), text("c")]]);
}

#[test]
fn retracting_an_absent_row_changes_nothing() {
    let mut s = State::new();
    s.add_key(&[0], None);
    let mut batch = vec![
        Record::Positive(vec![num(1)]),
        Record::Negative(vec![num(9)]),
    ];
    s.process_records(&mut batch, None);
    assert_eq!(s.len(), 1);
    assert_eq!(found(s.lookup(&[0], &[num(9)])), Vec::<Vec<DataType>>::new());
}

#[test]
fn full_index_lookup_of_unknown_key_is_empty_not_missing() {
    let mut s = State::new();
    s.add_key(&[0], None);
    let r = s.lookup(&[0], &[num(42)]);
    assert!(!is_missing(&r));
    assert!(found(r).is_empty());
}

#[test]
fn three_copies_minus_one_leaves_two() {
    let mut s = State::new();
    s.add_key(&[0], None);
    let row = vec![num(7), text("x")];
    let mut batch = vec![
        Record::Positive(row.clone()),
        Record::Positive(row.clone()),
        Record::Positive(row.clone()),
        Record::Negative(row.clone()),
    ];
    s.process_records(&mut batch, None);
    assert_eq!(s.len(), 2);
    let rows = found(s.lookup(&[0], &[num(7)]));
    assert_eq!(count_of(&rows, &row), 2);
}

#[test]
fn holes_are_missing_until_filled() {
    let mut s = State::new();
    s.add_key(&[0], Some(vec![Tag(3)]));
    assert!(is_missing(&s.lookup(&[0], &[num(1)])));
    assert!(is_missing(&s.lookup(&[0], &[num(2)])));
    s.mark_filled(vec![num(1)], Tag(3));
    let mut batch = vec![
        Record::Positive(vec![num(1), text("p")]),
        Record::Positive(vec![num(1), text("q")]),
    ];
    s.process_records(&mut batch, Some(Tag(3)));
    let rows = found(s.lookup(&[0], &[num(1)]));
    assert_eq!(rows.len(), 2);
    assert_eq!(count_of(&rows, &[num(1), text("p")]), 1);
    assert_eq!(count_of(&rows, &[num(1), text("q")]), 1);
    assert!(is_missing(&s.lookup(&[0], &[num(2)])));
}

#[test]
fn replay_strips_records_for_holes() {
    let mut s = State::new();
    s.add_key(&[0], Some(vec![Tag(1)]));
    s.mark_filled(vec![num(5)], Tag(1));
    let mut batch = vec![
        Record::Positive(vec![num(6), text("b")]),
        Record::Positive(vec![num(5), text("a")]),
        Record::Positive(vec![num(6), text("c")]),
    ];
    s.process_records(&mut batch, Some(Tag(1)));
    assert_eq!(batch.len(), 1);
    match &batch[0] {
        Record::Positive(r) => assert_eq!(r, &vec![num(5), text("a")]),
        Record::Negative(_) => panic!("unexpected retraction"),
    }
    assert_eq!(s.len(), 1);
    assert!(is_missing(&s.lookup(&[0], &[num(6)])));
    s.mark_filled(vec![num(6)], Tag(1));
    assert!(found(s.lookup(&[0], &[num(6)])).is_empty());
}

#[test]
fn unreplayed_updates_skip_holes_without_stripping() {
    let mut s = State::new();
    s.add_key(&[0], Some(vec![Tag(1)]));
    let mut batch = vec![Record::Positive(vec![num(6), text("b")])];
    s.process_records(&mut batch, None);
    assert_eq!(batch.len(), 1);
    assert_eq!(s.len(), 0);
    assert!(is_missing(&s.lookup(&[0], &[num(6)])));
}

#[test]
fn mark_filled_is_idempotent() {
    let mut s = State::new();
    s.add_key(&[0], Some(vec![Tag(1)]));
    s.mark_filled(vec![num(5)], Tag(1));
    s.mark_filled(vec![num(5)], Tag(1));
    s.mark_hole(&[num(5)], Tag(1));
    assert!(is_missing(&s.lookup(&[0], &[num(5)])));
}

#[test]
fn mark_hole_drops_rows() {
    let mut s = State::new();
    s.add_key(&[0], Some(vec![Tag(2)]));
    s.mark_filled(vec![num(5)], Tag(2));
    s.mark_filled(vec![num(8)], Tag(2));
    let mut batch = vec![
        Record::Positive(vec![num(5), text("a")]),
        Record::Positive(vec![num(8), text("z")]),
    ];
    s.process_records(&mut batch, Some(Tag(2)));
    assert_eq!(s.len(), 2);
    s.mark_hole(&[num(5)], Tag(2));
    assert_eq!(s.len(), 1);
    assert!(is_missing(&s.lookup(&[0], &[num(5)])));
    assert_eq!(found(s.lookup(&[0], &[num(8)])).len(), 1);
}

#[test]
fn evict_keys_scenario() {
    let mut s = State::new();
    s.add_key(&[0], Some(vec![Tag(7)]));
    assert!(is_missing(&s.lookup(&[0], &[num(5)])));
    s.mark_filled(vec![num(5)], Tag(7));
    let mut batch = vec![Record::Positive(vec![num(5), text("a")])];
    s.process_records(&mut batch, Some(Tag(7)));
    assert_eq!(found(s.lookup(&[0], &[num(5)])), vec![vec![num(5), text("a")]]);
    let (cols, freed) = s.evict_keys(Tag(7), &[vec![num(5)]]).unwrap();
    assert_eq!(cols, vec![0]);
    assert!(freed > 0);
    // 16 for the integer, 16 + 1 for the text; the row handle is not charged
    assert_eq!(freed, 33);
    assert_eq!(freed, Row::from(vec![num(5), text("a")]).deep_size_of());
    assert!(is_missing(&s.lookup(&[0], &[num(5)])));
}

#[test]
fn evict_keys_removes_only_those_keys() {
    let mut s = State::new();
    s.add_key(&[0], Some(vec![Tag(1)]));
    s.mark_filled(vec![num(1)], Tag(1));
    s.mark_filled(vec![num(2)], Tag(1));
    s.mark_filled(vec![num(3)], Tag(1));
    let mut batch = vec![
        Record::Positive(vec![num(1)]),
        Record::Positive(vec![num(2)]),
        Record::Positive(vec![num(2)]),
        Record::Positive(vec![num(3)]),
    ];
    s.process_records(&mut batch, Some(Tag(1)));
    let (cols, freed) = s.evict_keys(Tag(1), &[vec![num(2)], vec![num(4)]]).unwrap();
    assert_eq!(cols, vec![0]);
    assert_eq!(freed, 2 * 16);
    assert_eq!(s.len(), 2);
    assert!(is_missing(&s.lookup(&[0], &[num(2)])));
    assert_eq!(found(s.lookup(&[0], &[num(1)])).len(), 1);
    assert_eq!(found(s.lookup(&[0], &[num(3)])).len(), 1);
}

#[test]
fn evict_keys_of_filled_key_without_rows_frees_nothing() {
    let mut s = State::new();
    s.add_key(&[0], Some(vec![Tag(1)]));
    s.mark_filled(vec![num(1)], Tag(1));
    let (_, freed) = s.evict_keys(Tag(1), &[vec![num(1)]]).unwrap();
    assert_eq!(freed, 0);
    assert!(is_missing(&s.lookup(&[0], &[num(1)])));
}

#[test]
fn evict_keys_with_unknown_tag_does_nothing() {
    let mut s = State::new();
    s.add_key(&[0], None);
    let mut batch = vec![Record::Positive(vec![num(1)])];
    s.process_records(&mut batch, None);
    assert!(s.evict_keys(Tag(9), &[vec![num(1)]]).is_none());
    assert_eq!(s.len(), 1);
    assert_eq!(found(s.lookup(&[0], &[num(1)])).len(), 1);
}

#[test]
fn evict_random_keys_spreads_over_indices() {
    let mut s = State::new();
    s.add_key(&[0], Some(vec![Tag(1)]));
    s.add_key(&[1], Some(vec![Tag(2)]));
    for k in 1..4 {
        s.mark_filled(vec![num(k)], Tag(1));
        s.mark_filled(vec![num(k * 10)], Tag(2));
    }
    let mut batch = vec![
        Record::Positive(vec![num(1), num(10)]),
        Record::Positive(vec![num(2), num(20)]),
        Record::Positive(vec![num(3), num(30)]),
    ];
    s.process_records(&mut batch, None);
    let (cols0, keys0, freed0) = s.evict_random_keys(1, 0, 0);
    assert_eq!(cols0, vec![0]);
    assert_eq!(keys0.len(), 1);
    assert_eq!(freed0, 32);
    assert!(is_missing(&s.lookup(&[0], &keys0[0])));
    let (cols1, keys1, freed1) = s.evict_random_keys(1, 1, 0);
    assert_eq!(cols1, vec![1]);
    assert_eq!(keys1.len(), 1);
    assert_eq!(freed1, 32);
    assert!(is_missing(&s.lookup(&[1], &keys1[0])));
    let (cols2, _, _) = s.evict_random_keys(1, 2, 5);
    assert_eq!(cols2, vec![0]);
}

#[test]
fn evict_random_keys_empties_index_when_budget_exceeds_contents() {
    let mut s = State::new();
    s.add_key(&[0], Some(vec![Tag(1)]));
    s.mark_filled(vec![num(1)], Tag(1));
    s.mark_filled(vec![num(2)], Tag(1));
    let mut batch = vec![
        Record::Positive(vec![num(1)]),
        Record::Positive(vec![num(2)]),
        Record::Positive(vec![num(2)]),
    ];
    s.process_records(&mut batch, None);
    let (cols, keys, freed) = s.evict_random_keys(1_000_000, 0, 3);
    assert_eq!(cols, vec![0]);
    assert_eq!(keys.len(), 2);
    assert_ne!(keys[0], keys[1]);
    assert_eq!(freed, 3 * 16);
    assert_eq!(s.len(), 0);
    assert!(is_missing(&s.lookup(&[0], &[num(1)])));
    assert!(is_missing(&s.lookup(&[0], &[num(2)])));
}

#[test]
fn evict_random_keys_on_empty_index_frees_nothing() {
    let mut s = State::new();
    s.add_key(&[0], Some(vec![Tag(1)]));
    let (cols, keys, freed) = s.evict_random_keys(100, 4, 4);
    assert_eq!(cols, vec![0]);
    assert!(keys.is_empty());
    assert_eq!(freed, 0);
}

#[test]
fn new_full_index_is_seeded_from_a_full_index() {
    let mut s = State::new();
    s.add_key(&[0], Some(vec![Tag(1)]));
    s.add_key(&[1], None);
    let mut batch = vec![
        Record::Positive(vec![num(1), text("a")]),
        Record::Positive(vec![num(2), text("b")]),
    ];
    s.process_records(&mut batch, None);
    assert_eq!(s.len(), 2);
    s.add_key(&[0, 1], None);
    assert_eq!(found(s.lookup(&[0, 1], &[num(2), text("b")])), vec![vec![num(2), text("b")]]);
    assert_eq!(s.len(), 2);
}

#[test]
fn len_counts_a_full_index_when_the_first_is_partial() {
    let mut s = State::new();
    s.add_key(&[0], Some(vec![Tag(1)]));
    s.add_key(&[1], None);
    let mut batch = vec![
        Record::Positive(vec![num(1), num(5)]),
        Record::Positive(vec![num(2), num(5)]),
        Record::Positive(vec![num(3), num(5)]),
    ];
    s.process_records(&mut batch, None);
    assert_eq!(s.len(), 3);
    assert_eq!(found(s.lookup(&[1], &[num(5)])).len(), 3);
}

#[test]
fn owned_results_keep_their_order() {
    let v = vec![vec![num(3)], vec![num(1)], vec![num(2)]];
    let o = RecordResult::Owned(v.clone());
    assert_eq!(o.into_vec(), v);
}

#[test]
fn cloned_records_fails_on_partial_state() {
    let mut s = State::new();
    s.add_key(&[0], None);
    s.add_key(&[1], Some(vec![Tag(4)]));
    assert!(s.is_partial());
    assert!(s.cloned_records().is_none());
}

#[test]
fn cloned_records_on_full_state() {
    let mut s = State::new();
    assert_eq!(s.cloned_records(), Some(Vec::new()));
    s.add_key(&[0], None);
    let mut batch = vec![
        Record::Positive(vec![num(1), text("a")]),
        Record::Positive(vec![num(1), text("a")]),
        Record::Positive(vec![num(2), text("b")]),
    ];
    s.process_records(&mut batch, None);
    let all = s.cloned_records().unwrap();
    assert_eq!(all.len(), 3);
    assert_eq!(count_of(&all, &[num(1), text("a")]), 2);
    assert_eq!(count_of(&all, &[num(2), text("b")]), 1);
}

#[test]
fn usefulness_partiality_and_keys() {
    let mut s = State::new();
    assert!(!s.is_useful());
    assert!(!s.is_partial());
    assert_eq!(s.len(), 0);
    s.add_key(&[0, 1], None);
    assert!(s.is_useful());
    assert!(!s.is_partial());
    s.add_key(&[0, 1], None);
    s.add_key(&[2], Some(vec![Tag(1), Tag(2)]));
    assert!(s.is_partial());
    assert_eq!(s.keys(), vec![vec![0, 1], vec![2]]);
}

#[test]
fn new_full_index_holds_existing_rows() {
    let mut s = State::new();
    s.add_key(&[0], None);
    let mut batch = vec![Record::Positive(vec![num(1), text("a")])];
    s.process_records(&mut batch, None);
    s.add_key(&[1], None);
    assert_eq!(found(s.lookup(&[1], &[text("a")])), vec![vec![num(1), text("a")]]);
}

#[test]
fn multi_column_key_and_short_rows() {
    let mut s = State::new();
    s.add_key(&[0, 2], None);
    let mut batch = vec![
        Record::Positive(vec![num(1), text("x"), num(3)]),
        Record::Positive(vec![num(1)]),
    ];
    s.process_records(&mut batch, None);
    assert_eq!(found(s.lookup(&[0, 2], &[num(1), num(3)])).len(), 1);
    assert_eq!(found(s.lookup(&[0, 2], &[num(1), DataType::Null])), vec![vec![num(1)]]);
}

#[test]
fn clear_keeps_indices() {
    let mut s = State::new();
    s.add_key(&[0], None);
    s.add_key(&[1], Some(vec![Tag(1)]));
    s.mark_filled(vec![text("a")], Tag(1));
    let mut batch = vec![Record::Positive(vec![num(1), text("a")])];
    s.process_records(&mut batch, None);
    assert_eq!(s.len(), 1);
    s.clear();
    assert_eq!(s.len(), 0);
    assert_eq!(s.keys(), vec![vec![0], vec![1]]);
    assert!(found(s.lookup(&[0], &[num(1)])).is_empty());
    assert!(is_missing(&s.lookup(&[1], &[text("a")])));
}

#[test]
fn rows_count_copies() {
    let mut rs = Rows::new();
    assert!(rs.is_empty());
    rs.insert(vec![num(1)]);
    rs.insert(vec![num(1)]);
    rs.insert(vec![num(2)]);
    assert_eq!(rs.len(), 3);
    assert_eq!(rs.count(&[num(1)]), 2);
    assert_eq!(rs.count(&[num(3)]), 0);
    assert!(rs.remove(&[num(1)]));
    assert!(!rs.remove(&[num(3)]));
    assert_eq!(rs.count(&[num(1)]), 1);
    assert_eq!(rs.len(), 2);
    assert_eq!(rs.to_vec().len(), 2);
    let sel = rs.select(&[0], &[num(2)]);
    assert_eq!(sel, vec![vec![num(2)]]);
    let removed = rs.remove_key(&[0], &[num(1)]);
    assert_eq!(removed, vec![vec![num(1)]]);
    assert_eq!(rs.len(), 1);
    rs.clear();
    assert!(rs.is_empty());
}

#[test]
fn rows_from_rows() {
    let rs = Rows::from_rows(vec![vec![num(4)], vec![num(4)], vec![text("t")]]);
    assert_eq!(rs.len(), 3);
    assert_eq!(rs.count(&[num(4)]), 2);
}

#[test]
fn record_result_len_for_both_sources() {
    let rs = Rows::from_rows(vec![vec![num(4)], vec![num(4)]]);
    let b = RecordResult::Borrowed(&rs);
    assert_eq!(b.len(), 2);
    assert!(!b.is_empty());
    assert_eq!(b.into_vec(), vec![vec![num(4)], vec![num(4)]]);
    let o = RecordResult::Owned(vec![]);
    assert_eq!(o.len(), 0);
    assert!(o.is_empty());
}

#[test]
fn row_sizes() {
    let r = Row::from(vec![num(1), text("ab")]);
    assert_eq!(r.size_of(), 8);
    assert_eq!(r.deep_size_of(), 16 + 16 + 2);
    assert!(!r.is_empty());
    assert_eq!(r.as_ref(), &[num(1), text("ab")][..]);
}

#[test]
fn atoms_compare_by_value() {
    assert!(text("a").same(&text("a")));
    assert!(!text("a").same(&text("b")));
    assert!(!num(1).same(&text("1")));
    assert!(DataType::Null.same(&DataType::Null));
}

#[test]
fn evict_random_keys_on_full_index_evicts_nothing() {
    let mut s = State::new();
    s.add_key(&[0], None);
    let mut batch = vec![Record::Positive(vec![num(1)])];
    s.process_records(&mut batch, None);
    let (cols, keys, freed) = s.evict_random_keys(100, 0, 0);
    assert_eq!(cols, vec![0]);
    assert!(keys.is_empty());
    assert_eq!(freed, 0);
    assert_eq!(s.len(), 1);
}

#[test]
fn evict_random_keys_stops_once_budget_is_met() {
    let mut s = State::new();
    s.add_key(&[0], Some(vec![Tag(1)]));
    for k in 0..5 {
        s.mark_filled(vec![num(k)], Tag(1));
    }
    let mut batch: Vec<Record> = (0..5).map(|k| Record::Positive(vec![num(k)])).collect();
    s.process_records(&mut batch, None);
    let (_, keys, freed) = s.evict_random_keys(20, 0, 2);
    assert_eq!(keys.len(), 2);
    assert_eq!(freed, 32);
    assert_eq!(s.len(), 3);
}

#[test]
fn first_full_index_starts_empty() {
    let mut s = State::new();
    s.add_key(&[0], None);
    assert_eq!(s.len(), 0);
    assert!(found(s.lookup(&[0], &[num(1)])).is_empty());
}

#[test]
fn full_index_may_join_empty_partial_indices() {
    let mut s = State::new();
    s.add_key(&[0], Some(vec![Tag(1)]));
    s.add_key(&[1], None);
    assert!(!is_missing(&s.lookup(&[1], &[num(3)])));
    let mut batch = vec![Record::Positive(vec![num(1), num(3)])];
    s.process_records(&mut batch, None);
    assert_eq!(found(s.lookup(&[1], &[num(3)])).len(), 1);
    assert!(is_missing(&s.lookup(&[0], &[num(1)])));
}

#[test]
fn rows_reuse_after_last_copy_is_removed() {
    let mut rs = Rows::new();
    rs.insert(vec![num(1)]);
    rs.insert(vec![num(2)]);
    rs.insert(vec![num(3)]);
    assert!(rs.remove(&[num(1)]));
    assert_eq!(rs.count(&[num(1)]), 0);
    assert_eq!(rs.count(&[num(2)]), 1);
    assert_eq!(rs.count(&[num(3)]), 1);
    rs.insert(vec![num(1)]);
    rs.insert(vec![num(3)]);
    assert_eq!(rs.count(&[num(1)]), 1);
    assert_eq!(rs.count(&[num(3)]), 2);
    assert_eq!(rs.len(), 4);
}
