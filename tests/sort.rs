use bulk_rename::schedule::{has_duplicates, Manager};

fn cmp(input: &[(&str, &str)], expected: &[(&str, &str)]) {
    let sorted = Manager::sort(
        input.iter().map(|&(o, _)| o.into()).collect(),
        input.iter().map(|&(_, n)| n.into()).collect(),
    );
    let sorted: Vec<_> = sorted.iter().map(|(o, n)| (o.as_str(), n.as_str())).collect();
    assert_eq!(sorted, expected);
}

#[test]
fn test_sort() {
    cmp(
        &[("2", "3"), ("1", "2"), ("3", "4")],
        &[("3", "4"), ("2", "3"), ("1", "2")],
    );

    cmp(
        &[("1", "3"), ("2", "3"), ("3", "4")],
        &[("3", "4"), ("1", "3"), ("2", "3")],
    );

    cmp(
        &[("2", "1"), ("1", "2")],
        &[("2", "1"), ("1", "2")],
    );

    cmp(
        &[("3", "2"), ("2", "1"), ("1", "3"), ("a", "b"), ("b", "c")],
        &[("b", "c"), ("a", "b"), ("3", "2"), ("2", "1"), ("1", "3")],
    );

    cmp(
        &[("b", "b_"), ("a", "a_"), ("c", "c_")],
        &[("b", "b_"), ("a", "a_"), ("c", "c_")],
    );
}

#[test]
fn chain_runs_deepest_first() {
    cmp(
        &[("2", "3"), ("1", "2"), ("3", "4")],
        &[("3", "4"), ("2", "3"), ("1", "2")],
    );
}

#[test]
fn shared_destination_waits_for_the_vacating_rename() {
    cmp(
        &[("1", "3"), ("2", "3"), ("3", "4")],
        &[("3", "4"), ("1", "3"), ("2", "3")],
    );
}

#[test]
fn swap_keeps_input_order() {
    cmp(&[("2", "1"), ("1", "2")], &[("2", "1"), ("1", "2")]);
}

#[test]
fn two_cycle_yields_both_pairs() {
    cmp(&[("a", "b"), ("b", "a")], &[("a", "b"), ("b", "a")]);
}

#[test]
fn disjoint_pairs_keep_input_order() {
    cmp(
        &[("b", "b_"), ("a", "a_"), ("c", "c_")],
        &[("b", "b_"), ("a", "a_"), ("c", "c_")],
    );
}

#[test]
fn rename_onto_itself_stays_in_place() {
    cmp(
        &[("x", "x"), ("a", "b"), ("b", "c")],
        &[("b", "c"), ("a", "b"), ("x", "x")],
    );
}

#[test]
fn empty_batch_gives_empty_order() {
    cmp(&[], &[]);
}

#[test]
fn sorting_twice_gives_the_same_order() {
    let old: Vec<String> = vec!["3".into(), "2".into(), "1".into(), "a".into(), "b".into()];
    let new: Vec<String> = vec!["2".into(), "1".into(), "3".into(), "b".into(), "c".into()];
    let first = Manager::sort(old.clone(), new.clone());
    let second = Manager::sort(old, new);
    assert_eq!(first, second);
}

#[test]
fn acyclic_batch_vacates_before_landing() {
    let input = [("d", "e"), ("a", "b"), ("c", "d"), ("b", "c"), ("x", "y")];
    let sorted = Manager::sort(
        input.iter().map(|&(o, _)| o.into()).collect(),
        input.iter().map(|&(_, n)| n.into()).collect(),
    );
    assert_eq!(sorted.len(), input.len());
    for (b, (_, n)) in sorted.iter().enumerate() {
        for (a, (o, _)) in sorted.iter().enumerate() {
            if a != b && o == n {
                assert!(a < b);
            }
        }
    }
}

#[test]
fn duplicates_are_found() {
    let v: Vec<String> = vec!["a".into(), "b".into(), "a".into()];
    assert!(has_duplicates(&v));
    let w: Vec<String> = vec!["a".into(), "b".into(), "c".into()];
    assert!(!has_duplicates(&w));
    assert!(!has_duplicates(&Vec::new()));
}
