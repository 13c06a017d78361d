use ranker::random::shuffle;

#[test]
fn a_shuffle_keeps_every_element() {
    let input: Vec<u16> = vec![5, 3, 3, 9, 0, 12, 7];
    let mut out = shuffle(&input);
    let mut sorted_in = input.clone();
    sorted_in.sort();
    out.sort();
    assert_eq!(out, sorted_in);
    assert!(shuffle::<u16>(&[]).is_empty());
    let words = shuffle(&["a", "b", "c"]);
    assert_eq!(words.len(), 3);
    assert!(words.contains(&"a") && words.contains(&"b") && words.contains(&"c"));
}

#[test]
fn a_shuffle_does_change_the_order() {
    let input: Vec<u16> = (0..32).collect();
    let moved = (0..10).any(|_| shuffle(&input) != input);
    assert!(moved);
}
