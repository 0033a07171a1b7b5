use coil::rank::top_hits;

#[test]
fn top_hits_orders_by_key_then_doc() {
    let cands = vec![(5, 3), (9, 1), (5, 0), (7, 8), (9, 4)];
    assert_eq!(top_hits(cands, 10), vec![(9, 1), (9, 4), (7, 8), (5, 0), (5, 3)]);
}

#[test]
fn top_hits_keeps_at_most_num_hits() {
    let cands = vec![(1, 1), (4, 2), (3, 3), (2, 4)];
    assert_eq!(top_hits(cands.clone(), 2), vec![(4, 2), (3, 3)]);
    assert!(top_hits(cands, 0).is_empty());
}

#[test]
fn top_hits_of_nothing() {
    assert!(top_hits(Vec::new(), 3).is_empty());
}

#[test]
fn top_hits_is_reproducible() {
    let cands = vec![(2, 7), (2, 3), (8, 9), (2, 5)];
    assert_eq!(top_hits(cands.clone(), 3), top_hits(cands, 3));
}
