use crdt_text::ident::allocate_between;
use crdt_text::ident::id_less;

#[test]
fn concurrent_mints_for_same_gap_order_by_actor() {
    // two actors mint for the same gap of an empty document
    let a = allocate_between(None, None, 1, 0);
    let b = allocate_between(None, None, 2, 0);
    assert_eq!(a.digits, b.digits);
    assert!(id_less(&a, &b));
    assert!(!id_less(&b, &a));
    // the comparison is reproducible wherever it is made
    assert!(id_less(&a, &b));
}

#[test]
fn minted_identifier_lies_between_bounds() {
    let lo = allocate_between(None, None, 1, 0);
    let hi = allocate_between(Some(&lo), None, 1, 1);
    assert!(id_less(&lo, &hi));
    let mid = allocate_between(Some(&lo), Some(&hi), 2, 0);
    assert!(id_less(&lo, &mid));
    assert!(id_less(&mid, &hi));
}

#[test]
fn same_actor_mints_distinct_identifiers() {
    let a = allocate_between(None, None, 3, 0);
    let b = allocate_between(None, None, 3, 1);
    assert_eq!(a.digits, b.digits);
    assert!(id_less(&a, &b) || id_less(&b, &a));
}

#[test]
fn gap_between_adjacent_bounds_always_subdivides() {
    // repeatedly narrow a gap from above: the digit paths must keep
    // making room below the right bound
    let lo = allocate_between(None, None, 1, 0);
    let hi = allocate_between(Some(&lo), None, 1, 1);
    let mut right = hi;
    let mut clock = 2;
    for _ in 0..40 {
        let mid = allocate_between(Some(&lo), Some(&right), 1, clock);
        clock += 1;
        assert!(id_less(&lo, &mid));
        assert!(id_less(&mid, &right));
        right = mid;
    }
}
