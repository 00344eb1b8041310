use sudoku_solver::{Digit, PossibleValues};

#[test]
fn test_possible_values_num() {
    let mut pv = PossibleValues::initial_state(Some(Digit::unchecked(5)));
    assert_eq!(pv.count(), 1);
    assert!(!pv.is_broken());
    pv.remove(Digit::unchecked(5));
    assert!(pv.is_broken());
}

#[test]
fn test_possible_values_any() {
    let mut pv = PossibleValues::initial_state(None);
    assert_eq!(pv.count(), 9);
    assert!(!pv.is_broken());
    pv.remove(Digit::unchecked(1));
    assert_eq!(pv.count(), 8);
    assert!(!pv.is_broken());
}

#[test]
fn test_possible_values_bitwise_ops() {
    let pv1 = PossibleValues::initial_state(Some(Digit::unchecked(1)));
    let pv2 = PossibleValues::initial_state(Some(Digit::unchecked(2)));
    let pv3 = PossibleValues::initial_state(Some(Digit::unchecked(3)));

    let and_result = pv1.intersect(pv2);
    let or_result = pv1.union(pv3);

    assert_eq!(and_result.count(), 0); // 1 and 2 have no overlap
    assert_eq!(or_result.count(), 2); // 1 and 3 are combined
    assert!(and_result.is_broken());
    assert!(!or_result.is_broken());

    assert!(pv1.contains(Digit::unchecked(1)));
    assert!(pv2.contains(Digit::unchecked(2)));
    assert!(!pv2.contains(Digit::unchecked(1)));
    assert!(!pv1.contains(Digit::unchecked(2)));

    assert_eq!(pv1.options(), vec![Digit::unchecked(1)]);
    assert_eq!(pv2.options(), vec![Digit::unchecked(2)]);
    assert_eq!(
        (pv1.union(pv2)).options(),
        vec![Digit::unchecked(1), Digit::unchecked(2)]
    );

    assert_eq!(pv1.determined(), Some(Digit::unchecked(1)));
    assert_eq!(pv2.determined(), Some(Digit::unchecked(2)));
    assert_eq!((pv1.union(pv2)).determined(), None);
}

#[test]
fn singleton_states() {
    for d in 1..=9u8 {
        let pv = PossibleValues::initial_state(Some(Digit::unchecked(d)));
        assert_eq!(pv.count(), 1);
        assert_eq!(pv.determined(), Some(Digit::unchecked(d)));
        assert!(pv.contains(Digit::unchecked(d)));
    }
}

#[test]
fn remove_only_digit_breaks() {
    for d in 1..=9u8 {
        let mut pv = PossibleValues::from_digit(Digit::unchecked(d));
        pv.remove(Digit::unchecked(d));
        assert!(pv.is_broken());
        assert_eq!(pv.count(), 0);
        assert_eq!(pv.determined(), None);
    }
}

#[test]
fn set_algebra() {
    let one = PossibleValues::from_digit(Digit::unchecked(1));
    let seven = PossibleValues::from_digit(Digit::unchecked(7));
    let both = one.union(seven);

    // union is idempotent and commutative
    assert_eq!(both.union(both), both);
    assert_eq!(one.union(seven), seven.union(one));
    // intersection of a set with itself is itself
    assert_eq!(both.intersect(both), both);
    // intersection of disjoint singletons is broken
    assert!(one.intersect(seven).is_broken());
    // identities
    assert_eq!(both.intersect(PossibleValues::any()), both);
    assert_eq!(both.union(PossibleValues::empty()), both);
    // associativity
    let two = PossibleValues::from_digit(Digit::unchecked(2));
    assert_eq!(one.union(two).union(seven), one.union(two.union(seven)));
}

#[test]
fn options_ascending() {
    let mut pv = PossibleValues::empty();
    pv.add(Digit::unchecked(9));
    pv.add(Digit::unchecked(2));
    pv.add(Digit::unchecked(5));
    let opts = pv.options();
    assert_eq!(
        opts,
        vec![Digit::unchecked(2), Digit::unchecked(5), Digit::unchecked(9)]
    );
}

#[test]
fn digit_conversions() {
    assert!(Digit::new(0).is_none());
    assert!(Digit::new(10).is_none());
    assert_eq!(Digit::new(4), Some(Digit::unchecked(4)));
    assert_eq!(Digit::unchecked(4).index(), 3);
    assert_eq!(Digit::from_index(3), Some(Digit::unchecked(4)));
    assert!(Digit::from_index(9).is_none());
    assert_eq!(Digit::unchecked(8).next(), Some(Digit::unchecked(9)));
    assert!(Digit::unchecked(9).next().is_none());
}
