use sudoku_solver::digits::DigitSet;

fn set_of(digits: &[u8]) -> DigitSet {
    let mut set = DigitSet::empty();
    for &d in digits {
        set = set.with(d);
    }
    set
}

fn members(set: &DigitSet) -> Vec<u8> {
    (0..=255u8).filter(|&d| set.contains(d)).collect()
}

#[test]
fn empty_set_has_no_member() {
    let set = DigitSet::empty();
    assert_eq!(members(&set), Vec::<u8>::new());
    assert_eq!(set.len(), 0);
    assert!(set.is_empty());
    assert_eq!(set.lowest(), 0);
}

#[test]
fn full_set_has_the_nine_digits() {
    let set = DigitSet::full();
    assert_eq!(members(&set), vec![1, 2, 3, 4, 5, 6, 7, 8, 9]);
    assert_eq!(set.len(), 9);
    assert!(!set.is_empty());
    assert_eq!(set.lowest(), 1);
}

#[test]
fn with_adds_a_digit_and_ignores_other_values() {
    let set = set_of(&[3, 7]);
    assert_eq!(members(&set), vec![3, 7]);
    assert_eq!(members(&set.with(3)), vec![3, 7]);
    assert_eq!(members(&set.with(9)), vec![3, 7, 9]);
    assert_eq!(members(&set.with(0)), vec![3, 7]);
    assert_eq!(members(&set.with(10)), vec![3, 7]);
    assert_eq!(members(&set.with(200)), vec![3, 7]);
}

#[test]
fn without_takes_a_digit_out() {
    let set = set_of(&[1, 5, 9]);
    assert_eq!(members(&set.without(5)), vec![1, 9]);
    assert_eq!(members(&set.without(4)), vec![1, 5, 9]);
    assert_eq!(members(&set.without(0)), vec![1, 5, 9]);
    assert_eq!(members(&set.without(77)), vec![1, 5, 9]);
    assert_eq!(set.without(1).without(5).without(9).len(), 0);
}

#[test]
fn len_counts_members() {
    assert_eq!(set_of(&[2]).len(), 1);
    assert_eq!(set_of(&[2, 8]).len(), 2);
    assert_eq!(set_of(&[1, 2, 3, 4]).len(), 4);
    assert_eq!(set_of(&[1, 1, 1]).len(), 1);
}

#[test]
fn equals_compares_members() {
    assert!(set_of(&[4, 6]).equals(&set_of(&[6, 4])));
    assert!(!set_of(&[4, 6]).equals(&set_of(&[4])));
    assert!(!set_of(&[4, 6]).equals(&set_of(&[4, 7])));
    assert!(DigitSet::empty().equals(&set_of(&[])));
    assert!(DigitSet::full().equals(&set_of(&[9, 8, 7, 6, 5, 4, 3, 2, 1])));
}

#[test]
fn lowest_is_the_smallest_member() {
    assert_eq!(set_of(&[9]).lowest(), 9);
    assert_eq!(set_of(&[4, 2, 8]).lowest(), 2);
}

#[test]
fn partner_of_is_the_other_member_of_a_pair() {
    assert_eq!(set_of(&[3, 8]).partner_of(3), 8);
    assert_eq!(set_of(&[3, 8]).partner_of(8), 3);
    assert_eq!(set_of(&[1, 9]).partner_of(9), 1);
}
