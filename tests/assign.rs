use openschafkopf::assign::{assign_better, assign_by_key_ordering, assign_max, assign_min, assign_other};

#[test]
fn test_assign_by_key_ordering() {
    let mut n = 0;
    let b = assign_by_key_ordering(&mut n, 1, |t| *t, std::cmp::Ordering::Greater);
    assert!(b);
    assert_eq!(n, 1);
    let b = assign_by_key_ordering(&mut n, 0, |t| *t, std::cmp::Ordering::Less);
    assert!(b);
    assert_eq!(n, 0);
}

#[test]
fn assign_variants() {
    let mut n = 5;
    assert!(!assign_min(&mut n, 7));
    assert_eq!(n, 5);
    assert!(assign_min(&mut n, 2));
    assert_eq!(n, 2);
    assert!(assign_max(&mut n, 9));
    assert_eq!(n, 9);
    assert!(!assign_max(&mut n, 9));
    assert!(!assign_other(&mut n, 9));
    assert!(assign_other(&mut n, 4));
    assert_eq!(n, 4);
    let mut s = String::from("a");
    assert!(!assign_better(&mut s, String::from("b"), |_, _| false));
    assert_eq!(s, "a");
    assert!(assign_better(&mut s, String::from("b"), |src, dst| src > dst));
    assert_eq!(s, "b");
    let mut m = 3;
    assert!(!assign_by_key_ordering(&mut m, 3, |t| *t, std::cmp::Ordering::Greater));
    assert!(assign_by_key_ordering(&mut m, 8, |t| *t % 2, std::cmp::Ordering::Less));
    assert_eq!(m, 8);
}
