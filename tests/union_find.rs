use union_find::UnionFind;

fn store_of(n: i32) -> UnionFind<i32> {
    let mut u = UnionFind::new();
    for i in 1..=n {
        u.insert(i);
    }
    u
}

#[test]
fn it_works() {
    let mut u = UnionFind::new();
    for i in 1..9 {
        u.insert(i);
    }
    u.unions(&[1, 2, 5, 6, 8]);
    u.unions(&[3, 4]);
    u.unions(&[7]);

    assert_eq!(u.find(6), Some(1));
    assert_eq!(u.find(3), Some(3));
    assert_eq!(u.find(7), Some(7));
}

#[test]
fn unions_star_groups() {
    let mut u = store_of(8);
    assert!(u.unions(&[1, 2, 5, 6, 8]));
    assert!(u.unions(&[3, 4]));
    assert!(u.unions(&[7]));
    for x in [1, 2, 5, 6, 8] {
        assert_eq!(u.find(x), Some(1));
    }
    assert_eq!(u.find(4), Some(3));
    assert_eq!(u.find(7), Some(7));
}

#[test]
fn fresh_elements_find_themselves() {
    let mut u = store_of(5);
    for x in 1..=5 {
        assert_eq!(u.find(x), Some(x));
    }
}

#[test]
fn find_twice_gives_same_answer() {
    let mut u = store_of(6);
    assert!(u.union(4, 5));
    assert!(u.union(5, 6));
    assert!(u.union(1, 6));
    let first = u.find(6);
    assert_eq!(first, Some(1));
    assert_eq!(u.find(6), first);
    assert_eq!(u.find(6), first);
}

#[test]
fn union_order_of_arguments_does_not_matter() {
    let mut a = store_of(4);
    let mut b = store_of(4);
    assert!(a.union(1, 3));
    assert!(b.union(3, 1));
    assert!(a.union(4, 2));
    assert!(b.union(2, 4));
    for x in 1..=4 {
        assert_eq!(a.find(x), b.find(x));
    }
    assert_eq!(a.find(3), Some(1));
    assert_eq!(a.find(4), Some(2));
}

#[test]
fn absent_elements_are_reported() {
    let mut u = store_of(3);
    assert_eq!(u.find(9), None);
    assert!(!u.union(1, 9));
    assert!(!u.union(9, 1));
    assert!(!u.union(8, 9));
    assert_eq!(u.find(1), Some(1));
    assert_eq!(u.find(9), None);
    assert!(u.union(2, 3));
    assert!(!u.union(3, 9));
    assert_eq!(u.find(3), Some(2));
}

#[test]
fn unions_stop_at_first_absent_element() {
    let mut u = store_of(4);
    assert!(!u.unions(&[1, 2, 9, 3]));
    assert_eq!(u.find(2), Some(1));
    assert_eq!(u.find(3), Some(3));
    assert!(u.unions(&[]));
    assert!(u.unions(&[9]));
}

#[test]
fn unions_chain_transitively() {
    let mut u = store_of(5);
    assert!(u.union(5, 3));
    assert!(u.union(3, 4));
    assert_eq!(u.find(5), u.find(4));
    assert_eq!(u.find(4), Some(3));
}

#[test]
fn smaller_class_first_keeps_its_representative() {
    let mut u = store_of(4);
    assert!(u.unions(&[2, 3, 4]));
    assert!(u.union(1, 2));
    for x in 1..=4 {
        assert_eq!(u.find(x), Some(1));
    }
}

#[test]
fn merged_classes_count_all_members() {
    let mut u = store_of(7);
    assert!(u.unions(&[1, 2, 3]));
    assert!(u.unions(&[4, 5]));
    assert!(u.union(4, 1));
    let mut members = 0;
    for x in 1..=7 {
        if u.find(x) == Some(1) {
            members += 1;
        }
    }
    assert_eq!(members, 5);
}

#[test]
fn unions_within_a_class_change_nothing() {
    let mut u = store_of(6);
    assert!(u.unions(&[2, 4, 6]));
    let before: Vec<Option<i32>> = (1..=6).map(|x| u.find(x)).collect();
    assert!(u.union(6, 4));
    assert!(u.union(2, 6));
    assert!(u.unions(&[4, 2, 6]));
    let after: Vec<Option<i32>> = (1..=6).map(|x| u.find(x)).collect();
    assert_eq!(before, after);
}

#[test]
fn inserting_twice_changes_nothing() {
    let mut u = store_of(3);
    assert!(u.union(1, 2));
    u.insert(2);
    assert_eq!(u.find(2), Some(1));
    assert_eq!(u.find(3), Some(3));
}

#[test]
fn long_chain_resolves() {
    let mut u = store_of(200);
    for x in 2..=200 {
        assert!(u.union(x - 1, x));
    }
    assert_eq!(u.find(200), Some(1));
    assert_eq!(u.find(100), Some(1));
}
