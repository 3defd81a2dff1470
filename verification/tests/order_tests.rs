use skiplist::order::{less, same};

#[test]
fn less_is_the_strict_order() {
    assert!(less(&1, &2));
    assert!(!less(&2, &1));
    assert!(!less(&2, &2));
    assert!(less(&"apple", &"pear"));
    assert!(less(&(1, 9), &(2, 0)));
}

#[test]
fn same_is_equality_in_the_order() {
    assert!(same(&3, &3));
    assert!(!same(&3, &4));
    assert!(same(&String::from("a"), &String::from("a")));
}

#[test]
fn exactly_one_of_before_same_after() {
    for a in -3..4 {
        for b in -3..4 {
            let holds = [less(&a, &b), same(&a, &b), less(&b, &a)];
            assert_eq!(holds.iter().filter(|h| **h).count(), 1);
        }
    }
}
