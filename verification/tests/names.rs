use lambda::fresh_var;
use lambda::names::{decimal_text, NameSet, NameSupply};

fn set_of(names: &[&str]) -> NameSet {
    let mut set = NameSet::new();
    for name in names {
        set.insert(name.to_string());
    }
    set
}

#[test]
fn fresh_var_of_empty_set_is_x0() {
    assert_eq!(fresh_var(&NameSet::new()), "x0");
}

#[test]
fn fresh_var_takes_the_least_unused_number() {
    assert_eq!(fresh_var(&set_of(&["x0", "x1", "x3"])), "x2");
    assert_eq!(fresh_var(&set_of(&["x1", "y"])), "x0");
}

#[test]
fn fresh_var_is_never_in_the_set() {
    let names: Vec<String> = (0..25).map(|i| format!("x{}", i)).collect();
    let mut set = NameSet::new();
    for name in &names {
        set.insert(name.clone());
    }
    let fresh = fresh_var(&set);
    assert_eq!(fresh, "x25");
    assert!(!set.contains(&fresh));
}

#[test]
fn decimal_text_writes_numerals() {
    assert_eq!(decimal_text(0), "0");
    assert_eq!(decimal_text(7), "7");
    assert_eq!(decimal_text(10), "10");
    assert_eq!(decimal_text(409), "409");
    assert_eq!(decimal_text(u64::MAX), "18446744073709551615");
}

#[test]
fn name_supply_counts_in_decimal() {
    let mut supply = NameSupply::new();
    let names: Vec<String> = (0..12).map(|_| supply.fresh()).collect();
    assert_eq!(
        names,
        vec!["t0", "t1", "t2", "t3", "t4", "t5", "t6", "t7", "t8", "t9", "t10", "t11"]
    );
    for _ in 12..99 {
        supply.fresh();
    }
    assert_eq!(supply.fresh(), "t99");
    assert_eq!(supply.fresh(), "t100");
    for _ in 101..1999 {
        supply.fresh();
    }
    assert_eq!(supply.fresh(), "t1999");
    assert_eq!(supply.fresh(), "t2000");
}

#[test]
fn name_supply_never_repeats_a_name() {
    let mut supply = NameSupply::new();
    let mut seen = NameSet::new();
    for _ in 0..120 {
        assert!(seen.insert(supply.fresh()));
    }
    assert_eq!(seen.len(), 120);
}

#[test]
fn name_set_keeps_each_name_once_in_insertion_order() {
    let mut set = NameSet::new();
    assert!(set.is_empty());
    assert!(set.insert("b".to_string()));
    assert!(set.insert("a".to_string()));
    assert!(!set.insert("b".to_string()));
    assert_eq!(set.len(), 2);
    assert_eq!(set.get(0), "b");
    assert_eq!(set.get(1), "a");
    assert!(set.contains("a"));
    assert!(!set.contains("c"));
}

#[test]
fn name_set_remove_and_extend() {
    let mut set = set_of(&["a", "b", "c"]);
    assert!(set.remove("b"));
    assert!(!set.remove("b"));
    assert_eq!(set.len(), 2);
    set.extend(&set_of(&["c", "d"]));
    assert_eq!(set.len(), 3);
    assert!(set.contains("a") && set.contains("c") && set.contains("d"));
    let copy = set.clone();
    assert_eq!(copy.len(), 3);
    assert_eq!(copy.get(2), "d");
}
