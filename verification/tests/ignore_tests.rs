use kic::pathset::PathSet;
use kic::setting::ignore::Ignore;

#[test]
fn remove_should_remove_specified_entries() {
    let e1 = "./a".to_string();
    let e2 = "./b".to_string();
    let e3 = "./c/d".to_string();
    let e4 = "./c/e".to_string();

    let entries = PathSet::from_vec(vec![e1.clone(), e2.clone(), e3.clone(), e4.clone()]);
    let ignore = Ignore::_new(entries);

    let ignore = ignore.remove(&vec![e1.clone()]);
    assert_eq!(3, ignore.entries().len());
    assert!(!ignore.entries().contains(&e1));
    assert!(ignore.entries().contains(&e2));
    assert!(ignore.entries().contains(&e3));
    assert!(ignore.entries().contains(&e4));

    let ignore = ignore.remove(&vec![e3.clone(), e4.clone()]);
    assert_eq!(1, ignore.entries().len());
    assert!(ignore.entries().contains(&e2));
    assert!(!ignore.entries().contains(&e3));
    assert!(!ignore.entries().contains(&e4));
}

#[test]
fn add_should_anchor_and_union() {
    let ignore = Ignore::new();
    let ignore = ignore.add(&vec!["a".to_string(), "./b".to_string()]);
    assert!(ignore.entries().contains("./a"));
    assert!(ignore.entries().contains("./b"));
    assert_eq!(2, ignore.entries().len());
}
