use toru::error::Error;
use toru::index::Index;

fn bucket(index: &Index, name: &str) -> Option<Vec<u64>> {
    index.buckets().into_iter().find(|(n, _)| n == name).map(|(_, ids)| ids)
}

#[test]
fn two_tasks_of_one_name_are_ambiguous() {
    colored::control::set_override(false);
    let mut index = Index::new();
    index.insert(String::from("groceries"), 3);
    index.insert(String::from("groceries"), 7);
    match index.lookup(&String::from("groceries")) {
        Err(Error::Generic(message)) => {
            assert_eq!(message, "Multiple notes (Ids: [3, 7]) by that name exist")
        },
        other => panic!("expected an ambiguity, got {:?}", other),
    }
    assert_eq!(index.lookup(&String::from("3")).unwrap(), 3);
}

#[test]
fn lookup_of_a_number_never_asks_the_index() {
    let mut index = Index::new();
    index.insert(String::from("42"), 5);
    assert_eq!(index.lookup(&String::from("42")).unwrap(), 42);
    assert_eq!(Index::new().lookup(&String::from("42")).unwrap(), 42);
    assert_eq!(index.lookup(&String::from("+42")).unwrap(), 42);
    assert_eq!(index.lookup(&String::from("0042")).unwrap(), 42);
    assert_eq!(index.lookup(&String::from("18446744073709551615")).unwrap(), u64::MAX);
}

#[test]
fn lookup_of_a_name_finds_its_one_task() {
    let mut index = Index::new();
    index.insert(String::from("laundry"), 2);
    index.insert(String::from("groceries"), 9);
    assert_eq!(index.lookup(&String::from("laundry")).unwrap(), 2);
    assert_eq!(index.lookup(&String::from("groceries")).unwrap(), 9);
}

#[test]
fn lookup_of_an_unknown_name_fails() {
    colored::control::set_override(false);
    let mut index = Index::new();
    index.insert(String::from("laundry"), 2);
    match index.lookup(&String::from("dishes")) {
        Err(Error::Generic(message)) => {
            assert_eq!(message, "A note by the name dishes does not exist")
        },
        other => panic!("expected a failure, got {:?}", other),
    }
}

#[test]
fn lookup_of_a_number_too_great_is_a_name() {
    let mut index = Index::new();
    index.insert(String::from("18446744073709551616"), 1);
    assert_eq!(index.lookup(&String::from("18446744073709551616")).unwrap(), 1);
    assert!(matches!(
        index.lookup(&String::from("99999999999999999999999")),
        Err(Error::Generic(_))
    ));
}

#[test]
fn insert_appends_to_the_bucket() {
    let mut index = Index::new();
    index.insert(String::from("a"), 1);
    index.insert(String::from("b"), 2);
    index.insert(String::from("a"), 3);
    assert_eq!(bucket(&index, "a"), Some(vec![1, 3]));
    assert_eq!(bucket(&index, "b"), Some(vec![2]));
    assert_eq!(index.buckets().len(), 2);
}

#[test]
fn remove_takes_the_task_out_and_the_empty_bucket_with_it() {
    let mut index = Index::new();
    index.insert(String::from("a"), 1);
    index.insert(String::from("a"), 3);
    index.insert(String::from("a"), 5);
    index.remove(String::from("a"), 1);
    assert_eq!(bucket(&index, "a"), Some(vec![5, 3]));
    index.remove(String::from("a"), 3);
    assert_eq!(bucket(&index, "a"), Some(vec![5]));
    index.remove(String::from("a"), 5);
    assert_eq!(bucket(&index, "a"), None);
    assert!(index.buckets().is_empty());
}

#[test]
fn remove_of_what_is_not_there_changes_nothing() {
    let mut index = Index::new();
    index.insert(String::from("a"), 1);
    index.remove(String::from("a"), 2);
    index.remove(String::from("b"), 1);
    assert_eq!(bucket(&index, "a"), Some(vec![1]));
    assert_eq!(index.buckets().len(), 1);
}

#[test]
fn from_buckets_refuses_a_name_twice() {
    assert!(Index::from_buckets(vec![
        (String::from("a"), vec![1]),
        (String::from("b"), vec![2]),
        (String::from("a"), vec![3]),
    ])
    .is_none());
    let index = Index::from_buckets(vec![
        (String::from("a"), vec![1, 4]),
        (String::from("b"), vec![2]),
    ])
    .unwrap();
    assert_eq!(bucket(&index, "a"), Some(vec![1, 4]));
    assert_eq!(index.lookup(&String::from("b")).unwrap(), 2);
}

#[test]
fn a_name_with_an_empty_bucket_is_unknown() {
    colored::control::set_override(false);
    let index = Index::from_buckets(vec![(String::from("a"), vec![])]).unwrap();
    match index.lookup(&String::from("a")) {
        Err(Error::Generic(message)) => assert_eq!(message, "A note by the name a does not exist"),
        other => panic!("expected a failure, got {:?}", other),
    }
}

#[test]
fn an_ambiguous_name_lists_every_task_in_order() {
    colored::control::set_override(false);
    let index = Index::from_buckets(vec![(String::from("a"), vec![9, 2, 40])]).unwrap();
    match index.lookup(&String::from("a")) {
        Err(Error::Generic(message)) => {
            assert_eq!(message, "Multiple notes (Ids: [9, 2, 40]) by that name exist")
        },
        other => panic!("expected an ambiguity, got {:?}", other),
    }
}
