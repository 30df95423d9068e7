use topic_store::store::TopicStore;
use topic_store::topic::{Topic, TopicError};

fn owner_bytes() -> Vec<u8> {
    vec![0x01, 0x02, 0x03]
}

fn strings(names: &[&str]) -> Vec<String> {
    names.iter().map(|s| s.to_string()).collect()
}

fn tally(t: &Topic, name: &str) -> Option<u32> {
    t.get_tally(&name.to_string())
}

#[test]
fn lunch_scenario_tallies() {
    let mut store = TopicStore::new();
    store.create_topic("Lunch".to_string(), strings(&["Pizza", "Salad"]), owner_bytes());
    assert_eq!(store.vote(0, "Pizza".to_string()), Ok(()));
    assert_eq!(store.vote(0, "Pizza".to_string()), Ok(()));
    assert_eq!(store.vote(0, "Salad".to_string()), Ok(()));
    let t = store.get_topic(0).expect("topic 0 must exist");
    assert_eq!(t.title().as_str(), "Lunch");
    assert_eq!(tally(&t, "Pizza"), Some(2));
    assert_eq!(tally(&t, "Salad"), Some(1));
    assert_eq!(t.options().len(), 2);
    assert_eq!(store.get_topic_count(), 1);
}

#[test]
fn unknown_option_leaves_tallies() {
    let mut store = TopicStore::new();
    store.create_topic("Lunch".to_string(), strings(&["Pizza", "Salad"]), owner_bytes());
    assert_eq!(store.vote(0, "Pizza".to_string()), Ok(()));
    assert_eq!(store.vote(0, "Pizza".to_string()), Ok(()));
    assert_eq!(store.vote(0, "Salad".to_string()), Ok(()));
    assert_eq!(store.vote(0, "Soup".to_string()), Err(TopicError::UnknownOption));
    let t = store.get_topic(0).expect("topic 0 must exist");
    assert_eq!(tally(&t, "Pizza"), Some(2));
    assert_eq!(tally(&t, "Salad"), Some(1));
    assert_eq!(tally(&t, "Soup"), None);
}

#[test]
fn remove_option_then_vote_fails() {
    let mut store = TopicStore::new();
    store.create_topic("Lunch".to_string(), strings(&["Pizza", "Salad"]), owner_bytes());
    assert_eq!(store.vote(0, "Pizza".to_string()), Ok(()));
    assert_eq!(store.vote(0, "Pizza".to_string()), Ok(()));
    assert_eq!(store.vote(0, "Salad".to_string()), Ok(()));
    assert_eq!(store.remove_option(0, "Salad".to_string()), Ok(()));
    let t = store.get_topic(0).expect("topic 0 must exist");
    assert_eq!(t.options().len(), 1);
    assert_eq!(tally(&t, "Pizza"), Some(2));
    assert_eq!(tally(&t, "Salad"), None);
    assert_eq!(store.vote(0, "Salad".to_string()), Err(TopicError::UnknownOption));
}

#[test]
fn vote_on_missing_topic_is_not_found() {
    let mut store = TopicStore::new();
    store.create_topic("Lunch".to_string(), strings(&["Pizza"]), owner_bytes());
    assert_eq!(store.vote(7, "Pizza".to_string()), Err(TopicError::NotFound));
    assert_eq!(store.get_topic_count(), 1);
    assert!(store.get_topic(7).is_none());
    let t = store.get_topic(0).expect("topic 0 must exist");
    assert_eq!(tally(&t, "Pizza"), Some(0));
}

#[test]
fn identifiers_count_up_from_zero() {
    let mut store = TopicStore::new();
    assert_eq!(store.get_topic_count(), 0);
    let a = store.create_topic("A".to_string(), strings(&["x"]), owner_bytes());
    let b = store.create_topic("B".to_string(), strings(&["x"]), owner_bytes());
    let c = store.create_topic("C".to_string(), strings(&["x"]), owner_bytes());
    assert_eq!((a, b, c), (0, 1, 2));
    assert_eq!(store.get_topic_count(), 3);
    assert_eq!(store.get_topic(0).unwrap().title().as_str(), "A");
    assert_eq!(store.get_topic(1).unwrap().title().as_str(), "B");
    assert_eq!(store.get_topic(2).unwrap().title().as_str(), "C");
    assert!(store.get_topic(3).is_none());
}

#[test]
fn creation_dedups_names_and_zeroes_tallies() {
    let mut store = TopicStore::new();
    store.create_topic(
        "Duplicates".to_string(),
        strings(&["A", "B", "A", "B", "A"]),
        owner_bytes(),
    );
    let t = store.get_topic(0).expect("topic 0 must exist");
    assert_eq!(t.options().len(), 2);
    assert_eq!(tally(&t, "A"), Some(0));
    assert_eq!(tally(&t, "B"), Some(0));
}

#[test]
fn creation_records_owner_and_empty_options() {
    let mut store = TopicStore::new();
    store.create_topic("Empty".to_string(), Vec::new(), vec![9, 9]);
    let t = store.get_topic(0).expect("topic 0 must exist");
    assert_eq!(t.owner(), &vec![9u8, 9u8]);
    assert!(t.options().is_empty());
    assert_eq!(store.vote(0, "anything".to_string()), Err(TopicError::UnknownOption));
}

#[test]
fn add_option_is_idempotent_on_duplicates() {
    let mut store = TopicStore::new();
    store.create_topic("Lunch".to_string(), strings(&["Pizza"]), owner_bytes());
    assert_eq!(store.vote(0, "Pizza".to_string()), Ok(()));
    assert_eq!(store.add_option(0, "Salad".to_string()), Ok(()));
    assert_eq!(store.add_option(0, "Salad".to_string()), Ok(()));
    assert_eq!(store.add_option(0, "Pizza".to_string()), Ok(()));
    let t = store.get_topic(0).expect("topic 0 must exist");
    assert_eq!(t.options().len(), 2);
    assert_eq!(tally(&t, "Pizza"), Some(1));
    assert_eq!(tally(&t, "Salad"), Some(0));
}

#[test]
fn add_and_remove_on_missing_topic_are_not_found() {
    let mut store = TopicStore::new();
    assert_eq!(store.add_option(0, "X".to_string()), Err(TopicError::NotFound));
    assert_eq!(store.remove_option(0, "X".to_string()), Err(TopicError::NotFound));
    assert_eq!(store.get_topic_count(), 0);
}

#[test]
fn remove_absent_option_is_a_no_op() {
    let mut store = TopicStore::new();
    store.create_topic("Lunch".to_string(), strings(&["Pizza"]), owner_bytes());
    assert_eq!(store.remove_option(0, "Salad".to_string()), Ok(()));
    let t = store.get_topic(0).expect("topic 0 must exist");
    assert_eq!(t.options().len(), 1);
    assert_eq!(tally(&t, "Pizza"), Some(0));
}

#[test]
fn large_title_within_the_bound_is_stored_whole() {
    let mut store = TopicStore::new();
    let title = "t".repeat(4000);
    store.create_topic(title.clone(), strings(&["a"]), vec![1]);
    let t = store.get_topic(0).expect("topic 0 must exist");
    assert_eq!(t.title().as_str(), title.as_str());
    assert_eq!(store.vote(0, "a".to_string()), Ok(()));
    let t = store.get_topic(0).expect("topic 0 must exist");
    assert_eq!(t.get_tally(&"a".to_string()), Some(1));
}
