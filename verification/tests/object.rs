use parser::{Id, Object};

#[test]
fn a_new_object_has_no_keys() {
    let object = Object::new();
    assert_eq!(object.len(), 0);
    assert!(object.get("a").is_none());
}

#[test]
fn insert_adds_a_key() {
    let mut object = Object::new();
    object.insert("a".to_string(), Id::id(0));
    object.insert("b".to_string(), Id::id(1));
    assert_eq!(object.len(), 2);
    assert!(object.get("a").is_some());
    assert!(object.get("b").is_some());
    assert!(object.get("c").is_none());
}

#[test]
fn insert_replaces_the_handle_of_a_key_that_is_there() {
    let mut object = Object::new();
    object.insert("a".to_string(), Id::id(0));
    object.insert("b".to_string(), Id::id(1));
    object.insert("a".to_string(), Id::id(2));
    assert_eq!(object.len(), 2);
    let (first, _) = object.entry(0);
    assert_eq!(first, "a");
    let (second, _) = object.entry(1);
    assert_eq!(second, "b");
}

#[test]
fn keys_are_compared_letter_for_letter() {
    let mut object = Object::new();
    object.insert("key".to_string(), Id::id(0));
    assert!(object.get("Key").is_none());
    assert!(object.get("ke").is_none());
    assert!(object.get("key ").is_none());
    assert!(object.get("").is_none());
    assert!(object.get("key").is_some());
}

#[test]
fn the_empty_string_is_a_key_like_any_other() {
    let mut object = Object::new();
    object.insert(String::new(), Id::id(3));
    assert_eq!(object.len(), 1);
    assert!(object.get("").is_some());
}
