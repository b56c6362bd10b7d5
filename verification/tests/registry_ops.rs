use fulltext_index::index::{search, IndexError};
use fulltext_index::json::{Json, Member};
use fulltext_index::registry::{
    clear_all, clear_index, create_index, delete_index, delete_items, get_index, post_items,
    update_item, Incoming, Registry, RegistryError,
};

fn incoming(id: Option<&str>, title: &str) -> Incoming {
    let mut members = Vec::new();
    if let Some(id) = id {
        members.push(Member { name: "_id".to_string(), value: Json::Text(id.to_string()) });
    }
    members.push(Member { name: "title".to_string(), value: Json::Text(title.to_string()) });
    Incoming {
        json: Json::Object(members),
        raw: format!("{{\"_id\":\"{}\",\"title\":\"{}\"}}", id.unwrap_or(""), title),
    }
}

fn name(s: &str) -> String {
    s.to_string()
}

fn title_field() -> Vec<String> {
    vec!["title".to_string()]
}

fn filled() -> Registry {
    let mut registry = Registry::new();
    assert_eq!(create_index(&mut registry, name("a")), Ok(()));
    let items = vec![incoming(Some("1"), "Hello World"), incoming(Some("2"), "Hello")];
    let batch = post_items(&mut registry, &name("a"), &items, &title_field()).expect("index a");
    assert_eq!(batch.applied, 2);
    assert_eq!(batch.error, None);
    registry
}

#[test]
fn creating_an_index_twice_is_a_conflict() {
    let mut registry = Registry::new();
    assert_eq!(create_index(&mut registry, name("a")), Ok(()));
    assert_eq!(create_index(&mut registry, name("a")), Err(RegistryError::Conflict));
    assert_eq!(create_index(&mut registry, name("b")), Ok(()));
    assert!(registry.get(&name("a")).is_some());
    assert!(registry.get(&name("b")).is_some());
    assert!(registry.get(&name("c")).is_none());
}

#[test]
fn a_new_index_is_empty() {
    let mut registry = Registry::new();
    assert_eq!(create_index(&mut registry, name("a")), Ok(()));
    let stats = get_index(&registry, &name("a")).expect("index a");
    assert_eq!(stats.items_count, 0);
    assert_eq!(stats.tokens_count, 0);
}

#[test]
fn unknown_indexes_are_not_found() {
    let mut registry = Registry::new();
    let none: Vec<Incoming> = Vec::new();
    assert!(matches!(get_index(&registry, &name("a")), Err(RegistryError::NotFound)));
    assert_eq!(delete_index(&mut registry, &name("a")), Err(RegistryError::NotFound));
    assert_eq!(clear_index(&mut registry, &name("a")), Err(RegistryError::NotFound));
    assert!(matches!(
        post_items(&mut registry, &name("a"), &none, &title_field()),
        Err(RegistryError::NotFound)
    ));
    assert!(matches!(
        update_item(&mut registry, &name("a"), &none, &title_field()),
        Err(RegistryError::NotFound)
    ));
    assert_eq!(
        delete_items(&mut registry, &name("a"), &vec![name("1")]),
        Err(RegistryError::NotFound)
    );
}

#[test]
fn posted_items_are_counted() {
    let registry = filled();
    let stats = get_index(&registry, &name("a")).expect("index a");
    assert_eq!(stats.items_count, 2);
    assert_eq!(stats.tokens_count, 13);
    let index = registry.get(&name("a")).expect("index a");
    assert_eq!(search(index, name("hello")).len(), 2);
}

#[test]
fn deleting_items_removes_their_tokens() {
    let mut registry = filled();
    assert_eq!(delete_items(&mut registry, &name("a"), &vec![name("1")]), Ok(1));
    let stats = get_index(&registry, &name("a")).expect("index a");
    assert_eq!(stats.items_count, 1);
    let index = registry.get(&name("a")).expect("index a");
    assert_eq!(search(index, name("world")), Vec::<String>::new());
    assert_eq!(
        delete_items(&mut registry, &name("a"), &vec![name("1"), name("2"), name("2")]),
        Ok(1)
    );
    let stats = get_index(&registry, &name("a")).expect("index a");
    assert_eq!(stats.items_count, 0);
    assert_eq!(stats.tokens_count, 0);
}

#[test]
fn a_batch_stops_at_the_first_item_that_fails() {
    let mut registry = filled();
    let items = vec![
        incoming(Some("3"), "Three"),
        incoming(Some("1"), "Again"),
        incoming(Some("4"), "Four"),
    ];
    let batch = post_items(&mut registry, &name("a"), &items, &title_field()).expect("index a");
    assert_eq!(batch.applied, 1);
    assert_eq!(batch.error, Some(IndexError::DuplicateId));
    let stats = get_index(&registry, &name("a")).expect("index a");
    assert_eq!(stats.items_count, 3);
    let items = vec![incoming(None, "Nameless"), incoming(Some("5"), "Five")];
    let batch = post_items(&mut registry, &name("a"), &items, &title_field()).expect("index a");
    assert_eq!(batch.applied, 0);
    assert_eq!(batch.error, Some(IndexError::MissingId));
    assert_eq!(get_index(&registry, &name("a")).expect("index a").items_count, 3);
}

#[test]
fn updates_replace_documents_in_order() {
    let mut registry = filled();
    let items = vec![incoming(Some("1"), "Goodbye"), incoming(Some("2"), "Farewell")];
    let batch = update_item(&mut registry, &name("a"), &items, &title_field()).expect("index a");
    assert_eq!(batch.applied, 2);
    assert_eq!(batch.error, None);
    let index = registry.get(&name("a")).expect("index a");
    assert_eq!(search(index, name("hello")), Vec::<String>::new());
    assert_eq!(search(index, name("farewell")).len(), 1);
    let items = vec![
        incoming(Some("2"), "Second"),
        incoming(Some("9"), "Ninth"),
        incoming(Some("1"), "First"),
    ];
    let batch = update_item(&mut registry, &name("a"), &items, &title_field()).expect("index a");
    assert_eq!(batch.applied, 1);
    assert_eq!(batch.error, Some(IndexError::UnknownId));
    let index = registry.get(&name("a")).expect("index a");
    assert_eq!(search(index, name("second")).len(), 1);
    assert_eq!(search(index, name("first")), Vec::<String>::new());
    let batch = update_item(&mut registry, &name("a"), &vec![incoming(None, "x")], &title_field())
        .expect("index a");
    assert_eq!(batch.error, Some(IndexError::MissingId));
}

#[test]
fn clearing_empties_one_index() {
    let mut registry = filled();
    assert_eq!(create_index(&mut registry, name("b")), Ok(()));
    let items = vec![incoming(Some("1"), "Other")];
    assert!(post_items(&mut registry, &name("b"), &items, &title_field()).is_ok());
    assert_eq!(clear_index(&mut registry, &name("a")), Ok(()));
    let stats = get_index(&registry, &name("a")).expect("index a");
    assert_eq!(stats.items_count, 0);
    assert_eq!(stats.tokens_count, 0);
    assert_eq!(get_index(&registry, &name("b")).expect("index b").items_count, 1);
}

#[test]
fn deleting_destroys_indexes() {
    let mut registry = filled();
    assert_eq!(create_index(&mut registry, name("b")), Ok(()));
    assert_eq!(delete_index(&mut registry, &name("a")), Ok(()));
    assert!(registry.get(&name("a")).is_none());
    assert!(registry.get(&name("b")).is_some());
    assert_eq!(delete_index(&mut registry, &name("a")), Err(RegistryError::NotFound));
    assert_eq!(create_index(&mut registry, name("a")), Ok(()));
    assert_eq!(get_index(&registry, &name("a")).expect("index a").items_count, 0);
    clear_all(&mut registry);
    assert!(registry.get(&name("a")).is_none());
    assert!(registry.get(&name("b")).is_none());
}
