use fulltext_index::index::{
    add, add_object, clear, create, create_from, extract_fields, get_items, get_key_score_list, id_of,
    index_item, index_tokens, key_score_list_for, remove, replace, search, update, upper_bodies,
    Hit, Index, IndexError,
};
use fulltext_index::json::{Json, Member, Number};
use fulltext_index::rank::Rank;

fn text(s: &str) -> Json {
    Json::Text(s.to_string())
}

fn object(members: Vec<(&str, Json)>) -> Json {
    Json::Object(
        members
            .into_iter()
            .map(|(name, value)| Member { name: name.to_string(), value })
            .collect(),
    )
}

fn titled(id: &str, title: &str) -> (Json, String) {
    let json = object(vec![("_id", text(id)), ("title", text(title))]);
    let raw = format!("{{\"_id\":\"{}\",\"title\":\"{}\"}}", id, title);
    (json, raw)
}

fn fields() -> Vec<String> {
    vec!["title".to_string()]
}

fn two_documents() -> Index {
    let mut index = create();
    let (first, first_raw) = titled("1", "Hello World");
    let (second, second_raw) = titled("2", "Hello");
    assert_eq!(add_object(&mut index, &first, first_raw, fields()), Ok(0));
    assert_eq!(add_object(&mut index, &second, second_raw, fields()), Ok(1));
    index
}

fn sorted(mut items: Vec<String>) -> Vec<String> {
    items.sort();
    items
}

#[test]
fn create_gives_an_empty_index() {
    let index = create();
    assert_eq!(index.items_count(), 0);
    assert_eq!(index.tokens_count(), 0);
    assert_eq!(search(&index, "anything".to_string()), Vec::<String>::new());
    assert_eq!(search(&index, "".to_string()), Vec::<String>::new());
}

#[test]
fn extract_fields_reads_strings_arrays_and_objects() {
    let obj = object(vec![
        ("_id", text("7")),
        ("title", text("Hello")),
        (
            "tags",
            Json::Array(vec![text("red"), Json::Bool(true), text("blue"), Json::Null]),
        ),
        (
            "meta",
            object(vec![
                ("a", text("deep")),
                ("b", Json::Number(Number { key: 0, count: Some(0) })),
                ("c", object(vec![("d", text("deeper"))])),
            ]),
        ),
        ("count", Json::Number(Number { key: 1, count: Some(3) })),
    ]);
    let names = vec![
        "title".to_string(),
        "missing".to_string(),
        "tags".to_string(),
        "count".to_string(),
        "meta".to_string(),
    ];
    assert_eq!(extract_fields(&obj, names), "Hello red blue deep ");
    assert_eq!(extract_fields(&obj, Vec::new()), "");
    assert_eq!(extract_fields(&text("x"), vec!["title".to_string()]), "");
}

#[test]
fn id_of_reads_the_string_id() {
    assert_eq!(id_of(&object(vec![("_id", text("a1"))])), Some("a1".to_string()));
    assert_eq!(id_of(&object(vec![("id", text("a1"))])), None);
    assert_eq!(
        id_of(&object(vec![("_id", Json::Number(Number { key: 5, count: Some(5) }))])),
        None
    );
    assert_eq!(id_of(&Json::Null), None);
}

#[test]
fn bulk_insert_counts_items_and_tokens() {
    let index = two_documents();
    assert_eq!(index.items_count(), 2);
    assert_eq!(index.tokens_count(), 13);
    assert!(index.tokens_count() >= 4);
    assert!(index.contains(&"1".to_string()));
    assert!(index.contains(&"2".to_string()));
    assert!(!index.contains(&"3".to_string()));
}

#[test]
fn search_ranks_the_closer_document_first() {
    let index = two_documents();
    let found = search(&index, "hello".to_string());
    assert_eq!(
        found,
        vec![
            "{\"_id\":\"2\",\"title\":\"Hello\"}".to_string(),
            "{\"_id\":\"1\",\"title\":\"Hello World\"}".to_string(),
        ]
    );
}

#[test]
fn key_score_list_holds_scores_and_distances() {
    let index = two_documents();
    let list = get_key_score_list(&index, "hello".to_string());
    assert_eq!(list.len(), 2);
    assert_eq!(list[0].iid, 1);
    assert_eq!(list[0].position, 1);
    assert_eq!(list[0].rank.score, 14);
    assert_eq!(list[0].rank.distance, 23);
    assert_eq!(list[0].rank.span, 27);
    assert_eq!(list[1].iid, 0);
    assert_eq!(list[1].rank.score, 14);
    assert_eq!(list[1].rank.distance, 29);
    assert_eq!(list[1].rank.span, 33);
}

#[test]
fn key_score_list_counts_a_token_as_often_as_the_query_has_it() {
    let index = two_documents();
    let tokens = vec!["world".to_string(), "world".to_string(), "$w".to_string()];
    let list = key_score_list_for(&index, &"world".to_string(), &tokens);
    assert_eq!(list.len(), 1);
    assert_eq!(list[0].iid, 0);
    assert_eq!(list[0].rank.score, 21);
}

#[test]
fn search_trims_the_query() {
    let index = two_documents();
    assert_eq!(
        search(&index, "  hello \n".to_string()),
        search(&index, "hello".to_string())
    );
}

#[test]
fn search_keeps_only_ranks_above_half_of_the_top() {
    let mut index = create();
    assert_eq!(
        add(&mut index, "a".to_string(), "A".to_string(), "hello world".to_string()),
        Ok(0)
    );
    assert_eq!(
        add(&mut index, "b".to_string(), "B".to_string(), "hold".to_string()),
        Ok(1)
    );
    // "hello" gives A the grams hel, ell, llo, the marker $h and the word: 14;
    // B shares the marker $h alone: 1.
    let list = get_key_score_list(&index, "hello".to_string());
    assert_eq!(list.len(), 2);
    assert_eq!(list[0].rank.score, 14);
    assert_eq!(list[1].rank.score, 1);
    assert_eq!(search(&index, "hello".to_string()), vec!["A".to_string()]);
}

#[test]
fn a_rank_at_exactly_half_is_dropped() {
    let mut index = create();
    assert_eq!(add(&mut index, "a".to_string(), "A".to_string(), "".to_string()), Ok(0));
    assert_eq!(add(&mut index, "b".to_string(), "B".to_string(), "".to_string()), Ok(1));
    assert_eq!(add(&mut index, "c".to_string(), "C".to_string(), "".to_string()), Ok(2));
    // 4, exactly 2, and 2 + 1/9.
    let top = Rank { score: 3, distance: 0, span: 4 };
    let half = Rank { score: 1, distance: 0, span: 9 };
    let more = Rank { score: 2, distance: 8, span: 9 };
    let less = Rank { score: 0, distance: 1, span: 9 };
    assert!(top.is_above_half_of(&top));
    assert!(!half.is_above_half_of(&top));
    assert!(more.is_above_half_of(&top));
    assert!(!less.is_above_half_of(&top));
    let list = vec![
        Hit { iid: 0, position: 0, rank: top },
        Hit { iid: 2, position: 2, rank: more },
        Hit { iid: 1, position: 1, rank: half },
    ];
    assert_eq!(upper_bodies(&index, &list), vec!["A".to_string(), "C".to_string()]);
    assert_eq!(upper_bodies(&index, &Vec::new()), Vec::<String>::new());
}

#[test]
fn ranks_compare_as_fractions() {
    let a = Rank { score: 14, distance: 23, span: 27 };
    let b = Rank { score: 14, distance: 29, span: 33 };
    assert!(a.is_above(&b));
    assert!(!b.is_above(&a));
    assert!(!a.is_above(&a));
    let c = Rank { score: 15, distance: 10, span: 10 };
    let d = Rank { score: 14, distance: 0, span: 3 };
    assert!(!c.is_above(&d));
    assert!(!d.is_above(&c));
    let e = Rank { score: 2, distance: 1, span: 2 };
    let f = Rank { score: 2, distance: 2, span: 4 };
    assert!(!e.is_above(&f));
    assert!(!f.is_above(&e));
    let g = Rank { score: u64::MAX, distance: 0, span: usize::MAX };
    let h = Rank { score: u64::MAX, distance: 1, span: usize::MAX };
    assert!(g.is_above(&h));
    assert!(h.is_above_half_of(&g));
}

#[test]
fn empty_query_returns_every_document_once() {
    let index = two_documents();
    let all = search(&index, "".to_string());
    assert_eq!(
        all,
        vec![
            "{\"_id\":\"1\",\"title\":\"Hello World\"}".to_string(),
            "{\"_id\":\"2\",\"title\":\"Hello\"}".to_string(),
        ]
    );
    assert_eq!(search(&index, "   ".to_string()), all);
    assert_eq!(index.bodies(), all);
    assert_eq!(get_items(&index, None), all);
    assert_eq!(get_items(&index, Some("".to_string())), all);
    assert_eq!(
        get_items(&index, Some("world".to_string())),
        vec!["{\"_id\":\"1\",\"title\":\"Hello World\"}".to_string()]
    );
}

#[test]
fn remove_drops_the_document_and_its_tokens() {
    let mut index = two_documents();
    assert!(remove(&mut index, "1".to_string()));
    assert_eq!(index.items_count(), 1);
    assert_eq!(index.tokens_count(), 5);
    assert_eq!(search(&index, "world".to_string()), Vec::<String>::new());
    assert_eq!(
        search(&index, "hello".to_string()),
        vec!["{\"_id\":\"2\",\"title\":\"Hello\"}".to_string()]
    );
    assert!(!remove(&mut index, "1".to_string()));
    assert!(!remove(&mut index, "nobody".to_string()));
    assert_eq!(index.items_count(), 1);
}

#[test]
fn add_then_remove_restores_the_sizes() {
    let mut index = two_documents();
    let items = index.items_count();
    let tokens = index.tokens_count();
    let (third, raw) = titled("3", "Quantum zebra hello");
    assert_eq!(add_object(&mut index, &third, raw, fields()), Ok(2));
    assert_eq!(index.items_count(), items + 1);
    assert!(index.tokens_count() > tokens);
    assert!(remove(&mut index, "3".to_string()));
    assert_eq!(index.items_count(), items);
    assert_eq!(index.tokens_count(), tokens);
}

#[test]
fn internal_ids_are_never_reused() {
    let mut index = two_documents();
    assert!(remove(&mut index, "2".to_string()));
    let (again, raw) = titled("2", "Hello");
    assert_eq!(add_object(&mut index, &again, raw, fields()), Ok(2));
    clear(&mut index);
    assert_eq!(index.items_count(), 0);
    assert_eq!(index.tokens_count(), 0);
    let (fresh, raw) = titled("1", "Hello");
    assert_eq!(add_object(&mut index, &fresh, raw, fields()), Ok(3));
}

#[test]
fn add_rejects_a_taken_id_and_a_missing_id() {
    let mut index = two_documents();
    let (dup, raw) = titled("1", "Other");
    assert_eq!(add_object(&mut index, &dup, raw, fields()), Err(IndexError::DuplicateId));
    let nameless = object(vec![("title", text("No id"))]);
    assert_eq!(
        add_object(&mut index, &nameless, "{}".to_string(), fields()),
        Err(IndexError::MissingId)
    );
    assert_eq!(
        add(&mut index, "2".to_string(), "x".to_string(), "y".to_string()),
        Err(IndexError::DuplicateId)
    );
    assert_eq!(index.items_count(), 2);
    assert_eq!(index.tokens_count(), 13);
    assert_eq!(search(&index, "other".to_string()), Vec::<String>::new());
}

#[test]
fn add_stops_when_the_internal_ids_run_out() {
    let mut index = create_from(u32::MAX - 1);
    let (last, raw) = titled("1", "Last");
    assert_eq!(add_object(&mut index, &last, raw, fields()), Ok(u32::MAX - 1));
    let (late, raw) = titled("2", "Too late");
    assert_eq!(add_object(&mut index, &late, raw, fields()), Err(IndexError::Exhausted));
    assert_eq!(index.items_count(), 1);
    assert_eq!(search(&index, "too".to_string()), Vec::<String>::new());
    // A document that is stored can still be replaced and removed.
    let (changed, raw) = titled("1", "Changed");
    assert_eq!(update(&mut index, &changed, raw, fields()), Ok(u32::MAX - 1));
    assert!(remove(&mut index, "1".to_string()));
    assert_eq!(index.tokens_count(), 0);
}

#[test]
fn update_replaces_text_and_keeps_the_internal_id() {
    let mut index = two_documents();
    let (changed, raw) = titled("1", "Goodbye");
    assert_eq!(update(&mut index, &changed, raw.clone(), fields()), Ok(0));
    assert_eq!(index.items_count(), 2);
    assert_eq!(search(&index, "world".to_string()), Vec::<String>::new());
    assert_eq!(search(&index, "goodbye".to_string()), vec![raw]);
    let (next, next_raw) = titled("9", "Nine");
    assert_eq!(add_object(&mut index, &next, next_raw, fields()), Ok(2));
}

#[test]
fn update_rejects_unknown_and_missing_ids() {
    let mut index = two_documents();
    let (stranger, raw) = titled("5", "Five");
    assert_eq!(update(&mut index, &stranger, raw, fields()), Err(IndexError::UnknownId));
    assert_eq!(
        update(&mut index, &Json::Null, "null".to_string(), fields()),
        Err(IndexError::MissingId)
    );
    assert_eq!(
        replace(&mut index, "5".to_string(), "x".to_string(), "y".to_string()),
        Err(IndexError::UnknownId)
    );
    assert_eq!(index.items_count(), 2);
    assert_eq!(index.tokens_count(), 13);
}

#[test]
fn update_searches_like_remove_then_add() {
    let queries = ["hello", "world", "goodbye", "", "hel", "zebra stripes", "h"];
    let mut updated = two_documents();
    let (changed, raw) = titled("1", "Goodbye zebra");
    assert_eq!(update(&mut updated, &changed, raw, fields()), Ok(0));
    let mut readded = two_documents();
    assert!(remove(&mut readded, "1".to_string()));
    let (changed, raw) = titled("1", "Goodbye zebra");
    assert_eq!(add_object(&mut readded, &changed, raw, fields()), Ok(2));
    assert_eq!(updated.items_count(), readded.items_count());
    assert_eq!(updated.tokens_count(), readded.tokens_count());
    for q in queries {
        assert_eq!(
            sorted(search(&updated, q.to_string())),
            sorted(search(&readded, q.to_string())),
            "query {:?}",
            q
        );
    }
}

#[test]
fn index_tokens_adds_weighted_postings() {
    let mut index = create();
    assert_eq!(add(&mut index, "a".to_string(), "A".to_string(), "".to_string()), Ok(0));
    assert_eq!(index.tokens_count(), 0);
    index_tokens(
        &mut index,
        0,
        &vec!["abc".to_string(), "abc".to_string()],
        &vec!["abc".to_string(), "word".to_string()],
    );
    assert_eq!(index.tokens_count(), 2);
    let list = key_score_list_for(&index, &"q".to_string(), &vec!["abc".to_string()]);
    assert_eq!(list.len(), 1);
    assert_eq!(list[0].rank.score, 12);
    index_item(&mut index, 0, "word".to_string());
    let list = key_score_list_for(&index, &"q".to_string(), &vec!["word".to_string()]);
    assert_eq!(list[0].rank.score, 20);
}

#[test]
fn invariants_hold_along_a_sequence_of_operations() {
    let mut index = create();
    let ids = ["a", "b", "c", "d", "e"];
    let titles = ["alpha beta", "beta gamma", "gamma delta", "delta alpha", "epsilon"];
    for (id, title) in ids.iter().zip(titles.iter()) {
        let (json, raw) = titled(id, title);
        assert!(add_object(&mut index, &json, raw, fields()).is_ok());
    }
    assert_eq!(index.items_count(), 5);
    assert!(remove(&mut index, "b".to_string()));
    let (json, raw) = titled("c", "omega");
    assert!(update(&mut index, &json, raw, fields()).is_ok());
    assert!(remove(&mut index, "d".to_string()));
    assert_eq!(index.items_count(), 3);
    assert_eq!(index.bodies().len(), 3);
    for id in ["a", "c", "e"] {
        assert!(index.contains(&id.to_string()));
    }
    // Every remaining token still reaches a stored document.
    for q in ["alpha", "beta", "omega", "epsilon"] {
        assert_eq!(search(&index, q.to_string()).len(), 1, "query {}", q);
    }
    assert_eq!(search(&index, "gamma".to_string()), Vec::<String>::new());
    assert_eq!(search(&index, "delta".to_string()), Vec::<String>::new());
    for id in ["a", "c", "e"] {
        assert!(remove(&mut index, id.to_string()));
    }
    assert_eq!(index.items_count(), 0);
    assert_eq!(index.tokens_count(), 0);
}
