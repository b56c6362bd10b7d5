use fulltext_index::filter::{FilterCondition, FilterTree, Window};
use fulltext_index::json::{Json, Member, Number};
use fulltext_index::pipeline::{
    arrange, filter_places, in_order, is_text_less, page_of, search_items, seed_from_digest,
    NumberKey, SearchOptions, TextKey, DEFAULT_TAKE,
};
use fulltext_index::sort::stable_order;
use rand::rngs::StdRng;
use rand::seq::SliceRandom;
use rand::SeedableRng;

fn text(s: &str) -> Json {
    Json::Text(s.to_string())
}

fn whole(n: i64) -> Json {
    // Whole numbers of small size: the key of the double with this value.
    let x = n as f64;
    let bits = x.abs().to_bits() as i64;
    let key = if n < 0 { -bits } else { bits };
    Json::Number(Number { key, count: if n >= 0 { Some(n as u64) } else { None } })
}

fn document(id: &str, title: &str, price: i64) -> Json {
    Json::Object(vec![
        Member { name: "_id".to_string(), value: text(id) },
        Member { name: "title".to_string(), value: text(title) },
        Member { name: "price".to_string(), value: whole(price) },
    ])
}

fn shelf() -> Vec<Json> {
    vec![
        document("1", "Hello World", 30),
        document("2", "Hello", 10),
        document("3", "Goodbye", -5),
        document("4", "hello again", 10),
        document("5", "Zebra", 20),
    ]
}

fn plain() -> SearchOptions {
    SearchOptions { filter: None, sort_by: None, sort_asc: None, sort_type: None }
}

fn sorted_by(path: &str, kind: Option<&str>, asc: Option<bool>) -> SearchOptions {
    SearchOptions {
        filter: None,
        sort_by: Some(path.to_string()),
        sort_asc: asc,
        sort_type: kind.map(|k| k.to_string()),
    }
}

fn shuffled_by(seed: Option<&str>) -> SearchOptions {
    SearchOptions {
        filter: None,
        sort_by: Some("$shuffle".to_string()),
        sort_asc: None,
        sort_type: seed.map(|k| k.to_string()),
    }
}

fn contains_ell() -> FilterTree {
    FilterTree {
        kind: Some("AND".to_string()),
        children: Some(vec![FilterTree {
            kind: None,
            children: None,
            condition: Some(FilterCondition {
                property: "title".to_string(),
                kind: "string".to_string(),
                operation: "?".to_string(),
                value: text("ell"),
                window: Window { low: 0, high: 0 },
            }),
        }]),
        condition: None,
    }
}

fn ids(items: &[&str]) -> Vec<String> {
    items.iter().map(|s| s.to_string()).collect()
}

#[test]
fn seed_adds_the_decimal_digits_of_the_hex_digest() {
    // The digests of "default", "seed-1", "seed-2" and the empty text.
    let default: [u8; 16] =
        [194, 31, 150, 155, 95, 3, 211, 61, 67, 224, 79, 143, 19, 110, 118, 130];
    let first: [u8; 16] =
        [193, 201, 196, 135, 146, 105, 201, 146, 184, 101, 16, 125, 81, 87, 207, 218];
    let second: [u8; 16] =
        [144, 230, 119, 61, 245, 234, 106, 232, 44, 4, 4, 180, 76, 154, 126, 93];
    let empty: [u8; 16] =
        [212, 29, 140, 217, 143, 0, 178, 4, 233, 128, 9, 152, 236, 248, 66, 126];
    assert_eq!(seed_from_digest(&default), 93);
    assert_eq!(seed_from_digest(&first), 120);
    assert_eq!(seed_from_digest(&second), 90);
    assert_eq!(seed_from_digest(&empty), 100);
    assert_eq!(seed_from_digest(&[0xff; 16]), 0);
    assert_eq!(seed_from_digest(&[0x99; 16]), 288);
    assert_eq!(seed_from_digest(&[0x0a; 16]), 0);
    assert_eq!(seed_from_digest(&[0xa1; 16]), 16);
}

#[test]
fn texts_order_character_by_character() {
    let less = |a: &str, b: &str| is_text_less(&a.chars().collect(), &b.chars().collect());
    assert!(less("", "a"));
    assert!(!less("", ""));
    assert!(!less("a", ""));
    assert!(less("Hello", "Hello World"));
    assert!(less("Hello", "hello"));
    assert!(!less("hello", "Hello"));
    assert!(less("abc", "abd"));
    assert!(!less("abc", "abc"));
    assert!(less("z", "é"));
    for (a, b) in [("a", "b"), ("ab", "a"), ("é", "z"), ("", "x"), ("Zebra", "apple")] {
        assert_eq!(less(a, b), a < b, "{:?} against {:?}", a, b);
    }
}

#[test]
fn stable_order_keeps_equal_keys_in_place() {
    let keys: Vec<NumberKey> = [3, 1, 2, 1, 3, 0]
        .iter()
        .map(|k| NumberKey { key: *k, descending: false })
        .collect();
    assert_eq!(stable_order(&keys), vec![5, 1, 3, 2, 0, 4]);
    let keys: Vec<NumberKey> = [3, 1, 2, 1, 3, 0]
        .iter()
        .map(|k| NumberKey { key: *k, descending: true })
        .collect();
    assert_eq!(stable_order(&keys), vec![0, 4, 2, 1, 3, 5]);
    let keys: Vec<TextKey> = ["b", "a", "", "a"]
        .iter()
        .map(|k| TextKey { text: k.chars().collect(), descending: false })
        .collect();
    assert_eq!(stable_order(&keys), vec![2, 1, 3, 0]);
    assert_eq!(stable_order(&Vec::<NumberKey>::new()), Vec::<usize>::new());
}

#[test]
fn in_order_reads_places_through_an_order() {
    assert_eq!(in_order(&vec![10, 20, 30], &vec![2, 0, 1]), vec![30, 10, 20]);
    assert_eq!(in_order(&Vec::new(), &Vec::new()), Vec::<usize>::new());
}

#[test]
fn filter_keeps_items_whose_title_contains_ell() {
    let items = shelf();
    assert_eq!(filter_places(&items, &Some(contains_ell())), vec![0, 1, 3]);
    assert_eq!(filter_places(&items, &None), vec![0, 1, 2, 3, 4]);
    let mut options = plain();
    options.filter = Some(contains_ell());
    let page = search_items(&items, &options, None, None);
    assert_eq!(page.items, ids(&["4", "2", "1"]));
    assert_eq!(page.max_items, 3);
    assert_eq!(page.num_items, 3);
    assert_eq!(page.num_pages, 1);
}

#[test]
fn unsorted_pages_read_from_the_back() {
    let items = shelf();
    let page = search_items(&items, &plain(), None, None);
    assert_eq!(page.items, ids(&["5", "4", "3", "2", "1"]));
    assert_eq!(page.max_items, 5);
    assert_eq!(page.num_items, 5);
    assert_eq!(page.num_pages, 1);
    assert_eq!(DEFAULT_TAKE, 2000000);
}

#[test]
fn number_sort_runs_up_and_the_page_reads_it_backwards() {
    let items = shelf();
    // Ascending by price: 3 (-5), 2 (10), 4 (10), 5 (20), 1 (30).
    assert_eq!(
        arrange(&items, vec![0, 1, 2, 3, 4], &sorted_by("price", Some("number"), None)),
        vec![2, 1, 3, 4, 0]
    );
    assert_eq!(
        arrange(&items, vec![0, 1, 2, 3, 4], &sorted_by("price", None, Some(false))),
        vec![2, 1, 3, 4, 0]
    );
    let page = search_items(&items, &sorted_by("price", None, None), None, None);
    assert_eq!(page.items, ids(&["1", "5", "4", "2", "3"]));
}

#[test]
fn sort_asc_sorts_from_the_greatest_down() {
    let items = shelf();
    assert_eq!(
        arrange(&items, vec![0, 1, 2, 3, 4], &sorted_by("price", Some("number"), Some(true))),
        vec![0, 4, 1, 3, 2]
    );
    let page = search_items(&items, &sorted_by("price", Some("number"), Some(true)), None, None);
    assert_eq!(page.items, ids(&["3", "4", "2", "5", "1"]));
}

#[test]
fn string_sort_orders_by_text() {
    let items = shelf();
    // Goodbye < Hello < Hello World < Zebra < hello again
    assert_eq!(
        arrange(&items, vec![0, 1, 2, 3, 4], &sorted_by("title", Some("string"), None)),
        vec![2, 1, 0, 4, 3]
    );
    assert_eq!(
        arrange(&items, vec![0, 1, 2, 3, 4], &sorted_by("title", Some("string"), Some(true))),
        vec![3, 4, 0, 1, 2]
    );
    // Prices are no texts: every key is empty and nothing moves.
    assert_eq!(
        arrange(&items, vec![4, 2, 0], &sorted_by("price", Some("string"), None)),
        vec![4, 2, 0]
    );
}

#[test]
fn missing_keys_count_as_zero() {
    let items = shelf();
    // No item has a number at `title`: all keys are zero, nothing moves.
    assert_eq!(
        arrange(&items, vec![3, 1, 4, 0, 2], &sorted_by("title", None, None)),
        vec![3, 1, 4, 0, 2]
    );
    let mut mixed = shelf();
    mixed.push(Json::Object(vec![Member { name: "_id".to_string(), value: text("6") }]));
    // Zero stands between -5 and 10.
    assert_eq!(
        arrange(&mixed, vec![0, 1, 2, 3, 4, 5], &sorted_by("price", None, None)),
        vec![2, 5, 1, 3, 4, 0]
    );
}

#[test]
fn unknown_sort_type_moves_nothing() {
    let items = shelf();
    assert_eq!(
        arrange(&items, vec![4, 0, 2], &sorted_by("price", Some("date"), Some(true))),
        vec![4, 0, 2]
    );
    assert_eq!(arrange(&items, vec![4, 0, 2], &plain()), vec![4, 0, 2]);
}

#[test]
fn shuffle_repeats_for_the_same_seed_text() {
    let items: Vec<Json> =
        (0..12).map(|n| document(&n.to_string(), "t", n)).collect();
    let first = search_items(&items, &shuffled_by(Some("seed-1")), None, None);
    let again = search_items(&items, &shuffled_by(Some("seed-1")), None, None);
    let other = search_items(&items, &shuffled_by(Some("seed-2")), None, None);
    assert_eq!(first.items, again.items);
    assert_ne!(first.items, other.items);
    assert_eq!(first.max_items, 12);
    let mut seen = first.items.clone();
    seen.sort();
    let mut all: Vec<String> = (0..12).map(|n| n.to_string()).collect();
    all.sort();
    assert_eq!(seen, all);
    let natural: Vec<String> = (0..12).rev().map(|n| n.to_string()).collect();
    assert_ne!(first.items, natural);
}

#[test]
fn shuffle_is_seeded_with_the_digit_sum_of_the_digest() {
    let items: Vec<Json> =
        (0..12).map(|n| document(&n.to_string(), "t", n)).collect();
    let places: Vec<usize> = vec![3, 1, 4, 11, 5, 9, 2, 6, 0, 8, 7, 10];
    // The digest of "seed-1" gives 120, that of "default" 93.
    let mut expected = places.clone();
    expected.shuffle(&mut StdRng::seed_from_u64(120));
    assert_eq!(arrange(&items, places.clone(), &shuffled_by(Some("seed-1"))), expected);
    let mut expected = places.clone();
    expected.shuffle(&mut StdRng::seed_from_u64(93));
    assert_eq!(arrange(&items, places.clone(), &shuffled_by(None)), expected);
    assert_ne!(expected, places);
}

#[test]
fn shuffle_without_seed_text_uses_default() {
    let items: Vec<Json> =
        (0..12).map(|n| document(&n.to_string(), "t", n)).collect();
    let places: Vec<usize> = (0..12).collect();
    let unnamed = arrange(&items, places.clone(), &shuffled_by(None));
    let named = arrange(&items, places.clone(), &shuffled_by(Some("default")));
    assert_eq!(unnamed, named);
    // The shuffle does not look at the documents.
    let others: Vec<Json> =
        (0..12).map(|n| document(&format!("x{}", n), "other", -n)).collect();
    assert_eq!(arrange(&others, places, &shuffled_by(None)), unnamed);
}

#[test]
fn pages_skip_and_take() {
    let items = shelf();
    let page = search_items(&items, &plain(), Some(1), Some(2));
    assert_eq!(page.items, ids(&["4", "3"]));
    assert_eq!(page.max_items, 5);
    assert_eq!(page.num_items, 2);
    assert_eq!(page.num_pages, 3);
    let page = search_items(&items, &plain(), Some(4), Some(2));
    assert_eq!(page.items, ids(&["1"]));
    assert_eq!(page.num_items, 1);
    assert_eq!(page.num_pages, 1);
    let page = search_items(&items, &plain(), Some(5), Some(2));
    assert_eq!(page.items, Vec::<String>::new());
    assert_eq!(page.num_pages, 1);
    let page = search_items(&items, &plain(), Some(9), Some(1));
    assert_eq!(page.items, Vec::<String>::new());
    assert_eq!(page.num_items, 0);
    assert_eq!(page.max_items, 5);
}

#[test]
fn page_count_rounds_up() {
    let items = shelf();
    assert_eq!(search_items(&items, &plain(), None, Some(5)).num_pages, 1);
    assert_eq!(search_items(&items, &plain(), None, Some(4)).num_pages, 2);
    assert_eq!(search_items(&items, &plain(), None, Some(3)).num_pages, 2);
    assert_eq!(search_items(&items, &plain(), None, Some(2)).num_pages, 3);
    assert_eq!(search_items(&items, &plain(), None, Some(1)).num_pages, 5);
    assert_eq!(search_items(&items, &plain(), None, Some(6)).num_pages, 1);
    let page = page_of(&items, &vec![0, 1, 2, 3], 0, 2);
    assert_eq!(page.items, ids(&["4", "3"]));
    assert_eq!(page.num_pages, 2);
    let none = search_items(&Vec::new(), &plain(), None, None);
    assert_eq!(none.items, Vec::<String>::new());
    assert_eq!(none.max_items, 0);
    assert_eq!(none.num_pages, 1);
}
