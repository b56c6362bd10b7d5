use fulltext_index::filter::{
    check_condition, check_tree_node, text_contains, FilterCondition, FilterTree, Window,
};
use fulltext_index::json::{str_equal, Json, Member, Number};

fn key_of(x: f64) -> i64 {
    if x == 0.0 {
        return 0;
    }
    let bits = x.to_bits();
    let magnitude = (bits & 0x7fff_ffff_ffff_ffff) as i64;
    if bits >> 63 == 0 {
        magnitude
    } else {
        -magnitude
    }
}

fn number(x: f64) -> Json {
    let count = if x >= 0.0 && x.fract() == 0.0 && x < 1.0e18 {
        Some(x as u64)
    } else {
        None
    };
    Json::Number(Number { key: key_of(x), count })
}

fn window(x: f64) -> Window {
    Window { low: key_of(x - 0.000001), high: key_of(x + 0.000001) }
}

fn text(s: &str) -> Json {
    Json::Text(s.to_string())
}

fn object(members: Vec<(&str, Json)>) -> Json {
    Json::Object(
        members
            .into_iter()
            .map(|(name, value)| Member { name: name.to_string(), value })
            .collect(),
    )
}

fn leaf(property: &str, kind: &str, operation: &str, value: Json) -> FilterTree {
    let near = match &value {
        Json::Number(n) => {
            // The tests name their numbers by key; the window is rebuilt from it.
            let bits = n.key.unsigned_abs();
            let x = if n.key < 0 {
                -f64::from_bits(bits)
            } else {
                f64::from_bits(bits)
            };
            window(x)
        }
        _ => window(0.0),
    };
    FilterTree {
        kind: None,
        children: None,
        condition: Some(FilterCondition {
            property: property.to_string(),
            kind: kind.to_string(),
            operation: operation.to_string(),
            value,
            window: near,
        }),
    }
}

fn node(kind: &str, children: Vec<FilterTree>) -> FilterTree {
    FilterTree { kind: Some(kind.to_string()), children: Some(children), condition: None }
}

fn sample() -> Json {
    object(vec![
        ("_id", text("1")),
        ("title", text("Hello World")),
        ("price", number(12.5)),
        ("stock", number(3.0)),
        ("debt", number(-2.25)),
        ("tags", Json::Array(vec![text("red"), number(7.0), Json::Null])),
        ("active", Json::Bool(true)),
        ("nothing", Json::Null),
        (
            "owner",
            object(vec![("name", text("Ada")), ("address", object(vec![("city", text("Paris"))]))]),
        ),
    ])
}

#[test]
fn str_equal_compares_characters() {
    assert!(str_equal("abc", "abc"));
    assert!(!str_equal("abc", "abd"));
    assert!(!str_equal("abc", "ab"));
    assert!(str_equal("", ""));
}

#[test]
fn paths_descend_through_objects() {
    let doc = sample();
    assert!(matches!(doc.at_path("owner.address.city"), Some(Json::Text(s)) if s == "Paris"));
    assert!(doc.at_path("owner.missing.city").is_none());
    assert!(doc.at_path("title.length").is_none());
    assert!(doc.at_path("").is_none());
    assert!(matches!(doc.get("nothing"), Some(Json::Null)));
    assert!(doc.get("absent").is_none());
    assert!(Json::Null.get("x").is_none());
}

#[test]
fn first_member_of_a_name_wins() {
    let doc = object(vec![("a", text("one")), ("a", text("two"))]);
    assert!(matches!(doc.get("a"), Some(Json::Text(s)) if s == "one"));
}

#[test]
fn same_compares_whole_values() {
    assert!(sample().same(&sample()));
    assert!(!sample().same(&object(vec![("_id", text("1"))])));
    assert!(number(1.0).same(&number(1.0)));
    assert!(!number(1.0).same(&number(2.0)));
    assert!(!text("1").same(&number(1.0)));
    assert!(Json::Array(vec![]).same(&Json::Array(vec![])));
    assert!(!Json::Array(vec![Json::Null]).same(&Json::Array(vec![])));
    assert!(!Json::Array(vec![text("a"), text("b")]).same(&Json::Array(vec![text("a"), text("c")])));
    assert!(!object(vec![("a", Json::Null)]).same(&object(vec![("b", Json::Null)])));
    assert!(!Json::Null.same(&Json::Bool(false)));
}

#[test]
fn text_contains_finds_runs() {
    let hay: Vec<char> = "Hello World".chars().collect();
    let find = |needle: &str| text_contains(&hay, &needle.chars().collect());
    assert!(find("ell"));
    assert!(find(""));
    assert!(find("Hello World"));
    assert!(find("d"));
    assert!(!find("hello"));
    assert!(!find("Hello World!"));
    assert!(!find("lo  W"));
    assert!(text_contains(&Vec::new(), &Vec::new()));
}

#[test]
fn string_conditions() {
    let doc = sample();
    assert!(check_tree_node(&leaf("title", "string", "=", text("Hello World")), &doc));
    assert!(!check_tree_node(&leaf("title", "string", "=", text("Hello")), &doc));
    assert!(check_tree_node(&leaf("title", "string", "?", text("ell")), &doc));
    assert!(!check_tree_node(&leaf("title", "string", "?", text("xyz")), &doc));
    assert!(check_tree_node(&leaf("owner.name", "string", "=", text("Ada")), &doc));
    // A missing or null attribute counts as the empty text, and so does a
    // condition value of another kind.
    assert!(check_tree_node(&leaf("missing", "string", "=", text("")), &doc));
    assert!(check_tree_node(&leaf("nothing", "string", "=", text("")), &doc));
    assert!(check_tree_node(&leaf("nothing", "string", "?", text("")), &doc));
    assert!(!check_tree_node(&leaf("nothing", "string", "?", text("a")), &doc));
    assert!(check_tree_node(&leaf("title", "string", "?", number(1.0)), &doc));
    assert!(!check_tree_node(&leaf("title", "string", ">", text("A")), &doc));
}

#[test]
fn number_conditions() {
    let doc = sample();
    assert!(check_tree_node(&leaf("price", "number", "=", number(12.5)), &doc));
    assert!(check_tree_node(&leaf("price", "number", "=", number(12.5000001)), &doc));
    assert!(!check_tree_node(&leaf("price", "number", "=", number(12.51)), &doc));
    assert!(check_tree_node(&leaf("price", "number", ">", number(12.0)), &doc));
    assert!(!check_tree_node(&leaf("price", "number", ">", number(12.5)), &doc));
    assert!(check_tree_node(&leaf("price", "number", "<", number(13.0)), &doc));
    assert!(!check_tree_node(&leaf("price", "number", "<", number(-13.0)), &doc));
    assert!(check_tree_node(&leaf("debt", "number", "<", number(-2.0)), &doc));
    assert!(check_tree_node(&leaf("debt", "number", ">", number(-3.0)), &doc));
    assert!(check_tree_node(&leaf("debt", "number", "<", number(0.0)), &doc));
    // What is missing or null counts as zero.
    assert!(check_tree_node(&leaf("missing", "number", "<", number(1.0)), &doc));
    assert!(check_tree_node(&leaf("nothing", "number", "=", number(0.0)), &doc));
    assert!(check_tree_node(&leaf("nothing", "number", ">", number(-1.0)), &doc));
    assert!(check_tree_node(&leaf("price", "number", ">", text("x")), &doc));
    assert!(!check_tree_node(&leaf("price", "number", "?", number(12.5)), &doc));
}

#[test]
fn array_conditions() {
    let doc = sample();
    assert!(check_tree_node(&leaf("tags", "array", "?", text("red")), &doc));
    assert!(check_tree_node(&leaf("tags", "array", "?", number(7.0)), &doc));
    assert!(check_tree_node(&leaf("tags", "array", "?", Json::Null), &doc));
    assert!(!check_tree_node(&leaf("tags", "array", "?", text("blue")), &doc));
    assert!(check_tree_node(&leaf("tags", "array", "length", number(3.0)), &doc));
    assert!(!check_tree_node(&leaf("tags", "array", "length", number(2.0)), &doc));
    assert!(check_tree_node(&leaf("nothing", "array", "length", number(0.0)), &doc));
    assert!(check_tree_node(&leaf("missing", "array", "length", text("x")), &doc));
    assert!(!check_tree_node(&leaf("missing", "array", "?", Json::Null), &doc));
    assert!(!check_tree_node(&leaf("title", "array", "?", text("Hello World")), &doc));
    assert!(!check_tree_node(&leaf("tags", "array", "=", text("red")), &doc));
}

#[test]
fn boolean_and_null_conditions() {
    let doc = sample();
    assert!(check_tree_node(&leaf("active", "boolean", "=", Json::Bool(true)), &doc));
    assert!(!check_tree_node(&leaf("active", "boolean", "=", Json::Bool(false)), &doc));
    assert!(check_tree_node(&leaf("missing", "boolean", "=", Json::Bool(false)), &doc));
    assert!(check_tree_node(&leaf("nothing", "boolean", "=", Json::Null), &doc));
    assert!(!check_tree_node(&leaf("nothing", "boolean", "=", Json::Bool(true)), &doc));
    assert!(check_tree_node(&leaf("nothing", "null", "=", Json::Null), &doc));
    assert!(check_tree_node(&leaf("missing", "null", "=", Json::Null), &doc));
    assert!(check_tree_node(&leaf("owner.none.deeper", "null", "=", text("ignored")), &doc));
    assert!(!check_tree_node(&leaf("title", "null", "=", Json::Null), &doc));
    assert!(!check_tree_node(&leaf("nothing", "null", "?", Json::Null), &doc));
}

#[test]
fn a_value_of_another_kind_meets_no_condition() {
    let doc = object(vec![("n", text("abc"))]);
    assert!(!check_tree_node(&leaf("n", "number", ">", number(-1.0)), &doc));
    assert!(!check_tree_node(&leaf("n", "number", "<", number(1.0)), &doc));
    assert!(!check_tree_node(&leaf("n", "number", "=", number(0.0)), &doc));
    let doc = sample();
    assert!(!check_tree_node(&leaf("price", "string", "=", text("")), &doc));
    assert!(!check_tree_node(&leaf("price", "string", "=", Json::Null), &doc));
    assert!(!check_tree_node(&leaf("price", "string", "?", text("")), &doc));
    assert!(!check_tree_node(&leaf("title", "number", "=", number(0.0)), &doc));
    assert!(!check_tree_node(&leaf("active", "number", "<", number(5.0)), &doc));
    assert!(!check_tree_node(&leaf("title", "boolean", "=", Json::Bool(false)), &doc));
    assert!(!check_tree_node(&leaf("title", "boolean", "=", Json::Null), &doc));
    assert!(!check_tree_node(&leaf("title", "array", "length", number(0.0)), &doc));
    assert!(!check_tree_node(&leaf("owner", "array", "length", number(0.0)), &doc));
    assert!(!check_tree_node(&leaf("tags", "string", "=", text("")), &doc));
    assert!(!check_tree_node(&leaf("tags", "null", "=", Json::Null), &doc));
    // The negation of such a condition holds.
    assert!(check_tree_node(
        &node("NOT", vec![leaf("n", "number", ">", number(-1.0))]),
        &object(vec![("n", text("abc"))])
    ));
}

#[test]
fn a_whole_number_beyond_the_signed_range_counts_as_zero() {
    let huge = 18_000_000_000_000_000_000u64;
    let doc = object(vec![
        ("big", Json::Number(Number { key: key_of(huge as f64), count: Some(huge) })),
        ("edge", Json::Number(Number { key: key_of(i64::MAX as f64), count: Some(i64::MAX as u64) })),
    ]);
    assert!(check_tree_node(&leaf("big", "number", "=", number(0.0)), &doc));
    assert!(check_tree_node(&leaf("big", "number", "<", number(1.0)), &doc));
    assert!(!check_tree_node(&leaf("big", "number", ">", number(1.0)), &doc));
    assert!(check_tree_node(&leaf("edge", "number", ">", number(1.0)), &doc));
    assert!(!check_tree_node(&leaf("edge", "number", "=", number(0.0)), &doc));
}

#[test]
fn unknown_kinds_hold_of_nothing() {
    let doc = sample();
    assert!(!check_tree_node(&leaf("title", "text", "=", text("Hello World")), &doc));
    assert!(!check_tree_node(&leaf("title", "", "", text("Hello World")), &doc));
    assert!(!check_tree_node(&leaf("title", "STRING", "=", text("Hello World")), &doc));
}

#[test]
fn combinations() {
    let doc = sample();
    let yes = || leaf("title", "string", "?", text("ell"));
    let no = || leaf("title", "string", "?", text("xyz"));
    assert!(check_tree_node(&node("AND", vec![yes(), yes()]), &doc));
    assert!(!check_tree_node(&node("AND", vec![yes(), no(), yes()]), &doc));
    assert!(check_tree_node(&node("AND", vec![]), &doc));
    assert!(check_tree_node(&node("OR", vec![no(), yes()]), &doc));
    assert!(!check_tree_node(&node("OR", vec![no(), no()]), &doc));
    assert!(!check_tree_node(&node("OR", vec![]), &doc));
    assert!(check_tree_node(&node("NOT", vec![no()]), &doc));
    assert!(!check_tree_node(&node("NOT", vec![yes()]), &doc));
    assert!(check_tree_node(&node("NOT", vec![no(), yes()]), &doc));
    assert!(check_tree_node(
        &node("AND", vec![node("OR", vec![no(), yes()]), node("NOT", vec![no()])]),
        &doc
    ));
}

#[test]
fn malformed_trees_hold_of_nothing() {
    let doc = sample();
    assert!(!check_tree_node(&node("XOR", vec![]), &doc));
    assert!(!check_tree_node(&node("and", vec![]), &doc));
    assert!(!check_tree_node(&node("NOT", vec![]), &doc));
    let no_kind = FilterTree { kind: None, children: Some(vec![]), condition: None };
    assert!(!check_tree_node(&no_kind, &doc));
    let empty = FilterTree { kind: None, children: None, condition: None };
    assert!(!check_tree_node(&empty, &doc));
    // A list of children decides, even beside a condition.
    let both = FilterTree {
        kind: Some("OR".to_string()),
        children: Some(vec![]),
        condition: leaf("title", "string", "?", text("ell")).condition,
    };
    assert!(!check_tree_node(&both, &doc));
}

#[test]
fn check_condition_answers_for_the_leaf() {
    let doc = sample();
    let tree = leaf("stock", "number", "=", number(3.0));
    let condition = tree.condition.expect("a leaf");
    assert!(check_condition(&condition, &doc));
    assert!(!check_condition(&condition, &Json::Null));
}
