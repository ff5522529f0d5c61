use access_json::document::{Document, Primitive};
use access_json::output::{ElementKind, OutputStackFrame};
use access_json::query::{JSONQuery, QueryElement};
use access_json::query_executor::{NextStep, QueryExecErr, QueryExecutor};
use serde_json::Value as JV;

fn runner(query: &str) -> QueryExecutor {
    QueryExecutor::new(&JSONQuery::parse(query).unwrap()).unwrap()
}

fn internal(text: &str) -> QueryExecErr {
    QueryExecErr::InternalError(text.to_string())
}

fn object(members: Vec<(&str, JV)>) -> JV {
    let mut object = serde_json::Map::new();
    for (key, value) in members {
        object.insert(key.to_string(), value);
    }
    JV::Object(object)
}

#[test]
fn test_new_refuses_empty_query() {
    let empty = JSONQuery::new(vec![]);
    assert_eq!(
        QueryExecutor::new(&empty).unwrap_err(),
        QueryExecErr::EmptyQuery
    );
    let fresh = runner(".a");
    assert!(!fresh.is_match());
    assert_eq!(fresh.get_result(), Ok(None));
    assert_eq!(runner(".a").get_results(), vec![]);
}

#[test]
fn test_next_step() {
    let mut exec = runner(".a[1]");
    assert!(matches!(exec.next_step(), NextStep::Found(QueryElement::Field(name)) if name == "a"));
    assert_eq!(exec.relative_path(), None);
    exec.must_enter_name("a");
    assert!(matches!(
        exec.next_step(),
        NextStep::Found(QueryElement::ArrayItem(1))
    ));
    assert!(!exec.is_match());
    assert!(!exec.enter_index(0));
    assert!(exec.enter_index(1));
    assert!(exec.is_match());
    assert!(matches!(exec.next_step(), NextStep::IsMatch(rest) if rest.is_empty()));
    assert_eq!(exec.relative_path(), Some(vec![]));
    exec.must_enter_name("deeper");
    assert!(exec.enter_index(7));
    assert_eq!(
        exec.relative_path(),
        Some(vec![QueryElement::field("deeper"), QueryElement::array_item(7)])
    );
    assert!(matches!(exec.next_step(), NextStep::IsMatch(rest) if rest.len() == 2));
    exec.exit_index(7);
    exec.exit_name(Some("deeper"));
    exec.exit_index(1);
    exec.exit_name(None);
    exec.must_enter_name("b");
    assert!(matches!(exec.next_step(), NextStep::NotMatching));
    assert!(!exec.is_match());
    assert!(!exec.enter_index(1));
    assert!(!exec.enter_name("a"));
    exec.must_enter_name("a");
    assert!(matches!(exec.next_step(), NextStep::NotMatching));
    assert_eq!(exec.relative_path(), None);
}

#[test]
fn test_gates() {
    let mut exec = runner(".a.b");
    assert!(!exec.enter_name("b"));
    assert!(!exec.enter_index(0));
    assert!(exec.enter_name("a"));
    assert!(!exec.enter_name("a"));
    assert!(exec.enter_name("b"));
    // Below the match every way is open.
    assert!(exec.enter_name("anything"));
    assert!(exec.enter_index(12));
}

#[test]
fn test_sequence_by_hand() {
    let mut exec = runner("[1]");
    exec.enter_sequence(Some(3));
    assert_eq!(exec.next_index(), Ok(0));
    assert!(!exec.enter_index(0));
    assert_eq!(exec.next_index(), Ok(1));
    assert!(exec.enter_index(1));
    // The item at the path of the query is itself a sequence of two.
    exec.enter_sequence(Some(2));
    assert_eq!(exec.next_index(), Ok(0));
    assert!(exec.enter_index(0));
    assert_eq!(exec.serialize_u8(200), Ok(()));
    exec.exit_index(0);
    assert_eq!(exec.next_index(), Ok(1));
    assert!(exec.enter_index(1));
    assert_eq!(exec.serialize_i8(-100), Ok(()));
    exec.exit_index(1);
    assert_eq!(exec.exit_sequence(), Ok(()));
    exec.exit_index(1);
    assert_eq!(exec.next_index(), Ok(2));
    assert!(!exec.enter_index(2));
    assert_eq!(exec.exit_sequence(), Ok(()));
    assert_eq!(
        exec.get_result(),
        Ok(Some(JV::Array(vec![JV::from(200), JV::from(-100)])))
    );
}

#[test]
fn test_sequence_counter() {
    let complaint = internal("Bad sequence_element state");
    let mut exec = runner("[0]");
    assert_eq!(exec.next_index().unwrap_err(), complaint);
    exec.enter_map();
    assert_eq!(exec.next_index().unwrap_err(), complaint);
    exec.enter_sequence(Some(1));
    assert_eq!(exec.next_index(), Ok(0));
    // The sequence said that it has one item.
    assert_eq!(exec.next_index().unwrap_err(), complaint);
    assert_eq!(exec.exit_sequence(), Ok(()));
    let mut exec = runner("[0]");
    exec.enter_sequence(Some(0));
    assert_eq!(exec.next_index().unwrap_err(), complaint);
    assert_eq!(
        exec.sequence_element(&Document::Unit).unwrap_err(),
        complaint
    );
}

#[test]
fn test_sequence_must_end_after_all_items() {
    let complaint = internal("Bad exit_sequence state");
    let mut exec = runner("[0]");
    assert_eq!(exec.exit_sequence().unwrap_err(), complaint);
    exec.enter_sequence(Some(2));
    assert_eq!(exec.next_index(), Ok(0));
    assert_eq!(exec.exit_sequence().unwrap_err(), complaint);
    let mut exec = runner("[0]");
    exec.enter_map();
    assert_eq!(exec.exit_sequence().unwrap_err(), complaint);
    let mut exec = runner("[0]");
    exec.enter_sequence(Some(0));
    assert_eq!(exec.exit_sequence(), Ok(()));
}

#[test]
fn test_map_by_hand() {
    let mut exec = runner(".m");
    exec.enter_map();
    exec.enter_map_key();
    assert_eq!(exec.serialize_str("m"), Ok(()));
    assert_eq!(exec.exit_map_key(), Ok(()));
    assert_eq!(exec.enter_map_value(), Ok(()));
    assert!(exec.is_match());
    exec.enter_map();
    exec.enter_map_key();
    assert_eq!(exec.serialize_unit_variant("k"), Ok(()));
    assert_eq!(exec.exit_map_key(), Ok(()));
    assert_eq!(exec.enter_map_value(), Ok(()));
    assert_eq!(exec.serialize_str("v"), Ok(()));
    assert_eq!(exec.exit_map_value(), Ok(()));
    exec.exit_map();
    assert_eq!(exec.exit_map_value(), Ok(()));
    assert!(!exec.is_match());
    exec.exit_map();
    assert_eq!(
        exec.get_result(),
        Ok(Some(object(vec![("k", JV::from("v"))])))
    );
}

#[test]
fn test_map_key_rules() {
    let mut exec = runner(".m");
    assert_eq!(
        exec.exit_map_key().unwrap_err(),
        internal("Map key not a simple String!")
    );
    exec.enter_map();
    exec.enter_map_key();
    assert_eq!(
        exec.exit_map_key().unwrap_err(),
        internal("Map key not a simple String!")
    );
    assert_eq!(exec.serialize_i32(5), Ok(()));
    assert_eq!(
        exec.exit_map_key().unwrap_err(),
        internal("Map key not a simple String!")
    );
    assert_eq!(exec.serialize_str("key"), Ok(()));
    assert_eq!(exec.exit_map_key(), Ok(()));
    assert_eq!(
        exec.serialize_str("again").unwrap_err(),
        internal("Shouldn't see multiple str for the same key!")
    );
    assert_eq!(
        exec.serialize_unit_variant("again").unwrap_err(),
        internal("Shouldn't see multiple str for the same key!")
    );
}

#[test]
fn test_map_value_rules() {
    let mut exec = runner(".m");
    assert_eq!(
        exec.enter_map_value().unwrap_err(),
        internal("Bad enter_map_value state")
    );
    exec.enter_map();
    assert_eq!(
        exec.enter_map_value().unwrap_err(),
        internal("Bad enter_map_value state")
    );
    assert_eq!(
        exec.serialize_value(&Document::Unit).unwrap_err(),
        internal("Bad enter_map_value state")
    );
    exec.enter_map_key();
    assert_eq!(
        exec.enter_map_value().unwrap_err(),
        internal("Bad enter_map_value state")
    );

    let mut exec = runner(".m");
    assert_eq!(
        exec.exit_map_value().unwrap_err(),
        internal("Expected MapValue state")
    );
    exec.enter_map();
    assert_eq!(
        exec.exit_map_value().unwrap_err(),
        internal("Expected MapValue state")
    );

    let mut exec = runner(".m");
    exec.enter_map_key();
    assert_eq!(exec.serialize_str("k"), Ok(()));
    assert_eq!(exec.enter_map_value(), Ok(()));
    assert_eq!(exec.exit_map_value(), Ok(()));
    assert_eq!(exec.relative_path(), None);
}

#[test]
fn test_struct_and_variant_by_hand() {
    let mut exec = runner(".pet");
    exec.enter_map();
    assert!(!exec.enter_name("owner"));
    assert!(exec.enter_name("pet"));
    let entered = exec.begin_variant("Cat");
    assert!(entered);
    exec.enter_map();
    assert!(exec.enter_name("lives"));
    assert_eq!(exec.serialize_u32(9), Ok(()));
    exec.exit_name(Some("lives"));
    assert!(exec.enter_name("name"));
    assert_eq!(exec.serialize_none(), Ok(()));
    exec.exit_name(Some("name"));
    exec.exit_map();
    exec.end_variant(entered);
    exec.exit_name(Some("pet"));
    exec.exit_map();
    assert_eq!(
        exec.get_result(),
        Ok(Some(object(vec![(
            "Cat",
            object(vec![("lives", JV::from(9)), ("name", JV::Null)])
        )])))
    );

    let mut exec = runner(".pet.Dog");
    exec.enter_map();
    assert!(exec.enter_name("pet"));
    let entered = exec.begin_variant("Cat");
    assert!(!entered);
    exec.end_variant(entered);
    exec.exit_name(Some("pet"));
    assert!(exec.enter_name("pet"));
    let entered = exec.begin_variant("Dog");
    assert!(entered);
    assert_eq!(exec.serialize_bool(true), Ok(()));
    exec.end_variant(entered);
    exec.exit_name(Some("pet"));
    exec.exit_map();
    assert_eq!(exec.get_result(), Ok(Some(JV::Bool(true))));
}

#[test]
fn test_scalars_by_hand() {
    let mut exec = runner(".a");
    // Nothing is recorded outside a match.
    assert_eq!(exec.serialize_bool(true), Ok(()));
    assert_eq!(exec.serialize_str("text"), Ok(()));
    assert_eq!(exec.possible_result(&Primitive::Signed(3)), Ok(()));
    exec.must_enter_name("a");
    assert_eq!(exec.serialize_unit(), Ok(()));
    assert_eq!(exec.serialize_unit_struct(), Ok(()));
    assert_eq!(exec.serialize_none(), Ok(()));
    assert_eq!(exec.serialize_bool(false), Ok(()));
    assert_eq!(exec.serialize_i8(-8), Ok(()));
    assert_eq!(exec.serialize_i16(-16), Ok(()));
    assert_eq!(exec.serialize_i32(-32), Ok(()));
    assert_eq!(exec.serialize_i64(i64::MIN), Ok(()));
    assert_eq!(exec.serialize_u8(8), Ok(()));
    assert_eq!(exec.serialize_u16(16), Ok(()));
    assert_eq!(exec.serialize_u32(32), Ok(()));
    assert_eq!(exec.serialize_u64(u64::MAX), Ok(()));
    assert_eq!(exec.serialize_char('\u{e9}'), Ok(()));
    assert_eq!(exec.serialize_str("text"), Ok(()));
    assert_eq!(exec.serialize_unit_variant("Bird"), Ok(()));
    let half = JV::from(0.5f64);
    assert_eq!(exec.possible_result(&Primitive::Json(&half)), Ok(()));
    assert_eq!(exec.possible_result(&Primitive::Unit), Ok(()));
    assert_eq!(exec.possible_result(&Primitive::Text("t")), Ok(()));
    let expected = vec![
        JV::Null,
        JV::Null,
        JV::Null,
        JV::Bool(false),
        JV::from(-8),
        JV::from(-16),
        JV::from(-32),
        JV::from(i64::MIN),
        JV::from(8),
        JV::from(16),
        JV::from(32),
        JV::from(u64::MAX),
        JV::from("\u{e9}"),
        JV::from("text"),
        JV::from("Bird"),
        JV::from(0.5f64),
        JV::Null,
        JV::from("t"),
    ];
    let found: Vec<(Vec<QueryElement>, JV)> =
        expected.into_iter().map(|value| (vec![], value)).collect();
    assert_eq!(exec.get_results(), found);
}

#[test]
fn test_get_result_counts() {
    let mut exec = runner(".a");
    exec.must_enter_name("a");
    assert_eq!(exec.serialize_u8(1), Ok(()));
    let mut twice = runner(".a");
    twice.must_enter_name("a");
    assert_eq!(twice.serialize_u8(1), Ok(()));
    assert_eq!(twice.serialize_u8(2), Ok(()));
    assert_eq!(exec.get_result(), Ok(Some(JV::from(1))));
    assert_eq!(twice.get_result(), Err(QueryExecErr::TwoMatchingPaths));
}

#[test]
fn test_primitive_to_json() {
    assert_eq!(Primitive::Unit.to_json().unwrap(), JV::Null);
    assert_eq!(Primitive::Bool(true).to_json().unwrap(), JV::Bool(true));
    assert_eq!(Primitive::Signed(-5).to_json().unwrap(), JV::from(-5));
    assert_eq!(Primitive::Signed(5).to_json().unwrap(), JV::from(5u8));
    assert_eq!(
        Primitive::Unsigned(u64::MAX).to_json().unwrap(),
        JV::from(u64::MAX)
    );
    assert_eq!(Primitive::Char('c').to_json().unwrap(), JV::from("c"));
    assert_eq!(Primitive::Text("abc").to_json().unwrap(), JV::from("abc"));
    let nested = JV::Array(vec![JV::from(1.25f64), JV::Null]);
    assert_eq!(Primitive::Json(&nested).to_json().unwrap(), nested);
}

#[test]
fn test_output_frames() {
    let mut list = OutputStackFrame::list();
    assert_eq!(list.kind(), ElementKind::List);
    assert_eq!(list.count(), 0);
    list.push_item(JV::from(1));
    list.accept(JV::from(2));
    assert_eq!(list.count(), 2);
    assert_eq!(list.first(), JV::from(1));

    let mut map = OutputStackFrame::map();
    assert_eq!(map.kind(), ElementKind::Object);
    map.push_key("a".to_string());
    map.push_value(JV::from(1));
    map.push_key("b".to_string());
    map.push(list);
    map.push_key("a".to_string());
    map.accept(JV::from(3));
    // A key without a value builds no member.
    map.push_key("late".to_string());
    assert_eq!(map.count(), 3);
    assert_eq!(map.first(), JV::from(1));

    let mut root = OutputStackFrame::default();
    assert_eq!(root.kind(), ElementKind::Root);
    root.push(map);
    assert_eq!(root.kind(), ElementKind::List);
    assert_eq!(
        root.into_received(),
        vec![object(vec![
            ("a", JV::from(3)),
            ("b", JV::Array(vec![JV::from(1), JV::from(2)])),
        ])]
    );

    assert_eq!(OutputStackFrame::list().finish(), JV::Array(vec![]));
    assert_eq!(OutputStackFrame::map().finish(), object(vec![]));
    let mut values_only = OutputStackFrame::map();
    values_only.push_value(JV::from(1));
    assert_eq!(values_only.finish(), object(vec![]));
}

#[test]
fn test_search_gives_every_match() {
    let data = Document::Mapping(vec![
        (Document::Text("k".to_string()), Document::Signed(1)),
        (Document::Text("other".to_string()), Document::Signed(2)),
        (
            Document::Text("k".to_string()),
            Document::Sequence(vec![Document::Signed(3)]),
        ),
    ]);
    let query = JSONQuery::parse(".k").unwrap();
    assert_eq!(
        query.search(&data),
        Ok(vec![
            (vec![], JV::from(1)),
            (vec![], JV::Array(vec![JV::from(3)])),
        ])
    );
    assert_eq!(
        JSONQuery::parse(".other").unwrap().search(&data),
        Ok(vec![(vec![], JV::from(2))])
    );
    assert_eq!(JSONQuery::parse(".none").unwrap().search(&data), Ok(vec![]));
    assert_eq!(
        JSONQuery::new(vec![]).search(&data),
        Err(QueryExecErr::EmptyQuery)
    );
    let broken = Document::Sequence(vec![Document::Unrepresentable("no".to_string())]);
    assert_eq!(
        JSONQuery::parse("[0]").unwrap().search(&broken),
        Err(QueryExecErr::Serialization("no".to_string()))
    );
}

#[test]
fn test_document_drives_the_executor() {
    let mut exec = runner(".a[0]");
    let data = Document::Struct(vec![
        (
            "a".to_string(),
            Document::Sequence(vec![Document::Char('x'), Document::Char('y')]),
        ),
        ("b".to_string(), Document::Unit),
    ]);
    assert_eq!(data.serialize(&mut exec), Ok(()));
    // The traversal leaves the executor where it found it.
    assert_eq!(exec.relative_path(), None);
    assert!(matches!(exec.next_step(), NextStep::Found(QueryElement::Field(name)) if name == "a"));
    assert_eq!(exec.get_result(), Ok(Some(JV::from("x"))));

    let mut exec = runner(".a");
    assert_eq!(
        exec.serialize_field("a", &Document::Present(Box::new(Document::Bool(true)))),
        Ok(())
    );
    assert_eq!(exec.serialize_field("b", &Document::Bool(false)), Ok(()));
    assert_eq!(
        exec.serialize_newtype_variant("a", &Document::Signed(1)),
        Ok(())
    );
    assert_eq!(exec.serialize_some(&Document::Signed(2)), Ok(()));
    assert_eq!(exec.serialize_newtype_struct(&Document::Signed(2)), Ok(()));
    assert_eq!(
        exec.serialize_tuple_variant("a", &vec![Document::Signed(3)]),
        Ok(())
    );
    assert_eq!(
        exec.serialize_struct_variant("a", &vec![("x".to_string(), Document::Signed(4))]),
        Ok(())
    );
    assert_eq!(
        exec.serialize_struct(&vec![("a".to_string(), Document::Signed(5))]),
        Ok(())
    );
    assert_eq!(
        exec.serialize_map(&vec![(Document::Text("a".to_string()), Document::Signed(6))]),
        Ok(())
    );
    assert_eq!(exec.serialize_seq(&vec![Document::Signed(7)]), Ok(()));
    assert_eq!(
        exec.serialize_key(&Document::Signed(1)).unwrap_err(),
        internal("Map key not a simple String!")
    );
    assert_eq!(
        exec.get_results(),
        vec![
            (vec![], JV::Bool(true)),
            (vec![], JV::from(1)),
            (vec![], JV::Array(vec![JV::from(3)])),
            (vec![], object(vec![("x", JV::from(4))])),
            (vec![], JV::from(5)),
            (vec![], JV::from(6)),
        ]
    );
}

#[test]
fn test_failed_entry_end_takes_markers() {
    // The marker on top is taken also where it is not that of a value.
    let mut exec = runner("[0]");
    exec.enter_sequence(Some(1));
    assert_eq!(
        exec.exit_map_value().unwrap_err(),
        internal("Expected MapValue state")
    );
    assert_eq!(
        exec.next_index().unwrap_err(),
        internal("Bad sequence_element state")
    );

    let mut exec = runner("[0]");
    exec.enter_sequence(Some(1));
    assert_eq!(exec.next_index(), Ok(0));

    // The marker below that of the value is taken too.
    let mut exec = runner(".k");
    exec.enter_sequence(Some(1));
    exec.enter_map_key();
    assert_eq!(exec.serialize_str("k"), Ok(()));
    assert_eq!(exec.enter_map_value(), Ok(()));
    assert!(exec.is_match());
    assert_eq!(exec.exit_map_value(), Ok(()));
    assert!(!exec.is_match());
    assert_eq!(exec.next_index(), Ok(0));
}

#[test]
fn test_json_error_becomes_internal_error() {
    let broken = || serde_json::from_str::<JV>("{").unwrap_err();
    let expected = format!("{:?}", broken());
    assert_eq!(
        QueryExecErr::from(broken()),
        QueryExecErr::InternalError(expected)
    );
}
