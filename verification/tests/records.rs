use proots::record::{
    Annotation, BuildError, FieldName, ItemError, ResolveError, SchemaError, Sequence,
    ValidationError, make_sequence_record,
};
use proots::codec::encode_value;
use proots::store::{MemStore, StoreError};
use proots::value::{Entry, Identifier, Value};

fn annotation(addr: &str, from: u64, end: u64, cmt: &str) -> Annotation {
    Annotation::new(String::from(addr), from, end, String::from(cmt)).expect("ordered span")
}

#[test]
fn annotation_structured_round_trip() {
    let a = annotation("addr-a", 20, 25, "The segment looks very important!");
    let v = a.to_structured();
    let back = Annotation::from_structured(&v).expect("round trip");
    assert_eq!(back, a);
}

#[test]
fn annotation_new_rejects_backwards_span() {
    let r = Annotation::new(String::from("a"), 10, 5, String::from("c"));
    assert_eq!(r, Err(ValidationError));
}

#[test]
fn from_structured_rejects_non_mapping() {
    assert_eq!(
        Annotation::from_structured(&Value::Int(3)),
        Err(SchemaError::NotAMap)
    );
}

#[test]
fn from_structured_reports_missing_comment() {
    let v = Value::Mapping(vec![
        Entry {
            key: String::from("Type"),
            value: Value::Str(String::from("annotation")),
        },
        Entry {
            key: String::from("Addr"),
            value: Value::Str(String::from("addr-a")),
        },
        Entry {
            key: String::from("From"),
            value: Value::Int(1),
        },
        Entry {
            key: String::from("End"),
            value: Value::Int(2),
        },
    ]);
    assert_eq!(
        Annotation::from_structured(&v),
        Err(SchemaError::MissingField(FieldName::KeyCmt))
    );
}

#[test]
fn from_structured_reports_wrong_field_kind() {
    let v = Value::Mapping(vec![
        Entry {
            key: String::from("Type"),
            value: Value::Str(String::from("annotation")),
        },
        Entry {
            key: String::from("Addr"),
            value: Value::Int(7),
        },
    ]);
    assert_eq!(
        Annotation::from_structured(&v),
        Err(SchemaError::WrongType(FieldName::KeyAddr))
    );
}

#[test]
fn from_structured_reports_foreign_kind_tag() {
    let v = Value::Mapping(vec![Entry {
        key: String::from("Type"),
        value: Value::Str(String::from("sequence")),
    }]);
    assert_eq!(Annotation::from_structured(&v), Err(SchemaError::WrongKind));
}

#[test]
fn from_structured_reports_backwards_span() {
    let mut a = annotation("a", 0, 0, "c").to_structured();
    if let Value::Mapping(entries) = &mut a {
        entries[2].value = Value::Int(10);
        entries[3].value = Value::Int(5);
    }
    assert_eq!(Annotation::from_structured(&a), Err(SchemaError::InvalidSpan));
}

#[test]
fn add_annotation_rejects_backwards_span_and_keeps_original() {
    let s = Sequence::new(String::from("addr1"), String::from("AATCG"));
    let r = s.add_annotation(String::from("a"), 10, 5, String::from("c"));
    assert_eq!(r, Err(ValidationError));
    assert_eq!(s.annotations().len(), 0);
    assert_eq!(s.address().as_str(), "addr1");
    assert_eq!(s.sequence_data().as_str(), "AATCG");
}

#[test]
fn empty_sequence_builds_and_resolves_to_itself() {
    let s = Sequence::new(String::from("addr1"), String::from("AATCG"));
    let mut store = MemStore::new();
    let id = s.build(&mut store).expect("build succeeds");
    let back = Sequence::resolve(&id, &store).expect("resolve succeeds");
    assert_eq!(back, s);
    assert_eq!(back.annotations().len(), 0);
}

#[test]
fn sequence_with_annotations_round_trips_in_order() {
    let s = Sequence::new(String::from("addr1"), String::from("AATCGATTACA"))
        .add_annotation(String::from("a0"), 0, 3, String::from("first"))
        .unwrap()
        .add_annotation(String::from("a1"), 3, 7, String::from("second"))
        .unwrap()
        .add_annotation(String::from("a2"), 7, 11, String::from("third"))
        .unwrap();
    let mut store = MemStore::new();
    let id = s.build(&mut store).expect("build succeeds");
    let back = Sequence::resolve(&id, &store).expect("resolve succeeds");
    assert_eq!(back, s);
    let comments: Vec<&str> = back
        .annotations()
        .iter()
        .map(|a| a.comment().as_str())
        .collect();
    assert_eq!(comments, vec!["first", "second", "third"]);
}

#[test]
fn resolve_keeps_order_even_when_store_was_filled_backwards() {
    // The children's records reach the store in reverse order, as if their
    // concurrent uploads finished late-first; the resolved list must still
    // follow the record's link order, not the store's arrival order.
    let a0 = annotation("a0", 0, 3, "first");
    let a1 = annotation("a1", 3, 7, "second");
    let a2 = annotation("a2", 7, 11, "third");
    let mut store = MemStore::new();
    store.put(&encode_value(&a2.to_structured())).unwrap();
    store.put(&encode_value(&a1.to_structured())).unwrap();
    store.put(&encode_value(&a0.to_structured())).unwrap();
    let s = Sequence::new(String::from("addr1"), String::from("AATCGATTACA"))
        .add_annotation(String::from("a0"), 0, 3, String::from("first"))
        .unwrap()
        .add_annotation(String::from("a1"), 3, 7, String::from("second"))
        .unwrap()
        .add_annotation(String::from("a2"), 7, 11, String::from("third"))
        .unwrap();
    let id = s.build(&mut store).expect("build succeeds");
    let back = Sequence::resolve(&id, &store).expect("resolve succeeds");
    let comments: Vec<&str> = back
        .annotations()
        .iter()
        .map(|a| a.comment().as_str())
        .collect();
    assert_eq!(comments, vec!["first", "second", "third"]);
}

#[test]
fn building_twice_yields_the_same_identifier() {
    let s = Sequence::new(String::from("addr1"), String::from("AATCG"))
        .add_annotation(String::from("a0"), 1, 2, String::from("note"))
        .unwrap();
    let mut store = MemStore::new();
    let first = s.build(&mut store).expect("build succeeds");
    let second = s.build(&mut store).expect("rebuild succeeds");
    assert_eq!(first, second);
}

#[test]
fn equal_sequences_build_to_equal_identifiers() {
    let mut store_a = MemStore::new();
    let mut store_b = MemStore::new();
    let s1 = Sequence::new(String::from("addr1"), String::from("AATCG"));
    let s2 = Sequence::new(String::from("addr1"), String::from("AATCG"));
    let id1 = s1.build(&mut store_a).unwrap();
    let id2 = s2.build(&mut store_b).unwrap();
    assert_eq!(id1, id2);
}

#[test]
fn resolving_a_missing_second_child_names_index_one() {
    let a0 = annotation("a0", 0, 3, "present");
    let mut store = MemStore::new();
    let id0 = store.put(&encode_value(&a0.to_structured())).unwrap();
    let bogus = Identifier::from_bytes(vec![1, 2, 3, 4]);
    let record = make_sequence_record(
        &String::from("addr1"),
        &String::from("AATCG"),
        &vec![id0, bogus],
    );
    let root = store.put(&encode_value(&record)).unwrap();
    let r = Sequence::resolve(&root, &store);
    assert_eq!(
        r,
        Err(ResolveError::Annotation(
            1,
            ItemError::Store(StoreError::NotFound)
        ))
    );
}

#[test]
fn resolving_an_unknown_root_is_not_found() {
    let store = MemStore::new();
    let r = Sequence::resolve(&Identifier::from_bytes(vec![5, 5]), &store);
    assert_eq!(r, Err(ResolveError::Store(StoreError::NotFound)));
}

#[test]
fn resolving_a_child_that_is_no_annotation_reports_its_schema() {
    let mut store = MemStore::new();
    let junk = store
        .put(&encode_value(&Value::Str(String::from("not a record"))))
        .unwrap();
    let record = make_sequence_record(
        &String::from("addr1"),
        &String::from("AATCG"),
        &vec![junk],
    );
    let root = store.put(&encode_value(&record)).unwrap();
    let r = Sequence::resolve(&root, &store);
    assert_eq!(
        r,
        Err(ResolveError::Annotation(
            0,
            ItemError::Schema(SchemaError::NotAMap)
        ))
    );
}

#[test]
fn resolving_bytes_that_are_no_record_is_a_decode_error() {
    let mut store = MemStore::new();
    let root = store.put(&vec![255, 255, 255]).unwrap();
    let r = Sequence::resolve(&root, &store);
    assert_eq!(r, Err(ResolveError::Decode));
}

#[test]
fn build_error_variants_carry_the_failing_index() {
    // No store failure is reachable through an in-memory store that is
    // used correctly, so the variants are checked structurally.
    let e = BuildError::Annotation(3, StoreError::WriteError);
    assert_eq!(e, BuildError::Annotation(3, StoreError::WriteError));
    assert_ne!(e, BuildError::Store(StoreError::WriteError));
}
