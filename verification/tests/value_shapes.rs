use phonograph::types::{matches_descriptor, ValueShape, ValueTypeDescriptor};

fn list_of(d: ValueTypeDescriptor) -> ValueTypeDescriptor {
    ValueTypeDescriptor::List(Box::new(d))
}

#[test]
fn any_matches_everything() {
    let cases = vec![
        ValueShape::Null,
        ValueShape::Bool,
        ValueShape::I64,
        ValueShape::U64,
        ValueShape::F64,
        ValueShape::String,
        ValueShape::Bytes,
        ValueShape::NodeRef,
        ValueShape::LangString,
        ValueShape::List(vec![]),
    ];
    for v in &cases {
        assert!(matches_descriptor(v, &ValueTypeDescriptor::Any), "Any should match {:?}", v);
    }
}

#[test]
fn null_matches_only_any() {
    let descriptors = [
        ValueTypeDescriptor::Bool,
        ValueTypeDescriptor::I64,
        ValueTypeDescriptor::U64,
        ValueTypeDescriptor::F64,
        ValueTypeDescriptor::String,
        ValueTypeDescriptor::Bytes,
        ValueTypeDescriptor::NodeRef,
        ValueTypeDescriptor::LangString,
        list_of(ValueTypeDescriptor::Any),
    ];
    for d in &descriptors {
        assert!(!matches_descriptor(&ValueShape::Null, d), "Null should not match {:?}", d);
    }
}

#[test]
fn specific_matches() {
    assert!(matches_descriptor(&ValueShape::Bool, &ValueTypeDescriptor::Bool));
    assert!(matches_descriptor(&ValueShape::I64, &ValueTypeDescriptor::I64));
    assert!(matches_descriptor(&ValueShape::U64, &ValueTypeDescriptor::U64));
    assert!(matches_descriptor(&ValueShape::F64, &ValueTypeDescriptor::F64));
    assert!(matches_descriptor(&ValueShape::String, &ValueTypeDescriptor::String));
    assert!(matches_descriptor(&ValueShape::Bytes, &ValueTypeDescriptor::Bytes));
    assert!(matches_descriptor(&ValueShape::NodeRef, &ValueTypeDescriptor::NodeRef));
}

#[test]
fn string_descriptor_matches_lang_string() {
    assert!(matches_descriptor(&ValueShape::LangString, &ValueTypeDescriptor::String));
}

#[test]
fn lang_string_descriptor_matches_lang_string_only() {
    assert!(matches_descriptor(&ValueShape::LangString, &ValueTypeDescriptor::LangString));
    assert!(!matches_descriptor(&ValueShape::String, &ValueTypeDescriptor::LangString));
}

#[test]
fn list_homogeneous_match() {
    let v = ValueShape::List(vec![ValueShape::I64, ValueShape::I64]);
    assert!(matches_descriptor(&v, &list_of(ValueTypeDescriptor::I64)));
}

#[test]
fn list_heterogeneous_no_match() {
    let v = ValueShape::List(vec![ValueShape::I64, ValueShape::String]);
    assert!(!matches_descriptor(&v, &list_of(ValueTypeDescriptor::I64)));
}

#[test]
fn empty_list_matches_any_list_descriptor() {
    let v = ValueShape::List(vec![]);
    assert!(matches_descriptor(&v, &list_of(ValueTypeDescriptor::Any)));
    assert!(matches_descriptor(&v, &list_of(ValueTypeDescriptor::I64)));
    assert!(matches_descriptor(&v, &list_of(ValueTypeDescriptor::Bool)));
}

#[test]
fn non_matching_pairs() {
    assert!(!matches_descriptor(&ValueShape::Bool, &ValueTypeDescriptor::I64));
    assert!(!matches_descriptor(&ValueShape::I64, &ValueTypeDescriptor::Bool));
    assert!(!matches_descriptor(&ValueShape::String, &ValueTypeDescriptor::Bytes));
    assert!(!matches_descriptor(&ValueShape::I64, &list_of(ValueTypeDescriptor::I64)));
}

#[test]
fn nested_lists_match_element_wise() {
    let v = ValueShape::List(vec![ValueShape::List(vec![ValueShape::LangString]), ValueShape::List(vec![])]);
    assert!(matches_descriptor(&v, &list_of(list_of(ValueTypeDescriptor::String))));
    assert!(!matches_descriptor(&v, &list_of(list_of(ValueTypeDescriptor::Bytes))));
    assert!(!matches_descriptor(&v, &list_of(ValueTypeDescriptor::String)));
}
