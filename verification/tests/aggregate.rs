use astarte_device_sdk_derive::aggregate::{
    copy_generics, field_idents, parse_struct_fields, AggregateAttributes, AggregateDerive,
    EncodeError, EncodeStep, Encoder,
};
use astarte_device_sdk_derive::case::RenameRule;
use astarte_device_sdk_derive::error::{BuildError, ErrorKind, Origin, Reason};
use astarte_device_sdk_derive::schema::{
    copy_texts, Attribute, Data, Declaration, Field, Fields, GenericParam, Meta, Variant,
};
use std::cell::RefCell;

const BOUND: &str = "std::convert::TryInto<astarte_device_sdk::types::AstarteType, Error = astarte_device_sdk::error::Error>";

fn aggregate(tokens: &str) -> Attribute {
    Attribute { ident: Some("astarte_aggregate".to_string()), meta: Meta::List(tokens.to_string()) }
}

fn named(ident: &str) -> Field {
    Field { ident: Some(ident.to_string()), attrs: Vec::new() }
}

fn record(name: &str, attrs: Vec<Attribute>, fields: &[&str]) -> Declaration {
    Declaration {
        name: name.to_string(),
        attrs,
        generics: Vec::new(),
        data: Data::Struct(Fields::Named(fields.iter().map(|ident| named(ident)).collect())),
    }
}

fn shaped(data: Data) -> Declaration {
    Declaration { name: "Foo".to_string(), attrs: Vec::new(), generics: Vec::new(), data }
}

fn whole(reason: Reason) -> BuildError {
    BuildError { reason, origin: Origin { member: None, attribute: None, entry: None } }
}

fn step(field: &str, key: &str) -> EncodeStep {
    EncodeStep { field: field.to_string(), key: key.to_string() }
}

#[test]
fn record_with_camel_case_is_encoded_under_renamed_keys() {
    let ast = record("Foo", vec![aggregate("rename_all = \"camelCase\"")], &["bar_v"]);
    let encoder = AggregateDerive::parse(&ast).unwrap().quote();
    let instance = ["x"];
    let mapping = encoder
        .encode(|i| Ok::<String, ()>(instance[i].to_string()))
        .unwrap();
    assert_eq!(mapping.len(), 1);
    assert_eq!(mapping.get("barV"), Some(&"x".to_string()));
    assert_eq!(mapping.get("bar_v"), None);
}

#[test]
fn record_without_configuration_keeps_the_identifiers() {
    let ast = record("Foo", Vec::new(), &["bar_v", "baz"]);
    let derive = AggregateDerive::parse(&ast).unwrap();
    assert_eq!(derive.name, "Foo");
    assert_eq!(derive.attrs, AggregateAttributes { rename_all: None });
    assert_eq!(derive.fields, vec!["bar_v".to_string(), "baz".to_string()]);
    assert_eq!(derive.generics, vec![]);
    let encoder = derive.quote();
    assert_eq!(encoder.name, "Foo");
    assert_eq!(encoder.steps, vec![step("bar_v", "bar_v"), step("baz", "baz")]);
}

#[test]
fn every_field_gets_one_step_in_order() {
    let ast = record(
        "Sensor",
        vec![aggregate("rename_all = \"kebab-case\"")],
        &["first_value", "second_value", "third"],
    );
    let encoder = AggregateDerive::parse(&ast).unwrap().quote();
    assert_eq!(
        encoder.steps,
        vec![
            step("first_value", "first-value"),
            step("second_value", "second-value"),
            step("third", "third"),
        ]
    );
}

#[test]
fn record_without_fields_encodes_to_an_empty_mapping() {
    let encoder = AggregateDerive::parse(&record("Empty", Vec::new(), &[])).unwrap().quote();
    assert_eq!(encoder.steps, vec![]);
    let mapping = encoder.encode(|_| Ok::<u8, ()>(0)).unwrap();
    assert!(mapping.is_empty());
    assert_eq!(mapping.len(), 0);
}

#[test]
fn tuple_struct_is_an_error_of_shape() {
    let error = AggregateDerive::parse(&shaped(Data::Struct(Fields::Unnamed(2)))).unwrap_err();
    assert_eq!(error, whole(Reason::NotNamedStruct));
    assert_eq!(error.kind(), ErrorKind::Shape);
    assert_eq!(error.message(), "a named struct is required");
}

#[test]
fn unit_struct_is_an_error_of_shape() {
    let error = AggregateDerive::parse(&shaped(Data::Struct(Fields::Unit))).unwrap_err();
    assert_eq!(error, whole(Reason::NotNamedStruct));
    assert_eq!(error.kind(), ErrorKind::Shape);
}

#[test]
fn enum_and_union_are_errors_of_shape() {
    let variants = vec![Variant { ident: "A".to_string(), fields: Fields::Unit, attrs: Vec::new() }];
    assert_eq!(
        AggregateDerive::parse(&shaped(Data::Enum(variants))).unwrap_err().kind(),
        ErrorKind::Shape
    );
    assert_eq!(AggregateDerive::parse(&shaped(Data::Union)), Err(whole(Reason::NotNamedStruct)));
}

#[test]
fn shape_is_checked_before_the_configuration() {
    let mut ast = shaped(Data::Struct(Fields::Unnamed(1)));
    ast.attrs = vec![aggregate("rename_all = \"bogus\", what")];
    assert_eq!(AggregateDerive::parse(&ast), Err(whole(Reason::NotNamedStruct)));
}

#[test]
fn field_without_identifier_is_reported_at_the_field() {
    let fields = vec![named("a"), Field { ident: None, attrs: Vec::new() }, named("c")];
    let expected = BuildError {
        reason: Reason::FieldNotIdent,
        origin: Origin { member: Some(1), attribute: None, entry: None },
    };
    assert_eq!(field_idents(&fields), Err(expected));
    assert_eq!(parse_struct_fields(&shaped(Data::Struct(Fields::Named(fields)))), Err(expected));
    assert_eq!(expected.kind(), ErrorKind::Shape);
    assert_eq!(expected.message(), "field is not an ident");
}

#[test]
fn fields_of_a_named_struct_are_read_in_order() {
    let ast = record("Foo", Vec::new(), &["a", "b_c"]);
    assert_eq!(parse_struct_fields(&ast), Ok(vec!["a".to_string(), "b_c".to_string()]));
}

#[test]
fn configuration_errors_of_a_record_are_placed() {
    let ast = record(
        "Foo",
        vec![aggregate("rename_all = \"camelCase\""), aggregate("rename_all = \"nope\"")],
        &["a"],
    );
    assert_eq!(
        AggregateDerive::parse(&ast),
        Err(BuildError {
            reason: Reason::InvalidRenameRule,
            origin: Origin { member: None, attribute: Some(1), entry: Some(0) },
        })
    );
    let ast = record("Foo", vec![aggregate("path = \"/x\"")], &["a"]);
    assert_eq!(AggregateDerive::parse(&ast).unwrap_err().kind(), ErrorKind::UnknownOption);
}

#[test]
fn later_block_overrides_the_rule() {
    let ast = record(
        "Foo",
        vec![aggregate("rename_all = \"camelCase\""), aggregate("rename_all = \"UPPERCASE\"")],
        &["bar_v"],
    );
    let derive = AggregateDerive::parse(&ast).unwrap();
    assert_eq!(derive.attrs.rename_all, Some(RenameRule::UpperCase));
    assert_eq!(derive.quote().steps, vec![step("bar_v", "BAR_V")]);
}

#[test]
fn type_parameters_get_the_conversion_bound() {
    let generics = vec![
        GenericParam::Lifetime("'a".to_string()),
        GenericParam::Type { name: "T".to_string(), bounds: vec!["Clone".to_string()] },
        GenericParam::Const("N".to_string()),
        GenericParam::Type { name: "U".to_string(), bounds: Vec::new() },
    ];
    assert_eq!(
        AggregateDerive::add_trait_bound(generics),
        vec![
            GenericParam::Lifetime("'a".to_string()),
            GenericParam::Type {
                name: "T".to_string(),
                bounds: vec!["Clone".to_string(), BOUND.to_string()],
            },
            GenericParam::Const("N".to_string()),
            GenericParam::Type { name: "U".to_string(), bounds: vec![BOUND.to_string()] },
        ]
    );
    assert_eq!(AggregateDerive::add_trait_bound(Vec::new()), vec![]);
}

#[test]
fn generics_of_the_declaration_are_bounded_and_carried_over() {
    let mut ast = record("Foo", Vec::new(), &["a"]);
    ast.generics = vec![GenericParam::Type { name: "T".to_string(), bounds: Vec::new() }];
    let derive = AggregateDerive::parse(&ast).unwrap();
    let bounded = vec![GenericParam::Type { name: "T".to_string(), bounds: vec![BOUND.to_string()] }];
    assert_eq!(derive.generics, bounded);
    assert_eq!(derive.quote().generics, bounded);
}

#[test]
fn copies_hold_the_same_values() {
    let texts = vec!["a".to_string(), "".to_string(), "b c".to_string()];
    assert_eq!(copy_texts(&texts), texts);
    let generics = vec![
        GenericParam::Type { name: "T".to_string(), bounds: texts },
        GenericParam::Lifetime("'a".to_string()),
        GenericParam::Const("N".to_string()),
    ];
    assert_eq!(copy_generics(&generics), generics);
}

#[test]
fn first_failed_conversion_ends_the_encoding() {
    let encoder = Encoder {
        name: "Foo".to_string(),
        generics: Vec::new(),
        steps: vec![step("a", "a"), step("b", "b"), step("c", "c"), step("d", "d")],
    };
    let asked = RefCell::new(Vec::new());
    let result = encoder.encode(|i| {
        asked.borrow_mut().push(i);
        if i == 1 || i == 2 {
            Err(format!("bad {i}"))
        } else {
            Ok(i)
        }
    });
    assert_eq!(
        result.err(),
        Some(EncodeError::Conversion { field: 1, error: "bad 1".to_string() })
    );
    assert_eq!(asked.into_inner(), vec![0, 1]);
}

#[test]
fn every_field_is_converted_once_in_order() {
    let encoder = Encoder {
        name: "Foo".to_string(),
        generics: Vec::new(),
        steps: vec![step("a", "x"), step("b", "y"), step("c", "z")],
    };
    let asked = RefCell::new(Vec::new());
    let mapping = encoder
        .encode(|i| {
            asked.borrow_mut().push(i);
            Ok::<usize, ()>(i * 10)
        })
        .unwrap();
    assert_eq!(asked.into_inner(), vec![0, 1, 2]);
    assert_eq!(mapping.len(), 3);
    assert_eq!(mapping.get("x"), Some(&0));
    assert_eq!(mapping.get("y"), Some(&10));
    assert_eq!(mapping.get("z"), Some(&20));
    assert!(mapping.contains_key("z"));
    assert!(!mapping.contains_key("a"));
}

#[test]
fn later_field_replaces_an_earlier_one_of_the_same_name() {
    let ast = record("Foo", vec![aggregate("rename_all = \"camelCase\"")], &["a_b", "aB"]);
    let encoder = AggregateDerive::parse(&ast).unwrap().quote();
    assert_eq!(encoder.steps, vec![step("a_b", "aB"), step("aB", "aB")]);
    let mapping = encoder.encode(|i| Ok::<usize, ()>(i + 1)).unwrap();
    assert_eq!(mapping.len(), 1);
    assert_eq!(mapping.get("aB"), Some(&2));
}
