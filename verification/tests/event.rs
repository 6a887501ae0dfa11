use astarte_device_sdk_derive::aggregate::AggregateDerive;
use astarte_device_sdk_derive::attrs::{AttrKind, NameValue, NameValues};
use astarte_device_sdk_derive::case::RenameRule;
use astarte_device_sdk_derive::error::{BuildError, ErrorKind, Origin, Reason};
use astarte_device_sdk_derive::event::{
    bind_field, bind_fields, bind_variant, bind_variants, get_aggregation, Aggregation,
    DecodeError, FieldBinding, FromEventAttrs, FromEventDerive, IndividualDecoder, MappingAttrs,
    ObjectDecoder, Selected, VariantBinding,
};
use astarte_device_sdk_derive::mapping::Mapping;
use astarte_device_sdk_derive::schema::{
    Attribute, Data, Declaration, Field, Fields, GenericParam, Meta, Variant,
};
use astarte_device_sdk_derive::tokens::AttrValue;
use std::cell::RefCell;

fn attr(name: &str, tokens: &str) -> Attribute {
    Attribute { ident: Some(name.to_string()), meta: Meta::List(tokens.to_string()) }
}

fn field(ident: &str, attrs: Vec<Attribute>) -> Field {
    Field { ident: Some(ident.to_string()), attrs }
}

fn variant(ident: &str, fields: Fields, attrs: Vec<Attribute>) -> Variant {
    Variant { ident: ident.to_string(), fields, attrs }
}

fn declaration(attrs: Vec<Attribute>, data: Data) -> Declaration {
    Declaration { name: "Sensor".to_string(), attrs, generics: Vec::new(), data }
}

fn sensor() -> Declaration {
    declaration(
        vec![attr("from_event", "interface = \"com.example.Sensor\", aggregation = \"individual\"")],
        Data::Enum(vec![
            variant(
                "Luminosity",
                Fields::Unnamed(1),
                vec![attr("mapping", "endpoint = \"/sensor/luminosity\"")],
            ),
            variant(
                "Temperature",
                Fields::Unnamed(1),
                vec![attr("mapping", "endpoint = \"/sensor/temperature\", allow_unset = true")],
            ),
        ]),
    )
}

fn individual(ast: &Declaration) -> IndividualDecoder {
    match FromEventDerive::parse(ast).unwrap() {
        FromEventDerive::Individual(decoder) => decoder,
        FromEventDerive::Object(_) => panic!("an enum decodes by endpoint"),
    }
}

fn object(ast: &Declaration) -> ObjectDecoder {
    match FromEventDerive::parse(ast).unwrap() {
        FromEventDerive::Object(decoder) => decoder,
        FromEventDerive::Individual(_) => panic!("a struct decodes as an object"),
    }
}

fn placed(reason: Reason, member: Option<usize>, attribute: Option<usize>, entry: Option<usize>) -> BuildError {
    BuildError { reason, origin: Origin { member, attribute, entry } }
}

fn binding(ident: &str, key: &str, optional: bool) -> FieldBinding {
    FieldBinding { ident: ident.to_string(), key: key.to_string(), optional }
}

fn entries(pairs: &[(&str, i64)]) -> Mapping<i64> {
    let mut mapping = Mapping::new();
    for (name, value) in pairs {
        mapping.insert(name.to_string(), *value);
    }
    mapping
}

fn halve(_: usize, value: &i64) -> Result<i64, String> {
    if value % 2 == 0 {
        Ok(value / 2)
    } else {
        Err(format!("{value} is odd"))
    }
}

#[test]
fn absent_payload_on_an_endpoint_that_allows_it_gives_an_empty_variant() {
    let decoder = individual(&sensor());
    let decoded = decoder.decode("/sensor/temperature", None, |_, value: &f64| Ok::<f64, ()>(*value));
    assert_eq!(decoded, Ok(Selected { variant: 1, value: None }));
    assert_eq!(decoder.variants[1].ident, "Temperature");
}

#[test]
fn present_payload_is_converted_into_the_variant() {
    let decoder = individual(&sensor());
    let decoded =
        decoder.decode("/sensor/temperature", Some(&21.5), |_, value: &f64| Ok::<f64, ()>(*value));
    assert_eq!(decoded, Ok(Selected { variant: 1, value: Some(21.5) }));
    let decoded =
        decoder.decode("/sensor/luminosity", Some(&3.0), |i, value: &f64| Ok::<f64, ()>(*value + i as f64));
    assert_eq!(decoded, Ok(Selected { variant: 0, value: Some(3.0) }));
}

#[test]
fn path_without_variant_is_an_unknown_endpoint() {
    let decoder = individual(&sensor());
    for path in ["/sensor/humidity", "/sensor/temperature/", "sensor/temperature", "", "/sensor"] {
        let decoded = decoder.decode(path, Some(&1.0), |_, value: &f64| Ok::<f64, ()>(*value));
        assert_eq!(decoded, Err(DecodeError::UnknownEndpoint), "{path}");
    }
    let decoded = decoder.decode("/sensor/humidity", None, |_, value: &f64| Ok::<f64, ()>(*value));
    assert_eq!(decoded, Err(DecodeError::UnknownEndpoint));
}

#[test]
fn absent_payload_on_an_endpoint_that_needs_one_is_a_missing_value() {
    let decoder = individual(&sensor());
    let decoded = decoder.decode("/sensor/luminosity", None, |_, value: &f64| Ok::<f64, ()>(*value));
    assert_eq!(decoded, Err(DecodeError::MissingValue { variant: 0 }));
}

#[test]
fn failed_conversion_of_a_payload_is_passed_on() {
    let decoder = individual(&sensor());
    let decoded = decoder.decode("/sensor/temperature", Some(&3), halve);
    assert_eq!(decoded, Err(DecodeError::Conversion { member: 1, error: "3 is odd".to_string() }));
    assert_eq!(decoder.decode("/sensor/temperature", Some(&4), halve), Ok(Selected { variant: 1, value: Some(2) }));
}

#[test]
fn conversion_is_not_called_without_a_payload_or_a_variant() {
    let decoder = individual(&sensor());
    let calls = RefCell::new(0);
    let count = |_: usize, value: &i64| {
        *calls.borrow_mut() += 1;
        Ok::<i64, ()>(*value)
    };
    let _ = decoder.decode("/nowhere", Some(&1), &count);
    let _ = decoder.decode("/sensor/temperature", None, &count);
    let _ = decoder.decode("/sensor/luminosity", None, &count);
    assert_eq!(*calls.borrow(), 0);
    let _ = decoder.decode("/sensor/luminosity", Some(&1), &count);
    assert_eq!(*calls.borrow(), 1);
}

#[test]
fn first_variant_of_an_endpoint_is_selected() {
    let decoder = IndividualDecoder {
        name: "Twice".to_string(),
        generics: Vec::new(),
        interface: None,
        variants: vec![
            VariantBinding { ident: "A".to_string(), endpoint: "/a".to_string(), allow_unset: false },
            VariantBinding { ident: "B".to_string(), endpoint: "/b".to_string(), allow_unset: false },
            VariantBinding { ident: "C".to_string(), endpoint: "/b".to_string(), allow_unset: true },
        ],
    };
    assert_eq!(decoder.find_endpoint("/a"), Some(0));
    assert_eq!(decoder.find_endpoint("/b"), Some(1));
    assert_eq!(decoder.find_endpoint("/c"), None);
    assert_eq!(
        decoder.decode("/b", None, |_, value: &i64| Ok::<i64, ()>(*value)),
        Err(DecodeError::MissingValue { variant: 1 })
    );
}

#[test]
fn enum_resolves_to_its_endpoints() {
    let decoder = individual(&sensor());
    assert_eq!(decoder.name, "Sensor");
    assert_eq!(decoder.interface, Some("com.example.Sensor".to_string()));
    assert_eq!(
        decoder.variants,
        vec![
            VariantBinding {
                ident: "Luminosity".to_string(),
                endpoint: "/sensor/luminosity".to_string(),
                allow_unset: false,
            },
            VariantBinding {
                ident: "Temperature".to_string(),
                endpoint: "/sensor/temperature".to_string(),
                allow_unset: true,
            },
        ]
    );
}

#[test]
fn struct_resolves_to_its_renamed_fields() {
    let ast = declaration(
        vec![attr(
            "from_event",
            "interface = \"com.example.Foo\", path = \"/obj\", rename_all = \"camelCase\"",
        )],
        Data::Struct(Fields::Named(vec![
            field("bar_v", Vec::new()),
            field("other_one", vec![attr("mapping", "allow_unset = true")]),
            field("plain", vec![attr("mapping", "allow_unset = false")]),
        ])),
    );
    let decoder = object(&ast);
    assert_eq!(decoder.name, "Sensor");
    assert_eq!(decoder.interface, Some("com.example.Foo".to_string()));
    assert_eq!(decoder.path, Some("/obj".to_string()));
    assert_eq!(
        decoder.fields,
        vec![
            binding("bar_v", "barV", false),
            binding("other_one", "otherOne", true),
            binding("plain", "plain", false),
        ]
    );
}

#[test]
fn struct_may_declare_object_aggregation() {
    let ast = declaration(
        vec![attr("from_event", "aggregation = \"object\"")],
        Data::Struct(Fields::Named(vec![field("a", Vec::new())])),
    );
    let decoder = object(&ast);
    assert_eq!(decoder.interface, None);
    assert_eq!(decoder.path, None);
    assert_eq!(decoder.fields, vec![binding("a", "a", false)]);
}

#[test]
fn struct_with_individual_aggregation_is_an_error_of_shape() {
    let ast = declaration(
        vec![attr("from_event", "aggregation = \"individual\"")],
        Data::Struct(Fields::Named(vec![field("a", Vec::new())])),
    );
    let error = FromEventDerive::parse(&ast).unwrap_err();
    assert_eq!(error, placed(Reason::AggregationMismatch, None, None, None));
    assert_eq!(error.kind(), ErrorKind::Shape);
}

#[test]
fn enum_without_individual_aggregation_is_an_error_of_shape() {
    let variants = vec![variant("A", Fields::Unit, vec![attr("mapping", "endpoint = \"/a\"")])];
    for tokens in ["interface = \"x\"", "aggregation = \"object\""] {
        let ast = declaration(vec![attr("from_event", tokens)], Data::Enum(variants.clone()));
        let error = FromEventDerive::parse(&ast).unwrap_err();
        assert_eq!(error, placed(Reason::AggregationMismatch, None, None, None));
        assert_eq!(error.kind(), ErrorKind::Shape);
    }
    let ast = declaration(Vec::new(), Data::Enum(variants));
    assert_eq!(FromEventDerive::parse(&ast).unwrap_err().kind(), ErrorKind::Shape);
}

#[test]
fn tuple_and_unit_structs_and_unions_are_errors_of_shape() {
    for data in [Data::Struct(Fields::Unnamed(1)), Data::Struct(Fields::Unit)] {
        let error = FromEventDerive::parse(&declaration(Vec::new(), data)).unwrap_err();
        assert_eq!(error, placed(Reason::NotNamedStruct, None, None, None));
        assert_eq!(error.kind(), ErrorKind::Shape);
    }
    let error = FromEventDerive::parse(&declaration(Vec::new(), Data::Union)).unwrap_err();
    assert_eq!(error, placed(Reason::NotStructOrEnum, None, None, None));
    assert_eq!(error.kind(), ErrorKind::Shape);
}

#[test]
fn variant_with_more_than_one_value_is_an_error_of_shape() {
    let mapping = vec![attr("mapping", "endpoint = \"/a\"")];
    for fields in [Fields::Unnamed(2), Fields::Named(vec![field("x", Vec::new())])] {
        let error = bind_variant(&variant("A", fields, mapping.clone())).unwrap_err();
        assert_eq!(error, placed(Reason::VariantPayload, None, None, None));
        assert_eq!(error.kind(), ErrorKind::Shape);
    }
    for fields in [Fields::Unit, Fields::Unnamed(0), Fields::Unnamed(1)] {
        assert!(bind_variant(&variant("A", fields, mapping.clone())).is_ok());
    }
}

#[test]
fn variant_without_endpoint_is_an_error_of_shape() {
    let ast = declaration(
        vec![attr("from_event", "aggregation = \"individual\"")],
        Data::Enum(vec![
            variant("A", Fields::Unnamed(1), vec![attr("mapping", "endpoint = \"/a\"")]),
            variant("B", Fields::Unnamed(1), vec![attr("mapping", "allow_unset = true")]),
        ]),
    );
    let error = FromEventDerive::parse(&ast).unwrap_err();
    assert_eq!(error, placed(Reason::MissingEndpoint, Some(1), None, None));
    assert_eq!(error.kind(), ErrorKind::Shape);
}

#[test]
fn errors_in_member_configuration_are_placed_in_the_member() {
    let ast = declaration(
        vec![attr("from_event", "aggregation = \"individual\"")],
        Data::Enum(vec![
            variant("A", Fields::Unit, vec![attr("mapping", "endpoint = \"/a\"")]),
            variant(
                "B",
                Fields::Unit,
                vec![attr("doc", "x"), attr("mapping", "endpoint = \"/b\", allow_unset = 1")],
            ),
        ]),
    );
    assert_eq!(
        FromEventDerive::parse(&ast),
        Err(placed(Reason::NotBoolLit, Some(1), Some(1), Some(1)))
    );
    let fields = vec![
        field("a", Vec::new()),
        field("b", Vec::new()),
        field("c", vec![attr("mapping", "endpoint = \"/c\"")]),
    ];
    let error = bind_fields(RenameRule::Unchanged, &fields).unwrap_err();
    assert_eq!(error, placed(Reason::UnknownOption, Some(2), Some(0), Some(0)));
    assert_eq!(error.kind(), ErrorKind::UnknownOption);
}

#[test]
fn members_are_bound_in_order() {
    let fields = vec![field("a_b", Vec::new()), field("c", vec![attr("mapping", "allow_unset = true")])];
    assert_eq!(
        bind_fields(RenameRule::ScreamingSnakeCase, &fields),
        Ok(vec![binding("a_b", "A_B", false), binding("c", "C", true)])
    );
    assert_eq!(bind_fields(RenameRule::Unchanged, &Vec::new()), Ok(vec![]));
    assert_eq!(
        bind_field(RenameRule::KebabCase, &fields[0]),
        Ok(binding("a_b", "a-b", false))
    );
    assert_eq!(
        bind_field(RenameRule::KebabCase, &Field { ident: None, attrs: Vec::new() }),
        Err(placed(Reason::FieldNotIdent, None, None, None))
    );
    assert_eq!(bind_variants(&Vec::new()), Ok(vec![]));
}

#[test]
fn aggregation_is_read_from_its_option() {
    let with = |value: AttrValue| NameValues {
        entries: vec![NameValue { name: "aggregation".to_string(), value }],
    };
    assert_eq!(get_aggregation(&NameValues { entries: Vec::new() }), Ok(None));
    assert_eq!(
        get_aggregation(&with(AttrValue::Str("individual".to_string()))),
        Ok(Some(Aggregation::Individual))
    );
    assert_eq!(
        get_aggregation(&with(AttrValue::Str("object".to_string()))),
        Ok(Some(Aggregation::Object))
    );
    let error = get_aggregation(&with(AttrValue::Str("both".to_string()))).unwrap_err();
    assert_eq!(error, placed(Reason::InvalidAggregation, None, None, Some(0)));
    assert_eq!(error.kind(), ErrorKind::Syntax);
    assert_eq!(
        get_aggregation(&with(AttrValue::Bool(true))),
        Err(placed(Reason::NotStrLit, None, None, Some(0)))
    );
}

#[test]
fn event_options_are_merged_key_by_key() {
    let first = FromEventAttrs {
        interface: Some("a".to_string()),
        path: Some("/a".to_string()),
        aggregation: None,
        rename_all: Some(RenameRule::CamelCase),
    };
    let second = FromEventAttrs {
        interface: None,
        path: Some("/b".to_string()),
        aggregation: Some(Aggregation::Object),
        rename_all: None,
    };
    assert_eq!(
        first.clone().merge(second.clone()),
        FromEventAttrs {
            interface: Some("a".to_string()),
            path: Some("/b".to_string()),
            aggregation: Some(Aggregation::Object),
            rename_all: Some(RenameRule::CamelCase),
        }
    );
    assert_eq!(FromEventAttrs::new().merge(first.clone()), first);
    assert_eq!(first.clone().merge(FromEventAttrs::new()), first);
}

#[test]
fn mapping_options_are_merged_key_by_key() {
    let first = MappingAttrs { endpoint: Some("/a".to_string()), allow_unset: None };
    let second = MappingAttrs { endpoint: None, allow_unset: Some(true) };
    let third = MappingAttrs { endpoint: Some("/c".to_string()), allow_unset: Some(false) };
    assert_eq!(
        first.clone().merge(second.clone()),
        MappingAttrs { endpoint: Some("/a".to_string()), allow_unset: Some(true) }
    );
    assert_eq!(first.clone().merge(second).merge(third.clone()), third);
    assert_eq!(MappingAttrs::new().merge(first.clone()), first);
}

#[test]
fn blocks_on_a_member_are_merged() {
    let attrs = vec![
        attr("mapping", "endpoint = \"/a\""),
        attr("serde", "skip"),
        attr("mapping", "allow_unset = true"),
        attr("mapping", "endpoint = \"/b\""),
    ];
    assert_eq!(
        MappingAttrs::from_attributes(AttrKind::Variant, &attrs),
        Ok(MappingAttrs { endpoint: Some("/b".to_string()), allow_unset: Some(true) })
    );
    assert_eq!(
        MappingAttrs::from_attributes(AttrKind::Field, &attrs),
        Err(placed(Reason::UnknownOption, None, Some(0), Some(0)))
    );
}

#[test]
fn event_blocks_are_resolved_in_order_of_their_options() {
    let attrs = vec![attr("from_event", "rename_all = \"x\", aggregation = \"y\", path = 1")];
    assert_eq!(
        FromEventAttrs::from_attributes(&attrs),
        Err(placed(Reason::NotStrLit, None, Some(0), Some(2)))
    );
    let attrs = vec![attr("from_event", "rename_all = \"x\", aggregation = \"y\"")];
    assert_eq!(
        FromEventAttrs::from_attributes(&attrs),
        Err(placed(Reason::InvalidAggregation, None, Some(0), Some(1)))
    );
    let attrs = vec![attr("from_event", "rename_all = \"x\", endpoint = \"y\"")];
    assert_eq!(
        FromEventAttrs::from_attributes(&attrs),
        Err(placed(Reason::UnknownOption, None, Some(0), Some(1)))
    );
    let attrs = vec![attr("from_event", "rename_all = \"x\"")];
    assert_eq!(
        FromEventAttrs::from_attributes(&attrs),
        Err(placed(Reason::InvalidRenameRule, None, Some(0), Some(0)))
    );
}

#[test]
fn generics_are_carried_over_unchanged() {
    let mut ast = sensor();
    ast.generics = vec![GenericParam::Type { name: "T".to_string(), bounds: Vec::new() }];
    assert_eq!(individual(&ast).generics, ast.generics);
}

fn foo_decoder() -> ObjectDecoder {
    ObjectDecoder {
        name: "Foo".to_string(),
        generics: Vec::new(),
        interface: None,
        path: None,
        fields: vec![binding("a", "a", false), binding("b", "bKey", true), binding("c", "c", false)],
    }
}

#[test]
fn object_missing_a_required_field_is_a_missing_mapping() {
    let decoder = foo_decoder();
    let decoded = decoder.decode(&entries(&[("a", 2), ("bKey", 4)]), halve);
    assert_eq!(decoded, Err(DecodeError::MissingMapping { field: 2 }));
    let decoded = decoder.decode(&entries(&[("c", 2)]), halve);
    assert_eq!(decoded, Err(DecodeError::MissingMapping { field: 0 }));
    let decoded = decoder.decode(&entries(&[]), halve);
    assert_eq!(decoded, Err(DecodeError::MissingMapping { field: 0 }));
}

#[test]
fn object_with_every_field_is_decoded() {
    let decoder = foo_decoder();
    let decoded = decoder.decode(&entries(&[("a", 2), ("bKey", 4), ("c", 6)]), halve);
    assert_eq!(decoded, Ok(vec![Some(1), Some(2), Some(3)]));
}

#[test]
fn absent_optional_field_is_decoded_as_empty() {
    let decoder = foo_decoder();
    let decoded = decoder.decode(&entries(&[("a", 2), ("c", 6), ("b", 8), ("extra", 1)]), halve);
    assert_eq!(decoded, Ok(vec![Some(1), None, Some(3)]));
}

#[test]
fn first_failure_of_an_object_is_reported() {
    let decoder = foo_decoder();
    let decoded = decoder.decode(&entries(&[("a", 3)]), halve);
    assert_eq!(decoded, Err(DecodeError::Conversion { member: 0, error: "3 is odd".to_string() }));
    let decoded = decoder.decode(&entries(&[("a", 2), ("bKey", 5)]), halve);
    assert_eq!(decoded, Err(DecodeError::Conversion { member: 1, error: "5 is odd".to_string() }));
    let decoded = decoder.decode(&entries(&[("bKey", 5), ("c", 7)]), halve);
    assert_eq!(decoded, Err(DecodeError::MissingMapping { field: 0 }));
}

#[test]
fn nothing_is_converted_after_the_first_failure() {
    let decoder = foo_decoder();
    let asked = RefCell::new(Vec::new());
    let decoded = decoder.decode(&entries(&[("a", 2), ("bKey", 5), ("c", 6)]), |i, value: &i64| {
        asked.borrow_mut().push(i);
        halve(i, value)
    });
    assert!(decoded.is_err());
    assert_eq!(asked.into_inner(), vec![0, 1]);
}

#[test]
fn decoding_and_encoding_gives_the_object_back() {
    let ast = Declaration {
        name: "Foo".to_string(),
        attrs: vec![
            attr("astarte_aggregate", "rename_all = \"camelCase\""),
            attr("from_event", "interface = \"com.example.Foo\", rename_all = \"camelCase\""),
        ],
        generics: Vec::new(),
        data: Data::Struct(Fields::Named(vec![
            field("bar_v", Vec::new()),
            field("other", Vec::new()),
        ])),
    };
    let decoder = object(&ast);
    let encoder = AggregateDerive::parse(&ast).unwrap().quote();
    let sent = entries(&[("barV", 8), ("other", -4)]);
    let instance = decoder.decode(&sent, halve).unwrap();
    assert_eq!(instance, vec![Some(4), Some(-2)]);
    let back = encoder
        .encode(|i| instance[i].map(|value| value * 2).ok_or("empty"))
        .unwrap();
    assert_eq!(back.len(), sent.len());
    assert_eq!(back.get("barV"), sent.get("barV"));
    assert_eq!(back.get("other"), sent.get("other"));
}

#[test]
fn mapping_replaces_a_value_under_the_same_name() {
    let mut mapping = Mapping::new();
    assert!(mapping.is_empty());
    mapping.insert("a".to_string(), 1);
    mapping.insert("b".to_string(), 2);
    mapping.insert("a".to_string(), 3);
    assert_eq!(mapping.len(), 2);
    assert_eq!(mapping.get("a"), Some(&3));
    assert_eq!(mapping.get("b"), Some(&2));
    assert_eq!(mapping.get("c"), None);
    assert!(mapping.contains_key("b"));
    assert!(!mapping.contains_key("c"));
    assert!(!mapping.is_empty());
}
