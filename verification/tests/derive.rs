use astarte_device_sdk_derive::aggregate::EncodeStep;
use astarte_device_sdk_derive::derive::{astarte_aggregate_derive, from_event_derive};
use astarte_device_sdk_derive::error::{ErrorKind, Reason};
use astarte_device_sdk_derive::event::{FromEventDerive, VariantBinding};
use astarte_device_sdk_derive::schema::{
    Attribute, Data, Declaration, Field, Fields, Meta, Variant,
};

fn attr(name: &str, tokens: &str) -> Attribute {
    Attribute { ident: Some(name.to_string()), meta: Meta::List(tokens.to_string()) }
}

fn foo() -> Declaration {
    Declaration {
        name: "Foo".to_string(),
        attrs: vec![attr("astarte_aggregate", "rename_all = \"camelCase\"")],
        generics: Vec::new(),
        data: Data::Struct(Fields::Named(vec![Field {
            ident: Some("bar_v".to_string()),
            attrs: Vec::new(),
        }])),
    }
}

#[test]
fn aggregate_is_derived_from_a_declaration() {
    let encoder = astarte_aggregate_derive(&foo()).unwrap();
    assert_eq!(encoder.name, "Foo");
    assert_eq!(
        encoder.steps,
        vec![EncodeStep { field: "bar_v".to_string(), key: "barV".to_string() }]
    );
    let mapping = encoder.encode(|_| Ok::<&str, ()>("x")).unwrap();
    assert_eq!(mapping.len(), 1);
    assert_eq!(mapping.get("barV"), Some(&"x"));
}

#[test]
fn aggregate_of_a_tuple_or_unit_struct_is_not_derived() {
    for data in [Data::Struct(Fields::Unnamed(3)), Data::Struct(Fields::Unit)] {
        let mut ast = foo();
        ast.data = data;
        let error = astarte_aggregate_derive(&ast).unwrap_err();
        assert_eq!(error.reason, Reason::NotNamedStruct);
        assert_eq!(error.kind(), ErrorKind::Shape);
    }
}

#[test]
fn event_of_a_struct_ignores_the_aggregate_block() {
    match from_event_derive(&foo()).unwrap() {
        FromEventDerive::Object(decoder) => {
            assert_eq!(decoder.fields.len(), 1);
            assert_eq!(decoder.fields[0].key, "bar_v");
            assert!(!decoder.fields[0].optional);
        }
        FromEventDerive::Individual(_) => panic!("a struct decodes as an object"),
    }
}

#[test]
fn event_of_an_enum_is_derived_from_its_endpoints() {
    let ast = Declaration {
        name: "Sensor".to_string(),
        attrs: vec![
            attr("from_event", "interface = \"com.example.Sensor\""),
            attr("from_event", "aggregation = \"individual\""),
        ],
        generics: Vec::new(),
        data: Data::Enum(vec![Variant {
            ident: "Luminosity".to_string(),
            fields: Fields::Unnamed(1),
            attrs: vec![attr("mapping", "endpoint = \"/sensor/luminosity\"")],
        }]),
    };
    match from_event_derive(&ast).unwrap() {
        FromEventDerive::Individual(decoder) => {
            assert_eq!(decoder.interface, Some("com.example.Sensor".to_string()));
            assert_eq!(
                decoder.variants,
                vec![VariantBinding {
                    ident: "Luminosity".to_string(),
                    endpoint: "/sensor/luminosity".to_string(),
                    allow_unset: false,
                }]
            );
        }
        FromEventDerive::Object(_) => panic!("an enum decodes by endpoint"),
    }
}
