use no_proto::bytes::split_dots;
use no_proto::error::NP_Error;
use no_proto::factory::NP_Factory;
use no_proto::pointer::portal::NP_Portal;
use no_proto::schema::{NP_Parsed_Schema, NP_Schema, NP_TypeKeys};

#[test]
fn compiled_form_lists_the_nodes_in_order() {
    let text = "{\"type\":\"struct\",\"fields\":[[\"street\",{\"type\":\"string\"}],[\"city\",{\"type\":\"string\"}],[\"nested\",{\"type\":\"portal\",\"to\":\"\"}]]}";
    let factory = NP_Factory::new_json(text).unwrap();
    let expected: Vec<u8> = vec![
        21, 3, 6, 115, 116, 114, 101, 101, 116, 2, 4, 99, 105, 116, 121, 2, 6, 110, 101, 115, 116,
        101, 100, 26, 0, 0,
    ];
    assert_eq!(factory.compile_schema(), &expected[..]);
    let portal = NP_Factory::new_json("{\"type\":\"portal\",\"to\":\"\"}").unwrap();
    assert_eq!(portal.compile_schema(), &[26u8, 0, 0][..]);
}

#[test]
fn registry_holds_each_node_at_its_address() {
    let text = "{\"type\":\"struct\",\"fields\":[[\"street\",{\"type\":\"string\"}],[\"city\",{\"type\":\"string\"}],[\"nested\",{\"type\":\"portal\",\"to\":\"nested\"}]]}";
    let factory = NP_Factory::new_json(text).unwrap();
    let expected = vec![
        NP_Parsed_Schema::Struct {
            fields: vec![
                ("street".as_bytes().to_vec(), 1),
                ("city".as_bytes().to_vec(), 2),
                ("nested".as_bytes().to_vec(), 3),
            ],
        },
        NP_Parsed_Schema::String,
        NP_Parsed_Schema::String,
        NP_Parsed_Schema::Portal { path: "nested".as_bytes().to_vec(), schema: 3, parent_schema: 0 },
    ];
    assert_eq!(factory.schema.parsed, expected);
}

#[test]
fn portal_paths_are_followed_from_the_root() {
    let text = r#"{"type":"struct","fields":[
        ["a",{"type":"struct","fields":[
            ["b",{"type":"string"}],
            ["p",{"type":"portal","to":"a.b"}],
            ["q",{"type":"portal","to":"a"}],
            ["r",{"type":"portal","to":""}]
        ]}]
    ]}"#;
    let factory = NP_Factory::new_json(text).unwrap();
    assert_eq!(
        factory.schema.parsed[3],
        NP_Parsed_Schema::Portal { path: "a.b".as_bytes().to_vec(), schema: 2, parent_schema: 1 }
    );
    assert_eq!(
        factory.schema.parsed[4],
        NP_Parsed_Schema::Portal { path: "a".as_bytes().to_vec(), schema: 1, parent_schema: 0 }
    );
    assert_eq!(
        factory.schema.parsed[5],
        NP_Parsed_Schema::Portal { path: Vec::new(), schema: 0, parent_schema: 0 }
    );
}

#[test]
fn paths_are_split_at_dots() {
    assert_eq!(split_dots("".as_bytes()), Vec::<Vec<u8>>::new());
    assert_eq!(split_dots("a".as_bytes()), vec![vec![97u8]]);
    assert_eq!(split_dots("a.bc".as_bytes()), vec![vec![97u8], vec![98, 99]]);
    assert_eq!(split_dots("a..b.".as_bytes()), vec![vec![97u8], vec![], vec![98], vec![]]);
    assert_eq!(split_dots(".".as_bytes()), vec![Vec::<u8>::new(), Vec::new()]);
}

#[test]
fn descriptions_that_are_malformed_are_refused() {
    let cases: Vec<&str> = vec![
        "",
        "{",
        "[]",
        "\"string\"",
        "{}",
        "{\"type\":5}",
        "{\"type\":\"list\"}",
        "{\"type\":\"portal\"}",
        "{\"type\":\"portal\",\"to\":5}",
        "{\"type\":\"portal\",\"to\":\"nowhere\"}",
        "{\"type\":\"struct\"}",
        "{\"type\":\"struct\",\"fields\":{}}",
        "{\"type\":\"struct\",\"fields\":[]}",
        "{\"type\":\"struct\",\"fields\":[[\"a\"]]}",
        "{\"type\":\"struct\",\"fields\":[[5,{\"type\":\"string\"}]]}",
        "{\"type\":\"struct\",\"fields\":[[\"a\",{\"type\":\"string\"},1]]}",
        "{\"type\":\"struct\",\"fields\":[[\"a\",{\"type\":\"what\"}]]}",
        "{\"type\":\"struct\",\"fields\":[[\"a\",{\"type\":\"string\"}],[\"p\",{\"type\":\"portal\",\"to\":\"b\"}]]}",
        "{\"type\":\"struct\",\"fields\":[[\"a\",{\"type\":\"string\"}],[\"p\",{\"type\":\"portal\",\"to\":\"a.x\"}]]}",
    ];
    for text in cases {
        assert!(matches!(NP_Factory::new_json(text), Err(NP_Error::Schema)));
    }
}

#[test]
fn limits_of_the_compiled_form_are_kept() {
    let field = "[\"f\",{\"type\":\"string\"}]";
    let many = vec![field; 255].join(",");
    let fits = format!("{{\"type\":\"struct\",\"fields\":[{}]}}", many);
    assert!(NP_Factory::new_json(&fits).is_ok());
    let too_many = format!("{{\"type\":\"struct\",\"fields\":[{},{}]}}", many, field);
    assert!(matches!(NP_Factory::new_json(&too_many), Err(NP_Error::Schema)));

    let name_fits = format!(
        "{{\"type\":\"struct\",\"fields\":[[\"{}\",{{\"type\":\"string\"}}]]}}",
        "n".repeat(255)
    );
    assert!(NP_Factory::new_json(&name_fits).is_ok());
    let name_too_long = format!(
        "{{\"type\":\"struct\",\"fields\":[[\"{}\",{{\"type\":\"string\"}}]]}}",
        "n".repeat(256)
    );
    assert!(matches!(NP_Factory::new_json(&name_too_long), Err(NP_Error::Schema)));

    let path_too_long = format!("{{\"type\":\"portal\",\"to\":\"{}\"}}", "p".repeat(65536));
    assert!(matches!(NP_Factory::new_json(&path_too_long), Err(NP_Error::Schema)));
}

#[test]
fn other_names_of_a_string_are_written_as_string() {
    for text in ["{\"type\":\"str\"}", "{\"type\":\"utf8\"}", "{\"size\":20,\"type\":\"string\"}"] {
        let factory = NP_Factory::new_json(text).unwrap();
        assert_eq!(
            String::from_utf8(factory.schema.to_json().unwrap().stringify()).unwrap(),
            "{\"type\":\"string\"}"
        );
        assert_eq!(factory.compile_schema(), &[2u8][..]);
    }
}

#[test]
fn a_description_in_the_written_form_comes_back_unchanged() {
    let text = "{\"type\":\"struct\",\"fields\":[[\"username\",{\"type\":\"string\"}],[\"address\",{\"type\":\"struct\",\"fields\":[[\"street\",{\"type\":\"string\"}],[\"more\",{\"type\":\"portal\",\"to\":\"address\"}]]}]]}";
    let factory = NP_Factory::new_json(text).unwrap();
    assert_eq!(String::from_utf8(factory.schema.to_json().unwrap().stringify()).unwrap(), text);
    let compiled = NP_Factory::new_compiled(factory.compile_schema()).unwrap();
    assert_eq!(compiled.schema, factory.schema);
    assert_eq!(compiled.compile_schema(), factory.compile_schema());
    assert_eq!(String::from_utf8(compiled.schema.to_json().unwrap().stringify()).unwrap(), text);
}

#[test]
fn compiled_bytes_that_are_malformed_are_refused() {
    let cases: Vec<Vec<u8>> = vec![
        vec![],
        vec![99],
        vec![0],
        vec![26],
        vec![26, 0],
        vec![26, 0, 5, 97],
        vec![26, 0, 1, 122],
        vec![21],
        vec![21, 0],
        vec![21, 1],
        vec![21, 1, 1],
        vec![21, 1, 1, 97],
        vec![21, 2, 1, 97, 2],
        vec![21, 1, 1, 97, 26, 0, 1, 122],
        vec![2, 2],
        vec![21, 1, 1, 97, 2, 0],
    ];
    for bytes in cases {
        assert!(matches!(NP_Factory::new_compiled(&bytes), Err(NP_Error::Schema)));
    }
    assert!(NP_Factory::new_compiled(&[21, 1, 1, 97, 26, 0, 1, 97]).is_ok());
}

#[test]
fn structs_nest_no_deeper_than_the_limit() {
    let mut fits: Vec<u8> = Vec::new();
    for _ in 0..255 {
        fits.extend_from_slice(&[21, 1, 0]);
    }
    fits.push(2);
    assert!(NP_Factory::new_compiled(&fits).is_ok());
    let mut too_deep: Vec<u8> = Vec::new();
    for _ in 0..256 {
        too_deep.extend_from_slice(&[21, 1, 0]);
    }
    too_deep.push(2);
    assert!(matches!(NP_Factory::new_compiled(&too_deep), Err(NP_Error::Schema)));
}

#[test]
fn every_type_has_its_name_and_kind() {
    assert_eq!(NP_Portal::type_idx(), ("portal", NP_TypeKeys::Portal));
    assert_eq!(NP_Portal().self_type_idx(), ("portal", NP_TypeKeys::Portal));
    assert_eq!(no_proto::pointer::string::type_idx(), ("string", NP_TypeKeys::String));
    assert_eq!(
        no_proto::pointer::structs::NP_Struct::type_idx(),
        ("struct", NP_TypeKeys::Struct)
    );
    assert!(no_proto::pointer::string::is_type("string".as_bytes()));
    assert!(no_proto::pointer::string::is_type("str".as_bytes()));
    assert!(no_proto::pointer::string::is_type("utf8".as_bytes()));
    assert!(!no_proto::pointer::string::is_type("text".as_bytes()));
    assert!(NP_Portal::default_value(0, 0, &Vec::new()).is_none());
}

#[test]
fn a_registry_built_by_hand_is_checked() {
    let factory = NP_Factory::new_json("{\"type\":\"struct\",\"fields\":[[\"a\",{\"type\":\"string\"}]]}").unwrap();
    assert!(factory.schema.is_sound());
    assert!(!NP_Schema { parsed: Vec::new() }.is_sound());
    assert!(NP_Schema { parsed: vec![NP_Parsed_Schema::String] }.is_sound());
    let no_fields = NP_Schema { parsed: vec![NP_Parsed_Schema::Struct { fields: Vec::new() }] };
    assert!(!no_fields.is_sound());
    let to_itself = NP_Schema {
        parsed: vec![NP_Parsed_Schema::Struct { fields: vec![(vec![97], 0)] }],
    };
    assert!(!to_itself.is_sound());
    let outside = NP_Schema {
        parsed: vec![NP_Parsed_Schema::Struct { fields: vec![(vec![97], 1)] }],
    };
    assert!(!outside.is_sound());
    let portal_outside = NP_Schema {
        parsed: vec![NP_Parsed_Schema::Portal { path: Vec::new(), schema: 1, parent_schema: 0 }],
    };
    assert!(!portal_outside.is_sound());
    let portal_inside = NP_Schema {
        parsed: vec![NP_Parsed_Schema::Portal { path: Vec::new(), schema: 0, parent_schema: 0 }],
    };
    assert!(portal_inside.is_sound());
}
