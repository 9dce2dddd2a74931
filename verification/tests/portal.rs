use no_proto::error::NP_Error;
use no_proto::factory::NP_Factory;

#[test]
fn schema_parsing_works() -> Result<(), NP_Error> {
    let schema = "{\"type\":\"portal\",\"to\":\"\"}";
    let factory = NP_Factory::new_json(schema)?;
    assert_eq!(schema, String::from_utf8(factory.schema.to_json()?.stringify()).unwrap());
    let factory2 = NP_Factory::new_compiled(factory.compile_schema())?;
    assert_eq!(schema, String::from_utf8(factory2.schema.to_json()?.stringify()).unwrap());

    Ok(())
}

#[test]
fn infinite_recursion() -> Result<(), NP_Error> {
    let schema = r#"{
        "type": "struct",
        "fields": [
            ["street", {"type": "string"}],
            ["city"  , {"type": "string"}],
            ["nested", {"type": "portal", "to": "nested"}]
        ]
    }"#;
    let factory = NP_Factory::new_json(schema)?;
    let mut buffer = factory.empty_buffer(None);

    match buffer.set(&["nested", "nested", "nested"], "hello infinite") {
        Ok(_done) => {
            panic!()
        }
        Err(_e) => {
            // the walk through the portal must be cut short
        }
    }

    match buffer.get(&["nested", "nested", "nested"]) {
        Ok(_done) => {
            panic!()
        }
        Err(_e) => {
            // the walk through the portal must be cut short
        }
    }

    Ok(())
}

#[test]
fn set_clear_value_and_compaction_works() -> Result<(), NP_Error> {
    let schema = r#"{
        "type": "struct",
        "fields": [
            ["street", {"type": "string"}],
            ["city"  , {"type": "string"}],
            ["nested", {"type": "portal", "to": ""}]
        ]
    }"#;
    let factory = NP_Factory::new_json(schema)?;
    let mut buffer = factory.empty_buffer(None);

    buffer.set(&["nested", "street"], "hello street")?;
    buffer.set(&["nested", "nested", "nested", "nested", "street"], "hello street 2")?;

    assert_eq!("hello street", buffer.get(&["nested", "street"])?.unwrap());
    assert_eq!(
        "hello street 2",
        buffer.get(&["nested", "nested", "nested", "nested", "street"])?.unwrap()
    );
    assert_eq!(buffer.calc_bytes()?.current_buffer, buffer.calc_bytes()?.after_compaction);
    buffer.del(&["nested", "street"])?;
    buffer.compact(None)?;
    assert_eq!(
        "hello street 2",
        buffer.get(&["nested", "nested", "nested", "nested", "street"])?.unwrap()
    );
    assert_eq!(None, buffer.get(&["nested", "street"])?);

    // importing a JSON payload
    buffer.set_with_json(&[], r#"{"value":{"street": "foo", "nested": {"street": "foo2"}}}"#)?;

    assert_eq!(Some("foo"), buffer.get(&["street"])?.as_deref());
    assert_eq!(Some("foo2"), buffer.get(&["nested", "street"])?.as_deref());

    let schema = r#"{
        "type": "struct",
        "fields": [
            ["username", {"type": "string"}],
            ["email"  , {"type": "string"}],
            ["address", {"type": "struct", "fields": [
                ["street", {"type": "string"}],
                ["city", {"type": "string"}],
                ["more", {"type": "portal", "to": "address"}]
            ]}]
        ]
    }"#;
    let factory = NP_Factory::new_json(schema)?;
    let mut buffer = factory.empty_buffer(None);

    buffer.set(
        &["address", "more", "more", "more", "more", "more", "more", "more", "more", "street"],
        "hello",
    )?;

    assert_eq!(
        "hello",
        buffer
            .get(&["address", "more", "more", "more", "more", "more", "more", "more", "more", "street"])?
            .unwrap()
    );

    Ok(())
}
