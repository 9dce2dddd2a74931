use no_proto::buffer::{NP_Size_Data, NoProtoBuffer};
use no_proto::error::NP_Error;
use no_proto::factory::NP_Factory;
use no_proto::json::NP_JSON;
use no_proto::pointer::NP_Cursor;

const PERSON: &str = "{\"type\":\"struct\",\"fields\":[[\"street\",{\"type\":\"string\"}],[\"city\",{\"type\":\"string\"}],[\"nested\",{\"type\":\"portal\",\"to\":\"\"}]]}";

const CHAIN: &str = "{\"type\":\"struct\",\"fields\":[[\"username\",{\"type\":\"string\"}],[\"address\",{\"type\":\"struct\",\"fields\":[[\"street\",{\"type\":\"string\"}],[\"more\",{\"type\":\"portal\",\"to\":\"address\"}]]}]]}";

#[test]
fn a_new_buffer_holds_the_tag_and_an_empty_root_slot() {
    let factory = NP_Factory::new_json(PERSON).unwrap();
    let buffer = factory.empty_buffer(Some(64));
    assert_eq!(buffer.get(&["street"]), Ok(None));
    assert_eq!(buffer.get(&[]), Ok(None));
    assert_eq!(
        buffer.calc_bytes(),
        Ok(NP_Size_Data { current_buffer: 5, after_compaction: 5, wasted_bytes: 0 })
    );
    assert_eq!(buffer.close(), Ok(vec![1, 0, 0, 0, 0]));
    let other = NoProtoBuffer::new(&factory.schema, None);
    assert_eq!(other.close(), Ok(vec![1, 0, 0, 0, 0]));
}

#[test]
fn set_stores_what_is_absent_at_the_end() {
    let factory = NP_Factory::new_json(PERSON).unwrap();
    let mut buffer = factory.empty_buffer(None);
    assert_eq!(buffer.set(&["street"], "hi"), Ok(true));
    assert_eq!(buffer.get(&["street"]), Ok(Some("hi".to_string())));
    assert_eq!(buffer.get(&["city"]), Ok(None));
    assert_eq!(
        buffer.close(),
        Ok(vec![1, 5, 0, 0, 0, 17, 0, 0, 0, 0, 0, 0, 0, 0, 0, 0, 0, 2, 0, 0, 0, 104, 105])
    );
}

#[test]
fn a_string_that_fits_is_written_in_place() {
    let factory = NP_Factory::new_json(PERSON).unwrap();
    let mut buffer = factory.empty_buffer(None);
    buffer.set(&["street"], "hi").unwrap();
    assert_eq!(buffer.set(&["street"], "a"), Ok(true));
    assert_eq!(buffer.get(&["street"]), Ok(Some("a".to_string())));
    assert_eq!(
        buffer.calc_bytes(),
        Ok(NP_Size_Data { current_buffer: 23, after_compaction: 22, wasted_bytes: 1 })
    );
    assert_eq!(buffer.calc_wasted_bytes(), Ok(1));
    assert_eq!(
        buffer.close(),
        Ok(vec![1, 5, 0, 0, 0, 17, 0, 0, 0, 0, 0, 0, 0, 0, 0, 0, 0, 1, 0, 0, 0, 97, 105])
    );
}

#[test]
fn a_string_that_does_not_fit_is_stored_anew() {
    let factory = NP_Factory::new_json(PERSON).unwrap();
    let mut buffer = factory.empty_buffer(None);
    buffer.set(&["street"], "hi").unwrap();
    assert_eq!(buffer.set(&["street"], "hello"), Ok(true));
    assert_eq!(buffer.get(&["street"]), Ok(Some("hello".to_string())));
    assert_eq!(
        buffer.calc_bytes(),
        Ok(NP_Size_Data { current_buffer: 32, after_compaction: 26, wasted_bytes: 6 })
    );
    assert_eq!(buffer.compact(None), Ok(()));
    assert_eq!(
        buffer.calc_bytes(),
        Ok(NP_Size_Data { current_buffer: 26, after_compaction: 26, wasted_bytes: 0 })
    );
    assert_eq!(buffer.get(&["street"]), Ok(Some("hello".to_string())));
    assert_eq!(
        buffer.close(),
        Ok(vec![
            1, 5, 0, 0, 0, 17, 0, 0, 0, 0, 0, 0, 0, 0, 0, 0, 0, 5, 0, 0, 0, 104, 101, 108, 108,
            111
        ])
    );
}

#[test]
fn delete_clears_the_slot_and_keeps_the_bytes() {
    let factory = NP_Factory::new_json(PERSON).unwrap();
    let mut buffer = factory.empty_buffer(None);
    buffer.set(&["street"], "hi").unwrap();
    buffer.set(&["city"], "town").unwrap();
    assert_eq!(buffer.del(&["street"]), Ok(true));
    assert_eq!(buffer.del(&["street"]), Ok(false));
    assert_eq!(buffer.del(&["nested", "street"]), Ok(false));
    assert_eq!(buffer.del(&["nowhere"]), Ok(false));
    assert_eq!(buffer.get(&["street"]), Ok(None));
    assert_eq!(buffer.get(&["city"]), Ok(Some("town".to_string())));
    assert_eq!(
        buffer.calc_bytes(),
        Ok(NP_Size_Data { current_buffer: 31, after_compaction: 25, wasted_bytes: 6 })
    );
    buffer.compact(Some(8)).unwrap();
    assert_eq!(
        buffer.close(),
        Ok(vec![1, 5, 0, 0, 0, 0, 0, 0, 0, 17, 0, 0, 0, 0, 0, 0, 0, 4, 0, 0, 0, 116, 111, 119, 110])
    );
}

#[test]
fn deleting_the_root_empties_the_buffer() {
    let factory = NP_Factory::new_json(PERSON).unwrap();
    let mut buffer = factory.empty_buffer(None);
    buffer.set(&["nested", "city"], "town").unwrap();
    assert_eq!(buffer.del(&[]), Ok(true));
    assert_eq!(buffer.get(&["nested", "city"]), Ok(None));
    buffer.compact(None).unwrap();
    assert_eq!(buffer.close(), Ok(vec![1, 0, 0, 0, 0]));
}

#[test]
fn paths_the_schema_does_not_have_lead_nowhere() {
    let factory = NP_Factory::new_json(PERSON).unwrap();
    let mut buffer = factory.empty_buffer(None);
    assert_eq!(buffer.set(&["nowhere"], "x"), Ok(false));
    assert_eq!(buffer.set(&["street", "deeper"], "x"), Ok(false));
    assert_eq!(buffer.get(&["nowhere"]), Ok(None));
    buffer.set(&["street"], "x").unwrap();
    assert_eq!(buffer.get(&["street", "deeper"]), Ok(None));
    assert_eq!(buffer.get(&["nowhere"]), Ok(None));
}

#[test]
fn a_struct_is_no_string() {
    let factory = NP_Factory::new_json(PERSON).unwrap();
    let mut buffer = factory.empty_buffer(None);
    assert_eq!(buffer.set(&["nested"], "x"), Err(NP_Error::Encoding));
    assert_eq!(buffer.set(&[], "x"), Err(NP_Error::Encoding));
    buffer.set(&["nested", "street"], "x").unwrap();
    assert_eq!(buffer.get(&["nested"]), Err(NP_Error::Encoding));
    assert_eq!(buffer.get(&[]), Err(NP_Error::Encoding));
    assert_eq!(buffer.get(&["nested", "nested"]), Ok(None));
}

#[test]
fn text_is_stored_as_utf8_and_checked_when_read() {
    let factory = NP_Factory::new_json(PERSON).unwrap();
    let mut buffer = factory.empty_buffer(None);
    buffer.set(&["street"], "h\u{e9}llo \u{20ac} \u{1f600}").unwrap();
    assert_eq!(buffer.get(&["street"]), Ok(Some("h\u{e9}llo \u{20ac} \u{1f600}".to_string())));
    let city: Vec<Vec<u8>> = vec!["city".as_bytes().to_vec()];
    assert_eq!(buffer.set_at(&city, &[0xff, 0xfe]), Ok(true));
    assert_eq!(buffer.get(&["city"]), Err(NP_Error::Encoding));
    assert_eq!(buffer.get_at(&city), Err(NP_Error::Encoding));
    assert_eq!(buffer.set_at(&city, &[0xc3, 0xa9]), Ok(true));
    assert_eq!(buffer.get(&["city"]), Ok(Some("\u{e9}".to_string())));
    assert_eq!(buffer.set(&["city"], ""), Ok(true));
    assert_eq!(buffer.get(&["city"]), Ok(Some(String::new())));
}

#[test]
fn bytes_that_were_not_written_here_are_checked() {
    let factory = NP_Factory::new_json(PERSON).unwrap();
    let short = factory.open_buffer(vec![1, 0]);
    assert_eq!(short.get(&["street"]), Err(NP_Error::Address));
    assert_eq!(short.calc_bytes(), Err(NP_Error::Address));
    let mut far = factory.open_buffer(vec![1, 200, 0, 0, 0]);
    assert_eq!(far.get(&["street"]), Err(NP_Error::Address));
    assert_eq!(far.set(&["street"], "x"), Err(NP_Error::Address));
    assert_eq!(far.compact(None), Err(NP_Error::Address));
    assert_eq!(far.close(), Ok(vec![1, 200, 0, 0, 0]));
    let mut cut = factory.open_buffer(vec![
        1, 5, 0, 0, 0, 17, 0, 0, 0, 0, 0, 0, 0, 0, 0, 0, 0, 9, 0, 0, 0, 104, 105,
    ]);
    assert_eq!(cut.get(&["street"]), Err(NP_Error::Address));
    assert_eq!(cut.get(&["city"]), Ok(None));
    assert_eq!(cut.set(&["street"], "x"), Err(NP_Error::Address));
    assert_eq!(cut.json_encode(&[]).err(), Some(NP_Error::Address));
}

#[test]
fn a_buffer_is_loaded_as_it_was_closed() {
    let factory = NP_Factory::new_json(PERSON).unwrap();
    let mut buffer = factory.empty_buffer(None);
    buffer.set(&["nested", "city"], "town").unwrap();
    let bytes = buffer.close().unwrap();
    let loaded = NoProtoBuffer::load(&factory.schema, bytes.clone());
    assert_eq!(loaded.get(&["nested", "city"]), Ok(Some("town".to_string())));
    assert_eq!(loaded.close(), Ok(bytes));
}

#[test]
fn dotted_paths_name_the_same_values() {
    let factory = NP_Factory::new_json(PERSON).unwrap();
    let mut buffer = factory.empty_buffer(None);
    assert_eq!(buffer.deep_set("nested.nested.street", "far"), Ok(true));
    assert_eq!(buffer.deep_get("nested.nested.street"), Ok(Some("far".to_string())));
    assert_eq!(buffer.get(&["nested", "nested", "street"]), Ok(Some("far".to_string())));
    assert_eq!(buffer.deep_get("nested.street"), Ok(None));
    assert_eq!(buffer.deep_set("nested..street", "x"), Ok(false));
    assert_eq!(buffer.deep_set("", "x"), Err(NP_Error::Encoding));
    assert_eq!(buffer.deep_get(""), Err(NP_Error::Encoding));
}

#[test]
fn values_are_exported_as_json() {
    let factory = NP_Factory::new_json(PERSON).unwrap();
    let mut buffer = factory.empty_buffer(None);
    assert_eq!(buffer.json_encode(&[]), Ok(NP_JSON::Null));
    buffer.set(&["street"], "a \"b\"").unwrap();
    buffer.set(&["nested", "city"], "c").unwrap();
    let exported = buffer.json_encode(&[]).unwrap();
    assert_eq!(
        String::from_utf8(exported.stringify()).unwrap(),
        "{\"street\":\"a \\\"b\\\"\",\"city\":null,\"nested\":{\"street\":null,\"city\":\"c\",\"nested\":null}}"
    );
    assert_eq!(buffer.json_encode(&["street"]), Ok(NP_JSON::String("a \"b\"".as_bytes().to_vec())));
    assert_eq!(buffer.json_encode(&["nowhere"]), Ok(NP_JSON::Null));
}

#[test]
fn json_is_imported_field_by_field() {
    let factory = NP_Factory::new_json(PERSON).unwrap();
    let mut buffer = factory.empty_buffer(None);
    buffer.set(&["city"], "old").unwrap();
    assert_eq!(
        buffer.set_with_json(
            &[],
            "{\"value\":{\"street\":\"foo\",\"other\":1,\"nested\":{\"street\":\"foo2\"}}}"
        ),
        Ok(true)
    );
    assert_eq!(buffer.get(&["street"]), Ok(Some("foo".to_string())));
    assert_eq!(buffer.get(&["city"]), Ok(Some("old".to_string())));
    assert_eq!(buffer.get(&["nested", "street"]), Ok(Some("foo2".to_string())));
    assert_eq!(buffer.set_with_json(&["nested"], "{\"value\":{\"city\":\"bar\"}}"), Ok(true));
    assert_eq!(buffer.get(&["nested", "city"]), Ok(Some("bar".to_string())));
    assert_eq!(buffer.set_with_json(&["city"], "{\"value\":\"new\"}"), Ok(true));
    assert_eq!(buffer.get(&["city"]), Ok(Some("new".to_string())));
    assert_eq!(buffer.set_with_json(&[], "{\"value\":{\"city\":null}}"), Ok(true));
    assert_eq!(buffer.get(&["city"]), Ok(None));
    assert_eq!(buffer.set_with_json(&["nested"], "{\"value\":null}"), Ok(true));
    assert_eq!(buffer.get(&["nested", "city"]), Ok(None));
    assert_eq!(buffer.set_with_json(&["nowhere"], "{\"value\":\"x\"}"), Ok(false));
}

#[test]
fn json_that_does_not_fit_is_refused() {
    let factory = NP_Factory::new_json(PERSON).unwrap();
    let mut buffer = factory.empty_buffer(None);
    assert_eq!(buffer.set_with_json(&[], "{\"value\":"), Err(NP_Error::Encoding));
    assert_eq!(buffer.set_with_json(&[], "{\"other\":{}}"), Err(NP_Error::Encoding));
    assert_eq!(buffer.set_with_json(&[], "[]"), Err(NP_Error::Encoding));
    assert_eq!(buffer.set_with_json(&[], "{\"value\":5}"), Err(NP_Error::Encoding));
    assert_eq!(buffer.set_with_json(&[], "{\"value\":\"text\"}"), Err(NP_Error::Encoding));
    assert_eq!(buffer.set_with_json(&[], "{\"value\":{\"street\":5}}"), Err(NP_Error::Encoding));
    assert_eq!(buffer.set_with_json(&["street"], "{\"value\":{}}"), Err(NP_Error::Encoding));
    assert_eq!(buffer.set_with_json(&["street"], "{\"value\":true}"), Err(NP_Error::Encoding));
}

#[test]
fn the_root_cursor_is_handed_out_for_reading() {
    let factory = NP_Factory::new_json(PERSON).unwrap();
    let mut buffer = factory.empty_buffer(None);
    buffer.set(&["street"], "hi").unwrap();
    let mut seen: Option<NP_JSON> = None;
    let done = buffer.open(|cursor, memory| {
        assert_eq!(cursor, NP_Cursor { schema_addr: 0, parent_schema_addr: 0, buff_addr: 1 });
        seen = Some(NP_Cursor::json_encode(0, &cursor, memory)?);
        Ok(())
    });
    assert_eq!(done, Ok(()));
    assert_eq!(
        String::from_utf8(seen.unwrap().stringify()).unwrap(),
        "{\"street\":\"hi\",\"city\":null,\"nested\":null}"
    );
    assert_eq!(buffer.open(|_cursor, _memory| Err(NP_Error::Ownership)), Err(NP_Error::Ownership));
}

#[test]
fn a_portal_to_itself_is_cut_short_everywhere() {
    let text = "{\"type\":\"struct\",\"fields\":[[\"street\",{\"type\":\"string\"}],[\"nested\",{\"type\":\"portal\",\"to\":\"nested\"}]]}";
    let factory = NP_Factory::new_json(text).unwrap();
    let mut buffer = factory.empty_buffer(None);
    assert_eq!(buffer.set(&["nested"], "x"), Err(NP_Error::RecursionLimit));
    assert_eq!(buffer.set(&["nested", "nested", "nested"], "x"), Err(NP_Error::RecursionLimit));
    assert_eq!(buffer.get(&["nested"]), Err(NP_Error::RecursionLimit));
    assert_eq!(buffer.get(&["nested", "nested", "nested"]), Err(NP_Error::RecursionLimit));
    assert_eq!(buffer.del(&["nested"]), Err(NP_Error::RecursionLimit));
    assert_eq!(buffer.json_encode(&[]).err(), Some(NP_Error::RecursionLimit));
    assert_eq!(buffer.calc_bytes(), Err(NP_Error::RecursionLimit));
    assert_eq!(
        buffer.set_with_json(&[], "{\"value\":{\"nested\":\"x\"}}"),
        Err(NP_Error::RecursionLimit)
    );
    let before = buffer.memory.bytes.clone();
    assert_eq!(buffer.compact(None), Err(NP_Error::RecursionLimit));
    assert_eq!(buffer.memory.bytes, before);
    assert_eq!(buffer.get(&["street"]), Ok(None));

    let root = NP_Factory::new_json("{\"type\":\"portal\",\"to\":\"\"}").unwrap();
    let mut alone = root.empty_buffer(None);
    assert_eq!(alone.get(&[]), Err(NP_Error::RecursionLimit));
    assert_eq!(alone.set(&[], "x"), Err(NP_Error::RecursionLimit));
    assert_eq!(alone.compact(None), Err(NP_Error::RecursionLimit));
    assert_eq!(alone.close(), Ok(vec![1, 0, 0, 0, 0]));
}

#[test]
fn portals_are_followed_up_to_the_limit_and_no_further() {
    let factory = NP_Factory::new_json(CHAIN).unwrap();
    let mut buffer = factory.empty_buffer(None);
    let mut path: Vec<&str> = vec!["address"];
    for _ in 0..126 {
        path.push("more");
    }
    path.push("street");
    assert_eq!(buffer.set(&path, "deep"), Ok(true));
    assert_eq!(buffer.get(&path), Ok(Some("deep".to_string())));
    let sizes = buffer.calc_bytes().unwrap();
    assert_eq!(sizes.current_buffer, sizes.after_compaction);
    assert_eq!(sizes.current_buffer, 5 + 8 + 127 * 8 + 8);
    assert_eq!(buffer.compact(None), Ok(()));
    assert_eq!(buffer.get(&path), Ok(Some("deep".to_string())));

    let mut too_far: Vec<&str> = vec!["address"];
    for _ in 0..127 {
        too_far.push("more");
    }
    too_far.push("street");
    assert_eq!(buffer.get(&too_far), Ok(None));
    assert_eq!(buffer.set(&too_far, "deeper"), Err(NP_Error::RecursionLimit));
    assert_eq!(buffer.get(&too_far), Err(NP_Error::RecursionLimit));
    assert_eq!(buffer.json_encode(&[]).err(), Some(NP_Error::RecursionLimit));
    assert_eq!(buffer.compact(None), Err(NP_Error::RecursionLimit));
    assert_eq!(buffer.get(&path), Ok(Some("deep".to_string())));
}

#[test]
fn compaction_keeps_what_every_path_reads() {
    let factory = NP_Factory::new_json(CHAIN).unwrap();
    let mut buffer = factory.empty_buffer(None);
    buffer.set(&["username"], "someone").unwrap();
    buffer.set(&["address", "street"], "first").unwrap();
    buffer.set(&["address", "more", "street"], "second").unwrap();
    buffer.set(&["address", "more", "more", "street"], "third").unwrap();
    buffer.set(&["address", "street"], "a longer first").unwrap();
    buffer.del(&["address", "more", "street"]).unwrap();
    let before = String::from_utf8(buffer.json_encode(&[]).unwrap().stringify()).unwrap();
    let sizes = buffer.calc_bytes().unwrap();
    assert!(sizes.after_compaction < sizes.current_buffer);
    buffer.compact(None).unwrap();
    assert_eq!(String::from_utf8(buffer.json_encode(&[]).unwrap().stringify()).unwrap(), before);
    assert_eq!(buffer.get(&["address", "street"]), Ok(Some("a longer first".to_string())));
    assert_eq!(buffer.get(&["address", "more", "street"]), Ok(None));
    assert_eq!(buffer.get(&["address", "more", "more", "street"]), Ok(Some("third".to_string())));
    let after = buffer.calc_bytes().unwrap();
    assert_eq!(after.current_buffer, sizes.after_compaction);
    assert_eq!(after.after_compaction, sizes.after_compaction);
    assert_eq!(after.wasted_bytes, 0);
    let bytes = buffer.memory.bytes.clone();
    buffer.compact(None).unwrap();
    assert_eq!(buffer.memory.bytes, bytes);
}

#[test]
fn bytes_in_which_two_slots_share_a_string_grow_when_compacted() {
    let factory = NP_Factory::new_json(PERSON).unwrap();
    let mut buffer = factory.open_buffer(vec![
        1, 5, 0, 0, 0, 17, 0, 0, 0, 17, 0, 0, 0, 0, 0, 0, 0, 2, 0, 0, 0, 104, 105,
    ]);
    assert_eq!(buffer.get(&["street"]), Ok(Some("hi".to_string())));
    assert_eq!(buffer.get(&["city"]), Ok(Some("hi".to_string())));
    assert_eq!(
        buffer.calc_bytes(),
        Ok(NP_Size_Data { current_buffer: 23, after_compaction: 29, wasted_bytes: 0 })
    );
    assert_eq!(buffer.compact(None), Ok(()));
    assert_eq!(buffer.get(&["street"]), Ok(Some("hi".to_string())));
    assert_eq!(buffer.get(&["city"]), Ok(Some("hi".to_string())));
    assert_eq!(
        buffer.close(),
        Ok(vec![
            1, 5, 0, 0, 0, 17, 0, 0, 0, 23, 0, 0, 0, 0, 0, 0, 0, 2, 0, 0, 0, 104, 105, 2, 0, 0, 0,
            104, 105
        ])
    );
}
