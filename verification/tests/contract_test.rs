use kvs::contract::Error;
use kvs::contract::KvContractMessage;
use kvs::contract::Request;
use kvs::contract::Response;

fn text(bytes: Vec<u8>) -> String {
    String::from_utf8(bytes).expect("a message is UTF-8")
}

#[test]
fn make_and_parse() {
    let c = KvContractMessage::remove("hello".to_owned());
    let bc = c.clone().into_binary();
    let cr = KvContractMessage::parse(bc.as_slice()).expect("Failed to parse.");
    assert_eq!(c, cr);
}

#[test]
fn get_message_is_a_get_request() {
    let message = KvContractMessage::get("hello".to_owned());
    assert_eq!(message.operate_type, 0);
    assert_eq!(message.param, vec![("key".to_owned(), "hello".to_owned())]);
    assert_eq!(message.to_request(), Some(Request::Get { key: "hello" }));
    assert_eq!(message.to_response(), None);
}

#[test]
fn put_message_is_a_put_request() {
    let message = KvContractMessage::put("a".to_owned(), "b".to_owned());
    assert_eq!(message.operate_type, 1);
    assert_eq!(message.to_request(), Some(Request::Put { key: "a", value: "b" }));
}

#[test]
fn remove_message_is_a_remove_request() {
    let message = KvContractMessage::remove("a".to_owned());
    assert_eq!(message.operate_type, 2);
    assert_eq!(message.to_request(), Some(Request::Remove { key: "a" }));
}

#[test]
fn responses_read_back() {
    let none = KvContractMessage::response_no_content();
    assert_eq!(none.operate_type, 254);
    assert!(none.param.is_empty());
    assert_eq!(none.to_response(), Some(Response::NoContent));
    assert_eq!(none.to_request(), None);

    let content = KvContractMessage::response_content("b".to_owned());
    assert_eq!(content.operate_type, 253);
    assert_eq!(content.to_response(), Some(Response::Content { content: "b" }));

    let error = KvContractMessage::response_err("Key not found".to_owned());
    assert_eq!(error.operate_type, 255);
    assert_eq!(error.to_response(), Some(Response::Error { reason: "Key not found" }));
}

#[test]
fn message_text_is_exact() {
    let put = KvContractMessage::put("a".to_owned(), "b".to_owned());
    assert_eq!(text(put.into_binary()), r#"{"operate_type":1,"param":{"key":"a","value":"b"}}"#);
    let get = KvContractMessage::get("a".to_owned());
    assert_eq!(text(get.into_binary()), r#"{"operate_type":0,"param":{"key":"a"}}"#);
    let content = KvContractMessage::response_content("b".to_owned());
    assert_eq!(text(content.into_binary()), r#"{"operate_type":253,"param":{"content":"b"}}"#);
    let none = KvContractMessage::response_no_content();
    assert_eq!(text(none.into_binary()), r#"{"operate_type":254,"param":{}}"#);
    let error = KvContractMessage::response_err("Key not found".to_owned());
    assert_eq!(
        text(error.into_binary()),
        r#"{"operate_type":255,"param":{"reason":"Key not found"}}"#
    );
}

#[test]
fn operation_numbers_are_written_in_decimal() {
    for n in [0u8, 7, 9, 10, 42, 99, 100, 101, 110, 199, 200, 255] {
        let message = KvContractMessage { operate_type: n, param: Vec::new() };
        assert_eq!(text(message.clone().into_binary()), format!("{{\"operate_type\":{},\"param\":{{}}}}", n));
        let back = KvContractMessage::parse(message.clone().into_binary().as_slice());
        assert_eq!(back, Ok(message));
    }
}

#[test]
fn strings_are_escaped_on_the_wire() {
    let put = KvContractMessage::put("a\"b".to_owned(), "line\nbreak\\".to_owned());
    let bytes = put.clone().into_binary();
    assert_eq!(
        text(bytes.clone()),
        r#"{"operate_type":1,"param":{"key":"a\"b","value":"line\nbreak\\"}}"#
    );
    assert_eq!(KvContractMessage::parse(bytes.as_slice()), Ok(put));
}

#[test]
fn parse_reads_the_request_of_a_client() {
    let raw = br#"{"operate_type":1,"param":{"key":"a","value":"b"}}"#;
    let message = KvContractMessage::parse(raw).expect("a request");
    assert_eq!(message, KvContractMessage::put("a".to_owned(), "b".to_owned()));
    assert_eq!(message.to_request(), Some(Request::Put { key: "a", value: "b" }));
}

#[test]
fn parse_accepts_blanks_and_any_order() {
    let raw = b" { \"param\" : { \"value\" : \"b\" , \"key\" : \"a\" } ,\n \"operate_type\" : 1 } ";
    let message = KvContractMessage::parse(raw).expect("a request");
    assert_eq!(message.operate_type, 1);
    assert_eq!(message.to_request(), Some(Request::Put { key: "a", value: "b" }));
}

#[test]
fn parse_undoes_escapes() {
    let raw = br#"{"operate_type":0,"param":{"key":"A\n\"x\""}}"#;
    let message = KvContractMessage::parse(raw).expect("a request");
    assert_eq!(message.to_request(), Some(Request::Get { key: "A\n\"x\"" }));
}

#[test]
fn parse_rejects_what_is_no_message() {
    let bad: [&[u8]; 10] = [
        b"",
        b"not json",
        b"[1,{}]",
        br#"{"operate_type":1}"#,
        br#"{"param":{}}"#,
        br#"{"operate_type":256,"param":{}}"#,
        br#"{"operate_type":-1,"param":{}}"#,
        br#"{"operate_type":"1","param":{}}"#,
        br#"{"operate_type":1,"param":{"key":1}}"#,
        br#"{"operate_type":1,"param":{}} trailing"#,
    ];
    for raw in bad {
        assert_eq!(KvContractMessage::parse(raw), Err(Error::MalformedBinary));
    }
}

#[test]
fn requests_need_their_parameters() {
    let no_op = KvContractMessage { operate_type: 3, param: vec![("key".to_owned(), "a".to_owned())] };
    assert_eq!(no_op.to_request(), None);
    assert_eq!(no_op.to_response(), None);
    let put_without_value =
        KvContractMessage { operate_type: 1, param: vec![("key".to_owned(), "a".to_owned())] };
    assert_eq!(put_without_value.to_request(), None);
    let get_without_key =
        KvContractMessage { operate_type: 0, param: vec![("value".to_owned(), "a".to_owned())] };
    assert_eq!(get_without_key.to_request(), None);
    let remove_without_key = KvContractMessage { operate_type: 2, param: Vec::new() };
    assert_eq!(remove_without_key.to_request(), None);
    let content_without_content = KvContractMessage { operate_type: 253, param: Vec::new() };
    assert_eq!(content_without_content.to_response(), None);
    let error_without_reason = KvContractMessage { operate_type: 255, param: Vec::new() };
    assert_eq!(error_without_reason.to_response(), None);
}

#[test]
fn the_first_parameter_of_a_name_counts() {
    let param = vec![
        ("key".to_owned(), "first".to_owned()),
        ("key".to_owned(), "second".to_owned()),
    ];
    assert_eq!(kvs::json::find(&param, "key"), Some(&"first".to_owned()));
    assert_eq!(kvs::json::find(&param, "value"), None);
}

#[test]
fn contract_error_describes_itself() {
    assert_eq!(Error::MalformedBinary.message(), "Failed to parse the format of binary data.");
}
