use kvs::client::report;
use kvs::client::ClientOpt;
use kvs::client::Operate;
use kvs::client::Report;
use kvs::contract::KvContractMessage;
use kvs::contract::Response;
use kvs::contract::Request;
use kvs::server::get_response;
use kvs::server::update_response;
use kvs::server::Server;
use kvs::server_common::Engine;
use kvs::server_common::NoSuchEngine;
use kvs::server_common::NoSuchPool;
use kvs::server_common::Pool;
use kvs::server_common::ServerError;
use kvs::KvError;
use kvs::KvStore;

fn answer(store: &mut KvStore, raw: &[u8]) -> String {
    String::from_utf8(Server::handle_request(raw, store)).expect("an answer is UTF-8")
}

#[test]
fn a_value_that_was_put_is_served() {
    let mut store = KvStore::open(Vec::new()).unwrap();
    assert_eq!(
        answer(&mut store, br#"{"operate_type":1,"param":{"key":"a","value":"b"}}"#),
        r#"{"operate_type":254,"param":{}}"#
    );
    assert_eq!(
        answer(&mut store, br#"{"operate_type":0,"param":{"key":"a"}}"#),
        r#"{"operate_type":253,"param":{"content":"b"}}"#
    );
}

#[test]
fn a_missing_key_is_answered_without_content() {
    let mut store = KvStore::open(Vec::new()).unwrap();
    assert_eq!(
        answer(&mut store, br#"{"operate_type":0,"param":{"key":"a"}}"#),
        r#"{"operate_type":254,"param":{}}"#
    );
}

#[test]
fn removing_a_missing_key_is_an_error() {
    let mut store = KvStore::open(Vec::new()).unwrap();
    assert_eq!(
        answer(&mut store, br#"{"operate_type":2,"param":{"key":"a"}}"#),
        r#"{"operate_type":255,"param":{"reason":"Key not found"}}"#
    );
    answer(&mut store, br#"{"operate_type":1,"param":{"key":"a","value":"b"}}"#);
    assert_eq!(
        answer(&mut store, br#"{"operate_type":2,"param":{"key":"a"}}"#),
        r#"{"operate_type":254,"param":{}}"#
    );
    assert_eq!(store.get("a".to_owned()), Ok(None));
}

#[test]
fn what_is_no_request_is_a_bad_request() {
    let mut store = KvStore::open(Vec::new()).unwrap();
    let bad = r#"{"operate_type":255,"param":{"reason":"Bad request."}}"#;
    assert_eq!(answer(&mut store, b"hello"), bad);
    assert_eq!(answer(&mut store, br#"{"operate_type":9,"param":{"key":"a"}}"#), bad);
    assert_eq!(answer(&mut store, br#"{"operate_type":1,"param":{"key":"a"}}"#), bad);
    assert_eq!(answer(&mut store, br#"{"operate_type":254,"param":{}}"#), bad);
    assert_eq!(store.export()[0].data, Vec::<u8>::new());
}

#[test]
fn a_server_serves_with_its_own_engine() {
    let mut server = Server::new(KvStore::open(Vec::new()).unwrap());
    server.serve(br#"{"operate_type":1,"param":{"key":"a","value":"b"}}"#);
    assert_eq!(server.engine().get("a".to_owned()), Ok(Some("b".to_owned())));
    assert_eq!(
        server.serve(br#"{"operate_type":0,"param":{"key":"a"}}"#),
        br#"{"operate_type":253,"param":{"content":"b"}}"#.to_vec()
    );
}

#[test]
fn query_db_answers_each_request() {
    let mut store = KvStore::open(Vec::new()).unwrap();
    assert_eq!(
        Server::query_db(Request::Put { key: "k", value: "v" }, &mut store),
        KvContractMessage::response_no_content()
    );
    assert_eq!(
        Server::query_db(Request::Get { key: "k" }, &mut store),
        KvContractMessage::response_content("v".to_owned())
    );
    assert_eq!(
        Server::query_db(Request::Remove { key: "k" }, &mut store),
        KvContractMessage::response_no_content()
    );
    assert_eq!(
        Server::query_db(Request::Remove { key: "k" }, &mut store),
        KvContractMessage::response_err("Key not found".to_owned())
    );
    assert_eq!(
        Server::query_db(Request::Get { key: "k" }, &mut store),
        KvContractMessage::response_no_content()
    );
}

#[test]
fn results_of_the_engine_become_answers() {
    assert_eq!(get_response(Ok(Some("v".to_owned()))), KvContractMessage::response_content("v".to_owned()));
    assert_eq!(get_response(Ok(None)), KvContractMessage::response_no_content());
    assert_eq!(
        get_response(Err(KvError::ConcurrentError)),
        KvContractMessage::response_err("when operate with lock, something bad happens.".to_owned())
    );
    assert_eq!(update_response(Ok(())), KvContractMessage::response_no_content());
    assert_eq!(
        update_response(Err(KvError::Other { reason: "full".to_owned() })),
        KvContractMessage::response_err("other exception: full".to_owned())
    );
}

#[test]
fn engines_are_named() {
    assert_eq!(Engine::from_name("kvs"), Ok(Engine::Kvs));
    assert_eq!(Engine::from_name("sled"), Ok(Engine::Sled));
    assert_eq!(Engine::from_name("KVS"), Ok(Engine::Kvs));
    assert_eq!(Engine::from_name("Sled"), Ok(Engine::Sled));
    assert_eq!(Engine::from_name("rocks"), Err(NoSuchEngine));
    assert_eq!(Engine::from_name(""), Err(NoSuchEngine));
    assert_eq!("kvs".parse::<Engine>(), Ok(Engine::Kvs));
    assert_eq!(Engine::Kvs.name(), "kvs");
    assert_eq!(AsRef::<str>::as_ref(&Engine::Sled), "sled");
    assert_eq!(Engine::Sled.name(), "sled");
    assert_eq!(Engine::default(), Engine::Kvs);
    assert_eq!(NoSuchEngine.message(), "No such engine");
}

#[test]
fn pools_are_named() {
    assert_eq!(Pool::from_name("naive"), Ok(Pool::Naive));
    assert_eq!(Pool::from_name("shared_queue"), Ok(Pool::SharedQueue));
    assert_eq!(Pool::from_name("rayon"), Ok(Pool::Rayon));
    assert_eq!(Pool::from_name("Shared_Queue"), Ok(Pool::SharedQueue));
    assert_eq!(Pool::from_name("Tokio"), Err(NoSuchPool("Tokio".to_owned())));
    assert_eq!("rayon".parse::<Pool>(), Ok(Pool::Rayon));
    assert_eq!(Pool::Naive.name(), "naive");
    assert_eq!(AsRef::<str>::as_ref(&Pool::SharedQueue), "shared_queue");
    assert_eq!(Pool::Rayon.name(), "rayon");
    assert_eq!(Pool::SharedQueue.name(), "shared_queue");
    assert_eq!(Pool::default(), Pool::SharedQueue);
    assert_eq!(NoSuchPool("Tokio".to_owned()).message(), "No such pool: Tokio");
}

#[test]
fn server_errors_describe_themselves() {
    assert_eq!(ServerError::BadRequest.message(), "Bad request.");
    assert_eq!(
        ServerError::from(KvError::KeyNotFound),
        ServerError::EngineError { eng_error: KvError::KeyNotFound }
    );
    assert_eq!(
        ServerError::from(kvs::contract::Error::MalformedBinary),
        ServerError::UnsupportedContract { contract_error: kvs::contract::Error::MalformedBinary }
    );
    assert_eq!(
        ServerError::EngineError { eng_error: KvError::KeyNotFound }.message(),
        "Engine exception: Key not found"
    );
    assert_eq!(
        ServerError::UnsupportedContract { contract_error: kvs::contract::Error::MalformedBinary }
            .message(),
        "Unsupported contract."
    );
}

fn converse(store: &mut KvStore, opt: ClientOpt) -> Report {
    let operate = opt.to_operate();
    let answer = Server::handle_request(opt.message().into_binary().as_slice(), store);
    let answer = KvContractMessage::parse(answer.as_slice()).expect("an answer is a message");
    report(operate, answer.to_response().expect("an answer is a response"))
}

#[test]
fn the_client_tells_what_the_server_answered() {
    let mut store = KvStore::open(Vec::new()).unwrap();
    let quiet = Report { line: None, is_error: false, exit_code: 0 };
    assert_eq!(
        converse(&mut store, ClientOpt::Get { key: "a".to_owned() }),
        Report { line: Some("Key not found".to_owned()), is_error: false, exit_code: 0 }
    );
    assert_eq!(
        converse(&mut store, ClientOpt::Rm { key: "a".to_owned() }),
        Report { line: Some("Key not found".to_owned()), is_error: true, exit_code: 1 }
    );
    assert_eq!(
        converse(&mut store, ClientOpt::Put { key: "a".to_owned(), value: "b".to_owned() }),
        quiet
    );
    assert_eq!(
        converse(&mut store, ClientOpt::Get { key: "a".to_owned() }),
        Report { line: Some("b".to_owned()), is_error: false, exit_code: 0 }
    );
    assert_eq!(converse(&mut store, ClientOpt::Rm { key: "a".to_owned() }), quiet);
}

#[test]
fn commands_become_requests() {
    let put = ClientOpt::Put { key: "a".to_owned(), value: "b".to_owned() };
    assert_eq!(put.to_operate(), Operate::Put);
    assert_eq!(put.message(), KvContractMessage::put("a".to_owned(), "b".to_owned()));
    let get = ClientOpt::Get { key: "a".to_owned() };
    assert_eq!(get.to_operate(), Operate::Get);
    assert_eq!(get.message(), KvContractMessage::get("a".to_owned()));
    let rm = ClientOpt::Rm { key: "a".to_owned() };
    assert_eq!(rm.to_operate(), Operate::Rm);
    assert_eq!(rm.message(), KvContractMessage::remove("a".to_owned()));
    assert_eq!(
        report(Operate::Put, Response::NoContent),
        Report { line: None, is_error: false, exit_code: 0 }
    );
    assert_eq!(
        report(Operate::Rm, Response::Error { reason: "why" }),
        Report { line: Some("why".to_owned()), is_error: true, exit_code: 1 }
    );
}
