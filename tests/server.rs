use kvs::server::{parse_addr, response_for, rm_answer, set_answer};
use kvs::sled_kvs::{get_outcome, remove_outcome, sled_outcome, SledKVEngine};
use kvs::{DirState, KVEngine, KVError, KVRequest, KVResponse, KVServer, KVStore};

fn s(x: &str) -> String {
    x.to_string()
}

#[test]
fn server_set_get_rm_messages() {
    let mut server = KVServer::new(KVStore::new());
    let set = server.execute_set_cmd(s("k"), s("v")).unwrap();
    assert_eq!(set, Some(s("set key: k value: v succesffully done !")));
    let got = server.execute_cmd(KVRequest::Get { key: s("k") }).unwrap();
    assert_eq!(got, Some(s("v")));
    let rm = server.execute_cmd(KVRequest::Rm { key: s("k") }).unwrap();
    assert_eq!(rm, Some(s("rm key: k succesffully done !")));
    let missing = server.execute_get_cmd(s("k")).unwrap();
    assert_eq!(missing, None);
}

#[test]
fn server_rm_of_missing_key_fails() {
    let mut server = KVServer::new(KVStore::new());
    match server.execute_rm_cmd(s("nope")) {
        Err(KVError::FailGet(k)) => assert_eq!(k, s("nope")),
        other => panic!("unexpected {:?}", other),
    }
}

#[test]
fn server_put_request() {
    let mut server = KVServer::new(KVStore::new());
    let r = server.execute_cmd(KVRequest::Put { key: s("a"), val: s("b") }).unwrap();
    assert_eq!(r, Some(s("set key: a value: b succesffully done !")));
    assert_eq!(server.engine.get(s("a")).unwrap(), Some(s("b")));
}

#[test]
fn responses_for_outcomes() {
    match response_for(Ok(Some(s("v")))) {
        KVResponse::Success(Some(v)) => assert_eq!(v, s("v")),
        other => panic!("unexpected {:?}", other),
    }
    assert!(matches!(response_for(Ok(None)), KVResponse::Success(None)));
    match response_for(Err(KVError::FailGet(s("k")))) {
        KVResponse::Failure(m) => assert_eq!(m, s("error Fail to get value from k")),
        other => panic!("unexpected {:?}", other),
    }
}

#[test]
fn response_into_result() {
    assert_eq!(KVResponse::Success(Some(s("x"))).into_result().unwrap(), Some(s("x")));
    assert_eq!(KVResponse::Success(None).into_result().unwrap(), None);
    match KVResponse::Failure(s("bad")).into_result() {
        Err(KVError::StringError(m)) => assert_eq!(m, s("bad")),
        other => panic!("unexpected {:?}", other),
    }
}

#[test]
fn error_messages() {
    assert_eq!(KVError::WrongEngine.message(), s("Wrong engine."));
    assert_eq!(KVError::KeyNotFound.message(), s("Key not found"));
    assert_eq!(KVError::Io(s("disk")).message(), s("An I/O error occurred: disk"));
    assert_eq!(KVError::EngineNotFound(s("x")).message(), s("x"));
}

#[test]
fn addresses() {
    assert_eq!(parse_addr("127.0.0.1:4000"), Some(s("127.0.0.1:4000")));
    assert_eq!(parse_addr("127.0.0.1"), None);
    assert_eq!(parse_addr("a:b:c"), None);
}

#[test]
fn sled_engine_set_get_remove() {
    let db = sled::Config::new().temporary(true).open().unwrap();
    let mut engine = SledKVEngine(db);
    engine.set(s("k"), s("v")).unwrap();
    assert_eq!(engine.get(s("k")).unwrap(), Some(s("v")));
    engine.set(s("k"), s("w")).unwrap();
    assert_eq!(engine.get(s("k")).unwrap(), Some(s("w")));
    engine.remove(s("k")).unwrap();
    assert_eq!(engine.get(s("k")).unwrap(), None);
    assert!(matches!(engine.remove(s("k")), Err(KVError::KeyNotFound)));
}

#[test]
fn sled_engine_refuses_kvs_directory() {
    let dir = DirState { has_kvs_log: true, has_sled_db: false };
    assert!(matches!(SledKVEngine::open("/nonexistent", dir), Err(KVError::WrongEngine)));
}

#[test]
fn answers_from_engine_outcomes() {
    let ok = set_answer(&s("k"), &s("v"), Ok(())).unwrap();
    assert_eq!(ok, Some(s("set key: k value: v succesffully done !")));
    assert!(matches!(set_answer(&s("k"), &s("v"), Err(KVError::ReadLog)), Err(KVError::ReadLog)));
    assert_eq!(rm_answer(s("k"), Ok(())).unwrap(), Some(s("rm key: k succesffully done !")));
    match rm_answer(s("k"), Err(KVError::KeyNotFound)) {
        Err(KVError::FailGet(k)) => assert_eq!(k, s("k")),
        other => panic!("unexpected {:?}", other),
    }
    assert!(matches!(rm_answer(s("k"), Err(KVError::ReadLog)), Err(KVError::ReadLog)));
}

#[test]
fn sled_outcomes() {
    assert_eq!(get_outcome(Ok(None)).unwrap(), None);
    assert_eq!(get_outcome(Ok(Some(b"val".to_vec()))).unwrap(), Some(s("val")));
    assert!(matches!(get_outcome(Ok(Some(vec![0xff]))), Err(KVError::Utf8)));
    assert!(matches!(remove_outcome(Ok(None)), Err(KVError::KeyNotFound)));
    assert!(remove_outcome(Ok(Some(b"v".to_vec()))).is_ok());
    assert!(matches!(remove_outcome(Ok(Some(vec![0xc3]))), Err(KVError::Utf8)));
    assert!(sled_outcome(Ok(())).is_ok());
}

#[test]
fn server_get_of_absent_key_answers_none() {
    let mut server = KVServer::new(KVStore::new());
    server.execute_set_cmd(s("k"), s("Key not found")).unwrap();
    let got = server.execute_get_cmd(s("k")).unwrap();
    assert_eq!(got, Some(s("Key not found")));
    assert_eq!(server.execute_get_cmd(s("other")).unwrap(), None);
}
