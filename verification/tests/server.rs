use kvs::kvs::KvsError;
use kvs::server::{get_reply, parse_request, set_reply, split_words, Request};

#[test]
fn words_split_on_any_white_space() {
    assert_eq!(split_words("  set\tk \u{3000} v\n"), vec!["set", "k", "v"]);
    assert_eq!(split_words(""), Vec::<String>::new());
}

#[test]
fn requests() {
    assert_eq!(
        parse_request("set a b\n"),
        Request::SetKey { key: "a".to_string(), value: "b".to_string() }
    );
    assert_eq!(parse_request("get a extra"), Request::GetKey { key: "a".to_string() });
    assert_eq!(parse_request("set a"), Request::MissingArgument);
    assert_eq!(parse_request("get"), Request::MissingArgument);
    assert_eq!(parse_request("  \n"), Request::Blank);
    assert_eq!(parse_request("del a"), Request::Other);
}

#[test]
fn replies() {
    assert_eq!(set_reply(&Ok(())), "OK\n");
    assert_eq!(set_reply(&Err(KvsError::LockPoisoned)), "ERR lock poisoned\n");
    assert_eq!(get_reply(&Ok("v".to_string())), "v\n");
    assert_eq!(get_reply(&Err(KvsError::KeyNotFound)), "ERR key not found\n");
}
