use mega_dl::api::{
    batch_requests, batch_urls, file_dl_info, file_request, folder_file_url, folder_nodes,
    folder_request, merge_urls, node_request, ApiError, BATCH_SIZE,
};
use mega_dl::json::Json;

fn text(s: &str) -> Json {
    Json::Text(s.to_owned())
}

fn object(members: Vec<(&str, Json)>) -> Json {
    Json::Object(members.into_iter().map(|(k, v)| (k.to_owned(), v)).collect())
}

fn list(items: Vec<Json>) -> Json {
    Json::List(items)
}

#[test]
fn requests_are_written_as_json() {
    assert_eq!(file_request("AbC"), "[{\"a\":\"g\",\"g\":1,\"p\":\"AbC\"}]");
    assert_eq!(folder_request(), "[{\"a\":\"f\",\"c\":1,\"ca\":1,\"r\":1}]");
    assert_eq!(node_request("h1"), "[{\"a\":\"g\",\"g\":1,\"n\":\"h1\"}]");
}

#[test]
fn request_texts_are_escaped() {
    for id in [
        "\"", "\\", "\n\r\t", "\u{8}\u{c}", "\u{0}\u{1}\u{1f}", "\u{7f}", "\u{e9}\u{1f600}", "a/b", "",
    ] {
        let quoted = serde_json::to_string(id).unwrap();
        assert_eq!(file_request(id), format!("[{{\"a\":\"g\",\"g\":1,\"p\":{quoted}}}]"));
    }
    assert_eq!(node_request("\u{1b}\""), "[{\"a\":\"g\",\"g\":1,\"n\":\"\\u001b\\\"\"}]");
}

#[test]
fn request_bodies_read_back_as_the_values() {
    let v: serde_json::Value = serde_json::from_str(&file_request("x\"y")).unwrap();
    assert_eq!(v[0]["a"], "g");
    assert_eq!(v[0]["g"], 1);
    assert_eq!(v[0]["p"], "x\"y");
}

#[test]
fn a_reply_tells_where_a_file_is() {
    let reply = list(vec![object(vec![
        ("s", Json::Integer(77)),
        ("g", text("http://x")),
        ("at", text("AAA")),
        ("more", Json::Other),
    ])]);
    let info = file_dl_info(&reply).unwrap();
    assert_eq!((info.url.as_str(), info.size, info.at.as_str()), ("http://x", 77, "AAA"));
    let reply = list(vec![list(vec![text("u"), Json::Integer(3), text("at")])]);
    let info = file_dl_info(&reply).unwrap();
    assert_eq!((info.url.as_str(), info.size, info.at.as_str()), ("u", 3, "at"));
}

#[test]
fn each_fault_of_a_reply_has_its_error() {
    let err = |reply: &Json| file_dl_info(reply).unwrap_err();
    assert_eq!(err(&Json::Integer(-9)), ApiError::BadShape);
    assert_eq!(err(&list(vec![])), ApiError::BadShape);
    assert_eq!(err(&list(vec![Json::Integer(-9)])), ApiError::Code(-9));
    assert_eq!(err(&list(vec![Json::Other])), ApiError::Incomplete);
    assert_eq!(err(&list(vec![object(vec![("g", text("u"))])])), ApiError::Incomplete);
    // A number that no signed 64-bit integer holds is no error code.
    assert_eq!(err(&list(vec![Json::Integer(u64::MAX as i128)])), ApiError::Incomplete);
    let short = list(vec![list(vec![text("u"), Json::Integer(3)])]);
    assert_eq!(err(&short), ApiError::Incomplete);
    let negative = object(vec![("g", text("u")), ("s", Json::Integer(-1)), ("at", text("a"))]);
    assert_eq!(err(&list(vec![negative])), ApiError::Incomplete);
}

#[test]
fn a_reply_gives_the_nodes() {
    let reply = list(vec![object(vec![("f", list(vec![text("n0"), text("n1")]))])]);
    let nodes = folder_nodes(&reply).unwrap();
    assert_eq!(nodes.len(), 2);
    assert_eq!(nodes[1].as_str(), Some("n1"));
    assert_eq!(folder_nodes(&list(vec![])).unwrap_err(), ApiError::BadShape);
    assert_eq!(folder_nodes(&list(vec![Json::Integer(-2)])).unwrap_err(), ApiError::Code(-2));
    assert_eq!(folder_nodes(&list(vec![object(vec![])])).unwrap_err(), ApiError::Incomplete);
    let no_list = list(vec![object(vec![("f", text("x"))])]);
    assert_eq!(folder_nodes(&no_list).unwrap_err(), ApiError::Incomplete);
}

#[test]
fn a_reply_gives_the_address_of_a_node() {
    let reply = list(vec![object(vec![("g", text("http://y"))])]);
    assert_eq!(folder_file_url(&reply), Ok("http://y".to_owned()));
    assert_eq!(folder_file_url(&Json::Other), Err(ApiError::BadShape));
    assert_eq!(folder_file_url(&list(vec![Json::Integer(-3)])), Err(ApiError::Code(-3)));
    assert_eq!(folder_file_url(&list(vec![object(vec![])])), Err(ApiError::Incomplete));
}

#[test]
fn addresses_are_asked_for_in_batches() {
    let handles: Vec<String> = (0..101).map(|i| format!("h{i}")).collect();
    let bodies = batch_requests(&handles);
    assert_eq!(bodies.len(), 3);
    let v: serde_json::Value = serde_json::from_str(&bodies[1]).unwrap();
    assert_eq!(v.as_array().unwrap().len(), BATCH_SIZE);
    assert_eq!(v[0]["n"], "h50");
    assert_eq!(v[49]["n"], "h99");
    assert_eq!(bodies[2], "[{\"a\":\"g\",\"g\":1,\"n\":\"h100\"}]");
    assert_eq!(batch_requests(&vec!["a".to_owned(), "b".to_owned()]), vec![
        "[{\"a\":\"g\",\"g\":1,\"n\":\"a\"},{\"a\":\"g\",\"g\":1,\"n\":\"b\"}]".to_owned()
    ]);
    assert!(batch_requests(&vec![]).is_empty());
    assert_eq!(batch_requests(&handles[..50].to_vec()).len(), 1);
}

#[test]
fn a_batch_gives_an_address_or_none_for_each_item() {
    let reply = list(vec![object(vec![("g", text("u0"))]), Json::Integer(-9), object(vec![])]);
    assert_eq!(batch_urls(&reply), Some(vec![Some("u0".to_owned()), None, None]));
    assert_eq!(batch_urls(&Json::Integer(-4)), None);
    assert_eq!(batch_urls(&list(vec![])), Some(vec![]));
}

#[test]
fn addresses_go_to_the_places_of_their_files() {
    let u = |s: &str| Some(s.to_owned());
    let replies = vec![
        Some((0..50).map(|i| u(&format!("a{i}"))).collect()),
        None,
        Some(vec![u("c0"), None, u("c2"), u("too many")]),
    ];
    let urls = merge_urls(103, &replies);
    assert_eq!(urls.len(), 103);
    assert_eq!(urls[0], u("a0"));
    assert_eq!(urls[49], u("a49"));
    assert!(urls[50..100].iter().all(|x| x.is_none()));
    assert_eq!(urls[100..], [u("c0"), None, u("c2")]);
    assert!(merge_urls(0, &vec![]).is_empty());
}

#[test]
fn a_long_reply_runs_into_the_next_batch() {
    let u = |s: &str| Some(s.to_owned());
    let long: Vec<Option<String>> = (0..52).map(|i| u(&format!("a{i}"))).collect();
    let urls = merge_urls(52, &vec![Some(long.clone()), None]);
    assert_eq!(urls, long);
    let urls = merge_urls(52, &vec![Some(long), Some(vec![u("b0")])]);
    assert_eq!(urls[50], u("b0"));
    assert_eq!(urls[51], u("a51"));
}

#[test]
fn values_tell_what_they_are() {
    let v = object(vec![("t", Json::Integer(5)), ("n", text("x")), ("t", Json::Integer(6))]);
    assert_eq!(v.get_u64("t"), Some(5));
    assert_eq!(v.get_str("n"), Some("x"));
    assert_eq!(v.get_str("t"), None);
    assert_eq!(v.get_u64("n"), None);
    assert!(v.get("z").is_none());
    assert!(v.as_str().is_none() && v.as_array().is_none());
    assert_eq!(Json::Integer(-1).as_u64(), None);
    assert_eq!(Json::Integer(-1).as_i64(), Some(-1));
    assert_eq!(Json::Integer(u64::MAX as i128).as_u64(), Some(u64::MAX));
    assert_eq!(Json::Integer(u64::MAX as i128).as_i64(), None);
    assert!(text("x").get("a").is_none());
}
