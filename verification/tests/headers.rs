use hive::headers::{
    headers_args, headers_in, headers_of, headers_or_none, read_headers, CommandOutcome,
    HeadersError,
};
use hive::json::Json;

fn pairs(v: &[(&str, &str)]) -> Vec<(String, String)> {
    v.iter().map(|(a, b)| (a.to_string(), b.to_string())).collect()
}

#[test]
fn the_broker_is_asked_inside_the_container() {
    assert_eq!(
        headers_args("hive-uni", "parachute"),
        vec!["exec", "-e", "CLAUDE_CODE_MCP_SERVER_NAME=parachute", "hive-uni", "hive-headers"]
    );
}

#[test]
fn the_map_of_headers_is_nested() {
    let v = read_headers("\n {\"headers\": {\"X-B\": \"2\", \"Authorization\": \"Bearer T\"}} \n").unwrap();
    assert_eq!(v, pairs(&[("Authorization", "Bearer T"), ("X-B", "2")]));
    assert!(matches!(
        read_headers("{\"Authorization\": \"Bearer T\"}"),
        Err(HeadersError::NoHeaders)
    ));
    assert!(matches!(read_headers("{\"headers\": []}"), Err(HeadersError::NoHeaders)));
    assert!(matches!(read_headers("[]"), Err(HeadersError::NoHeaders)));
}

#[test]
fn headers_that_are_not_text_are_left_out() {
    let v = read_headers("{\"headers\": {\"a\": 1, \"b\": \"x\", \"c\": null, \"d\": \"\"}}").unwrap();
    assert_eq!(v, pairs(&[("b", "x"), ("d", "")]));
    assert_eq!(read_headers("{\"headers\": {}}").unwrap(), pairs(&[]));
}

#[test]
fn each_failure_is_told_apart() {
    assert!(matches!(headers_of(CommandOutcome::NotStarted), Err(HeadersError::Unreachable)));
    match headers_of(CommandOutcome::Failed { stderr: b" no grant\xff\n".to_vec() }) {
        Err(HeadersError::Refused(said)) => assert_eq!(said, "no grant\u{fffd}"),
        other => panic!("{other:?}"),
    }
    match headers_of(CommandOutcome::Succeeded { stdout: b"not json".to_vec() }) {
        Err(HeadersError::Unparseable(e)) => assert_eq!(e.line(), 1),
        other => panic!("{other:?}"),
    }
    assert!(matches!(
        headers_of(CommandOutcome::Succeeded { stdout: b"{}".to_vec() }),
        Err(HeadersError::NoHeaders)
    ));
    let stdout = "{\"headers\":{\"k\":\"\u{e9}\"}}".as_bytes().to_vec();
    assert_eq!(headers_of(CommandOutcome::Succeeded { stdout }).unwrap(), pairs(&[("k", "\u{e9}")]));
}

#[test]
fn where_the_broker_gives_no_headers_there_are_none() {
    let none = |outcome: CommandOutcome| {
        let (headers, why) = headers_or_none(outcome);
        assert_eq!(headers, pairs(&[]));
        why.unwrap()
    };
    assert!(matches!(none(CommandOutcome::NotStarted), HeadersError::Unreachable));
    match none(CommandOutcome::Failed { stderr: b"no grant\n".to_vec() }) {
        HeadersError::Refused(said) => assert_eq!(said, "no grant"),
        other => panic!("{other:?}"),
    }
    assert!(matches!(
        none(CommandOutcome::Succeeded { stdout: b"{".to_vec() }),
        HeadersError::Unparseable(_)
    ));
    assert!(matches!(
        none(CommandOutcome::Succeeded { stdout: b"{\"headers\":1}".to_vec() }),
        HeadersError::NoHeaders
    ));
    let stdout = b"{\"headers\":{\"k\":\"v\"}}".to_vec();
    let (headers, why) = headers_or_none(CommandOutcome::Succeeded { stdout });
    assert_eq!(headers, pairs(&[("k", "v")]));
    assert!(why.is_none());
    let (headers, why) = headers_or_none(CommandOutcome::Succeeded { stdout: b"{\"headers\":{}}".to_vec() });
    assert_eq!(headers, pairs(&[]));
    assert!(why.is_none());
}

#[test]
fn headers_in_plain_values_keep_their_order() {
    let h = Json::Object(vec![
        ("z".into(), Json::Text("1".into())),
        ("n".into(), Json::Null),
        ("a".into(), Json::Text("2".into())),
    ]);
    let reply = Json::Object(vec![("headers".into(), Json::Null), ("headers".into(), h)]);
    assert_eq!(headers_in(reply), Some(pairs(&[("z", "1"), ("a", "2")])));
    assert_eq!(headers_in(Json::Null), None);
}
