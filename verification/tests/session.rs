use hive::json::{parse, render, Json};
use hive::session::{
    attach_servers, http_server, inject, pass_on, pass_on_bytes, rewrite_session_new,
    takes_servers, McpEntry,
};
use std::cell::RefCell;

fn entry(name: &str) -> McpEntry {
    McpEntry {
        name: name.into(),
        url: format!("https://vault.example/{name}/mcp"),
        credential: Some(format!("mcp/{name}")),
    }
}

fn creds(_: &McpEntry) -> Vec<(String, String)> {
    vec![("Authorization".into(), "Bearer TOKEN".into())]
}

fn none(_: &McpEntry) -> Vec<(String, String)> {
    Vec::new()
}

fn text(s: &str) -> Json {
    Json::Text(s.to_string())
}

fn object(fields: Vec<(&str, Json)>) -> Json {
    Json::Object(fields.into_iter().map(|(k, v)| (k.to_string(), v)).collect())
}

#[test]
fn only_session_new_is_touched() {
    // Everything else (prompts, cancels, and every response coming back) must reach the far
    // side byte for byte.
    let e = [entry("parachute")];
    for line in [
        r#"{"jsonrpc":"2.0","id":3,"method":"session/prompt","params":{"sessionId":"s"}}"#,
        r#"{"jsonrpc":"2.0","id":1,"method":"initialize","params":{}}"#,
        r#"{"jsonrpc":"2.0","id":2,"result":{"sessionId":"s"}}"#,
    ] {
        assert!(inject(line, &e, &none).is_none(), "rewrote: {line}");
    }
}

#[test]
fn a_line_that_is_not_json_is_passed_through_rather_than_dropped() {
    assert!(inject("not json at all", &[entry("p")], &none).is_none());
    assert!(inject("", &[entry("p")], &none).is_none());
}

#[test]
fn an_agent_with_no_mcp_servers_is_never_rewritten() {
    let line = r#"{"jsonrpc":"2.0","id":2,"method":"session/new","params":{"mcpServers":[]}}"#;
    assert!(inject(line, &[], &creds).is_none());
}

#[test]
fn the_clients_own_mcp_servers_are_kept_and_hives_are_appended() {
    // A stdio server that the client configured and an HTTP server of the agent are not
    // alternatives.
    let line = r#"{"jsonrpc":"2.0","id":2,"method":"session/new","params":{"cwd":"/w","mcpServers":[{"name":"buzzy","command":"x","args":[],"env":[]}]}}"#;
    let out = inject(line, &[entry("parachute")], &creds).expect("rewritten");
    let v: serde_json::Value = serde_json::from_str(out.trim()).unwrap();
    let servers = v["params"]["mcpServers"].as_array().unwrap();
    assert_eq!(servers.len(), 2, "{out}");
    assert_eq!(servers[0]["name"], "buzzy");
    assert_eq!(servers[1]["name"], "parachute");
    assert_eq!(servers[1]["type"], "http");
    assert_eq!(v["params"]["cwd"], "/w", "unrelated params must survive");
}

#[test]
fn the_injected_server_matches_the_mcpserverhttp_variant() {
    // The variant is selected by `type`, and `headers` is required even when empty.
    let out = inject(
        r#"{"jsonrpc":"2.0","id":2,"method":"session/new","params":{}}"#,
        &[entry("parachute")],
        &creds,
    )
    .expect("rewritten");
    let v: serde_json::Value = serde_json::from_str(out.trim()).unwrap();
    let s = &v["params"]["mcpServers"][0];
    assert_eq!(s["type"], "http");
    assert_eq!(s["url"], "https://vault.example/parachute/mcp");
    assert_eq!(s["headers"][0]["name"], "Authorization");
    assert_eq!(s["headers"][0]["value"], "Bearer TOKEN");
}

#[test]
fn a_server_whose_credential_cannot_be_fetched_is_still_attached() {
    // Attached without credentials is diagnosable; silently absent is not.
    let out = inject(
        r#"{"jsonrpc":"2.0","id":2,"method":"session/new","params":{}}"#,
        &[entry("parachute")],
        &none,
    )
    .expect("rewritten");
    let v: serde_json::Value = serde_json::from_str(out.trim()).unwrap();
    assert_eq!(v["params"]["mcpServers"][0]["name"], "parachute");
    assert!(v["params"]["mcpServers"][0]["headers"].as_array().unwrap().is_empty());
}

#[test]
fn the_rewritten_line_stays_newline_terminated() {
    // The child reads line-delimited JSON.
    let out = inject(
        r#"{"jsonrpc":"2.0","id":2,"method":"session/new","params":{}}"#,
        &[entry("p")],
        &none,
    )
    .expect("rewritten");
    assert!(out.ends_with('\n'), "{out:?}");
}

#[test]
fn the_rewritten_line_is_exact() {
    let out = inject(
        "  {\"method\":\"session/new\",\"id\":2,\"params\":{}}\r\n",
        &[entry("p")],
        &creds,
    )
    .unwrap();
    assert_eq!(
        out,
        "{\"id\":2,\"method\":\"session/new\",\"params\":{\"mcpServers\":[{\"headers\":[{\"name\":\"Authorization\",\"value\":\"Bearer TOKEN\"}],\"name\":\"p\",\"type\":\"http\",\"url\":\"https://vault.example/p/mcp\"}]}}\n"
    );
}

#[test]
fn a_line_break_inside_a_text_stays_escaped() {
    let out = inject(
        "{\"method\":\"session/new\",\"params\":{\"cwd\":\"a\\nb\"}}",
        &[entry("p")],
        &none,
    )
    .unwrap();
    assert_eq!(out.matches('\n').count(), 1);
    let v: serde_json::Value = serde_json::from_str(&out).unwrap();
    assert_eq!(v["params"]["cwd"], "a\nb");
}

#[test]
fn requests_that_cannot_take_servers_are_left_alone() {
    let e = [entry("p")];
    for line in [
        r#"{"method":"session/new"}"#,
        r#"{"method":"session/new","params":[]}"#,
        r#"{"method":"session/new","params":null}"#,
        r#"{"method":"session/new","params":{"mcpServers":null}}"#,
        r#"{"method":"session/new","params":{"mcpServers":{}}}"#,
        r#"{"method":7,"params":{}}"#,
        r#"["session/new"]"#,
        r#""session/new""#,
    ] {
        assert!(inject(line, &e, &creds).is_none(), "{line}");
    }
}

#[test]
fn headers_are_fetched_only_for_a_rewritten_request() {
    let calls = RefCell::new(Vec::new());
    let fetch = |e: &McpEntry| {
        calls.borrow_mut().push(e.name.clone());
        Vec::new()
    };
    let mcp = [entry("a"), entry("b")];
    assert!(inject(r#"{"method":"session/prompt","params":{}}"#, &mcp, &fetch).is_none());
    assert!(inject(r#"{"method":"session/new","params":{"mcpServers":1}}"#, &mcp, &fetch).is_none());
    assert!(calls.borrow().is_empty());
    assert!(inject(r#"{"method":"session/new","params":{}}"#, &mcp, &fetch).is_some());
    assert_eq!(*calls.borrow(), vec!["a".to_string(), "b".to_string()]);
}

#[test]
fn credentials_are_fetched_for_servers_that_need_them() {
    let calls = RefCell::new(Vec::new());
    let fetch = |container: &str, server: &str| {
        calls.borrow_mut().push((container.to_string(), server.to_string()));
        vec![("k".to_string(), "v".to_string())]
    };
    let open = McpEntry { name: "open".into(), url: "https://o".into(), credential: None };
    let line = r#"{"method":"session/new","params":{}}"#;
    let out = rewrite_session_new(line, &[entry("p"), open], "hive-uni", &fetch).unwrap();
    assert_eq!(*calls.borrow(), vec![("hive-uni".to_string(), "p".to_string())]);
    let v: serde_json::Value = serde_json::from_str(&out).unwrap();
    let servers = &v["params"]["mcpServers"];
    assert_eq!(servers[0]["headers"][0]["name"], "k");
    assert_eq!(servers[1]["name"], "open");
    assert!(servers[1]["headers"].as_array().unwrap().is_empty());
}

#[test]
fn other_lines_are_passed_on_as_they_came() {
    let fetch = |_: &str, _: &str| Vec::new();
    for line in ["not json\n", "", " {\"a\" : 1 }\r\n", "{\"method\":\"session/cancel\"}\n"] {
        assert_eq!(pass_on(line, &[entry("p")], "c", &fetch), line);
    }
    let line = "{\"method\":\"session/new\",\"params\":{}}\n";
    assert_eq!(pass_on(line, &[], "c", &fetch), line);
    assert_ne!(pass_on(line, &[entry("p")], "c", &fetch), line);
}

#[test]
fn lines_are_passed_on_byte_for_byte() {
    let fetch = |_: &str, _: &str| vec![("k".to_string(), "v".to_string())];
    let e = [entry("p")];
    let lines: [&[u8]; 5] = [
        b"",
        b"not json\n",
        b"\xff\xfe not text\n",
        b"{\"method\":\"session/new\",\"params\":{\"cwd\":\"\xc3\"}}\n",
        "{\"method\":\"session/prompt\", \"text\":\"\u{e9}\"}\n".as_bytes(),
    ];
    for line in lines {
        assert_eq!(pass_on_bytes(line, &e, "c", &fetch), line);
    }
    let line = "{\"method\":\"session/new\",\"params\":{\"cwd\":\"\u{e9}\"}}\n";
    assert_eq!(
        pass_on_bytes(line.as_bytes(), &e, "c", &fetch),
        pass_on(line, &e, "c", &fetch).as_bytes()
    );
    assert_ne!(pass_on_bytes(line.as_bytes(), &e, "c", &fetch), line.as_bytes());
    assert_eq!(pass_on_bytes(line.as_bytes(), &[], "c", &fetch), line.as_bytes());
}

#[test]
fn headers_are_asked_for_by_the_name_of_the_server() {
    let e = McpEntry {
        name: "vault".into(),
        url: "https://v".into(),
        credential: Some("mcp/key".into()),
    };
    let fetch = |container: &str, server: &str| vec![(container.to_string(), server.to_string())];
    let line = r#"{"method":"session/new","params":{}}"#;
    let out = rewrite_session_new(line, &[e], "hive-uni", &fetch).unwrap();
    let v: serde_json::Value = serde_json::from_str(&out).unwrap();
    assert_eq!(v["params"]["mcpServers"][0]["headers"][0]["name"], "hive-uni");
    assert_eq!(v["params"]["mcpServers"][0]["headers"][0]["value"], "vault");
}

#[test]
fn two_runs_differ_only_in_headers() {
    let line = r#"{"id":0.1,"method":"session/new","params":{"x":6.169062368256605e174,"mcpServers":[{"n":1e-7}]}}"#;
    let e = [entry("a"), entry("b")];
    let good = |_: &str, _: &str| vec![("k".to_string(), "v".to_string())];
    let failed = |_: &str, _: &str| Vec::new();
    let one = rewrite_session_new(line, &e, "c", &good).unwrap();
    let two = rewrite_session_new(line, &e, "d", &failed).unwrap();
    assert_ne!(one, two);
    let mut v: serde_json::Value = serde_json::from_str(&one).unwrap();
    let w: serde_json::Value = serde_json::from_str(&two).unwrap();
    assert_eq!(v["params"]["mcpServers"].as_array().unwrap().len(), 3);
    for i in 1..3 {
        assert_eq!(v["params"]["mcpServers"][i]["headers"][0]["value"], "v");
        v["params"]["mcpServers"][i]["headers"] = serde_json::Value::Array(vec![]);
    }
    assert_eq!(v, w);
    let other = r#"{"method":"session/load","params":{}}"#;
    assert!(rewrite_session_new(other, &e, "c", &good).is_none());
    assert!(rewrite_session_new(other, &e, "c", &failed).is_none());
}

#[test]
fn a_number_is_read_inside_a_document_as_it_is_read_alone() {
    let mut reals = vec![
        "6.169062368256605e174".to_string(),
        "1.7976931348623157e308".to_string(),
        "-1.7976931348623155e308".to_string(),
        "1e308".to_string(),
        "5e-324".to_string(),
        "-0".to_string(),
        "0.1".to_string(),
        "1e15".to_string(),
        "1e17".to_string(),
        "18446744073709551616".to_string(),
        "-9223372036854775809".to_string(),
    ];
    let mut bits: u64 = 0x9e37_79b9_7f4a_7c15;
    while reals.len() < 20000 {
        bits ^= bits << 13;
        bits ^= bits >> 7;
        bits ^= bits << 17;
        let x = f64::from_bits(bits);
        if x.is_finite() {
            reals.push(format!("{x:e}"));
        }
    }
    for text in reals {
        let alone = match parse(&text) {
            Ok(j) => render(j),
            Err(_) => continue,
        };
        let again = parse(&alone);
        let inside = render(object(vec![("k", Json::Array(vec![parse(&text).unwrap()]))]));
        assert_eq!(inside, format!("{{\"k\":[{alone}]}}"));
        match (parse(&inside), again) {
            (Ok(j), Ok(x)) => {
                assert!(matches!(x, Json::Real(_)), "{alone}");
                assert_eq!(j, object(vec![("k", Json::Array(vec![x]))]), "{alone}");
            }
            (Err(_), Err(_)) => {}
            other => panic!("{alone}: {other:?}"),
        }
    }
}

#[test]
fn servers_are_attached_to_plain_values() {
    let sent = object(vec![("name", text("buzzy"))]);
    let msg = object(vec![
        ("id", Json::Unsigned(2)),
        ("method", text("session/new")),
        ("params", object(vec![("mcpServers", Json::Array(vec![sent])), ("cwd", text("/w"))])),
    ]);
    assert!(takes_servers(&msg));
    let r = attach_servers(msg, vec![http_server(&entry("p"), none(&entry("p")))]).unwrap();
    let expected = object(vec![
        ("id", Json::Unsigned(2)),
        ("method", text("session/new")),
        (
            "params",
            object(vec![
                (
                    "mcpServers",
                    Json::Array(vec![
                        object(vec![("name", text("buzzy"))]),
                        object(vec![
                            ("type", text("http")),
                            ("name", text("p")),
                            ("url", text("https://vault.example/p/mcp")),
                            ("headers", Json::Array(vec![])),
                        ]),
                    ]),
                ),
                ("cwd", text("/w")),
            ]),
        ),
    ]);
    assert_eq!(r, expected);
    assert_eq!(attach_servers(text("x"), vec![]), None);
}

#[test]
fn servers_are_attached_step_by_step_or_all_at_once() {
    let msg = || {
        object(vec![
            ("method", text("session/new")),
            ("params", object(vec![("mcpServers", Json::Array(vec![text("sent")]))])),
        ])
    };
    let once = attach_servers(msg(), vec![text("a"), text("b")]).unwrap();
    let first = attach_servers(msg(), vec![text("a")]).unwrap();
    assert_eq!(attach_servers(first, vec![text("b")]).unwrap(), once);
}

#[test]
fn a_line_that_is_passed_on_fetches_no_credential() {
    let fetch = |_: &str, server: &str| -> Vec<(String, String)> { panic!("asked for {server}") };
    let e = [entry("p")];
    for line in ["not json\n", "{\"method\":\"session/prompt\",\"params\":{}}\n"] {
        assert!(rewrite_session_new(line, &e, "c", &fetch).is_none());
        assert_eq!(pass_on(line, &e, "c", &fetch), line);
        assert_eq!(pass_on_bytes(line.as_bytes(), &e, "c", &fetch), line.as_bytes());
    }
    assert_eq!(pass_on_bytes(b"\xff", &e, "c", &fetch), b"\xff");
}

#[test]
fn where_a_field_is_repeated_the_last_one_counts() {
    let line = r#"{"method":"x","method":"session/new","params":{}}"#;
    assert!(inject(line, &[entry("p")], &none).is_some());
    let plain = object(vec![
        ("method", text("session/new")),
        ("params", object(vec![])),
        ("method", text("x")),
    ]);
    assert!(!takes_servers(&plain));
}

#[test]
fn reading_what_was_written_gives_the_document_back() {
    let doc = r#"{"a":[null,true,-9223372036854775808,18446744073709551615],"b":{"c":"é\n\""}}"#;
    let j = parse(doc).unwrap();
    let again = parse(&render(parse(doc).unwrap())).unwrap();
    assert_eq!(j, again);
    assert_eq!(render(parse("[1.5, 2]").unwrap()), "[1.5,2]");
    assert_eq!(
        parse("[-1]").unwrap(),
        Json::Array(vec![Json::Signed(-1)])
    );
    assert_eq!(render(Json::Signed(5)), "5");
    let twice = object(vec![("k", Json::Null), ("k", Json::Bool(true))]);
    assert_eq!(render(twice), r#"{"k":true}"#);
}

#[test]
fn a_document_may_nest_so_deep_and_no_deeper() {
    let nested = |n: usize| "[".repeat(n) + &"]".repeat(n);
    assert!(parse(&nested(127)).is_ok());
    assert!(parse(&nested(128)).is_err());
    assert_eq!(render(parse(&nested(127)).unwrap()), nested(127));
    assert!(parse("[1,]").is_err());
}

#[test]
fn fields_are_read_in_the_order_of_their_names() {
    let j = parse(r#"{"b":1,"￿":2,"a":3,"𐀀":4,"":5}"#).unwrap();
    match j {
        Json::Object(o) => {
            let names: Vec<&str> = o.iter().map(|f| f.0.as_str()).collect();
            assert_eq!(names, vec!["", "a", "b", "\u{ffff}", "\u{10000}"]);
        }
        _ => panic!("no object"),
    }
}
