use hive::agent::{
    AgentConfig, AgentSpec, Harness, HarnessAuth, Identity, Mcp, McpTransport, Network, Resources,
};
use hive::headers::CommandOutcome;
use hive::launch::{
    after_ask, after_read, exec_args, exit_status, find_docker, harness_argv, http_servers,
    resolve, target, Config, HarnessDef, ResolveError, SpecStep, Target, Variables, EX_CONFIG,
};
use hive::session::McpEntry;
use std::cell::RefCell;
use std::collections::BTreeMap;

fn strings(v: &[&str]) -> Vec<String> {
    v.iter().map(|s| s.to_string()).collect()
}

fn harness(id: Option<&str>, command: Option<&str>) -> Harness {
    Harness {
        id: id.map(String::from),
        command: command.map(String::from),
        image: None,
        auth: HarnessAuth::Broker,
    }
}

fn catalog() -> Vec<HarnessDef> {
    let def = |id: &str, command: &str, unsupported: Option<&str>| HarnessDef {
        id: id.into(),
        command: command.into(),
        args: strings(&["--acp", "-q"]),
        unsupported: unsupported.map(String::from),
    };
    vec![
        def("one", "one-acp", None),
        def("two", "two-acp", Some("too large")),
        def("one", "another", None),
    ]
}

fn mcp(name: &str, url: Option<&str>) -> Mcp {
    Mcp {
        name: name.into(),
        transport: McpTransport::Http,
        url: url.map(String::from),
        command: None,
        args: vec![],
        credential: Some(format!("mcp/{name}")),
    }
}

fn spec(harness: Harness, mcp: Vec<Mcp>) -> AgentSpec {
    AgentSpec {
        identity: Identity {
            pubkey: "8f3c".into(),
            relay_url: "wss://home.example".into(),
            owner_pubkey: None,
            auth_tag: None,
            credential: None,
        },
        harness,
        agent: AgentConfig::default(),
        resources: Resources::default(),
        network: Network::default(),
        mcp,
        files: vec![],
        volumes: vec![],
        env: BTreeMap::new(),
    }
}

fn vars(agent: Option<&str>) -> Variables {
    Variables { agent: agent.map(String::from), spec_dir: None, daemon: None, container: None }
}

#[test]
fn the_first_docker_that_is_a_file_is_used() {
    let seen = RefCell::new(Vec::new());
    let r = find_docker(&|p: &str| {
        seen.borrow_mut().push(p.to_string());
        p == "/usr/bin/docker" || p.starts_with("/Applications")
    });
    assert_eq!(r, "/usr/bin/docker");
    assert_eq!(
        *seen.borrow(),
        strings(&["/usr/local/bin/docker", "/opt/homebrew/bin/docker", "/usr/bin/docker"])
    );
    assert_eq!(find_docker(&|_: &str| true), "/usr/local/bin/docker");
    assert_eq!(
        find_docker(&|p: &str| p.starts_with("/App")),
        "/Applications/Docker.app/Contents/Resources/bin/docker"
    );
    assert_eq!(find_docker(&|_: &str| false), "docker");
}

#[test]
fn an_agent_has_to_be_named() {
    assert_eq!(target(vars(None)), Err(ResolveError::NoAgent));
    assert_eq!(target(vars(Some(""))), Err(ResolveError::NoAgent));
    assert_eq!(
        target(vars(Some("uni"))),
        Ok(Target {
            agent: "uni".into(),
            spec_dir: "/etc/hive/agents".into(),
            spec_file: "uni.toml".into(),
            daemon: "hived".into(),
            container: "hive-uni".into(),
        })
    );
    let all = Variables {
        agent: Some("uni".into()),
        spec_dir: Some("/s".into()),
        daemon: Some("d".into()),
        container: Some("".into()),
    };
    let t = target(all).unwrap();
    assert_eq!((t.spec_dir, t.daemon, t.container), ("/s".into(), "d".into(), "".into()));
}

#[test]
fn a_spec_is_read_locally_or_through_the_daemon() {
    assert_eq!(
        after_read("hived", "/s/uni.toml", Some("x".into())),
        SpecStep::Parse("x".into())
    );
    assert_eq!(
        after_read("hived", "/s/uni.toml", None),
        SpecStep::Ask(strings(&["exec", "hived", "cat", "/s/uni.toml"]))
    );
    assert_eq!(after_ask(CommandOutcome::NotStarted), Err(ResolveError::DaemonUnreachable));
    assert_eq!(
        after_ask(CommandOutcome::Failed { stderr: b"no such file\n".to_vec() }),
        Err(ResolveError::SpecUnreadable("no such file".into()))
    );
    assert_eq!(
        after_ask(CommandOutcome::Succeeded { stdout: vec![0xff] }),
        Err(ResolveError::SpecNotText(String::from_utf8(vec![0xff]).unwrap_err()))
    );
    match after_ask(CommandOutcome::Succeeded { stdout: vec![b'a', 0xff] }) {
        Err(ResolveError::SpecNotText(e)) => assert_eq!(e.utf8_error().valid_up_to(), 1),
        other => panic!("{other:?}"),
    }
    assert_eq!(
        after_ask(CommandOutcome::Succeeded { stdout: "\u{e9} \n".as_bytes().to_vec() }),
        Ok("\u{e9} \n".to_string())
    );
}

#[test]
fn the_harness_comes_from_the_catalog_or_from_its_command() {
    let c = catalog();
    assert_eq!(harness_argv(&harness(Some("one"), Some("x")), &c), Ok(strings(&["one-acp", "--acp", "-q"])));
    assert_eq!(
        harness_argv(&harness(Some("two"), None), &c),
        Err(ResolveError::Unsupported("two".into(), "too large".into()))
    );
    assert_eq!(
        harness_argv(&harness(Some("three"), Some("x")), &c),
        Err(ResolveError::UnknownHarness("three".into()))
    );
    assert_eq!(harness_argv(&harness(None, Some(" my-acp  --fast ")), &c), Ok(strings(&["my-acp", "--fast"])));
    assert_eq!(harness_argv(&harness(None, Some(" ")), &c), Ok(vec![]));
    assert_eq!(harness_argv(&harness(None, None), &c), Err(ResolveError::NothingToRun));
}

#[test]
fn only_servers_with_a_url_are_attached() {
    let servers = vec![mcp("a", None), mcp("b", Some("https://b")), mcp("c", Some(""))];
    assert_eq!(
        http_servers(&servers),
        vec![
            McpEntry { name: "b".into(), url: "https://b".into(), credential: Some("mcp/b".into()) },
            McpEntry { name: "c".into(), url: "".into(), credential: Some("mcp/c".into()) },
        ]
    );
}

#[test]
fn a_stdio_server_is_not_attached_even_with_a_url() {
    let mut process = mcp("a", Some("u"));
    process.transport = McpTransport::Stdio;
    process.command = Some("c".into());
    let mut bare = mcp("n", None);
    bare.transport = McpTransport::Stdio;
    assert_eq!(http_servers(&vec![process.clone()]), vec![]);
    let s = spec(harness(None, Some("h")), vec![process, mcp("b", Some("https://b")), bare]);
    let c = resolve(target(vars(Some("uni"))).unwrap(), &s, &catalog()).unwrap();
    assert_eq!(
        c.mcp,
        vec![McpEntry {
            name: "b".into(),
            url: "https://b".into(),
            credential: Some("mcp/b".into()),
        }]
    );
}

#[test]
fn a_spec_resolves_to_what_is_run() {
    let s = spec(harness(Some("one"), None), vec![mcp("a", None), mcp("b", Some("https://b"))]);
    let c = resolve(target(vars(Some("uni"))).unwrap(), &s, &catalog()).unwrap();
    assert_eq!(
        c,
        Config {
            agent: "uni".into(),
            container: "hive-uni".into(),
            argv: strings(&["one-acp", "--acp", "-q"]),
            mcp: vec![McpEntry {
                name: "b".into(),
                url: "https://b".into(),
                credential: Some("mcp/b".into()),
            }],
        }
    );
    let s = spec(harness(None, None), vec![]);
    assert_eq!(
        resolve(target(vars(Some("uni"))).unwrap(), &s, &catalog()),
        Err(ResolveError::NothingToRun)
    );
}

#[test]
fn the_variables_for_the_harness_are_handed_on() {
    let c = Config {
        agent: "uni".into(),
        container: "hive-uni".into(),
        argv: strings(&["one-acp", "--acp"]),
        mcp: vec![],
    };
    let env: Vec<(String, String)> = [("BUZZ_RELAY", "wss://r"), ("HOME", "/r"), ("ACP_X", "1=2"), ("XBUZZ_", "n")]
        .iter()
        .map(|(k, v)| (k.to_string(), v.to_string()))
        .collect();
    assert_eq!(
        exec_args(&c, &env),
        strings(&["exec", "-i", "-e", "BUZZ_RELAY=wss://r", "-e", "ACP_X=1=2", "hive-uni", "one-acp", "--acp"])
    );
}

#[test]
fn the_exit_status_is_that_of_the_harness() {
    assert_eq!(exit_status(Some(0)), 0);
    assert_eq!(exit_status(Some(137)), 137);
    assert_eq!(exit_status(None), 1);
    assert_eq!(EX_CONFIG, 78);
}
