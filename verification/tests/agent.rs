use hive::agent::{
    default_file_mode, default_true, AgentConfig, AgentMode, AgentSpec, CredentialFile,
    HarnessAuth, Identity, Network, NetworkProfile, Resources,
};
use hive::label::short_hex;

fn file(mode: &str) -> CredentialFile {
    CredentialFile {
        credential: "codex/auth".into(),
        target: "/state/auth.json".into(),
        mode: mode.into(),
    }
}

fn identity(credential: Option<&str>) -> Identity {
    Identity {
        pubkey: "8f3c".into(),
        relay_url: "wss://home.example".into(),
        owner_pubkey: None,
        auth_tag: None,
        credential: credential.map(String::from),
    }
}

#[test]
fn a_mode_is_octal() {
    assert_eq!(file(&default_file_mode()).mode_bits(), 0o600);
    assert_eq!(file("0600").mode_bits(), 384);
    assert_ne!(file("0600").mode_bits(), 600);
    assert_eq!(file("0o640").mode_bits(), 0o640);
    assert_eq!(file("0").mode_bits(), 0);
}

#[test]
fn a_typo_in_a_mode_never_widens_access() {
    for mode in ["", "rw-", "0x777", "0888", "777 ", "-777", "77777777777777"] {
        assert_eq!(file(mode).mode_bits(), 0o600, "{mode}");
    }
}

#[test]
fn the_broker_key_follows_the_name_unless_it_is_given() {
    assert_eq!(identity(None).credential_key("uni"), "nsec/uni");
    assert_eq!(identity(Some("nsec/uni")).credential_key("uni-other"), "nsec/uni");
    assert_eq!(identity(Some("nsec/uni")).credential_key("uni"), "nsec/uni");
    assert_ne!(identity(None).credential_key("a"), identity(None).credential_key("b"));
    assert_eq!(identity(Some("")).credential_key("uni"), "");
}

#[test]
fn an_agent_without_a_configuration_is_observed() {
    assert!(default_true());
    let c = AgentConfig::default();
    assert!(c.observer);
    assert_eq!(c.mode, None);
    assert!(c.respond_to_allowlist.is_empty());
    assert_eq!((c.idle_timeout, c.max_turn_duration, c.parallelism), (None, None, None));
    assert_eq!((c.system_prompt, c.model, c.respond_to), (None, None, None));
}

#[test]
fn the_defaults_are_these() {
    let r = Resources::default();
    assert_eq!(r.memory, "3g");
    assert_eq!(f64::from_bits(r.cpus_bits), 2.0);
    assert_eq!(r.pids, 512);
    assert_eq!(HarnessAuth::default(), HarnessAuth::Broker);
    assert_eq!(AgentMode::default(), AgentMode::Relay);
    assert_eq!(Network::default().profile, NetworkProfile::Standard);
    assert_eq!(NetworkProfile::default(), NetworkProfile::Standard);
}

#[test]
fn a_hash_is_half_a_digest_in_hexadecimal() {
    assert_eq!(AgentSpec::hash(Some("abc")), "ba7816bf8f01cfea414140de5dae2223");
    assert_eq!(AgentSpec::hash(Some("")), "e3b0c44298fc1c149afbf4c8996fb924");
    assert_eq!(AgentSpec::hash(None), AgentSpec::hash(Some("")));
    let digest: Vec<u8> = (0..32).map(|i| (i * 17) as u8).collect();
    assert_eq!(short_hex(&digest), "00112233445566778899aabbccddeeff");
}

#[test]
fn different_digests_have_different_labels() {
    let digest: Vec<u8> = (0..32).map(|i| (i * 17) as u8).collect();
    for i in 0..32 {
        for bit in 0..8 {
            let mut other = digest.clone();
            other[i] ^= 1 << bit;
            assert_eq!(short_hex(&other) == short_hex(&digest), i >= 16);
        }
    }
    assert_ne!(AgentSpec::hash(Some("a")), AgentSpec::hash(Some("b")));
    assert_eq!(AgentSpec::hash(Some("a")), AgentSpec::hash(Some("a")));
}

#[test]
fn resources_are_equal_as_their_numbers_are() {
    let with = |cpus: f64| Resources { cpus_bits: cpus.to_bits(), ..Resources::default() };
    let nan = f64::from_bits(0xfff0_0000_0000_0001);
    let values = [
        0.0, -0.0, 2.0, -2.0, 1.5, f64::MAX, f64::MIN, f64::MIN_POSITIVE, f64::INFINITY,
        f64::NEG_INFINITY, f64::NAN, nan, f64::from_bits(1), f64::from_bits(0x8000_0000_0000_0001),
    ];
    for a in values {
        for b in values {
            assert_eq!(with(a) == with(b), a == b, "{a} {b}");
        }
    }
    assert_ne!(Resources { pids: 1, ..Resources::default() }, Resources::default());
    assert_ne!(Resources { memory: "2g".into(), ..Resources::default() }, Resources::default());
}

#[test]
fn a_stray_character_anywhere_leaves_the_owner_alone() {
    for i in 0..4 {
        for c in ['8', '9', 'x', ' ', '-', '_', 'O', '\u{661}'] {
            let mut mode: Vec<char> = "0777".chars().collect();
            mode.insert(i, c);
            assert_eq!(file(&mode.into_iter().collect::<String>()).mode_bits(), 0o600);
        }
    }
}

#[test]
fn a_leading_zero_or_octal_mark_does_not_change_a_mode() {
    for mode in ["600", "0640", "7", "rw", "0o755", ""] {
        assert_eq!(file(&format!("0o{mode}")).mode_bits(), file(mode).mode_bits(), "{mode}");
    }
    for mode in ["600", "0640", "7", "rw"] {
        assert_eq!(file(&format!("0{mode}")).mode_bits(), file(mode).mode_bits(), "{mode}");
    }
    assert_eq!(file("0").mode_bits(), 0);
    assert_eq!(file("").mode_bits(), 0o600);
    assert_eq!(file("0+7").mode_bits(), 0o600);
    assert_eq!(file("+7").mode_bits(), 7);
}
