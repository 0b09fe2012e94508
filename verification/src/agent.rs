//! Agent specs: the types of an agent's definition.
//!
//! There is one file per agent, and the files are the single source of truth. What is observed
//! of an agent (its container, its health) is never written back to them.
use crate::label;
use crate::text;
use std::collections::BTreeMap;
use vstd::prelude::*;
use vstd::string::StringExecFns;

verus! {

/// A complete agent definition.
#[derive(Debug, Clone, PartialEq)]
pub struct AgentSpec {
    pub identity: Identity,
    pub harness: Harness,
    pub agent: AgentConfig,
    pub resources: Resources,
    pub network: Network,
    /// MCP servers that this agent should hold. Their credentials are broker keys, never
    /// literal secrets: see [`Mcp::credential`].
    pub mcp: Vec<Mcp>,
    /// Credential files to place inside the container before it starts, for credentials that
    /// cannot be an environment variable. Each names a broker key, and lands in the agent's own
    /// state volume.
    pub files: Vec<CredentialFile>,
    /// Extra volumes, for sharing a workspace between agents. The agent's own state volume is
    /// always mounted and never shared.
    pub volumes: Vec<SharedVolume>,
    /// Environment that holds no secrets.
    pub env: BTreeMap<String, String>,
}

/// A credential that is delivered as a file.
#[derive(Debug, Clone, PartialEq)]
pub struct CredentialFile {
    /// A broker key (such as `model/auth`), never a literal secret.
    pub credential: String,
    /// Absolute path inside the container, under the state volume: elsewhere the file would be
    /// lost when the container is recreated.
    pub target: String,
    /// Octal, as text, so that `0600` is not read as the decimal number 600 (0o1130).
    pub mode: String,
}

/// The mode of a credential file that gives none.
pub fn default_file_mode() -> (r: String)
    ensures
        r@ == "0600"@,
{
    "0600".to_owned()
}

/// The mode of a credential file whose mode is no octal number: its owner may read and write.
pub const OWNER_ONLY: u32 = 0o600;

/// The permissions that a mode writes. A mode that is no octal number gives access to the
/// owner alone: a typo must never widen access to a credential.
pub open spec fn mode_value(mode: Seq<char>) -> int {
    match text::octal_number(text::without_octal_mark(mode)) {
        Some(n) => n,
        None => OWNER_ONLY as int,
    }
}

impl CredentialFile {
    /// The file's permissions.
    pub fn mode_bits(&self) -> (r: u32)
        ensures
            r == mode_value(self.mode@),
    {
        match text::parse_octal(self.mode.as_str()) {
            Some(bits) => bits,
            None => OWNER_ONLY,
        }
    }
}

/// A volume that agents share.
#[derive(Debug, Clone, PartialEq)]
pub struct SharedVolume {
    /// Docker volume name. Agents that name the same volume share its contents.
    pub name: String,
    /// Absolute mount point inside the container.
    pub target: String,
    pub read_only: bool,
}

/// Who an agent is, and where it connects to.
#[derive(Debug, Clone, PartialEq)]
pub struct Identity {
    /// The agent's Nostr public key (64 lowercase hex digits). The secret key is in the broker,
    /// and never in a spec.
    pub pubkey: String,
    pub relay_url: String,
    /// Plain owner public key.
    pub owner_pubkey: Option<String>,
    /// Owner attestation, preferred over `owner_pubkey`: the agent then has relay access from
    /// its owner's membership.
    pub auth_tag: Option<String>,
    /// Broker key that holds the secret key. Set it to put one identity on several relays:
    /// that takes several specs, and the secret key should be stored once.
    pub credential: Option<String>,
}

/// The broker key for an agent that names `credential`, or none.
pub open spec fn broker_key(credential: Option<String>, agent: Seq<char>) -> Seq<char> {
    match credential {
        Some(key) => key@,
        None => "nsec/"@ + agent,
    }
}

impl Identity {
    /// The broker key that holds this agent's secret key: `nsec/` and the agent's name, unless
    /// the spec names another.
    pub fn credential_key(&self, agent: &str) -> (r: String)
        ensures
            r@ == broker_key(self.credential, agent@),
    {
        match &self.credential {
            Some(key) => key.clone(),
            None => "nsec/".to_owned().concat(agent),
        }
    }
}

/// What an agent runs.
#[derive(Debug, Clone, PartialEq)]
pub struct Harness {
    /// Catalog id. The catalog gives its command and its image.
    pub id: Option<String>,
    /// For a harness that the catalog does not know: an explicit command, which takes an
    /// explicit image that holds it.
    pub command: Option<String>,
    pub image: Option<String>,
    /// Where the harness gets its model credential from.
    pub auth: HarnessAuth,
}

/// Where a harness gets its model credential from.
#[derive(Debug, Clone, Copy, PartialEq, Eq, Structural)]
pub enum HarnessAuth {
    /// A key in the broker, delivered as an environment variable.
    Broker,
    /// One of the agent's credential files.
    File,
    /// A login inside the container, of which nothing is required and nothing verified.
    Interactive,
}

impl Default for HarnessAuth {
    fn default() -> (r: Self)
        ensures
            r == HarnessAuth::Broker,
    {
        HarnessAuth::Broker
    }
}

/// Whether an agent's container connects to the relay, or is a sandbox that something else
/// drives.
#[derive(Debug, Clone, Copy, PartialEq, Eq, Structural)]
pub enum AgentMode {
    /// The container holds the relay connection, and outlives any desktop.
    Relay,
    /// The container is a sandbox only: the harness is run in it from outside.
    Environment,
}

impl Default for AgentMode {
    fn default() -> (r: Self)
        ensures
            r == AgentMode::Relay,
    {
        AgentMode::Relay
    }
}

/// How an agent behaves.
#[derive(Debug, Clone, PartialEq)]
pub struct AgentConfig {
    /// Whether the container holds its own relay connection.
    pub mode: Option<AgentMode>,
    pub system_prompt: Option<String>,
    /// The model's id, as its harness writes it: ids are not portable between harnesses.
    pub model: Option<String>,
    /// Who may trigger the agent: `owner-only`, `allowlist`, `anyone` or `nobody`.
    pub respond_to: Option<String>,
    pub respond_to_allowlist: Vec<String>,
    pub idle_timeout: Option<u64>,
    pub max_turn_duration: Option<u64>,
    /// How many conversations the agent holds at a time.
    pub parallelism: Option<u32>,
    /// Whether the agent's work can be watched from the desktop.
    pub observer: bool,
}

/// The value of a switch that is on unless it is switched off.
pub fn default_true() -> (r: bool)
    ensures
        r,
{
    true
}

impl Default for AgentConfig {
    /// An agent without a configuration is observed, and leaves everything else open.
    fn default() -> (r: Self)
        ensures
            r.mode is None,
            r.system_prompt is None,
            r.model is None,
            r.respond_to is None,
            r.respond_to_allowlist@.len() == 0,
            r.idle_timeout is None,
            r.max_turn_duration is None,
            r.parallelism is None,
            r.observer,
    {
        AgentConfig {
            mode: None,
            system_prompt: None,
            model: None,
            respond_to: None,
            respond_to_allowlist: Vec::new(),
            idle_timeout: None,
            max_turn_duration: None,
            parallelism: None,
            observer: default_true(),
        }
    }
}

/// The limits of an agent's container. They are compared as their values are: the processors as
/// the numbers that their bits stand for.
#[derive(Debug, Clone)]
pub struct Resources {
    pub memory: String,
    /// How many processors, as the 64 bits of an IEEE 754 double.
    pub cpus_bits: u64,
    pub pids: i64,
}

/// The bits of a double without its sign.
pub open spec fn magnitude(bits: u64) -> u64 {
    bits % 0x8000_0000_0000_0000
}

/// The bits of the infinite double: without their sign, those of a double that is no number are
/// larger.
pub const INFINITY_BITS: u64 = 0x7ff0_0000_0000_0000;

/// Whether two doubles, given by their bits, are equal: one that is no number equals nothing,
/// itself included, the two zeros are equal, and else their bits decide.
pub open spec fn doubles_equal(a: u64, b: u64) -> bool {
    &&& magnitude(a) <= INFINITY_BITS
    &&& magnitude(b) <= INFINITY_BITS
    &&& a == b || magnitude(a) == 0 && magnitude(b) == 0
}

/// Whether two doubles, given by their bits, are equal.
fn same_double(a: u64, b: u64) -> (r: bool)
    ensures
        r == doubles_equal(a, b),
{
    let m: u64 = a % 0x8000_0000_0000_0000;
    let n: u64 = b % 0x8000_0000_0000_0000;
    m <= INFINITY_BITS && n <= INFINITY_BITS && (a == b || m == 0 && n == 0)
}

impl PartialEq for Resources {
    fn eq(&self, other: &Self) -> (r: bool) {
        text::same(self.memory.as_str(), other.memory.as_str()) && same_double(
            self.cpus_bits,
            other.cpus_bits,
        ) && self.pids == other.pids
    }
}

impl vstd::std_specs::cmp::PartialEqSpecImpl for Resources {
    open spec fn obeys_eq_spec() -> bool {
        true
    }

    open spec fn eq_spec(&self, other: &Self) -> bool {
        &&& self.memory@ == other.memory@
        &&& doubles_equal(self.cpus_bits, other.cpus_bits)
        &&& self.pids == other.pids
    }
}

/// The bits of the double 2.0: its exponent, biased, is 1024, and its fraction is 0.
pub const TWO_CPUS: u64 = 0x4000_0000_0000_0000;

impl Default for Resources {
    /// Roomier than one harness needs: an agent may run another harness under its own limits.
    fn default() -> (r: Self)
        ensures
            r.memory@ == "3g"@,
            r.cpus_bits == TWO_CPUS,
            r.pids == 512,
    {
        Resources { memory: "3g".to_owned(), cpus_bits: TWO_CPUS, pids: 512 }
    }
}

/// What an agent may reach.
#[derive(Debug, Clone, Copy, PartialEq, Eq, Structural)]
pub enum NetworkProfile {
    /// The public internet on port 443, the relay and the broker's socket.
    Standard,
}

impl Default for NetworkProfile {
    fn default() -> (r: Self)
        ensures
            r == NetworkProfile::Standard,
    {
        NetworkProfile::Standard
    }
}

/// An agent's network.
#[derive(Debug, Clone, PartialEq)]
pub struct Network {
    pub profile: NetworkProfile,
}

impl Default for Network {
    fn default() -> (r: Self)
        ensures
            r.profile == NetworkProfile::Standard,
    {
        Network { profile: NetworkProfile::Standard }
    }
}

/// How an MCP server is reached.
#[derive(Debug, Clone, Copy, PartialEq, Eq, Structural)]
pub enum McpTransport {
    /// Over HTTP. Credentials are headers, which the broker supplies for each connection.
    Http,
    /// As a process inside the container.
    Stdio,
}

/// An MCP server of an agent.
#[derive(Debug, Clone, PartialEq)]
pub struct Mcp {
    pub name: String,
    pub transport: McpTransport,
    pub url: Option<String>,
    pub command: Option<String>,
    pub args: Vec<String>,
    /// A broker key (such as `mcp/parachute`), never a literal secret.
    pub credential: Option<String>,
}

impl AgentSpec {
    /// Stable hash of a spec, given its canonical text. It labels the spec's container, so that
    /// "as wanted" and "to be replaced" can be told apart without comparing fields. A spec that
    /// cannot be written counts as empty.
    pub fn hash(canonical: Option<&str>) -> (r: String)
        ensures
            r@ == label::spec_hash(
                match canonical {
                    Some(s) => vstd::utf8::encode_utf8(s@),
                    None => Seq::empty(),
                },
            ),
            r@.len() == 32,
    {
        let digest = match canonical {
            Some(s) => label::sha256(s.as_bytes()),
            None => label::sha256("".as_bytes()),
        };
        proof {
            reveal_strlit("");
            assert(""@ =~= Seq::empty());
            assert(vstd::utf8::encode_utf8(Seq::empty()) =~= Seq::empty());
        }
        label::short_hex(&digest)
    }
}

/// Specs that name the same broker key share one secret key, whatever their names are.
pub proof fn law_one_identity_on_several_relays(
    key: Option<String>,
    agent: Seq<char>,
    other: Seq<char>,
)
    requires
        key is Some,
    ensures
        broker_key(key, agent) == broker_key(key, other),
{
}

/// Agents whose specs name no broker key have keys of their own.
pub proof fn law_default_keys_differ(agent: Seq<char>, other: Seq<char>)
    requires
        agent != other,
    ensures
        broker_key(None, agent) != broker_key(None, other),
{
    let prefix = "nsec/"@;
    let n = prefix.len() as int;
    assert((prefix + agent).skip(n) =~= agent);
    assert((prefix + other).skip(n) =~= other);
}

/// A mode with a character that octal numbers are not written with, wherever it stands, gives
/// access to the owner alone.
pub proof fn law_a_typo_never_widens_access(mode: Seq<char>, i: int)
    requires
        0 <= i < mode.len(),
        !('0' <= mode[i] <= '7' || mode[i] == 'o' || mode[i] == '+'),
    ensures
        mode_value(mode) == OWNER_ONLY,
{
    let bare = text::without_octal_mark(mode);
    text::lemma_octal_mark_keeps(mode, i);
    let j = choose|j: int| 0 <= j < bare.len() && bare[j] == mode[i];
    if j > 0 {
        assert(bare.drop_first()[j - 1] == mode[i]);
    }
}

/// A leading `0o` does not change a mode.
pub proof fn law_an_octal_mark_changes_nothing(mode: Seq<char>)
    ensures
        mode_value("0o"@ + mode) == mode_value(mode),
{
    reveal_strlit("0o");
    assert(("0o"@ + mode).skip(2) =~= mode);
}

/// A leading zero does not change a mode. Left out are an empty mode, which writes no number
/// without the zero, and modes before which a zero makes or hides a mark or a sign.
pub proof fn law_a_leading_zero_changes_nothing(mode: Seq<char>)
    requires
        mode.len() > 0,
        mode[0] != 'o',
        mode[0] != '+',
        !(mode.len() >= 2 && mode[0] == '0' && mode[1] == 'o'),
    ensures
        mode_value(seq!['0'] + mode) == mode_value(mode),
{
    let longer = seq!['0'] + mode;
    assert(forall|i: int| 0 <= i < mode.len() ==> longer[i + 1] == mode[i]);
    assert(text::octal_digits(longer) <==> text::octal_digits(mode)) by {
        if text::octal_digits(longer) {
            assert forall|i: int| 0 <= i < mode.len() implies '0' <= #[trigger] mode[i]
                <= '7' by {
                assert(longer[i + 1] == mode[i]);
            }
        }
    }
    text::lemma_leading_zero(mode);
}

/// A mode is worth its octal digits by their places, where these fit 32 bits, with or without a
/// leading `0o` and with or without a sign. Any other mode gives access to the owner alone: one
/// without digits, one with anything else among them, one that is too large.
pub proof fn law_a_mode_is_worth_its_digits(sign: bool, digits: Seq<char>)
    requires
        !sign && digits.len() > 0 ==> digits[0] != '+',
        !sign && digits.len() >= 2 ==> !(digits[0] == '0' && digits[1] == 'o'),
    ensures
        ({
            let mode = if sign {
                seq!['+'] + digits
            } else {
                digits
            };
            let well_formed = digits.len() > 0 && forall|i: int|
                0 <= i < digits.len() ==> '0' <= #[trigger] digits[i] <= '7';
            let worth = if well_formed && text::place_sum(digits) <= 0xffff_ffff {
                text::place_sum(digits)
            } else {
                0o600
            };
            &&& mode_value(mode) == worth
            &&& mode_value("0o"@ + mode) == worth
        }),
{
    let mode = if sign {
        seq!['+'] + digits
    } else {
        digits
    };
    text::law_octal_digits_count_by_their_places(digits);
    law_an_octal_mark_changes_nothing(mode);
    if sign {
        assert(mode.drop_first() =~= digits);
        assert(mode[0] == '+');
    }
    assert(text::without_octal_mark(mode) == mode);
}

/// The broker key that a spec names is used as it is, and without one the key is `nsec/` and the
/// name of the agent.
pub proof fn law_the_broker_key_is_named_or_follows_the_agent(key: String, agent: Seq<char>)
    ensures
        broker_key(Some(key), agent) == key@,
        broker_key(None, agent).len() == 5 + agent.len(),
        broker_key(None, agent).take(5) == seq!['n', 's', 'e', 'c', '/'],
        broker_key(None, agent).skip(5) == agent,
{
    reveal_strlit("nsec/");
    assert("nsec/"@ =~= seq!['n', 's', 'e', 'c', '/']);
    assert(broker_key(None, agent).take(5) =~= "nsec/"@);
    assert(broker_key(None, agent).skip(5) =~= agent);
}

/// Doubles are compared as IEEE 754 says. One whose exponent has all its eleven bits set and whose
/// fraction is not zero is no number, and equals nothing. Of the others, different bits are equal
/// for the two zeros only.
pub proof fn law_doubles_are_compared_as_numbers(a: u64, b: u64)
    ensures
        ({
            let exponent_a = (a / 0x10_0000_0000_0000) % 0x800;
            let exponent_b = (b / 0x10_0000_0000_0000) % 0x800;
            let nan_a = exponent_a == 0x7ff && a % 0x10_0000_0000_0000 != 0;
            let nan_b = exponent_b == 0x7ff && b % 0x10_0000_0000_0000 != 0;
            let zero_a = a == 0 || a == 0x8000_0000_0000_0000;
            let zero_b = b == 0 || b == 0x8000_0000_0000_0000;
            doubles_equal(a, b) <==> !nan_a && !nan_b && (a == b || zero_a && zero_b)
        }),
{
}

} // verus!
