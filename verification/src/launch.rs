//! Running an agent's harness inside its container: which Docker command to call, what to read,
//! what to run there.
//!
//! Nothing here touches the outside. Each function takes what was seen there (variables, files,
//! how a command ended) and says what follows from it.
use crate::agent::AgentSpec;
use crate::agent::Harness;
use crate::agent::Mcp;
use crate::agent::McpTransport;
use crate::headers::CommandOutcome;
use crate::session::McpEntry;
use crate::text;
use vstd::prelude::*;
use vstd::string::StringExecFns;

verus! {

/// Where the Docker command may be, the first choice first. A process that a desktop started
/// cannot trust its `PATH` to name the right one.
pub open spec fn docker_paths() -> Seq<Seq<char>> {
    seq![
        "/usr/local/bin/docker"@,
        "/opt/homebrew/bin/docker"@,
        "/usr/bin/docker"@,
        "/Applications/Docker.app/Contents/Resources/bin/docker"@,
    ]
}

/// Whether `is_file` may say `b` of a path.
pub open spec fn says<F: Fn(&str) -> bool>(is_file: &F, path: Seq<char>, b: bool) -> bool {
    exists|p: &str| p@ == path && #[trigger] call_ensures(*is_file, (p,), b)
}

/// Whether `r` is what the first `n` paths leave: the first of the paths that is a file has the
/// index `n`, or `n` counts them all and none of them is.
pub open spec fn found_at<F: Fn(&str) -> bool>(is_file: &F, n: int, r: Seq<char>) -> bool {
    &&& 0 <= n <= docker_paths().len()
    &&& forall|j: int| 0 <= j < n ==> says(is_file, #[trigger] docker_paths()[j], false)
    &&& if n < docker_paths().len() {
        says(is_file, docker_paths()[n], true) && r == docker_paths()[n]
    } else {
        r == "docker"@
    }
}

/// Whether `is_file` may be asked for each path that comes up: a path comes up only where the
/// paths before it may be no files.
pub open spec fn may_probe<F: Fn(&str) -> bool>(is_file: &F) -> bool {
    forall|n: int, p: &str|
        0 <= n < docker_paths().len() && p@ == #[trigger] docker_paths()[n] && (forall|j: int|
            0 <= j < n ==> says(is_file, #[trigger] docker_paths()[j], false))
            ==> #[trigger] call_requires(*is_file, (p,))
}

/// The Docker command: the first of its usual paths that is a file, else the bare name. A
/// path is asked for only where the ones before it may be no files.
pub fn find_docker<F: Fn(&str) -> bool>(is_file: &F) -> (r: String)
    requires
        may_probe(is_file),
    ensures
        exists|n: int| found_at(is_file, n, r@),
{
    let paths = [
        "/usr/local/bin/docker",
        "/opt/homebrew/bin/docker",
        "/usr/bin/docker",
        "/Applications/Docker.app/Contents/Resources/bin/docker",
    ];
    let mut i: usize = 0;
    while i < 4
        invariant
            i <= 4,
            paths@.len() == 4,
            forall|j: int| 0 <= j < 4 ==> (#[trigger] paths@[j])@ == docker_paths()[j],
            may_probe(is_file),
            forall|j: int| 0 <= j < i ==> says(is_file, #[trigger] docker_paths()[j], false),
        decreases 4 - i,
    {
        let p = paths[i];
        assert(docker_paths()[i as int] == p@);
        if is_file(p) {
            assert(says(is_file, p@, true));
            assert(found_at(is_file, i as int, p@));
            return p.to_owned();
        }
        assert(says(is_file, p@, false));
        i += 1;
    }
    assert(found_at(is_file, 4, "docker"@));
    "docker".to_owned()
}

/// The variables that say which agent to run, where they are set.
#[derive(Debug, Clone, PartialEq)]
pub struct Variables {
    /// `HIVE_AGENT`: the agent.
    pub agent: Option<String>,
    /// `HIVE_SPEC_DIR`: where the specs are.
    pub spec_dir: Option<String>,
    /// `HIVE_DAEMON_CONTAINER`: the container of the daemon.
    pub daemon: Option<String>,
    /// `HIVE_CONTAINER`: the agent's container.
    pub container: Option<String>,
}

/// Which agent to run, and where to find it.
#[derive(Debug, Clone, PartialEq)]
pub struct Target {
    pub agent: String,
    pub spec_dir: String,
    /// The name of the agent's spec in `spec_dir`.
    pub spec_file: String,
    pub daemon: String,
    pub container: String,
}

/// Why an agent cannot be run.
#[derive(Debug, PartialEq)]
pub enum ResolveError {
    /// No agent is named.
    NoAgent,
    /// The daemon's container could not be asked for the spec.
    DaemonUnreachable,
    /// The daemon's container has no spec for the agent, and says this.
    SpecUnreadable(String),
    /// The spec is not UTF-8, as the error says.
    SpecNotText(std::string::FromUtf8Error),
    /// The spec names a harness that is not in the catalog.
    UnknownHarness(String),
    /// The spec names a harness that is deliberately absent from the image, for this reason.
    Unsupported(String, String),
    /// The spec names neither a harness nor a command.
    NothingToRun,
}

/// A value, or the default where there is none.
pub open spec fn or_default(value: Option<String>, default: Seq<char>) -> Seq<char> {
    match value {
        Some(s) => s@,
        None => default,
    }
}

/// A value, or the default where there is none.
fn value_or(value: Option<String>, default: &str) -> (r: String)
    ensures
        r@ == or_default(value, default@),
{
    match value {
        Some(s) => s,
        None => default.to_owned(),
    }
}

/// Says which agent to run, and where to find it. There has to be a name for the agent, which
/// is not empty.
pub fn target(vars: Variables) -> (r: Result<Target, ResolveError>)
    ensures
        match vars.agent {
            Some(agent) => if agent@.len() > 0 {
                r matches Ok(t) && {
                    &&& t.agent@ == agent@
                    &&& t.spec_dir@ == or_default(vars.spec_dir, "/etc/hive/agents"@)
                    &&& t.spec_file@ == agent@ + ".toml"@
                    &&& t.daemon@ == or_default(vars.daemon, "hived"@)
                    &&& t.container@ == or_default(vars.container, "hive-"@ + agent@)
                }
            } else {
                r matches Err(ResolveError::NoAgent)
            },
            None => r matches Err(ResolveError::NoAgent),
        },
{
    let agent = match vars.agent {
        Some(agent) => agent,
        None => return Err(ResolveError::NoAgent),
    };
    if agent.as_str().is_empty() {
        return Err(ResolveError::NoAgent);
    }
    let spec_file = agent.clone().concat(".toml");
    let container = value_or(vars.container, "hive-".to_owned().concat(agent.as_str()).as_str());
    Ok(
        Target {
            agent,
            spec_dir: value_or(vars.spec_dir, "/etc/hive/agents"),
            spec_file,
            daemon: value_or(vars.daemon, "hived"),
            container,
        },
    )
}

/// What to do for the text of a spec.
#[derive(Debug, Clone, PartialEq)]
pub enum SpecStep {
    /// This is the text.
    Parse(String),
    /// Run Docker with these arguments, and read what it prints.
    Ask(Vec<String>),
}

/// What follows from reading the spec's file: its text is used where it is there, and else the
/// daemon's container is asked for it, which may keep the specs in a volume of its own.
pub fn after_read(daemon: &str, path: &str, local: Option<String>) -> (r: SpecStep)
    ensures
        match local {
            Some(t) => r matches SpecStep::Parse(s) && s@ == t@,
            None => r matches SpecStep::Ask(args) && text::views(args@) == seq![
                "exec"@,
                daemon@,
                "cat"@,
                path@,
            ],
        },
{
    match local {
        Some(t) => SpecStep::Parse(t),
        None => {
            let mut args: Vec<String> = Vec::new();
            args.push("exec".to_owned());
            args.push(daemon.to_owned());
            args.push("cat".to_owned());
            args.push(path.to_owned());
            assert(text::views(args@) =~= seq!["exec"@, daemon@, "cat"@, path@]);
            SpecStep::Ask(args)
        },
    }
}

/// What follows from asking the daemon's container for a spec: its text, where the command
/// succeeded and printed UTF-8.
pub fn after_ask(outcome: CommandOutcome) -> (r: Result<String, ResolveError>)
    ensures
        match outcome {
            CommandOutcome::NotStarted => r matches Err(ResolveError::DaemonUnreachable),
            CommandOutcome::Failed { stderr } => r matches Err(ResolveError::SpecUnreadable(said))
                && said@ == text::trimmed(text::utf8_lossy(stderr@)),
            CommandOutcome::Succeeded { stdout } => if vstd::utf8::valid_utf8(stdout@) {
                r matches Ok(s) && s@ == vstd::utf8::decode_utf8(stdout@)
            } else {
                r matches Err(ResolveError::SpecNotText(_))
            },
        },
{
    match outcome {
        CommandOutcome::NotStarted => Err(ResolveError::DaemonUnreachable),
        CommandOutcome::Failed { stderr } => {
            let said = text::decode_lossy(&stderr);
            Err(ResolveError::SpecUnreadable(text::trim(said.as_str()).to_owned()))
        },
        CommandOutcome::Succeeded { stdout } => match text::decode(stdout) {
            Ok(s) => Ok(s),
            Err(e) => Err(ResolveError::SpecNotText(e)),
        },
    }
}

/// A harness that the catalog knows.
#[derive(Debug, Clone, PartialEq)]
pub struct HarnessDef {
    pub id: String,
    pub command: String,
    pub args: Vec<String>,
    /// Why the harness is absent from the image, where it is.
    pub unsupported: Option<String>,
}

/// The first entry of a catalog with this id.
pub open spec fn catalog_entry(catalog: Seq<HarnessDef>, id: Seq<char>) -> Option<HarnessDef>
    decreases catalog.len(),
{
    if catalog.len() == 0 {
        None
    } else if catalog[0].id@ == id {
        Some(catalog[0])
    } else {
        catalog_entry(catalog.drop_first(), id)
    }
}

/// Finds the first entry of a catalog with this id.
fn find_harness<'a>(catalog: &'a [HarnessDef], id: &str) -> (r: Option<&'a HarnessDef>)
    ensures
        match catalog_entry(catalog@, id@) {
            Some(d) => r matches Some(found) && *found == d,
            None => r is None,
        },
{
    let mut i: usize = 0;
    assert(catalog@.skip(0) =~= catalog@);
    while i < catalog.len()
        invariant
            i <= catalog@.len(),
            catalog_entry(catalog@, id@) == catalog_entry(catalog@.skip(i as int), id@),
        decreases catalog@.len() - i,
    {
        if text::same(catalog[i].id.as_str(), id) {
            return Some(&catalog[i]);
        }
        assert(catalog@.skip(i as int).drop_first() =~= catalog@.skip(i + 1));
        i += 1;
    }
    None
}

/// The command line of a harness. A catalog id comes before a command, and a command is split
/// at its white space.
pub open spec fn command_line(harness: Harness, catalog: Seq<HarnessDef>) -> Option<
    Seq<Seq<char>>,
> {
    match (harness.id, harness.command) {
        (Some(id), _) => match catalog_entry(catalog, id@) {
            Some(d) => if d.unsupported is None {
                Some(seq![d.command@] + text::views(d.args@))
            } else {
                None
            },
            None => None,
        },
        (None, Some(cmd)) => Some(text::words(cmd@)),
        (None, None) => None,
    }
}

/// Whether `e` says why a harness has no command line: it is not in the catalog, or it is absent
/// from the image, or nothing is named to run.
pub open spec fn is_why_not(harness: Harness, catalog: Seq<HarnessDef>, e: ResolveError) -> bool {
    match harness.id {
        Some(id) => match catalog_entry(catalog, id@) {
            Some(d) => {
                &&& d.unsupported is Some
                &&& e matches ResolveError::Unsupported(i, why)
                &&& i@ == id@
                &&& why@ == d.unsupported->0@
            },
            None => e matches ResolveError::UnknownHarness(i) && i@ == id@,
        },
        None => e is NothingToRun,
    }
}

/// Works out the command line of a harness.
pub fn harness_argv(harness: &Harness, catalog: &[HarnessDef]) -> (r: Result<
    Vec<String>,
    ResolveError,
>)
    ensures
        match command_line(*harness, catalog@) {
            Some(line) => r matches Ok(argv) && text::views(argv@) == line,
            None => r matches Err(e) && is_why_not(*harness, catalog@, e),
        },
{
    match (&harness.id, &harness.command) {
        (Some(id), _) => match find_harness(catalog, id.as_str()) {
            Some(d) => match &d.unsupported {
                Some(why) => Err(ResolveError::Unsupported(id.clone(), why.clone())),
                None => {
                    let mut argv: Vec<String> = Vec::new();
                    argv.push(d.command.clone());
                    push_all(&mut argv, &d.args);
                    assert(text::views(argv@) =~= seq![d.command@] + text::views(d.args@));
                    Ok(argv)
                },
            },
            None => Err(ResolveError::UnknownHarness(id.clone())),
        },
        (None, Some(cmd)) => Ok(text::split_words(cmd.as_str())),
        (None, None) => Err(ResolveError::NothingToRun),
    }
}

/// Appends copies of strings.
fn push_all(to: &mut Vec<String>, from: &Vec<String>)
    ensures
        text::views(final(to)@) == text::views(old(to)@) + text::views(from@),
{
    let ghost before = text::views(to@);
    let mut i: usize = 0;
    assert(text::views(from@).take(0) =~= Seq::empty());
    assert(before + Seq::empty() =~= before);
    while i < from.len()
        invariant
            i <= from@.len(),
            text::views(to@) == before + text::views(from@).take(i as int),
        decreases from@.len() - i,
    {
        let ghost now = text::views(to@);
        to.push(from[i].clone());
        assert(text::views(to@) =~= now.push(from@[i as int]@));
        assert(before + text::views(from@).take(i + 1) =~= now.push(from@[i as int]@));
        i += 1;
    }
    assert(text::views(from@).take(i as int) =~= text::views(from@));
}

/// The servers to attach: the HTTP servers that have a URL, in order. A stdio server is a process
/// inside the container, which is started there, whatever URL its spec gives.
pub open spec fn http_entries(mcp: Seq<Mcp>) -> Seq<McpEntry>
    decreases mcp.len(),
{
    if mcp.len() == 0 {
        Seq::empty()
    } else {
        let before = http_entries(mcp.drop_last());
        let m = mcp.last();
        match (m.transport, m.url) {
            (McpTransport::Http, Some(url)) => before.push(
                McpEntry { name: m.name, url, credential: m.credential },
            ),
            _ => before,
        }
    }
}

/// The servers to attach over HTTP.
pub fn http_servers(mcp: &Vec<Mcp>) -> (r: Vec<McpEntry>)
    ensures
        r@ == http_entries(mcp@),
{
    let mut r: Vec<McpEntry> = Vec::new();
    let mut i: usize = 0;
    while i < mcp.len()
        invariant
            i <= mcp@.len(),
            r@ == http_entries(mcp@.take(i as int)),
        decreases mcp@.len() - i,
    {
        let m = &mcp[i];
        assert(mcp@.take(i + 1).drop_last() =~= mcp@.take(i as int));
        match (&m.transport, &m.url) {
            (McpTransport::Http, Some(url)) => {
                r.push(
                    McpEntry {
                        name: m.name.clone(),
                        url: url.clone(),
                        credential: m.credential.clone(),
                    },
                );
            },
            _ => {},
        }
        i += 1;
    }
    assert(mcp@.take(i as int) =~= mcp@);
    r
}

/// What to run, and where.
#[derive(Debug, Clone, PartialEq)]
pub struct Config {
    pub agent: String,
    pub container: String,
    /// The command line of the harness.
    pub argv: Vec<String>,
    /// The servers to attach to the harness's sessions.
    pub mcp: Vec<McpEntry>,
}

/// Says what to run for an agent, given its spec.
pub fn resolve(target: Target, spec: &AgentSpec, catalog: &[HarnessDef]) -> (r: Result<
    Config,
    ResolveError,
>)
    ensures
        match command_line(spec.harness, catalog@) {
            Some(line) => r matches Ok(c) && {
                &&& text::views(c.argv@) == line
                &&& c.agent == target.agent
                &&& c.container == target.container
                &&& c.mcp@ == http_entries(spec.mcp@)
            },
            None => r matches Err(e) && is_why_not(spec.harness, catalog@, e),
        },
{
    match harness_argv(&spec.harness, catalog) {
        Ok(argv) => Ok(
            Config {
                agent: target.agent,
                container: target.container,
                argv,
                mcp: http_servers(&spec.mcp),
            },
        ),
        Err(e) => Err(e),
    }
}

/// Whether a variable is for the harness.
pub open spec fn is_forwarded(name: Seq<char>) -> bool {
    "BUZZ_"@.is_prefix_of(name) || "ACP_"@.is_prefix_of(name)
}

/// The arguments that set variables in the container: those for the harness, in order.
pub open spec fn variable_args(env: Seq<(String, String)>) -> Seq<Seq<char>>
    decreases env.len(),
{
    if env.len() == 0 {
        Seq::empty()
    } else {
        let before = variable_args(env.drop_last());
        let (name, value) = env.last();
        if is_forwarded(name@) {
            before.push("-e"@).push(name@ + "="@ + value@)
        } else {
            before
        }
    }
}

/// The arguments of the Docker command that runs the harness. Its input is kept open, without a
/// terminal, and the variables that are for the harness are handed on to it.
pub fn exec_args(config: &Config, env: &[(String, String)]) -> (r: Vec<String>)
    ensures
        text::views(r@) == seq!["exec"@, "-i"@] + variable_args(env@) + seq![config.container@]
            + text::views(config.argv@),
{
    let mut r: Vec<String> = Vec::new();
    r.push("exec".to_owned());
    r.push("-i".to_owned());
    let ghost head = seq!["exec"@, "-i"@];
    assert(text::views(r@) =~= head + variable_args(env@.take(0)));
    let mut i: usize = 0;
    while i < env.len()
        invariant
            i <= env@.len(),
            text::views(r@) == head + variable_args(env@.take(i as int)),
        decreases env@.len() - i,
    {
        let (name, value) = (&env[i].0, &env[i].1);
        let ghost before = text::views(r@);
        assert(env@.take(i + 1).drop_last() =~= env@.take(i as int));
        if text::begins_with(name.as_str(), "BUZZ_") || text::begins_with(name.as_str(), "ACP_") {
            let setting = name.clone().concat("=").concat(value.as_str());
            r.push("-e".to_owned());
            r.push(setting);
            assert(text::views(r@) =~= before.push("-e"@).push(name@ + "="@ + value@));
            assert(text::views(r@) =~= head + variable_args(env@.take(i + 1)));
        }
        i += 1;
    }
    assert(env@.take(i as int) =~= env@);
    let ghost before = text::views(r@);
    r.push(config.container.clone());
    assert(text::views(r@) =~= before + seq![config.container@]);
    push_all(&mut r, &config.argv);
    r
}

/// The exit status for a configuration that cannot be run.
pub const EX_CONFIG: i32 = 78;

/// The exit status to end with: that of the harness, so that one that crashed is not taken for
/// one that finished. A harness that a signal ended has none, and counts as failed.
pub fn exit_status(code: Option<i32>) -> (r: i32)
    ensures
        r == match code {
            Some(c) => c,
            None => 1,
        },
{
    match code {
        Some(c) => c,
        None => 1,
    }
}

/// Whether `e` is the entry for an HTTP server that has a URL.
pub open spec fn is_entry_of(m: Mcp, e: McpEntry) -> bool {
    &&& m.transport == McpTransport::Http
    &&& m.url == Some(e.url)
    &&& m.name == e.name
    &&& m.credential == e.credential
}

/// The servers to attach are the HTTP servers of the spec that have a URL, and no others. Each
/// keeps its name, its URL and its credential.
pub proof fn law_only_http_servers_are_attached(mcp: Seq<Mcp>, e: McpEntry)
    ensures
        http_entries(mcp).contains(e) <==> exists|i: int|
            0 <= i < mcp.len() && is_entry_of(#[trigger] mcp[i], e),
    decreases mcp.len(),
{
    if mcp.len() > 0 {
        let rest = mcp.drop_last();
        let all = http_entries(mcp);
        let before = http_entries(rest);
        let last = mcp.len() - 1;
        law_only_http_servers_are_attached(rest, e);
        assert(forall|i: int| 0 <= i < last ==> rest[i] == mcp[i]);
        if all.contains(e) {
            let k = choose|k: int| 0 <= k < all.len() && all[k] == e;
            if k < before.len() {
                assert(before[k] == e);
                let i = choose|i: int| 0 <= i < rest.len() && is_entry_of(#[trigger] rest[i], e);
                assert(is_entry_of(mcp[i], e));
            } else {
                assert(is_entry_of(mcp[last], e));
            }
        }
        if exists|i: int| 0 <= i < mcp.len() && is_entry_of(#[trigger] mcp[i], e) {
            let i = choose|i: int| 0 <= i < mcp.len() && is_entry_of(#[trigger] mcp[i], e);
            if i < last {
                assert(is_entry_of(rest[i], e));
                let k = choose|k: int| 0 <= k < before.len() && before[k] == e;
                assert(all[k] == e);
            } else {
                assert(all[all.len() - 1] == e);
            }
        }
    }
}

/// A variable that is not for the harness leaves no trace in the arguments, wherever it stands.
pub proof fn law_other_variables_stay_out(env: Seq<(String, String)>, i: int)
    requires
        0 <= i < env.len(),
        !is_forwarded(env[i].0@),
    ensures
        variable_args(env.remove(i)) == variable_args(env),
    decreases env.len(),
{
    if i == env.len() - 1 {
        assert(env.remove(i) =~= env.drop_last());
    } else {
        law_other_variables_stay_out(env.drop_last(), i);
        assert(env.remove(i).drop_last() =~= env.drop_last().remove(i));
        assert(env.remove(i).last() == env.last());
    }
}

/// The Docker command is the first of these paths that is a file, and the bare name where none of
/// them is.
pub proof fn law_docker_is_looked_for_in_this_order<F: Fn(&str) -> bool>(
    is_file: &F,
    files: Set<Seq<char>>,
    n: int,
    r: Seq<char>,
)
    requires
        found_at(is_file, n, r),
        forall|path: Seq<char>, b: bool| #[trigger]
            says(is_file, path, b) ==> b == files.contains(path),
    ensures
        r == if files.contains("/usr/local/bin/docker"@) {
            "/usr/local/bin/docker"@
        } else if files.contains("/opt/homebrew/bin/docker"@) {
            "/opt/homebrew/bin/docker"@
        } else if files.contains("/usr/bin/docker"@) {
            "/usr/bin/docker"@
        } else if files.contains("/Applications/Docker.app/Contents/Resources/bin/docker"@) {
            "/Applications/Docker.app/Contents/Resources/bin/docker"@
        } else {
            "docker"@
        },
{
    let paths = docker_paths();
    assert(paths[0] == "/usr/local/bin/docker"@);
    assert(paths[1] == "/opt/homebrew/bin/docker"@);
    assert(paths[2] == "/usr/bin/docker"@);
    assert(paths[3] == "/Applications/Docker.app/Contents/Resources/bin/docker"@);
    if n < paths.len() {
        assert(says(is_file, paths[n], true));
    }
}

/// A value that is set is used, an empty one too, and else the default.
pub proof fn law_a_value_that_is_set_is_used(value: String, default: Seq<char>)
    ensures
        or_default(Some(value), default) == value@,
        or_default(None, default) == default,
{
}

/// Looking an id up finds the first entry that has it, wherever it stands in the catalog, and
/// finds nothing only where no entry has it.
pub proof fn law_the_first_entry_of_an_id_is_found(catalog: Seq<HarnessDef>, id: Seq<char>)
    ensures
        forall|i: int|
            0 <= i < catalog.len() && (#[trigger] catalog[i]).id@ == id && (forall|j: int|
                0 <= j < i ==> (#[trigger] catalog[j]).id@ != id) ==> catalog_entry(catalog, id)
                == Some(catalog[i]),
        catalog_entry(catalog, id) is None <==> forall|i: int|
            0 <= i < catalog.len() ==> (#[trigger] catalog[i]).id@ != id,
    decreases catalog.len(),
{
    if catalog.len() > 0 {
        let rest = catalog.drop_first();
        law_the_first_entry_of_an_id_is_found(rest, id);
        assert(forall|i: int| 0 <= i < rest.len() ==> #[trigger] rest[i] == catalog[i + 1]);
        assert forall|i: int|
            0 <= i < catalog.len() && (#[trigger] catalog[i]).id@ == id && (forall|j: int|
                0 <= j < i ==> (#[trigger] catalog[j]).id@ != id) implies catalog_entry(
            catalog,
            id,
        ) == Some(catalog[i]) by {
            if i > 0 {
                assert(catalog[0].id@ != id);
                assert(rest[i - 1].id@ == id);
                assert forall|j: int| 0 <= j < i - 1 implies (#[trigger] rest[j]).id@ != id by {
                    assert(catalog[j + 1].id@ != id);
                }
            }
        }
        if catalog_entry(catalog, id) is None {
            assert forall|i: int| 0 <= i < catalog.len() implies (#[trigger] catalog[i]).id@
                != id by {
                if i > 0 {
                    assert(rest[i - 1].id@ != id);
                }
            }
        }
        if forall|i: int| 0 <= i < catalog.len() ==> (#[trigger] catalog[i]).id@ != id {
            assert(catalog[0].id@ != id);
            assert forall|i: int| 0 <= i < rest.len() implies (#[trigger] rest[i]).id@
                != id by {
                assert(catalog[i + 1].id@ != id);
            }
        }
    }
}

/// A harness that names an id runs what the first entry of the catalog with this id says, its
/// command before its arguments, whatever command the harness gives itself. An entry that is
/// absent from the image runs nothing, for the reason that the entry gives.
pub proof fn law_an_id_runs_its_entry(
    harness: Harness,
    catalog: Seq<HarnessDef>,
    i: int,
    e: ResolveError,
)
    requires
        harness.id is Some,
        0 <= i < catalog.len(),
        catalog[i].id@ == harness.id->0@,
        forall|j: int| 0 <= j < i ==> (#[trigger] catalog[j]).id@ != harness.id->0@,
    ensures
        catalog[i].unsupported is None ==> {
            let line = command_line(harness, catalog)->0;
            &&& command_line(harness, catalog) is Some
            &&& line.len() == catalog[i].args@.len() + 1
            &&& line[0] == catalog[i].command@
            &&& forall|k: int|
                1 <= k < line.len() ==> #[trigger] line[k] == catalog[i].args@[k - 1]@
        },
        catalog[i].unsupported is Some ==> {
            &&& command_line(harness, catalog) is None
            &&& is_why_not(harness, catalog, e) <==> (e matches ResolveError::Unsupported(id, why)
                && id@ == harness.id->0@ && why@ == catalog[i].unsupported->0@)
        },
{
    law_the_first_entry_of_an_id_is_found(catalog, harness.id->0@);
}

/// A harness that names an id which no entry of the catalog has runs nothing, and one without an
/// id runs the words of its command, or nothing where it gives no command either.
pub proof fn law_without_an_entry_the_command_decides(
    harness: Harness,
    catalog: Seq<HarnessDef>,
    e: ResolveError,
)
    requires
        harness.id is Some ==> forall|i: int|
            0 <= i < catalog.len() ==> (#[trigger] catalog[i]).id@ != harness.id->0@,
    ensures
        harness.id is Some ==> {
            &&& command_line(harness, catalog) is None
            &&& is_why_not(harness, catalog, e) <==> (e matches ResolveError::UnknownHarness(id)
                && id@ == harness.id->0@)
        },
        harness.id is None && harness.command is Some ==> command_line(harness, catalog) == Some(
            text::words(harness.command->0@),
        ),
        harness.id is None && harness.command is None ==> {
            &&& command_line(harness, catalog) is None
            &&& is_why_not(harness, catalog, e) <==> e is NothingToRun
        },
{
    if harness.id is Some {
        law_the_first_entry_of_an_id_is_found(catalog, harness.id->0@);
    }
}

/// The servers to attach are the HTTP servers of the spec that have a URL, each once and in the
/// order of the spec: the `k`-th of them is made of the server at `at[k]`.
pub proof fn law_http_servers_are_attached_once_and_in_order(mcp: Seq<Mcp>) -> (at: Seq<int>)
    ensures
        at.len() == http_entries(mcp).len(),
        forall|k: int, l: int| 0 <= k < l < at.len() ==> #[trigger] at[k] < #[trigger] at[l],
        forall|k: int|
            0 <= k < at.len() ==> {
                let m = mcp[#[trigger] at[k]];
                let e = http_entries(mcp)[k];
                &&& 0 <= at[k] < mcp.len()
                &&& m.transport == McpTransport::Http
                &&& m.url == Some(e.url)
                &&& m.name == e.name
                &&& m.credential == e.credential
            },
        forall|i: int|
            0 <= i < mcp.len() && (#[trigger] mcp[i]).transport == McpTransport::Http
                && mcp[i].url is Some ==> at.contains(i),
    decreases mcp.len(),
{
    if mcp.len() == 0 {
        Seq::empty()
    } else {
        let rest = mcp.drop_last();
        let n = mcp.len() - 1;
        let before = law_http_servers_are_attached_once_and_in_order(rest);
        assert(forall|i: int| 0 <= i < n ==> #[trigger] rest[i] == mcp[i]);
        let at = if mcp[n].transport == McpTransport::Http && mcp[n].url is Some {
            before.push(n)
        } else {
            before
        };
        assert forall|k: int| 0 <= k < at.len() implies {
            let m = mcp[#[trigger] at[k]];
            let e = http_entries(mcp)[k];
            &&& 0 <= at[k] < mcp.len()
            &&& m.transport == McpTransport::Http
            &&& m.url == Some(e.url)
            &&& m.name == e.name
            &&& m.credential == e.credential
        } by {
            if k < before.len() {
                assert(at[k] == before[k]);
                assert(rest[before[k]] == mcp[at[k]]);
            }
        }
        assert forall|i: int|
            0 <= i < mcp.len() && (#[trigger] mcp[i]).transport == McpTransport::Http
                && mcp[i].url is Some implies at.contains(i) by {
            if i < n {
                assert(rest[i].url is Some);
                let k = choose|k: int| 0 <= k < before.len() && before[k] == i;
                assert(at[k] == i);
            } else {
                assert(at[before.len() as int] == i);
            }
        }
        at
    }
}

/// Whether a name begins with `BUZZ_` or with `ACP_`, character by character.
pub open spec fn begins_like_ours(name: Seq<char>) -> bool {
    ||| name.len() >= 5 && name[0] == 'B' && name[1] == 'U' && name[2] == 'Z' && name[3] == 'Z'
        && name[4] == '_'
    ||| name.len() >= 4 && name[0] == 'A' && name[1] == 'C' && name[2] == 'P' && name[3] == '_'
}

/// The variables that are handed on are those whose names begin with `BUZZ_` or `ACP_`.
pub proof fn law_forwarded_names_begin_so(name: Seq<char>)
    ensures
        is_forwarded(name) <==> begins_like_ours(name),
{
    reveal_strlit("BUZZ_");
    reveal_strlit("ACP_");
    let b = "BUZZ_"@;
    let a = "ACP_"@;
    assert(b.len() == 5 && a.len() == 4);
    if b.is_prefix_of(name) {
        assert(forall|i: int| 0 <= i < 5 ==> b[i] == name.subrange(0, 5)[i]);
        assert(name[0] == b[0] && name[1] == b[1] && name[2] == b[2] && name[3] == b[3] && name[4]
            == b[4]);
    }
    if a.is_prefix_of(name) {
        assert(forall|i: int| 0 <= i < 4 ==> a[i] == name.subrange(0, 4)[i]);
        assert(name[0] == a[0] && name[1] == a[1] && name[2] == a[2] && name[3] == a[3]);
    }
    if begins_like_ours(name) {
        if name[0] == 'B' {
            assert(b =~= name.subrange(0, 5));
        } else {
            assert(a =~= name.subrange(0, 4));
        }
    }
}

/// Every variable for the harness is handed on, wherever it stands, and no other: the arguments
/// for the first variables and one more are those for the first ones, and behind them, where the
/// name of the one more begins with `BUZZ_` or `ACP_`, `-e` and its setting.
pub proof fn law_every_variable_of_ours_is_handed_on(env: Seq<(String, String)>, i: int)
    requires
        0 <= i < env.len(),
    ensures
        variable_args(Seq::empty()).len() == 0,
        variable_args(env.take(i + 1)) == if begins_like_ours(env[i].0@) {
            variable_args(env.take(i)) + seq!["-e"@, env[i].0@ + "="@ + env[i].1@]
        } else {
            variable_args(env.take(i))
        },
{
    law_forwarded_names_begin_so(env[i].0@);
    assert(env.take(i + 1).drop_last() =~= env.take(i));
    assert(env.take(i + 1).last() == env[i]);
    let before = variable_args(env.take(i));
    let setting = env[i].0@ + "="@ + env[i].1@;
    assert(before.push("-e"@).push(setting) =~= before + seq!["-e"@, setting]);
}

/// There are two arguments for each variable of ours and none for any other, in the order of the
/// variables: the `k`-th pair is `-e` and the setting of the variable at `at[k]`.
pub proof fn law_each_variable_of_ours_has_two_arguments(env: Seq<(String, String)>) -> (at: Seq<
    int,
>)
    ensures
        variable_args(env).len() == 2 * at.len(),
        forall|k: int, l: int| 0 <= k < l < at.len() ==> #[trigger] at[k] < #[trigger] at[l],
        forall|k: int|
            0 <= k < at.len() ==> {
                &&& 0 <= #[trigger] at[k] < env.len()
                &&& begins_like_ours(env[at[k]].0@)
                &&& variable_args(env)[2 * k] == "-e"@
                &&& variable_args(env)[2 * k + 1] == env[at[k]].0@ + "="@ + env[at[k]].1@
            },
        forall|i: int|
            0 <= i < env.len() && begins_like_ours((#[trigger] env[i]).0@) ==> at.contains(i),
    decreases env.len(),
{
    if env.len() == 0 {
        Seq::empty()
    } else {
        let rest = env.drop_last();
        let n = env.len() - 1;
        let before = law_each_variable_of_ours_has_two_arguments(rest);
        law_every_variable_of_ours_is_handed_on(env, n);
        assert(env.take(n) =~= rest);
        assert(env.take(n + 1) =~= env);
        assert(forall|i: int| 0 <= i < n ==> #[trigger] rest[i] == env[i]);
        let at = if begins_like_ours(env[n].0@) {
            before.push(n)
        } else {
            before
        };
        assert forall|k: int| 0 <= k < at.len() implies {
            &&& 0 <= #[trigger] at[k] < env.len()
            &&& begins_like_ours(env[at[k]].0@)
            &&& variable_args(env)[2 * k] == "-e"@
            &&& variable_args(env)[2 * k + 1] == env[at[k]].0@ + "="@ + env[at[k]].1@
        } by {
            if k < before.len() {
                assert(at[k] == before[k]);
                assert(rest[before[k]] == env[at[k]]);
                assert(variable_args(env)[2 * k] == variable_args(rest)[2 * k]);
                assert(variable_args(env)[2 * k + 1] == variable_args(rest)[2 * k + 1]);
            }
        }
        assert forall|i: int|
            0 <= i < env.len() && begins_like_ours((#[trigger] env[i]).0@) implies at.contains(
            i,
        ) by {
            if i < n {
                assert(begins_like_ours(rest[i].0@));
                let k = choose|k: int| 0 <= k < before.len() && before[k] == i;
                assert(at[k] == i);
            } else {
                assert(at[before.len() as int] == i);
            }
        }
        at
    }
}

/// Paths behind one that is surely a file are not asked for: where the first path is, an `is_file`
/// that can be asked for that path alone can be used.
pub proof fn law_paths_behind_a_file_are_not_asked_for<F: Fn(&str) -> bool>(is_file: &F)
    requires
        forall|p: &str|
            p@ == "/usr/local/bin/docker"@ ==> #[trigger] call_requires(*is_file, (p,)),
        !says(is_file, "/usr/local/bin/docker"@, false),
    ensures
        may_probe(is_file),
{
    assert forall|n: int, p: &str|
        0 <= n < docker_paths().len() && p@ == #[trigger] docker_paths()[n] && (forall|j: int|
            0 <= j < n ==> says(
                is_file,
                #[trigger] docker_paths()[j],
                false,
            )) implies #[trigger] call_requires(*is_file, (p,)) by {
        assert(docker_paths()[0] == "/usr/local/bin/docker"@);
    }
}

} // verus!
