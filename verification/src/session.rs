//! Attaching an agent's MCP servers to the sessions that its client opens.
//!
//! Of the JSON-RPC lines that pass, only a `session/new` request is rewritten: the agent's own
//! servers are appended to those that the client sent. Every other line goes through as it is.
use crate::json;
use crate::json::Json;
use crate::json::Tree;
use crate::text;
use vstd::prelude::*;
use vstd::slice::slice_to_vec;
use vstd::string::StrSliceExecFns;
use vstd::string::StringExecFns;

verus! {

/// An HTTP MCP server of an agent.
#[derive(Debug, Clone, PartialEq)]
pub struct McpEntry {
    pub name: String,
    pub url: String,
    /// Broker key. `None` for a server that needs no credential.
    pub credential: Option<String>,
}

/// The views of a list of headers.
pub open spec fn header_views(h: Seq<(String, String)>) -> Seq<(Seq<char>, Seq<char>)> {
    Seq::new(h.len(), |i: int| (h[i].0@, h[i].1@))
}

/// How a header is written in a server.
pub open spec fn header_tree(name: Seq<char>, value: Seq<char>) -> Tree {
    Tree::Object(
        Map::empty().insert("name"@, Tree::Text(name)).insert("value"@, Tree::Text(value)),
    )
}

/// How headers are written in a server.
pub open spec fn header_trees(h: Seq<(Seq<char>, Seq<char>)>) -> Seq<Tree> {
    Seq::new(h.len(), |i: int| header_tree(h[i].0, h[i].1))
}

/// How an HTTP server is written in a `session/new` request. `type` selects the HTTP variant
/// of a server, and `headers` is there even when it is empty.
pub open spec fn server_tree(
    name: Seq<char>,
    url: Seq<char>,
    headers: Seq<(Seq<char>, Seq<char>)>,
) -> Tree {
    Tree::Object(
        Map::empty().insert("type"@, Tree::Text("http"@)).insert("name"@, Tree::Text(name)).insert(
            "url"@,
            Tree::Text(url),
        ).insert("headers"@, Tree::Array(header_trees(headers))),
    )
}

/// The servers that the client sent, where `msg` is a `session/new` request that can take
/// more of them: its parameters are an object, whose servers, if it names any, are an array.
pub open spec fn session_servers(msg: Tree) -> Option<Seq<Tree>> {
    match msg {
        Tree::Object(m) => if m.contains_key("method"@) && m["method"@] == Tree::Text(
            "session/new"@,
        ) && m.contains_key("params"@) {
            match m["params"@] {
                Tree::Object(p) => if !p.contains_key("mcpServers"@) {
                    Some(Seq::empty())
                } else {
                    match p["mcpServers"@] {
                        Tree::Array(s) => Some(s),
                        _ => None,
                    }
                },
                _ => None,
            }
        } else {
            None
        },
        _ => None,
    }
}

/// `msg` with these servers in its parameters.
pub open spec fn with_servers(msg: Tree, servers: Seq<Tree>) -> Tree {
    let fields = msg->Object_0;
    let params = fields["params"@]->Object_0;
    Tree::Object(
        fields.insert("params"@, Tree::Object(params.insert("mcpServers"@, Tree::Array(servers)))),
    )
}

/// `msg` with more servers behind those that the client sent.
pub open spec fn attached(msg: Tree, more: Seq<Tree>) -> Option<Tree> {
    match session_servers(msg) {
        Some(sent) => Some(with_servers(msg, sent + more)),
        None => None,
    }
}

/// Writes an HTTP server for a `session/new` request.
pub fn http_server(e: &McpEntry, headers: Vec<(String, String)>) -> (r: Json)
    ensures
        r.tree() == server_tree(e.name@, e.url@, header_views(headers@)),
{
    let ghost all = header_trees(header_views(headers@));
    let mut list: Vec<Json> = Vec::new();
    for h in it: headers
        invariant
            it.seq() == headers@,
            all == header_trees(header_views(headers@)),
            list@.len() == it.index(),
            forall|i: int| 0 <= i < list@.len() ==> (#[trigger] list@[i]).tree() == all[i],
    {
        let ghost k = it.index() as int;
        assert(h == headers@[k]);
        let mut o: Vec<(String, Json)> = Vec::new();
        assert(json::field_trees(o@).len() == 0);
        json::push_field(&mut o, "name", Json::Text(h.0));
        json::push_field(&mut o, "value", Json::Text(h.1));
        list.push(Json::Object(o));
    }
    assert(json::trees(list@) =~= all);
    let mut o: Vec<(String, Json)> = Vec::new();
    assert(json::field_trees(o@).len() == 0);
    json::push_field(&mut o, "type", Json::Text("http".to_owned()));
    json::push_field(&mut o, "name", Json::Text(e.name.clone()));
    json::push_field(&mut o, "url", Json::Text(e.url.clone()));
    json::push_field(&mut o, "headers", Json::Array(list));
    Json::Object(o)
}

/// Whether a request's parameters are an object that can take servers.
fn servers_in(params: &Json) -> (r: bool)
    ensures
        r == (match params.tree() {
            Tree::Object(p) => !p.contains_key("mcpServers"@) || p["mcpServers"@] is Array,
            _ => false,
        }),
{
    match params {
        Json::Object(p) => {
            proof {
                json::lemma_field_of_object(p@, "mcpServers"@);
            }
            match json::find_field(p, "mcpServers") {
                Some(i) => match &p[i].1 {
                    Json::Array(_) => true,
                    _ => false,
                },
                None => true,
            }
        },
        _ => false,
    }
}

/// Whether `msg` is a `session/new` request that can take servers.
pub fn takes_servers(msg: &Json) -> (r: bool)
    ensures
        r == (session_servers(msg.tree()) is Some),
{
    match msg {
        Json::Object(m) => {
            proof {
                json::lemma_field_of_object(m@, "method"@);
                json::lemma_field_of_object(m@, "params"@);
            }
            let asks = match json::find_field(m, "method") {
                Some(i) => match &m[i].1 {
                    Json::Text(name) => text::same(name.as_str(), "session/new"),
                    _ => false,
                },
                None => false,
            };
            if !asks {
                return false;
            }
            match json::find_field(m, "params") {
                Some(i) => servers_in(&m[i].1),
                None => false,
            }
        },
        _ => false,
    }
}

/// Appends servers to those in a request's parameters.
fn add_servers(params: Vec<(String, Json)>, more: Vec<Json>) -> (r: Vec<(String, Json)>)
    requires
        ({
            let p = json::object_of(json::field_trees(params@));
            !p.contains_key("mcpServers"@) || p["mcpServers"@] is Array
        }),
    ensures
        ({
            let p = json::object_of(json::field_trees(params@));
            let sent = if p.contains_key("mcpServers"@) {
                p["mcpServers"@]->Array_0
            } else {
                Seq::empty()
            };
            json::object_of(json::field_trees(r@)) == p.insert(
                "mcpServers"@,
                Tree::Array(sent + json::trees(more@)),
            )
        }),
{
    let mut params = params;
    let mut more = more;
    let ghost fields = json::field_trees(params@);
    proof {
        json::lemma_field_of_object(params@, "mcpServers"@);
    }
    match json::find_field(&params, "mcpServers") {
        Some(i) => {
            let (name, sent) = params.remove(i);
            match sent {
                Json::Array(a) => {
                    let mut a = a;
                    let ghost all = json::trees(a@) + json::trees(more@);
                    a.append(&mut more);
                    assert(json::trees(a@) =~= all);
                    params.insert(i, (name, Json::Array(a)));
                    proof {
                        json::lemma_object_replace(
                            fields,
                            "mcpServers"@,
                            i as int,
                            Tree::Array(all),
                        );
                    }
                    assert(json::field_trees(params@) =~= fields.update(
                        i as int,
                        ("mcpServers"@, Tree::Array(all)),
                    ));
                },
                _ => {
                    assert(false);
                },
            }
        },
        None => {
            assert(Seq::<Tree>::empty() + json::trees(more@) =~= json::trees(more@));
            json::push_field(&mut params, "mcpServers", Json::Array(more));
        },
    }
    params
}

/// Appends servers to those of a `session/new` request. `None` for any other message.
pub fn attach_servers(msg: Json, more: Vec<Json>) -> (r: Option<Json>)
    ensures
        match attached(msg.tree(), json::trees(more@)) {
            Some(t) => r matches Some(j) && j.tree() == t,
            None => r is None,
        },
{
    if !takes_servers(&msg) {
        return None;
    }
    match msg {
        Json::Object(m) => {
            let mut m = m;
            let ghost fields = json::field_trees(m@);
            proof {
                json::lemma_field_of_object(m@, "params"@);
            }
            match json::find_field(&m, "params") {
                Some(i) => {
                    let (name, params) = m.remove(i);
                    match params {
                        Json::Object(p) => {
                            let p = add_servers(p, more);
                            let ghost t = Tree::Object(json::object_of(json::field_trees(p@)));
                            m.insert(i, (name, Json::Object(p)));
                            proof {
                                json::lemma_object_replace(fields, "params"@, i as int, t);
                            }
                            assert(json::field_trees(m@) =~= fields.update(
                                i as int,
                                ("params"@, t),
                            ));
                            Some(Json::Object(m))
                        },
                        _ => None,
                    }
                },
                None => None,
            }
        },
        _ => None,
    }
}

/// A server nests three levels deep and holds no numbers.
proof fn lemma_server_fits(
    name: Seq<char>,
    url: Seq<char>,
    headers: Seq<(Seq<char>, Seq<char>)>,
)
    ensures
        json::fits(server_tree(name, url, headers), 3, false),
{
    let list = header_trees(headers);
    assert forall|i: int| 0 <= i < list.len() implies json::fits(#[trigger] list[i], 1, false) by {
        let h = list[i];
        assert(h == header_tree(headers[i].0, headers[i].1));
        let o = h->Object_0;
        assert forall|k: Seq<char>| o.contains_key(k) implies json::fits(
            #[trigger] o[k],
            0,
            false,
        ) by {}
    }
    let t = Tree::Array(list);
    assert(t->Array_0 == list);
    assert(json::fits(t, 2, false));
    let server = server_tree(name, url, headers);
    let o = server->Object_0;
    assert forall|k: Seq<char>| o.contains_key(k) implies json::fits(
        #[trigger] o[k],
        2,
        false,
    ) by {}
}

/// Attaching servers nests a message no deeper than it may.
proof fn lemma_attached_fits(msg: Tree, more: Seq<Tree>, levels: nat)
    requires
        json::fits(msg, levels, true),
        levels >= 6,
        session_servers(msg) is Some,
        forall|i: int| 0 <= i < more.len() ==> json::fits(#[trigger] more[i], 3, false),
    ensures
        json::fits(attached(msg, more)->0, levels, true),
{
    let fields = msg->Object_0;
    let params = fields["params"@]->Object_0;
    assert(json::fits(fields["params"@], (levels - 1) as nat, true));
    let sent = session_servers(msg)->0;
    let all = sent + more;
    assert forall|i: int| 0 <= i < all.len() implies json::fits(
        #[trigger] all[i],
        (levels - 3) as nat,
        true,
    ) by {
        if i < sent.len() {
            let t = params["mcpServers"@];
            assert(json::fits(t, (levels - 2) as nat, true));
            assert(t->Array_0[i] == all[i]);
        } else {
            assert(all[i] == more[i - sent.len()]);
            json::lemma_fits_more(all[i], 3, (levels - 3) as nat, false);
        }
    }
    let t = Tree::Array(all);
    assert(t->Array_0 == all);
    assert(json::fits(t, (levels - 2) as nat, true));
    let p = params.insert("mcpServers"@, t);
    let q = Tree::Object(p);
    assert(q->Object_0 == p);
    assert forall|k: Seq<char>| p.contains_key(k) implies json::fits(
        #[trigger] p[k],
        (levels - 2) as nat,
        true,
    ) by {
        if k != "mcpServers"@ {
            assert(p[k] == params[k]);
        }
    }
    assert(json::fits(q, (levels - 1) as nat, true));
    let f = fields.insert("params"@, q);
    let r = Tree::Object(f);
    assert(r->Object_0 == f);
    assert forall|k: Seq<char>| f.contains_key(k) implies json::fits(
        #[trigger] f[k],
        (levels - 1) as nat,
        true,
    ) by {
        if k != "params"@ {
            assert(f[k] == fields[k]);
        }
    }
}

/// Reading a message back leaves it a message to attach servers to, and attaching servers does
/// not change what is read of the rest.
proof fn lemma_attached_reading(msg: Tree, more: Seq<Tree>)
    requires
        session_servers(msg) is Some,
        forall|i: int| 0 <= i < more.len() ==> json::fits(#[trigger] more[i], 3, false),
    ensures
        session_servers(json::reread(msg)) is Some,
        session_servers(json::reread(msg))->0.len() == session_servers(msg)->0.len(),
        json::rereadable(attached(msg, more)->0) <==> json::rereadable(msg),
        json::reread(attached(msg, more)->0) == attached(json::reread(msg), more)->0,
{
    let fields = msg->Object_0;
    let params = fields["params"@]->Object_0;
    let sent = session_servers(msg)->0;
    let all = sent + more;
    let p = params.insert("mcpServers"@, Tree::Array(all));
    let f = fields.insert("params"@, Tree::Object(p));
    assert(attached(msg, more)->0 == Tree::Object(f));
    json::lemma_reread_object(fields);
    json::lemma_reread_object(params);
    json::lemma_reread_array(sent);
    json::lemma_reread_array(all);
    json::lemma_reread_object(p);
    json::lemma_reread_object(f);
    let back = json::reread(msg);
    let back_fields = back->Object_0;
    let back_params = back_fields["params"@]->Object_0;
    let back_sent = json::reread(Tree::Array(sent))->Array_0;
    assert(back_fields["method"@] == Tree::Text("session/new"@));
    assert(back_fields["params"@] == json::reread(Tree::Object(params)));
    if params.contains_key("mcpServers"@) {
        assert(back_params["mcpServers"@] == json::reread(Tree::Array(sent)));
    }
    assert(session_servers(back)->0 =~= back_sent);
    assert forall|i: int| 0 <= i < more.len() implies json::reading(#[trigger] more[i]) == Some(
        more[i],
    ) by {
        json::law_integers_are_read_back(more[i], 3);
    }
    // What is read is the same.
    assert(json::reread(Tree::Array(all))->Array_0 =~= back_sent + more);
    assert(json::reread(Tree::Object(p))->Object_0 =~= back_params.insert(
        "mcpServers"@,
        Tree::Array(back_sent + more),
    ));
    assert(json::reread(Tree::Object(f))->Object_0 =~= back_fields.insert(
        "params"@,
        json::reread(Tree::Object(p)),
    ));
    // Whether it can be read is the same.
    assert(json::rereadable(Tree::Array(all)) <==> json::rereadable(Tree::Array(sent))) by {
        assert(forall|i: int| 0 <= i < sent.len() ==> all[i] == sent[i]);
        assert forall|i: int| sent.len() <= i < all.len() implies json::rereadable(
            #[trigger] all[i],
        ) by {
            assert(all[i] == more[i - sent.len()]);
        }
    }
    assert(json::rereadable(Tree::Object(p)) <==> json::rereadable(Tree::Object(params))) by {
        assert(p["mcpServers"@] == Tree::Array(all));
        assert(forall|k: Seq<char>|
            k != "mcpServers"@ && params.contains_key(k) ==> p[k] == params[k]);
    }
    assert(json::rereadable(Tree::Object(f)) <==> json::rereadable(Tree::Object(fields))) by {
        assert(f["params"@] == Tree::Object(p));
        assert(fields["params"@] == Tree::Object(params));
        assert(forall|k: Seq<char>|
            k != "params"@ && fields.contains_key(k) ==> f[k] == fields[k]);
    }
}

/// How the agent's servers are written, each with its headers.
pub open spec fn server_trees(mcp: Seq<McpEntry>, headers: Seq<Seq<(Seq<char>, Seq<char>)>>) -> Seq<
    Tree,
> {
    Seq::new(mcp.len(), |i: int| server_tree(mcp[i].name@, mcp[i].url@, headers[i]))
}

/// The agent's servers nest three levels deep and hold no numbers.
proof fn lemma_servers_fit(mcp: Seq<McpEntry>, headers: Seq<Seq<(Seq<char>, Seq<char>)>>)
    ensures
        forall|i: int|
            0 <= i < mcp.len() ==> json::fits(#[trigger] server_trees(mcp, headers)[i], 3, false),
{
    let more = server_trees(mcp, headers);
    assert forall|i: int| 0 <= i < mcp.len() implies json::fits(#[trigger] more[i], 3, false) by {
        lemma_server_fits(mcp[i].name@, mcp[i].url@, headers[i]);
    }
}

/// The message that a line holds, where the agent has servers and the message is one to attach
/// them to.
pub open spec fn session_in(line: Seq<char>, mcp: Seq<McpEntry>) -> Option<Tree> {
    match json::json_document(text::trimmed(line)) {
        Some(msg) => if mcp.len() > 0 && session_servers(msg) is Some {
            Some(msg)
        } else {
            None
        },
        None => None,
    }
}

/// The message that the bytes of a line hold, where they are UTF-8, the agent has servers and the
/// message is one to attach them to.
pub open spec fn bytes_session_in(line: Seq<u8>, mcp: Seq<McpEntry>) -> Option<Tree> {
    if vstd::utf8::valid_utf8(line) {
        session_in(vstd::utf8::decode_utf8(line), mcp)
    } else {
        None
    }
}

/// Whether `out` is the line for `msg` with the agent's servers attached to it: its JSON text
/// with one line break, at its end. Whoever reads the line gets what they would get of `msg` alone,
/// with the servers attached to it.
pub open spec fn is_rewritten(
    out: Seq<char>,
    msg: Tree,
    mcp: Seq<McpEntry>,
    headers: Seq<Seq<(Seq<char>, Seq<char>)>>,
) -> bool {
    let more = server_trees(mcp, headers);
    let written = json::json_text(with_servers(msg, session_servers(msg)->0 + more));
    &&& out == written.push('\n')
    &&& !written.contains('\n')
    &&& json::json_document(text::trimmed(out)) == match json::reading(msg) {
        Some(read) => attached(read, more),
        None => None,
    }
}

/// Whether `r` is what comes of a line, where the servers get these headers: nothing, unless the
/// line holds a request to attach them to.
pub open spec fn rewrites(
    r: Option<Seq<char>>,
    line: Seq<char>,
    mcp: Seq<McpEntry>,
    headers: Seq<Seq<(Seq<char>, Seq<char>)>>,
) -> bool {
    match session_in(line, mcp) {
        Some(msg) => r matches Some(out) && is_rewritten(out, msg, mcp, headers),
        None => r is None,
    }
}

/// Whether `headers` are something that `headers_for` returns for a server.
pub open spec fn returned<F: Fn(&McpEntry) -> Vec<(String, String)>>(
    headers_for: F,
    e: McpEntry,
    headers: Seq<(Seq<char>, Seq<char>)>,
) -> bool {
    exists|h: Vec<(String, String)>| #[trigger]
        call_ensures(headers_for, (&e,), h) && headers == header_views(h@)
}

/// Whether `headers` are what `headers_for` returned for each server.
pub open spec fn fetched<F: Fn(&McpEntry) -> Vec<(String, String)>>(
    headers_for: F,
    mcp: Seq<McpEntry>,
    headers: Seq<Seq<(Seq<char>, Seq<char>)>>,
) -> bool {
    &&& headers.len() == mcp.len()
    &&& forall|i: int| 0 <= i < mcp.len() ==> returned(headers_for, mcp[i], #[trigger] headers[i])
}

/// Appends the agent's servers to a `session/new` request. `None` for anything that is not
/// one, lines that are not JSON among them: such a line is to be passed on as it is.
///
/// The servers that the client sent are kept, and each of the agent's is attached with headers
/// that `headers_for` returned for it. A line that is passed on as it is takes no headers:
/// `headers_for` need not be callable then.
pub fn inject<F: Fn(&McpEntry) -> Vec<(String, String)>>(
    line: &str,
    mcp: &[McpEntry],
    headers_for: &F,
) -> (r: Option<String>)
    requires
        session_in(line@, mcp@) is Some ==> forall|i: int|
            0 <= i < mcp@.len() ==> call_requires(*headers_for, (&#[trigger] mcp@[i],)),
    ensures
        exists|headers: Seq<Seq<(Seq<char>, Seq<char>)>>| #[trigger]
            rewrites(text::view_of(r), line@, mcp@, headers) && (r is Some ==> fetched(
                *headers_for,
                mcp@,
                headers,
            )),
{
    let ghost no_headers: Seq<Seq<(Seq<char>, Seq<char>)>> = Seq::empty();
    if mcp.len() == 0 {
        assert(rewrites(None, line@, mcp@, no_headers));
        return None;
    }
    let msg = match json::parse(text::trim(line)) {
        Ok(msg) => msg,
        Err(_) => {
            assert(rewrites(None, line@, mcp@, no_headers));
            return None;
        },
    };
    if !takes_servers(&msg) {
        assert(rewrites(None, line@, mcp@, no_headers));
        return None;
    }
    let ghost mut headers: Seq<Seq<(Seq<char>, Seq<char>)>> = Seq::empty();
    let mut servers: Vec<Json> = Vec::new();
    let mut i: usize = 0;
    while i < mcp.len()
        invariant
            i <= mcp@.len(),
            forall|i: int|
                0 <= i < mcp@.len() ==> call_requires(*headers_for, (&#[trigger] mcp@[i],)),
            headers.len() == i,
            servers@.len() == i,
            forall|k: int|
                0 <= k < i ==> returned(*headers_for, mcp@[k], #[trigger] headers[k]),
            forall|k: int|
                0 <= k < i ==> (#[trigger] servers@[k]).tree() == server_tree(
                    mcp@[k].name@,
                    mcp@[k].url@,
                    headers[k],
                ),
        decreases mcp@.len() - i,
    {
        let h = headers_for(&mcp[i]);
        proof {
            assert(returned(*headers_for, mcp@[i as int], header_views(h@)));
            headers = headers.push(header_views(h@));
        }
        servers.push(http_server(&mcp[i], h));
        i += 1;
    }
    let ghost more = server_trees(mcp@, headers);
    assert(json::trees(servers@) =~= more);
    proof {
        lemma_servers_fit(mcp@, headers);
        lemma_attached_fits(msg.tree(), more, json::MAX_NESTING as nat);
        lemma_attached_reading(msg.tree(), more);
    }
    let ghost request = msg.tree();
    match attach_servers(msg, servers) {
        Some(j) => {
            let mut out = json::render(j);
            out.append("\n");
            proof {
                reveal_strlit("\n");
            }
            let ghost written = json::json_text(attached(request, more)->0);
            assert(out@ =~= written.push('\n'));
            assert(text::trimmed(out@) == written) by {
                assert(out@[0] == '{');
                assert(out@.drop_last() =~= written);
                reveal_with_fuel(text::trim_end, 2);
            }
            assert(fetched(*headers_for, mcp@, headers));
            assert(rewrites(Some(out@), line@, mcp@, headers));
            Some(out)
        },
        None => None,
    }
}

/// Whether `fetch` may be asked for the credentials of a server that needs them, by its name.
pub open spec fn may_fetch<F: Fn(&str, &str) -> Vec<(String, String)>>(
    fetch: &F,
    container: &str,
    e: &McpEntry,
) -> bool {
    e.credential is Some ==> forall|name: &str|
        name@ == e.name@ ==> #[trigger] call_requires(*fetch, (container, name))
}

/// Whether `headers` are those for a server: none where it needs no credential, else something
/// that `fetch` returns for its name.
pub open spec fn credentials<F: Fn(&str, &str) -> Vec<(String, String)>>(
    fetch: &F,
    container: &str,
    e: &McpEntry,
    headers: Seq<(Seq<char>, Seq<char>)>,
) -> bool {
    match e.credential {
        Some(_) => exists|name: &str, h: Vec<(String, String)>|
            name@ == e.name@ && #[trigger] call_ensures(*fetch, (container, name), h) && headers
                == header_views(h@),
        None => headers.len() == 0,
    }
}

/// Whether `headers` are those for each server.
pub open spec fn all_credentials<F: Fn(&str, &str) -> Vec<(String, String)>>(
    fetch: &F,
    container: &str,
    mcp: Seq<McpEntry>,
    headers: Seq<Seq<(Seq<char>, Seq<char>)>>,
) -> bool {
    &&& headers.len() == mcp.len()
    &&& forall|i: int|
        0 <= i < mcp.len() ==> credentials(fetch, container, &mcp[i], #[trigger] headers[i])
}

/// Appends the agent's servers to a `session/new` request, with credentials that `fetch` gets
/// from the broker of `container`, by the name of a server. A server that needs none is attached
/// without asking for any.
/// `None` for anything that is not such a request.
pub fn rewrite_session_new<F: Fn(&str, &str) -> Vec<(String, String)>>(
    line: &str,
    mcp: &[McpEntry],
    container: &str,
    fetch: &F,
) -> (r: Option<String>)
    requires
        session_in(line@, mcp@) is Some ==> forall|i: int|
            0 <= i < mcp@.len() ==> may_fetch(fetch, container, &#[trigger] mcp@[i]),
    ensures
        exists|headers: Seq<Seq<(Seq<char>, Seq<char>)>>| #[trigger]
            rewrites(text::view_of(r), line@, mcp@, headers) && (r is Some ==> all_credentials(
                fetch,
                container,
                mcp@,
                headers,
            )),
{
    let headers_for = |e: &McpEntry| -> (h: Vec<(String, String)>)
        requires
            may_fetch(fetch, container, e),
        ensures
            credentials(fetch, container, e, header_views(h@)),
        {
            match &e.credential {
                Some(_) => fetch(container, e.name.as_str()),
                None => Vec::new(),
            }
        };
    let r = inject(line, mcp, &headers_for);
    proof {
        let headers = choose|headers: Seq<Seq<(Seq<char>, Seq<char>)>>| #[trigger]
            rewrites(text::view_of(r), line@, mcp@, headers) && (r is Some ==> fetched(
                headers_for,
                mcp@,
                headers,
            ));
        if r is Some {
            assert forall|i: int| 0 <= i < mcp@.len() implies credentials(
                fetch,
                container,
                &mcp@[i],
                #[trigger] headers[i],
            ) by {
                assert(returned(headers_for, mcp@[i], headers[i]));
            }
            assert(all_credentials(fetch, container, mcp@, headers));
        }
    }
    r
}

/// The line to pass on to the agent: the rewritten one for a `session/new` request that the
/// agent's servers are attached to, and for anything else the line as it came.
pub fn pass_on<F: Fn(&str, &str) -> Vec<(String, String)>>(
    line: &str,
    mcp: &[McpEntry],
    container: &str,
    fetch: &F,
) -> (r: String)
    requires
        session_in(line@, mcp@) is Some ==> forall|i: int|
            0 <= i < mcp@.len() ==> may_fetch(fetch, container, &#[trigger] mcp@[i]),
    ensures
        match session_in(line@, mcp@) {
            Some(msg) => exists|headers: Seq<Seq<(Seq<char>, Seq<char>)>>| #[trigger]
                all_credentials(fetch, container, mcp@, headers) && is_rewritten(
                    r@,
                    msg,
                    mcp@,
                    headers,
                ),
            None => r@ == line@,
        },
{
    match rewrite_session_new(line, mcp, container, fetch) {
        Some(rewritten) => rewritten,
        None => line.to_owned(),
    }
}

/// The bytes to pass on to the agent: where a line is UTF-8, those of the line that [`pass_on`]
/// gives for it, and else the bytes as they came.
pub fn pass_on_bytes<F: Fn(&str, &str) -> Vec<(String, String)>>(
    line: &[u8],
    mcp: &[McpEntry],
    container: &str,
    fetch: &F,
) -> (r: Vec<u8>)
    requires
        bytes_session_in(line@, mcp@) is Some ==> forall|i: int|
            0 <= i < mcp@.len() ==> may_fetch(fetch, container, &#[trigger] mcp@[i]),
    ensures
        match bytes_session_in(line@, mcp@) {
            Some(msg) => vstd::utf8::valid_utf8(r@) && exists|
                headers: Seq<Seq<(Seq<char>, Seq<char>)>>,
            | #[trigger]
                all_credentials(fetch, container, mcp@, headers) && is_rewritten(
                    vstd::utf8::decode_utf8(r@),
                    msg,
                    mcp@,
                    headers,
                ),
            None => r@ == line@,
        },
{
    match text::decode(slice_to_vec(line)) {
        Ok(s) => {
            let out = pass_on(s.as_str(), mcp, container, fetch);
            proof {
                vstd::utf8::encode_utf8_valid_utf8(out@);
                vstd::utf8::encode_utf8_decode_utf8(out@);
                vstd::utf8::decode_utf8_encode_utf8(line@);
            }
            out.as_str().as_bytes_vec()
        },
        Err(_) => slice_to_vec(line),
    }
}

/// Attaching servers keeps those that the client sent, in their order, and puts the agent's
/// behind them.
pub proof fn law_client_servers_are_kept(msg: Tree, more: Seq<Tree>)
    requires
        session_servers(msg) is Some,
    ensures
        attached(msg, more) matches Some(t) && session_servers(t) == Some(
            session_servers(msg)->0 + more,
        ),
{
    reveal_strlit("method");
    reveal_strlit("params");
    assert("method"@ != "params"@) by {
        assert("method"@[0] != "params"@[0]);
    }
}

/// Attaching servers in two steps is attaching them all at once.
pub proof fn law_servers_are_attached_step_by_step(msg: Tree, first: Seq<Tree>, second: Seq<Tree>)
    ensures
        attached(msg, first + second) == match attached(msg, first) {
            Some(t) => attached(t, second),
            None => None,
        },
{
    if let Some(sent) = session_servers(msg) {
        law_client_servers_are_kept(msg, first);
        let t = attached(msg, first)->0;
        let params = msg->Object_0["params"@]->Object_0;
        assert(sent + first + second =~= sent + (first + second));
        let all = Tree::Array(sent + (first + second));
        assert(t->Object_0["params"@]->Object_0.insert("mcpServers"@, all) =~= params.insert(
            "mcpServers"@,
            all,
        ));
        assert(attached(t, second)->0->Object_0 =~= attached(msg, first + second)->0->Object_0);
    }
}

/// Attaching servers leaves everything else in a message as it was: each of its other fields,
/// and each of its other parameters.
pub proof fn law_everything_else_survives(msg: Tree, more: Seq<Tree>, name: Seq<char>)
    requires
        session_servers(msg) is Some,
    ensures
        attached(msg, more) matches Some(t) && {
            let before = msg->Object_0;
            let after = t->Object_0;
            &&& t is Object
            &&& name != "params"@ ==> {
                &&& after.contains_key(name) <==> before.contains_key(name)
                &&& before.contains_key(name) ==> after[name] == before[name]
            }
            &&& after["params"@] is Object
            &&& name != "mcpServers"@ ==> {
                let p = before["params"@]->Object_0;
                let q = after["params"@]->Object_0;
                &&& q.contains_key(name) <==> p.contains_key(name)
                &&& p.contains_key(name) ==> q[name] == p[name]
            }
        },
{
}

/// Whoever reads a rewritten line finds the servers that they would find in the message that the
/// client sent, and behind them the agent's. Where the numbers in the message are all integers,
/// they read the message exactly, with the servers.
pub proof fn law_the_far_side_reads_all_servers(
    out: Seq<char>,
    msg: Tree,
    mcp: Seq<McpEntry>,
    headers: Seq<Seq<(Seq<char>, Seq<char>)>>,
)
    requires
        is_rewritten(out, msg, mcp, headers),
        session_servers(msg) is Some,
    ensures
        match json::reading(msg) {
            Some(read) => session_servers(read) matches Some(sent) && json::json_document(
                text::trimmed(out),
            ) matches Some(t) && session_servers(t) == Some(sent + server_trees(mcp, headers)),
            None => json::json_document(text::trimmed(out)) is None,
        },
        json::fits(msg, json::MAX_NESTING as nat, false) ==> json::json_document(
            text::trimmed(out),
        ) == attached(msg, server_trees(mcp, headers)),
{
    let more = server_trees(mcp, headers);
    lemma_servers_fit(mcp, headers);
    lemma_attached_reading(msg, more);
    law_client_servers_are_kept(json::reread(msg), more);
    if json::fits(msg, json::MAX_NESTING as nat, false) {
        json::law_integers_are_read_back(msg, json::MAX_NESTING as nat);
    }
}

/// Whether two servers are written alike but for their headers.
pub open spec fn alike_but_for_headers(a: Tree, b: Tree) -> bool {
    &&& a is Object
    &&& b is Object
    &&& a->Object_0.remove("headers"@) == b->Object_0.remove("headers"@)
}

/// Two runs on the same line differ in nothing but headers, whatever the broker gave them: either
/// both rewrite the line or neither does. Both attach all servers, in the same order and with the
/// same types, names and URLs, and one line read is the other with its servers in place of the
/// other's: the rest is the same, the servers that the client sent among it.
pub proof fn law_runs_differ_only_in_headers(
    line: Seq<char>,
    mcp: Seq<McpEntry>,
    r1: Option<Seq<char>>,
    headers1: Seq<Seq<(Seq<char>, Seq<char>)>>,
    r2: Option<Seq<char>>,
    headers2: Seq<Seq<(Seq<char>, Seq<char>)>>,
)
    requires
        rewrites(r1, line, mcp, headers1),
        rewrites(r2, line, mcp, headers2),
    ensures
        r1 is Some <==> r2 is Some,
        r1 matches Some(out1) ==> r2 matches Some(out2) && match (
            json::json_document(text::trimmed(out1)),
            json::json_document(text::trimmed(out2)),
        ) {
            (Some(t1), Some(t2)) => {
                let s1 = session_servers(t1)->0;
                let s2 = session_servers(t2)->0;
                let sent = s1.len() - mcp.len();
                &&& session_servers(t1) is Some
                &&& session_servers(t2) is Some
                &&& sent == session_servers(session_in(line, mcp)->0)->0.len()
                &&& s1.len() == s2.len()
                &&& s1.take(sent) == s2.take(sent)
                &&& forall|i: int|
                    sent <= i < s1.len() ==> alike_but_for_headers(#[trigger] s1[i], s2[i])
                &&& with_servers(t1, s2) == t2
            },
            (None, None) => true,
            _ => false,
        },
{
    if let Some(msg) = session_in(line, mcp) {
        let more1 = server_trees(mcp, headers1);
        let more2 = server_trees(mcp, headers2);
        lemma_servers_fit(mcp, headers1);
        lemma_servers_fit(mcp, headers2);
        lemma_attached_reading(msg, more1);
        if json::reading(msg) is Some {
            let read = json::reread(msg);
            let sent = session_servers(read)->0;
            law_client_servers_are_kept(read, more1);
            law_client_servers_are_kept(read, more2);
            let t1 = attached(read, more1)->0;
            let t2 = attached(read, more2)->0;
            assert((sent + more1).take(sent.len() as int) =~= sent);
            assert((sent + more2).take(sent.len() as int) =~= sent);
            assert forall|i: int| 0 <= i < mcp.len() implies alike_but_for_headers(
                #[trigger] more1[i],
                more2[i],
            ) by {
                assert(more1[i]->Object_0.remove("headers"@) =~= more2[i]->Object_0.remove(
                    "headers"@,
                ));
            }
            assert forall|i: int|
                sent.len() <= i < sent.len() + mcp.len() implies alike_but_for_headers(
                #[trigger] (sent + more1)[i],
                (sent + more2)[i],
            ) by {
                assert(alike_but_for_headers(more1[i - sent.len()], more2[i - sent.len()]));
            }
            let p1 = t1->Object_0["params"@]->Object_0;
            assert(p1.insert("mcpServers"@, Tree::Array(sent + more2))
                =~= read->Object_0["params"@]->Object_0.insert(
                "mcpServers"@,
                Tree::Array(sent + more2),
            ));
            assert(with_servers(t1, sent + more2)->Object_0 =~= t2->Object_0);
        }
    }
}

/// A message whose method is not `session/new` takes no servers.
pub proof fn law_only_session_new_is_touched(msg: Tree, more: Seq<Tree>)
    requires
        !(msg is Object && msg->Object_0.contains_key("method"@) && msg->Object_0["method"@]
            == Tree::Text("session/new"@)),
    ensures
        attached(msg, more) is None,
{
}

/// A server is attached whatever its headers, none among them: each of the agent's servers
/// comes out under its name and URL, as the HTTP variant.
pub proof fn law_every_server_is_attached(
    mcp: Seq<McpEntry>,
    headers: Seq<Seq<(Seq<char>, Seq<char>)>>,
    i: int,
)
    requires
        0 <= i < mcp.len(),
    ensures
        server_trees(mcp, headers).len() == mcp.len(),
        server_trees(mcp, headers)[i] matches Tree::Object(o) && {
            &&& o.contains_key("type"@) && o["type"@] == Tree::Text("http"@)
            &&& o.contains_key("name"@) && o["name"@] == Tree::Text(mcp[i].name@)
            &&& o.contains_key("url"@) && o["url"@] == Tree::Text(mcp[i].url@)
            &&& o.contains_key("headers"@) && o["headers"@] == Tree::Array(
                header_trees(headers[i]),
            )
        },
{
    reveal_strlit("type");
    reveal_strlit("name");
    reveal_strlit("url");
    reveal_strlit("headers");
    assert("type"@ != "name"@) by {
        assert("type"@[0] != "name"@[0]);
    }
    assert("type"@.len() != "url"@.len());
    assert("type"@.len() != "headers"@.len());
    assert("name"@.len() != "url"@.len());
    assert("name"@.len() != "headers"@.len());
    assert("url"@.len() != "headers"@.len());
}

/// A server is written with its type, its name, its URL and its headers, and nothing else. The list
/// of its headers is as long as the one that was given, and its `k`-th element is an object with
/// the name and the own value of the `k`-th header, and nothing else.
pub proof fn law_a_server_is_written_with_its_own_headers(
    name: Seq<char>,
    url: Seq<char>,
    headers: Seq<(String, String)>,
)
    ensures
        server_tree(name, url, header_views(headers)) matches Tree::Object(o) && {
            &&& o.dom() == set!["type"@, "name"@, "url"@, "headers"@]
            &&& o["type"@] == Tree::Text("http"@)
            &&& o["name"@] == Tree::Text(name)
            &&& o["url"@] == Tree::Text(url)
            &&& o["headers"@] is Array
            &&& o["headers"@]->Array_0.len() == headers.len()
            &&& forall|k: int|
                0 <= k < headers.len() ==> {
                    let h = #[trigger] o["headers"@]->Array_0[k];
                    &&& h is Object
                    &&& h->Object_0.dom() == set!["name"@, "value"@]
                    &&& h->Object_0["name"@] == Tree::Text(headers[k].0@)
                    &&& h->Object_0["value"@] == Tree::Text(headers[k].1@)
                }
        },
{
    let views = header_views(headers);
    lemma_server_fields(name, url, views);
    assert forall|k: int| 0 <= k < headers.len() implies {
        let h = #[trigger] header_trees(views)[k];
        &&& h is Object
        &&& h->Object_0.dom() == set!["name"@, "value"@]
        &&& h->Object_0["name"@] == Tree::Text(headers[k].0@)
        &&& h->Object_0["value"@] == Tree::Text(headers[k].1@)
    } by {
        lemma_header_fields(views[k].0, views[k].1);
    }
}

/// The fields of a server.
proof fn lemma_server_fields(
    name: Seq<char>,
    url: Seq<char>,
    headers: Seq<(Seq<char>, Seq<char>)>,
)
    ensures
        server_tree(name, url, headers) is Object,
        server_tree(name, url, headers)->Object_0.dom() == set![
            "type"@,
            "name"@,
            "url"@,
            "headers"@,
        ],
        server_tree(name, url, headers)->Object_0["type"@] == Tree::Text("http"@),
        server_tree(name, url, headers)->Object_0["name"@] == Tree::Text(name),
        server_tree(name, url, headers)->Object_0["url"@] == Tree::Text(url),
        server_tree(name, url, headers)->Object_0["headers"@] == Tree::Array(
            header_trees(headers),
        ),
{
    reveal_strlit("type");
    reveal_strlit("name");
    reveal_strlit("url");
    reveal_strlit("headers");
    assert("type"@ != "name"@) by {
        assert("type"@[0] != "name"@[0]);
    }
    assert("type"@.len() != "url"@.len());
    assert("type"@.len() != "headers"@.len());
    assert("name"@.len() != "url"@.len());
    assert("name"@.len() != "headers"@.len());
    assert("url"@.len() != "headers"@.len());
    assert(server_tree(name, url, headers)->Object_0.dom() =~= set![
        "type"@,
        "name"@,
        "url"@,
        "headers"@,
    ]);
}

/// The fields of a header.
proof fn lemma_header_fields(name: Seq<char>, value: Seq<char>)
    ensures
        header_tree(name, value) is Object,
        header_tree(name, value)->Object_0.dom() == set!["name"@, "value"@],
        header_tree(name, value)->Object_0["name"@] == Tree::Text(name),
        header_tree(name, value)->Object_0["value"@] == Tree::Text(value),
{
    reveal_strlit("name");
    reveal_strlit("value");
    assert("name"@.len() != "value"@.len());
    assert(header_tree(name, value)->Object_0.dom() =~= set!["name"@, "value"@]);
}

/// Whether a document is an object whose `method` is `session/new` and whose `params` are an
/// object, in which `mcpServers`, if it is there, is an array.
pub open spec fn is_session_request(d: Tree) -> bool {
    &&& d is Object
    &&& d->Object_0.contains_key("method"@)
    &&& d->Object_0["method"@] == Tree::Text("session/new"@)
    &&& d->Object_0.contains_key("params"@)
    &&& d->Object_0["params"@] is Object
    &&& d->Object_0["params"@]->Object_0.contains_key("mcpServers"@)
        ==> d->Object_0["params"@]->Object_0["mcpServers"@] is Array
}

/// A line is rewritten exactly where the agent has servers and the line is the JSON text of a
/// request to attach them to, white space around it aside. Bytes are, where they are the UTF-8 of
/// such a line.
pub proof fn law_only_session_requests_are_rewritten(
    line: Seq<char>,
    bytes: Seq<u8>,
    mcp: Seq<McpEntry>,
    headers: Seq<Seq<(Seq<char>, Seq<char>)>>,
    r: Option<Seq<char>>,
)
    requires
        rewrites(r, line, mcp, headers),
    ensures
        r is Some <==> {
            &&& mcp.len() > 0
            &&& json::json_document(text::trimmed(line)) matches Some(d)
            &&& is_session_request(d)
        },
        r is Some <==> session_in(line, mcp) is Some,
        session_in(line, mcp) is Some ==> session_in(line, mcp) == json::json_document(
            text::trimmed(line),
        ),
        bytes_session_in(bytes, mcp) is Some <==> vstd::utf8::valid_utf8(bytes) && session_in(
            vstd::utf8::decode_utf8(bytes),
            mcp,
        ) is Some,
        bytes_session_in(bytes, mcp) is Some ==> bytes_session_in(bytes, mcp) == session_in(
            vstd::utf8::decode_utf8(bytes),
            mcp,
        ),
{
}

/// A rewritten line is the JSON text of the returned document, with one line break, at its end.
/// The document has the fields of the request, and its parameters have those of the request's and
/// `mcpServers`. Of these, all but `mcpServers` are as they were. In `mcpServers` stand the servers
/// that the client sent, and behind them each of the agent's: with its type, name and URL, and a
/// list of its headers, each an object with its name and its own value. Reading the line gives the
/// document, as far as its numbers are integers.
pub proof fn law_a_request_is_rewritten_so(
    line: Seq<char>,
    mcp: Seq<McpEntry>,
    headers: Seq<Seq<(Seq<char>, Seq<char>)>>,
    out: Seq<char>,
) -> (t: Tree)
    requires
        rewrites(Some(out), line, mcp, headers),
    ensures
        ({
            let d = json::json_document(text::trimmed(line))->0;
            let params = d->Object_0["params"@]->Object_0;
            let new_params = t->Object_0["params"@]->Object_0;
            let sent = if params.contains_key("mcpServers"@) {
                params["mcpServers"@]->Array_0
            } else {
                Seq::empty()
            };
            let servers = new_params["mcpServers"@]->Array_0;
            &&& out.len() > 0
            &&& out.last() == '\n'
            &&& forall|i: int| 0 <= i < out.len() - 1 ==> #[trigger] out[i] != '\n'
            &&& out.drop_last() == json::json_text(t)
            &&& json::json_document(text::trimmed(out)) == json::reading(t)
            &&& t is Object
            &&& t->Object_0.dom() == d->Object_0.dom()
            &&& forall|name: Seq<char>|
                name != "params"@ && t->Object_0.contains_key(name) ==> #[trigger] t->Object_0[name]
                    == d->Object_0[name]
            &&& t->Object_0["params"@] is Object
            &&& new_params.dom() == params.dom().insert("mcpServers"@)
            &&& forall|name: Seq<char>|
                name != "mcpServers"@ && params.contains_key(name) ==> #[trigger] new_params[name]
                    == params[name]
            &&& new_params["mcpServers"@] is Array
            &&& servers.len() == sent.len() + mcp.len()
            &&& forall|i: int| 0 <= i < sent.len() ==> #[trigger] servers[i] == sent[i]
            &&& forall|i: int|
                sent.len() <= i < servers.len() ==> is_server_for(
                    #[trigger] servers[i],
                    mcp[i - sent.len()],
                    headers[i - sent.len()],
                )
        }),
{
    let msg = session_in(line, mcp)->0;
    let more = server_trees(mcp, headers);
    let sent = session_servers(msg)->0;
    let t = with_servers(msg, sent + more);
    let fields = msg->Object_0;
    let params = fields["params"@]->Object_0;
    let written = json::json_text(t);
    assert(out == written.push('\n'));
    assert(out.drop_last() =~= written);
    assert forall|i: int| 0 <= i < out.len() - 1 implies #[trigger] out[i] != '\n' by {
        assert(out[i] == written[i]);
        assert(written.contains(written[i]));
    }
    lemma_servers_fit(mcp, headers);
    lemma_attached_reading(msg, more);
    assert(t->Object_0.dom() =~= fields.dom());
    let new_params = t->Object_0["params"@]->Object_0;
    assert(new_params.dom() =~= params.dom().insert("mcpServers"@));
    let servers = new_params["mcpServers"@]->Array_0;
    assert(servers == sent + more);
    assert forall|i: int| sent.len() <= i < servers.len() implies is_server_for(
        #[trigger] servers[i],
        mcp[i - sent.len()],
        headers[i - sent.len()],
    ) by {
        let k = i - sent.len();
        assert(servers[i] == more[k]);
        lemma_server_is_for(mcp[k], headers[k]);
    }
    t
}

/// Whether a document is a server of the agent with these headers: an object of its type, name, URL
/// and headers, where the headers are an array of as many objects, each of the name and the own
/// value of one header.
pub open spec fn is_server_for(
    server: Tree,
    e: McpEntry,
    headers: Seq<(Seq<char>, Seq<char>)>,
) -> bool {
    let o = server->Object_0;
    let list = o["headers"@]->Array_0;
    &&& server is Object
    &&& o.dom() == set!["type"@, "name"@, "url"@, "headers"@]
    &&& o["type"@] == Tree::Text("http"@)
    &&& o["name"@] == Tree::Text(e.name@)
    &&& o["url"@] == Tree::Text(e.url@)
    &&& o["headers"@] is Array
    &&& list.len() == headers.len()
    &&& forall|k: int|
        0 <= k < list.len() ==> {
            &&& #[trigger] list[k] is Object
            &&& list[k]->Object_0.dom() == set!["name"@, "value"@]
            &&& list[k]->Object_0["name"@] == Tree::Text(headers[k].0)
            &&& list[k]->Object_0["value"@] == Tree::Text(headers[k].1)
        }
}

/// A server is written as one of the agent's.
proof fn lemma_server_is_for(e: McpEntry, headers: Seq<(Seq<char>, Seq<char>)>)
    ensures
        is_server_for(server_tree(e.name@, e.url@, headers), e, headers),
{
    lemma_server_fields(e.name@, e.url@, headers);
    let list = header_trees(headers);
    assert forall|k: int| 0 <= k < list.len() implies {
        &&& #[trigger] list[k] is Object
        &&& list[k]->Object_0.dom() == set!["name"@, "value"@]
        &&& list[k]->Object_0["name"@] == Tree::Text(headers[k].0)
        &&& list[k]->Object_0["value"@] == Tree::Text(headers[k].1)
    } by {
        lemma_header_fields(headers[k].0, headers[k].1);
    }
}

/// Attaching servers to a request puts them behind those that the client sent, and changes nothing
/// else. Nothing is attached to any other document.
pub proof fn law_attaching_is_for_session_requests(d: Tree, more: Seq<Tree>)
    ensures
        attached(d, more) is Some <==> is_session_request(d),
        attached(d, more) matches Some(t) ==> {
            let params = d->Object_0["params"@]->Object_0;
            let sent = if params.contains_key("mcpServers"@) {
                params["mcpServers"@]->Array_0
            } else {
                Seq::empty()
            };
            let new_params = params.insert("mcpServers"@, Tree::Array(sent + more));
            t == Tree::Object(d->Object_0.insert("params"@, Tree::Object(new_params)))
        },
        session_servers(d) is Some <==> is_session_request(d),
{
}

/// Each server gets the headers that were returned for it: as many, and each with its name and its
/// own value.
pub proof fn law_headers_are_those_that_were_returned<
    F: Fn(&McpEntry) -> Vec<(String, String)>,
>(headers_for: F, mcp: Seq<McpEntry>, headers: Seq<Seq<(Seq<char>, Seq<char>)>>, i: int) -> (h: Vec<
    (String, String),
>)
    requires
        fetched(headers_for, mcp, headers),
        0 <= i < mcp.len(),
    ensures
        headers.len() == mcp.len(),
        call_ensures(headers_for, (&mcp[i],), h),
        headers[i].len() == h@.len(),
        forall|k: int|
            0 <= k < h@.len() ==> (#[trigger] headers[i][k]).0 == h@[k].0@ && headers[i][k].1
                == h@[k].1@,
{
    assert(returned(headers_for, mcp[i], headers[i]));
    choose|h: Vec<(String, String)>| #[trigger]
        call_ensures(headers_for, (&mcp[i],), h) && headers[i] == header_views(h@)
}

/// A server that needs no credential gets no headers. One that needs one gets the headers that
/// `fetch` returned for the container and the name of the server: as many, and each with its name
/// and its own value.
pub proof fn law_credentials_are_those_of_the_server<
    'a,
    F: Fn(&str, &str) -> Vec<(String, String)>,
>(
    fetch: &F,
    container: &'a str,
    mcp: Seq<McpEntry>,
    headers: Seq<Seq<(Seq<char>, Seq<char>)>>,
    i: int,
) -> (r: (&'a str, Vec<(String, String)>))
    requires
        all_credentials(fetch, container, mcp, headers),
        0 <= i < mcp.len(),
    ensures
        headers.len() == mcp.len(),
        mcp[i].credential is None ==> headers[i].len() == 0,
        mcp[i].credential is Some ==> {
            &&& r.0@ == mcp[i].name@
            &&& call_ensures(*fetch, (container, r.0), r.1)
            &&& headers[i].len() == r.1@.len()
            &&& forall|k: int|
                0 <= k < r.1@.len() ==> (#[trigger] headers[i][k]).0 == r.1@[k].0@
                    && headers[i][k].1 == r.1@[k].1@
        },
{
    assert(credentials(fetch, container, &mcp[i], headers[i]));
    choose|name: &str, h: Vec<(String, String)>|
        name@ == mcp[i].name@ && #[trigger] call_ensures(*fetch, (container, name), h)
            && headers[i] == header_views(h@)
}

/// Nothing is asked for a server that needs no credential, and for one that needs one only its
/// name, in the container: a `fetch` that can be asked that much can be used.
pub proof fn law_only_needed_credentials_are_asked_for<F: Fn(&str, &str) -> Vec<(String, String)>>(
    fetch: &F,
    container: &str,
    e: &McpEntry,
)
    ensures
        e.credential is None ==> may_fetch(fetch, container, e),
        (forall|name: &str|
            name@ == e.name@ ==> #[trigger] call_requires(*fetch, (container, name)))
            ==> may_fetch(fetch, container, e),
{
}

} // verus!
