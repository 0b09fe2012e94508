//! Asking the broker for the headers of an MCP server.
//!
//! The broker is reached from inside the agent's container, where the command `hive-headers`
//! talks to it. It prints `{"headers": {name: value, ...}}`: the map is nested, it is not the
//! whole document.
use crate::json;
use crate::json::Json;
use crate::json::Tree;
use crate::session;
use crate::text;
use vstd::prelude::*;
use vstd::string::StringExecFns;

verus! {

/// How a command ended.
#[derive(Debug, Clone, PartialEq)]
pub enum CommandOutcome {
    /// It ran and succeeded.
    Succeeded { stdout: Vec<u8> },
    /// It ran and failed.
    Failed { stderr: Vec<u8> },
    /// It could not be started.
    NotStarted,
}

/// Why a server gets no headers.
#[derive(Debug)]
pub enum HeadersError {
    /// The broker could not be reached.
    Unreachable,
    /// The broker gave no credentials, and said this.
    Refused(String),
    /// The broker's reply is not JSON.
    Unparseable(serde_json::Error),
    /// The broker's reply has no object of headers.
    NoHeaders,
}

/// The arguments of the Docker command that asks the broker for the headers of `server`.
pub fn headers_args(container: &str, server: &str) -> (r: Vec<String>)
    ensures
        text::views(r@) == seq![
            "exec"@,
            "-e"@,
            "CLAUDE_CODE_MCP_SERVER_NAME="@ + server@,
            container@,
            "hive-headers"@,
        ],
{
    let name = "CLAUDE_CODE_MCP_SERVER_NAME=".to_owned().concat(server);
    let mut r: Vec<String> = Vec::new();
    r.push("exec".to_owned());
    r.push("-e".to_owned());
    r.push(name);
    r.push(container.to_owned());
    r.push("hive-headers".to_owned());
    assert(text::views(r@) =~= seq![
        "exec"@,
        "-e"@,
        "CLAUDE_CODE_MCP_SERVER_NAME="@ + server@,
        container@,
        "hive-headers"@,
    ]);
    r
}

/// The fields whose values are text, in order.
pub open spec fn text_fields(o: Seq<(String, Json)>) -> Seq<(Seq<char>, Seq<char>)>
    decreases o.len(),
{
    if o.len() == 0 {
        Seq::empty()
    } else {
        match o.last().1 {
            Json::Text(s) => text_fields(o.drop_last()).push((o.last().0@, s@)),
            _ => text_fields(o.drop_last()),
        }
    }
}

/// The headers in a broker's reply, in the order in which it writes them. A header whose value
/// is not text is left out. `None` where the reply has no object of headers.
pub fn headers_in(reply: Json) -> (r: Option<Vec<(String, String)>>)
    ensures
        match reply {
            Json::Object(o) => match json::field(o@, "headers"@) {
                Some(Json::Object(h)) => r matches Some(v) && session::header_views(v@)
                    == text_fields(h@),
                _ => r is None,
            },
            _ => r is None,
        },
{
    match reply {
        Json::Object(o) => {
            let mut o = o;
            match json::find_field(&o, "headers") {
                Some(i) => match o.remove(i).1 {
                    Json::Object(h) => {
                        let mut v: Vec<(String, String)> = Vec::new();
                        for x in it: h
                            invariant
                                it.seq() == h@,
                                session::header_views(v@) == text_fields(
                                    h@.take(it.index() as int),
                                ),
                        {
                            let ghost k = it.index() as int;
                            assert(x == h@[k]);
                            assert(h@.take(k + 1).drop_last() =~= h@.take(k));
                            let ghost before = v@;
                            match x.1 {
                                Json::Text(s) => {
                                    v.push((x.0, s));
                                    assert(session::header_views(v@) =~= session::header_views(
                                        before,
                                    ).push((x.0@, s@)));
                                },
                                _ => {},
                            }
                        }
                        assert(h@.take(h@.len() as int) =~= h@);
                        Some(v)
                    },
                    _ => None,
                },
                None => None,
            }
        },
        _ => None,
    }
}

/// The object of headers in a broker's reply.
pub open spec fn headers_object(reply: Tree) -> Option<Map<Seq<char>, Tree>> {
    match reply {
        Tree::Object(m) => if m.contains_key("headers"@) {
            match m["headers"@] {
                Tree::Object(h) => Some(h),
                _ => None,
            }
        } else {
            None
        },
        _ => None,
    }
}

/// Whether `v` lists the headers of an object whose values are text, each once and in the order
/// of their names.
pub open spec fn lists_headers(
    v: Seq<(Seq<char>, Seq<char>)>,
    headers: Map<Seq<char>, Tree>,
) -> bool {
    &&& forall|i: int, j: int|
        0 <= i < j < v.len() ==> json::name_before(#[trigger] v[i].0, #[trigger] v[j].0)
    &&& forall|name: Seq<char>, value: Seq<char>|
        #[trigger]
        v.contains((name, value)) <==> headers.contains_key(name) && headers[name] == Tree::Text(
            value,
        )
}

/// Whether the `j`-th field is a header of this name and value.
spec fn is_header(o: Seq<(String, Json)>, j: int, header: (Seq<char>, Seq<char>)) -> bool {
    &&& 0 <= j < o.len()
    &&& o[j].0@ == header.0
    &&& o[j].1.tree() == Tree::Text(header.1)
}

/// Whether some field is a header of this name and value.
spec fn has_header(o: Seq<(String, Json)>, header: (Seq<char>, Seq<char>)) -> bool {
    exists|j: int| is_header(o, j, header)
}

/// [`text_fields`] lists the fields whose values are text, and no others.
proof fn lemma_text_fields(o: Seq<(String, Json)>)
    ensures
        forall|i: int|
            0 <= i < text_fields(o).len() ==> has_header(o, #[trigger] text_fields(o)[i]),
        forall|j: int, h: (Seq<char>, Seq<char>)| #[trigger]
            is_header(o, j, h) ==> text_fields(o).contains(h),
        json::names_ordered(o) ==> forall|i: int, j: int|
            0 <= i < j < text_fields(o).len() ==> json::name_before(
                #[trigger] text_fields(o)[i].0,
                #[trigger] text_fields(o)[j].0,
            ),
    decreases o.len(),
{
    if o.len() > 0 {
        let rest = o.drop_last();
        let all = text_fields(o);
        let before = text_fields(rest);
        let last = o.len() - 1;
        lemma_text_fields(rest);
        assert(forall|j: int| 0 <= j < last ==> rest[j] == o[j]);
        assert forall|i: int| 0 <= i < all.len() implies has_header(o, #[trigger] all[i]) by {
            if i < before.len() {
                assert(has_header(rest, before[i]));
                let j = choose|j: int| is_header(rest, j, before[i]);
                assert(is_header(o, j, all[i]));
            } else {
                assert(is_header(o, last, all[i]));
            }
        }
        assert forall|j: int, h: (Seq<char>, Seq<char>)| #[trigger]
            is_header(o, j, h) implies all.contains(h) by {
            if j < last {
                assert(is_header(rest, j, h));
                let i = choose|i: int| 0 <= i < before.len() && before[i] == h;
                assert(all[i] == h);
            } else {
                assert(all[all.len() - 1] == h);
            }
        }
        if json::names_ordered(o) {
            assert(json::names_ordered(rest)) by {
                assert forall|i: int, j: int| 0 <= i < j < rest.len() implies json::name_before(
                    #[trigger] rest[i].0@,
                    #[trigger] rest[j].0@,
                ) by {
                    assert(json::name_before(o[i].0@, o[j].0@));
                }
            }
            assert forall|i: int, j: int| 0 <= i < j < all.len() implies json::name_before(
                #[trigger] all[i].0,
                #[trigger] all[j].0,
            ) by {
                if j < before.len() {
                    assert(json::name_before(before[i].0, before[j].0));
                } else {
                    assert(has_header(rest, before[i]));
                    let k = choose|k: int| is_header(rest, k, before[i]);
                    assert(json::name_before(o[k].0@, o[last].0@));
                }
            }
        }
    }
}

/// The headers of a reply whose fields are in the order of their names.
proof fn lemma_lists_headers(h: Seq<(String, Json)>)
    requires
        json::names_ordered(h),
    ensures
        lists_headers(text_fields(h), json::object_of(json::field_trees(h))),
{
    let v = text_fields(h);
    let all = json::field_trees(h);
    let m = json::object_of(all);
    lemma_text_fields(h);
    assert forall|j: int| 0 <= j < h.len() implies json::last_named(
        all,
        (#[trigger] h[j]).0@,
        j,
    ) by {
        assert forall|k: int| j < k < all.len() implies (#[trigger] all[k]).0 != h[j].0@ by {
            assert(json::name_before(h[j].0@, h[k].0@));
            json::lemma_name_before_irreflexive(h[j].0@);
        }
    }
    assert forall|name: Seq<char>, value: Seq<char>| #[trigger]
        v.contains((name, value)) <==> m.contains_key(name) && m[name] == Tree::Text(value) by {
        if v.contains((name, value)) {
            let i = choose|i: int| 0 <= i < v.len() && v[i] == (name, value);
            assert(has_header(h, v[i]));
            let j = choose|j: int| is_header(h, j, v[i]);
            json::lemma_object_field(all, name, j);
        }
        if m.contains_key(name) && m[name] == Tree::Text(value) {
            if forall|j: int| 0 <= j < all.len() ==> (#[trigger] all[j]).0 != name {
                json::lemma_object_missing(all, name);
            }
            let j = choose|j: int| 0 <= j < all.len() && (#[trigger] all[j]).0 == name;
            assert(json::last_named(all, h[j].0@, j));
            json::lemma_object_field(all, name, j);
            assert(is_header(h, j, (name, value)));
        }
    }
}

/// Reads a broker's reply.
pub fn read_headers(body: &str) -> (r: Result<Vec<(String, String)>, HeadersError>)
    ensures
        match json::json_document(text::trimmed(body@)) {
            None => r matches Err(HeadersError::Unparseable(_)),
            Some(reply) => match headers_object(reply) {
                None => r matches Err(HeadersError::NoHeaders),
                Some(h) => r matches Ok(v) && lists_headers(session::header_views(v@), h),
            },
        },
{
    match json::parse(text::trim(body)) {
        Err(e) => Err(HeadersError::Unparseable(e)),
        Ok(reply) => {
            proof {
                if reply is Object {
                    let o = reply->Object_0@;
                    json::lemma_field_of_object(o, "headers"@);
                    lemma_field_ordered(o, "headers"@);
                    let h = json::field(o, "headers"@);
                    if h is Some && h->0 is Object {
                        lemma_lists_headers(h->0->Object_0@);
                    }
                }
            }
            match headers_in(reply) {
                Some(v) => Ok(v),
                None => Err(HeadersError::NoHeaders),
            }
        },
    }
}

/// A field of an ordered document is ordered.
proof fn lemma_field_ordered(o: Seq<(String, Json)>, name: Seq<char>)
    requires
        forall|i: int| 0 <= i < o.len() ==> (#[trigger] o[i]).1.ordered(),
    ensures
        json::field(o, name) matches Some(j) ==> j.ordered(),
    decreases o.len(),
{
    if o.len() > 0 {
        assert(o[o.len() - 1].1.ordered());
        assert(forall|i: int| 0 <= i < o.len() - 1 ==> o.drop_last()[i] == o[i]);
        lemma_field_ordered(o.drop_last(), name);
    }
}

/// The object of headers that a command printed, where it succeeded and printed one.
pub open spec fn headers_printed(outcome: CommandOutcome) -> Option<Map<Seq<char>, Tree>> {
    match outcome {
        CommandOutcome::Succeeded { stdout } => match json::json_document(
            text::trimmed(text::utf8_lossy(stdout@)),
        ) {
            Some(reply) => headers_object(reply),
            None => None,
        },
        _ => None,
    }
}

/// Whether `e` says why a command printed no headers.
pub open spec fn is_why_none(outcome: CommandOutcome, e: HeadersError) -> bool {
    match outcome {
        CommandOutcome::NotStarted => e is Unreachable,
        CommandOutcome::Failed { stderr } => e matches HeadersError::Refused(said) && said@
            == text::trimmed(text::utf8_lossy(stderr@)),
        CommandOutcome::Succeeded { stdout } => if json::json_document(
            text::trimmed(text::utf8_lossy(stdout@)),
        ) is None {
            e is Unparseable
        } else {
            e is NoHeaders
        },
    }
}

/// What a command that asked the broker for headers came to. A server gets headers only from a
/// command that succeeded and printed them.
pub fn headers_of(outcome: CommandOutcome) -> (r: Result<Vec<(String, String)>, HeadersError>)
    ensures
        match headers_printed(outcome) {
            Some(h) => r matches Ok(v) && lists_headers(session::header_views(v@), h),
            None => r matches Err(e) && is_why_none(outcome, e),
        },
{
    match outcome {
        CommandOutcome::NotStarted => Err(HeadersError::Unreachable),
        CommandOutcome::Failed { stderr } => {
            let said = text::decode_lossy(&stderr);
            Err(HeadersError::Refused(text::trim(said.as_str()).to_owned()))
        },
        CommandOutcome::Succeeded { stdout } => {
            let body = text::decode_lossy(&stdout);
            read_headers(body.as_str())
        },
    }
}

/// The headers to attach a server with, and what to log. Where the broker gives none, the server
/// is attached without any, rather than dropped: one that answers 401 can be diagnosed, one that
/// is absent cannot.
pub fn headers_or_none(outcome: CommandOutcome) -> (r: (
    Vec<(String, String)>,
    Option<HeadersError>,
))
    ensures
        match headers_printed(outcome) {
            Some(h) => lists_headers(session::header_views(r.0@), h) && r.1 is None,
            None => r.0@.len() == 0 && r.1 is Some && is_why_none(outcome, r.1->0),
        },
{
    match headers_of(outcome) {
        Ok(headers) => (headers, None),
        Err(e) => (Vec::new(), Some(e)),
    }
}

/// A list of headers without its first one.
proof fn lemma_rest_lists_headers(v: Seq<(Seq<char>, Seq<char>)>, m: Map<Seq<char>, Tree>)
    requires
        lists_headers(v, m),
        v.len() > 0,
    ensures
        lists_headers(v.drop_first(), m.remove(v[0].0)),
{
    let rest = v.drop_first();
    let n = m.remove(v[0].0);
    assert forall|i: int, j: int| 0 <= i < j < rest.len() implies json::name_before(
        #[trigger] rest[i].0,
        #[trigger] rest[j].0,
    ) by {
        assert(json::name_before(v[i + 1].0, v[j + 1].0));
    }
    assert forall|name: Seq<char>, value: Seq<char>| #[trigger]
        rest.contains((name, value)) <==> n.contains_key(name) && n[name] == Tree::Text(value) by {
        if rest.contains((name, value)) {
            let i = choose|i: int| 0 <= i < rest.len() && rest[i] == (name, value);
            assert(v[i + 1] == (name, value));
            assert(v.contains((name, value)));
            assert(json::name_before(v[0].0, v[i + 1].0));
            json::lemma_name_before_irreflexive(name);
        }
        if n.contains_key(name) && n[name] == Tree::Text(value) {
            assert(v.contains((name, value)));
            let i = choose|i: int| 0 <= i < v.len() && v[i] == (name, value);
            assert(rest[i - 1] == (name, value));
        }
    }
}

/// The headers of an object can be listed in one way only.
pub proof fn law_headers_have_one_list(
    v: Seq<(Seq<char>, Seq<char>)>,
    w: Seq<(Seq<char>, Seq<char>)>,
    m: Map<Seq<char>, Tree>,
)
    requires
        lists_headers(v, m),
        lists_headers(w, m),
    ensures
        v == w,
    decreases v.len(),
{
    if v.len() == 0 {
        if w.len() > 0 {
            assert(w.contains((w[0].0, w[0].1)));
            assert(v.contains((w[0].0, w[0].1)));
        }
        assert(v =~= w);
    } else {
        assert(v.contains((v[0].0, v[0].1)));
        assert(w.contains((v[0].0, v[0].1)));
        let k = choose|k: int| 0 <= k < w.len() && w[k] == v[0];
        assert(w.contains((w[0].0, w[0].1)));
        assert(v.contains((w[0].0, w[0].1)));
        let l = choose|l: int| 0 <= l < v.len() && v[l] == w[0];
        if k > 0 {
            assert(json::name_before(w[0].0, w[k].0));
            if l > 0 {
                assert(json::name_before(v[0].0, v[l].0));
                json::lemma_name_before_asymmetric(v[0].0, w[0].0);
            } else {
                json::lemma_name_before_irreflexive(v[0].0);
            }
        }
        lemma_rest_lists_headers(v, m);
        lemma_rest_lists_headers(w, m);
        law_headers_have_one_list(v.drop_first(), w.drop_first(), m.remove(v[0].0));
        assert(v =~= seq![v[0]] + v.drop_first());
        assert(w =~= seq![w[0]] + w.drop_first());
    }
}

/// The headers of a reply are its fields whose values are text, each once and in the order in
/// which they are written: the `k`-th header is the field at `at[k]`.
pub proof fn law_headers_are_the_fields_with_text(o: Seq<(String, Json)>) -> (at: Seq<int>)
    ensures
        at.len() == text_fields(o).len(),
        forall|k: int, l: int| 0 <= k < l < at.len() ==> #[trigger] at[k] < #[trigger] at[l],
        forall|k: int|
            0 <= k < at.len() ==> {
                &&& 0 <= #[trigger] at[k] < o.len()
                &&& o[at[k]].1 is Text
                &&& text_fields(o)[k].0 == o[at[k]].0@
                &&& text_fields(o)[k].1 == o[at[k]].1->Text_0@
            },
        forall|i: int| 0 <= i < o.len() && (#[trigger] o[i]).1 is Text ==> at.contains(i),
    decreases o.len(),
{
    if o.len() == 0 {
        Seq::empty()
    } else {
        let rest = o.drop_last();
        let n = o.len() - 1;
        let before = law_headers_are_the_fields_with_text(rest);
        assert(forall|i: int| 0 <= i < n ==> #[trigger] rest[i] == o[i]);
        let at = if o[n].1 is Text {
            before.push(n)
        } else {
            before
        };
        assert forall|k: int| 0 <= k < at.len() implies {
            &&& 0 <= #[trigger] at[k] < o.len()
            &&& o[at[k]].1 is Text
            &&& text_fields(o)[k].0 == o[at[k]].0@
            &&& text_fields(o)[k].1 == o[at[k]].1->Text_0@
        } by {
            if k < before.len() {
                assert(at[k] == before[k]);
                assert(rest[before[k]] == o[at[k]]);
            }
        }
        assert forall|i: int| 0 <= i < o.len() && (#[trigger] o[i]).1 is Text implies at.contains(
            i,
        ) by {
            if i < n {
                assert(rest[i].1 is Text);
                let k = choose|k: int| 0 <= k < before.len() && before[k] == i;
                assert(at[k] == i);
            } else {
                assert(at[before.len() as int] == i);
            }
        }
        at
    }
}

/// The list of an object's headers holds what the object has: every header in it has its name and
/// its own text in the object, every name with text in the object is listed at exactly one place,
/// and the names are in their order.
pub proof fn law_listed_headers_are_those_of_the_object(
    v: Seq<(Seq<char>, Seq<char>)>,
    m: Map<Seq<char>, Tree>,
)
    requires
        lists_headers(v, m),
    ensures
        forall|i: int|
            0 <= i < v.len() ==> m.contains_key((#[trigger] v[i]).0) && m[v[i].0] == Tree::Text(
                v[i].1,
            ),
        forall|name: Seq<char>| #[trigger]
            m.contains_key(name) && m[name] is Text ==> exists|i: int|
                0 <= i < v.len() && (#[trigger] v[i]).0 == name,
        forall|i: int, j: int|
            0 <= i < j < v.len() ==> json::name_before((#[trigger] v[i]).0, (#[trigger] v[j]).0)
                && v[i].0 != v[j].0,
{
    assert forall|i: int| 0 <= i < v.len() implies m.contains_key((#[trigger] v[i]).0)
        && m[v[i].0] == Tree::Text(v[i].1) by {
        assert(v.contains((v[i].0, v[i].1)));
    }
    assert forall|name: Seq<char>| #[trigger]
        m.contains_key(name) && m[name] is Text implies exists|i: int|
        0 <= i < v.len() && (#[trigger] v[i]).0 == name by {
        assert(v.contains((name, m[name]->Text_0)));
        let i = choose|i: int| 0 <= i < v.len() && v[i] == (name, m[name]->Text_0);
        assert(v[i].0 == name);
    }
    assert forall|i: int, j: int| 0 <= i < j < v.len() implies json::name_before(
        (#[trigger] v[i]).0,
        (#[trigger] v[j]).0,
    ) && v[i].0 != v[j].0 by {
        json::lemma_name_before_irreflexive(v[i].0);
    }
}

/// A command gives headers exactly where it succeeded and printed an object that has an object
/// under `headers`, and then it gives that object.
pub proof fn law_headers_come_from_a_command_that_printed_them(
    outcome: CommandOutcome,
    headers: Map<Seq<char>, Tree>,
)
    ensures
        headers_printed(outcome) == Some(headers) <==> {
            &&& outcome is Succeeded
            &&& json::json_document(
                text::trimmed(text::utf8_lossy(outcome->stdout@)),
            ) matches Some(reply)
            &&& reply is Object
            &&& reply->Object_0.contains_key("headers"@)
            &&& reply->Object_0["headers"@] is Object
            &&& reply->Object_0["headers"@]->Object_0 == headers
        },
{
}

/// Each error tells how the command failed: it was not started, it failed and said why, it printed
/// no JSON, or it printed JSON without headers.
pub proof fn law_each_error_tells_what_failed(outcome: CommandOutcome, e: HeadersError)
    requires
        is_why_none(outcome, e),
    ensures
        e is Unreachable <==> outcome is NotStarted,
        e is Refused <==> outcome is Failed,
        e matches HeadersError::Refused(said) ==> said@ == text::trimmed(
            text::utf8_lossy(outcome->stderr@),
        ),
        e is Unparseable || e is NoHeaders <==> outcome is Succeeded,
        outcome is Succeeded ==> (e is Unparseable <==> json::json_document(
            text::trimmed(text::utf8_lossy(outcome->stdout@)),
        ) is None),
{
}

} // verus!
