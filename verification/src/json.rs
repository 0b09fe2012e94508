//! JSON documents.
//!
//! [`Json`] is a document as plain values, and [`Tree`] is what a document means: an object is
//! a map from names to documents, whatever the order in which its fields were written.
//! Reading and writing JSON text is the work of `serde_json`.
use serde_json::Value;
use vstd::prelude::*;

verus! {

/// The numbers of `serde_json`, opaque here.
#[verifier::external_type_specification]
#[verifier::external_body]
pub struct ExNumber(serde_json::Number);

/// The documents of `serde_json`, opaque here: [`value_tree`] names what one holds.
#[verifier::external_type_specification]
#[verifier::external_body]
pub struct ExValue(serde_json::Value);

/// The errors of `serde_json`, opaque here.
#[verifier::external_type_specification]
#[verifier::external_body]
pub struct ExJsonError(serde_json::Error);

/// The integer that a number of `serde_json` is, where it is one: what
/// `serde_json::Number::as_i128` returns.
pub uninterp spec fn number_int(n: serde_json::Number) -> Option<int>;

/// A number that is no integer of 64 bits. Only reading JSON text makes one, and it is
/// carried through as it was read.
#[derive(Debug, PartialEq)]
pub struct Real {
    number: serde_json::Number,
}

impl Real {
    #[verifier::type_invariant]
    closed spec fn is_no_integer(self) -> bool {
        number_int(self.number) is None
    }
}

impl View for Real {
    type V = serde_json::Number;

    closed spec fn view(&self) -> serde_json::Number {
        self.number
    }
}

/// A JSON document. Where an object names a field more than once, the last one counts.
#[derive(Debug, PartialEq)]
pub enum Json {
    Null,
    Bool(bool),
    Unsigned(u64),
    Signed(i64),
    Real(Real),
    Text(String),
    Array(Vec<Json>),
    Object(Vec<(String, Json)>),
}

/// What a JSON document means.
pub enum Tree {
    Null,
    Bool(bool),
    Int(int),
    Real(serde_json::Number),
    Text(Seq<char>),
    Array(Seq<Tree>),
    Object(Map<Seq<char>, Tree>),
}

/// The object that a list of fields writes: a later field replaces an earlier one of its name.
pub open spec fn object_of(fields: Seq<(Seq<char>, Tree)>) -> Map<Seq<char>, Tree>
    decreases fields.len(),
{
    if fields.len() == 0 {
        Map::empty()
    } else {
        object_of(fields.drop_last()).insert(fields.last().0, fields.last().1)
    }
}

impl Json {
    /// What the document means.
    pub open spec fn tree(self) -> Tree
        decreases self,
    {
        match self {
            Json::Null => Tree::Null,
            Json::Bool(b) => Tree::Bool(b),
            Json::Unsigned(n) => Tree::Int(n as int),
            Json::Signed(n) => Tree::Int(n as int),
            Json::Real(x) => Tree::Real(x@),
            Json::Text(s) => Tree::Text(s@),
            Json::Array(a) => Tree::Array(trees(a@)),
            Json::Object(o) => Tree::Object(object_of(field_trees(o@))),
        }
    }
}

/// What the elements of an array mean.
pub open spec fn trees(a: Seq<Json>) -> Seq<Tree>
    decreases a,
{
    Seq::new(
        a.len(),
        |i: int|
            if 0 <= i < a.len() {
                a[i].tree()
            } else {
                Tree::Null
            },
    )
}

/// What the fields of an object mean, each with its name.
pub open spec fn field_trees(o: Seq<(String, Json)>) -> Seq<(Seq<char>, Tree)>
    decreases o,
{
    Seq::new(
        o.len(),
        |i: int|
            if 0 <= i < o.len() {
                (o[i].0@, o[i].1.tree())
            } else {
                (Seq::empty(), Tree::Null)
            },
    )
}

/// Whether a document nests arrays and objects at most `levels` deep and, unless `reals`, all
/// its numbers are integers.
pub open spec fn fits(t: Tree, levels: nat, reals: bool) -> bool
    decreases levels,
{
    match t {
        Tree::Real(_) => reals,
        Tree::Array(a) => {
            &&& levels > 0
            &&& forall|i: int|
                0 <= i < a.len() ==> fits(#[trigger] a[i], (levels - 1) as nat, reals)
        },
        Tree::Object(m) => {
            &&& levels > 0
            &&& forall|k: Seq<char>|
                m.contains_key(k) ==> fits(#[trigger] m[k], (levels - 1) as nat, reals)
        },
        _ => true,
    }
}

/// How deep a document may nest to be read.
pub const MAX_NESTING: usize = 127;

/// Whether `a` comes before `b`, character by character.
pub open spec fn name_before(a: Seq<char>, b: Seq<char>) -> bool
    decreases a.len(),
{
    if b.len() == 0 {
        false
    } else if a.len() == 0 {
        true
    } else if a[0] == b[0] {
        name_before(a.drop_first(), b.drop_first())
    } else {
        a[0] < b[0]
    }
}

/// One level of a `serde_json` document.
enum Node {
    Null,
    Bool(bool),
    Number(serde_json::Number),
    Text(String),
    Array(Vec<Value>),
    Object(Vec<(String, Value)>),
}

/// What a `serde_json` document holds.
pub uninterp spec fn value_tree(v: Value) -> Tree;

/// The document that JSON text writes, where it is JSON text: what `serde_json::from_str` reads.
pub uninterp spec fn json_document(text: Seq<char>) -> Option<Tree>;

/// The JSON text of a document: what `serde_json::Value` displays.
pub uninterp spec fn json_text(t: Tree) -> Seq<char>;

/// What reading the JSON text of a number that is no integer gives. It may be another number.
pub open spec fn reread_real(n: serde_json::Number) -> Option<Tree> {
    json_document(json_text(Tree::Real(n)))
}

/// Whether every number in a document that is no integer can be read from its JSON text.
pub open spec fn rereadable(t: Tree) -> bool
    decreases t,
{
    match t {
        Tree::Real(n) => reread_real(n) is Some,
        Tree::Array(a) => forall|i: int| 0 <= i < a.len() ==> rereadable(#[trigger] a[i]),
        Tree::Object(m) => forall|k: Seq<char>|
            m.contains_key(k) ==> rereadable(#[trigger] m[k]),
        _ => true,
    }
}

/// A document with each number that is no integer read from its JSON text, and everything else
/// as it is.
pub open spec fn reread(t: Tree) -> Tree
    decreases t,
{
    match t {
        Tree::Real(n) => reread_real(n)->0,
        Tree::Array(a) => Tree::Array(
            Seq::new(
                a.len(),
                |i: int|
                    if 0 <= i < a.len() {
                        reread(a[i])
                    } else {
                        Tree::Null
                    },
            ),
        ),
        Tree::Object(m) => Tree::Object(
            Map::new(
                |k: Seq<char>| m.contains_key(k),
                |k: Seq<char>|
                    if m.contains_key(k) {
                        reread(m[k])
                    } else {
                        Tree::Null
                    },
            ),
        ),
        _ => t,
    }
}

/// What reading the JSON text of a document gives.
pub open spec fn reading(t: Tree) -> Option<Tree> {
    if rereadable(t) {
        Some(reread(t))
    } else {
        None
    }
}

spec fn value_trees(a: Seq<Value>) -> Seq<Tree> {
    Seq::new(a.len(), |i: int| value_tree(a[i]))
}

spec fn value_fields(o: Seq<(String, Value)>) -> Seq<(Seq<char>, Tree)> {
    Seq::new(o.len(), |i: int| (o[i].0@, value_tree(o[i].1)))
}

spec fn node_tree(n: Node) -> Tree {
    match n {
        Node::Null => Tree::Null,
        Node::Bool(b) => Tree::Bool(b),
        Node::Number(n) => match number_int(n) {
            Some(i) => Tree::Int(i),
            None => Tree::Real(n),
        },
        Node::Text(s) => Tree::Text(s@),
        Node::Array(a) => Tree::Array(value_trees(a@)),
        Node::Object(o) => Tree::Object(object_of(value_fields(o@))),
    }
}

/// `serde_json::from_str` for a `serde_json::Value`. It succeeds exactly on JSON text, and
/// what it reads is a function of the text. It refuses a document that nests deeper than
/// [`MAX_NESTING`].
#[verifier::external_body]
fn parse_value(text: &str) -> (r: Result<Value, serde_json::Error>)
    ensures
        r matches Ok(v) ==> json_document(text@) == Some(value_tree(v)),
        r matches Ok(v) ==> fits(value_tree(v), MAX_NESTING as nat, true),
        r is Err ==> json_document(text@) is None,
{
    serde_json::from_str(text)
}

/// The `Display` of `serde_json::Value`, in its compact form. The text is a function of the
/// document, it is one line, an object stands in braces, and reading the text gives the document
/// back, but for its numbers that are no integers: without its feature `float_roundtrip`,
/// `serde_json` may read another number in place of such a one. It reads each of them as it reads
/// the number's text alone, and the document is refused where one of them is. Which number it
/// reads, and that it refuses none, is left unsaid.
#[verifier::external_body]
fn print_value(v: &Value) -> (r: String)
    requires
        fits(value_tree(*v), MAX_NESTING as nat, true),
    ensures
        r@ == json_text(value_tree(*v)),
        !r@.contains('\n'),
        value_tree(*v) is Object ==> r@.len() >= 2 && r@[0] == '{' && r@.last() == '}',
        json_document(r@) == reading(value_tree(*v)),
{
    v.to_string()
}

/// `serde_json::Number::as_i128`: the integer that a number is, if it is one. Integers beyond
/// 64 bits are no integers to `serde_json`.
#[verifier::external_body]
fn integer_of(n: &serde_json::Number) -> (r: Option<i128>)
    ensures
        match r {
            Some(i) => number_int(*n) == Some(i as int) && i64::MIN <= i <= u64::MAX,
            None => number_int(*n) is None,
        },
{
    n.as_i128()
}

/// `serde_json::Number::from_i128`, which succeeds on an integer of 64 bits, with or without a
/// sign, and makes it a number.
#[verifier::external_body]
fn number_of(i: i128) -> (r: serde_json::Number)
    requires
        i64::MIN <= i <= u64::MAX,
    ensures
        number_int(r) == Some(i as int),
{
    serde_json::Number::from_i128(i).unwrap()
}

/// Takes a `serde_json::Value` apart, one variant each. `serde_json::Map` holds every name
/// once and hands its entries out in the order of their names.
#[verifier::external_body]
fn open_value(v: Value) -> (r: Node)
    ensures
        node_tree(r) == value_tree(v),
        r matches Node::Object(o) ==> forall|i: int, j: int|
            0 <= i < j < o@.len() ==> name_before(#[trigger] o@[i].0@, #[trigger] o@[j].0@),
{
    match v {
        Value::Null => Node::Null,
        Value::Bool(b) => Node::Bool(b),
        Value::Number(n) => Node::Number(n),
        Value::String(s) => Node::Text(s),
        Value::Array(a) => Node::Array(a),
        Value::Object(m) => Node::Object(m.into_iter().collect()),
    }
}

/// Puts a `serde_json::Value` together, one variant each. Inserting a field into a
/// `serde_json::Map` replaces an earlier one of its name.
#[verifier::external_body]
fn close_value(n: Node) -> (r: Value)
    ensures
        value_tree(r) == node_tree(n),
{
    match n {
        Node::Null => Value::Null,
        Node::Bool(b) => Value::Bool(b),
        Node::Number(n) => Value::Number(n),
        Node::Text(s) => Value::String(s),
        Node::Array(a) => Value::Array(a),
        Node::Object(o) => {
            let mut m = serde_json::Map::new();
            for (name, v) in o {
                m.insert(name, v);
            }
            Value::Object(m)
        },
    }
}

impl Json {
    /// Whether the fields of every object are in the order of their names.
    pub open spec fn ordered(self) -> bool
        decreases self,
    {
        match self {
            Json::Array(a) => forall|i: int| 0 <= i < a@.len() ==> (#[trigger] a@[i]).ordered(),
            Json::Object(o) => {
                &&& names_ordered(o@)
                &&& forall|i: int| 0 <= i < o@.len() ==> (#[trigger] o@[i]).1.ordered()
            },
            _ => true,
        }
    }
}

/// Whether fields are in the order of their names, each name once.
pub open spec fn names_ordered(o: Seq<(String, Json)>) -> bool {
    forall|i: int, j: int|
        0 <= i < j < o.len() ==> name_before(#[trigger] o[i].0@, #[trigger] o[j].0@)
}

/// Turns a `serde_json` document into plain values.
fn from_value(v: Value, levels: Ghost<nat>) -> (r: Json)
    requires
        fits(value_tree(v), levels@, true),
    ensures
        r.tree() == value_tree(v),
        r.ordered(),
    decreases levels@,
{
    match open_value(v) {
        Node::Null => Json::Null,
        Node::Bool(b) => Json::Bool(b),
        Node::Number(n) => match integer_of(&n) {
            Some(i) => if i < 0 {
                Json::Signed(i as i64)
            } else {
                Json::Unsigned(i as u64)
            },
            None => Json::Real(Real { number: n }),
        },
        Node::Text(s) => Json::Text(s),
        Node::Array(a) => {
            let ghost all = value_trees(a@);
            assert(value_tree(v)->Array_0 == all);
            let mut out: Vec<Json> = Vec::new();
            for x in it: a
                invariant
                    it.seq() == a@,
                    all == value_trees(a@),
                    levels@ > 0,
                    forall|i: int|
                        0 <= i < all.len() ==> fits(#[trigger] all[i], (levels@ - 1) as nat, true),
                    out@.len() == it.index(),
                    forall|i: int| 0 <= i < out@.len() ==> (#[trigger] out@[i]).tree() == all[i],
                    forall|i: int| 0 <= i < out@.len() ==> (#[trigger] out@[i]).ordered(),
            {
                assert(all[it.index() as int] == value_tree(x));
                let y = from_value(x, Ghost((levels@ - 1) as nat));
                out.push(y);
            }
            assert(trees(out@) =~= all);
            Json::Array(out)
        },
        Node::Object(o) => {
            let ghost all = value_fields(o@);
            assert(value_tree(v)->Object_0 == object_of(all));
            assert forall|i: int| 0 <= i < all.len() implies fits(
                (#[trigger] all[i]).1,
                (levels@ - 1) as nat,
                true,
            ) by {
                assert forall|j: int| i < j < all.len() implies (#[trigger] all[j]).0
                    != all[i].0 by {
                    lemma_name_before_irreflexive(all[i].0);
                    assert(name_before(o@[i].0@, o@[j].0@));
                }
                lemma_object_field(all, all[i].0, i);
            }
            let mut out: Vec<(String, Json)> = Vec::new();
            for x in it: o
                invariant
                    it.seq() == o@,
                    all == value_fields(o@),
                    levels@ > 0,
                    forall|i: int|
                        0 <= i < all.len() ==> fits(
                            (#[trigger] all[i]).1,
                            (levels@ - 1) as nat,
                            true,
                        ),
                    out@.len() == it.index(),
                    forall|i: int|
                        0 <= i < out@.len() ==> (#[trigger] out@[i]).0 == o@[i].0
                            && out@[i].1.tree() == all[i].1 && out@[i].1.ordered(),
            {
                assert(all[it.index() as int].1 == value_tree(x.1));
                let y = from_value(x.1, Ghost((levels@ - 1) as nat));
                out.push((x.0, y));
            }
            assert(field_trees(out@) =~= all);
            Json::Object(out)
        },
    }
}

/// Turns plain values into a `serde_json` document.
fn to_value(j: Json) -> (r: Value)
    ensures
        value_tree(r) == j.tree(),
    decreases j,
{
    match j {
        Json::Null => close_value(Node::Null),
        Json::Bool(b) => close_value(Node::Bool(b)),
        Json::Unsigned(n) => close_value(Node::Number(number_of(n as i128))),
        Json::Signed(n) => close_value(Node::Number(number_of(n as i128))),
        Json::Real(x) => {
            proof {
                use_type_invariant(&x);
            }
            close_value(Node::Number(x.number))
        },
        Json::Text(s) => close_value(Node::Text(s)),
        Json::Array(a) => {
            let mut out: Vec<Value> = Vec::new();
            for x in it: a
                invariant
                    it.seq() == a@,
                    j == Json::Array(a),
                    out@.len() == it.index(),
                    forall|i: int|
                        0 <= i < out@.len() ==> value_tree(#[trigger] out@[i]) == a@[i].tree(),
            {
                assert(x == a@[it.index() as int]);
                assert(decreases_to!(j => j->Array_0));
                assert(decreases_to!(a => a@));
                assert(decreases_to!(a@ => x));
                let y = to_value(x);
                out.push(y);
            }
            assert(value_trees(out@) =~= trees(a@));
            close_value(Node::Array(out))
        },
        Json::Object(o) => {
            let mut out: Vec<(String, Value)> = Vec::new();
            for x in it: o
                invariant
                    it.seq() == o@,
                    j == Json::Object(o),
                    out@.len() == it.index(),
                    forall|i: int|
                        0 <= i < out@.len() ==> (#[trigger] out@[i]).0 == o@[i].0 && value_tree(
                            out@[i].1,
                        ) == o@[i].1.tree(),
            {
                assert(x == o@[it.index() as int]);
                assert(decreases_to!(j => j->Object_0));
                assert(decreases_to!(o => o@));
                assert(decreases_to!(o@ => x));
                assert(decreases_to!(x => x.1));
                let y = to_value(x.1);
                out.push((x.0, y));
            }
            assert(value_fields(out@) =~= field_trees(o@));
            close_value(Node::Object(out))
        },
    }
}

/// Whether `i` is where the field `name` of a list is written last.
pub open spec fn last_named<T>(fields: Seq<(Seq<char>, T)>, name: Seq<char>, i: int) -> bool {
    &&& 0 <= i < fields.len()
    &&& fields[i].0 == name
    &&& forall|j: int| i < j < fields.len() ==> (#[trigger] fields[j]).0 != name
}

/// The last field of a name is the one that an object has.
pub proof fn lemma_object_field(fields: Seq<(Seq<char>, Tree)>, name: Seq<char>, i: int)
    requires
        last_named(fields, name, i),
    ensures
        object_of(fields).contains_key(name),
        object_of(fields)[name] == fields[i].1,
    decreases fields.len(),
{
    if i < fields.len() - 1 {
        let rest = fields.drop_last();
        assert forall|j: int| i < j < rest.len() implies (#[trigger] rest[j]).0 != name by {
            assert(rest[j] == fields[j]);
        }
        lemma_object_field(rest, name, i);
        assert(fields[fields.len() - 1].0 != name);
    }
}

/// An object has no field of a name that is not written.
pub proof fn lemma_object_missing(fields: Seq<(Seq<char>, Tree)>, name: Seq<char>)
    requires
        forall|j: int| 0 <= j < fields.len() ==> (#[trigger] fields[j]).0 != name,
    ensures
        !object_of(fields).contains_key(name),
    decreases fields.len(),
{
    if fields.len() > 0 {
        let rest = fields.drop_last();
        assert forall|j: int| 0 <= j < rest.len() implies (#[trigger] rest[j]).0 != name by {
            assert(rest[j] == fields[j]);
        }
        lemma_object_missing(rest, name);
        assert(fields[fields.len() - 1].0 != name);
    }
}

/// Writing another document in the last field of a name replaces what the object has there.
pub proof fn lemma_object_replace(
    fields: Seq<(Seq<char>, Tree)>,
    name: Seq<char>,
    i: int,
    t: Tree,
)
    requires
        last_named(fields, name, i),
    ensures
        object_of(fields.update(i, (name, t))) == object_of(fields).insert(name, t),
    decreases fields.len(),
{
    let new = fields.update(i, (name, t));
    if i == fields.len() - 1 {
        assert(new.drop_last() =~= fields.drop_last());
        assert(object_of(new) =~= object_of(fields).insert(name, t));
    } else {
        let rest = fields.drop_last();
        assert forall|j: int| i < j < rest.len() implies (#[trigger] rest[j]).0 != name by {
            assert(rest[j] == fields[j]);
        }
        lemma_object_replace(rest, name, i, t);
        assert(new.drop_last() =~= rest.update(i, (name, t)));
        assert(fields[fields.len() - 1].0 != name);
        assert(object_of(new) =~= object_of(fields).insert(name, t));
    }
}

/// What fits in some levels fits in more of them, and also where reals are allowed.
pub proof fn lemma_fits_more(t: Tree, levels: nat, more: nat, reals: bool)
    requires
        fits(t, levels, reals),
        levels <= more,
    ensures
        fits(t, more, reals),
        fits(t, more, true),
    decreases levels,
{
    match t {
        Tree::Array(a) => {
            assert(t->Array_0 == a);
            assert forall|i: int| 0 <= i < a.len() implies fits(
                #[trigger] a[i],
                (more - 1) as nat,
                reals,
            ) && fits(a[i], (more - 1) as nat, true) by {
                lemma_fits_more(a[i], (levels - 1) as nat, (more - 1) as nat, reals);
            }
        },
        Tree::Object(m) => {
            assert(t->Object_0 == m);
            assert forall|k: Seq<char>| m.contains_key(k) implies fits(
                #[trigger] m[k],
                (more - 1) as nat,
                reals,
            ) && fits(m[k], (more - 1) as nat, true) by {
                lemma_fits_more(m[k], (levels - 1) as nat, (more - 1) as nat, reals);
            }
        },
        _ => {},
    }
}

/// A document whose numbers are all integers is read back from its text as it is.
pub proof fn law_integers_are_read_back(t: Tree, levels: nat)
    requires
        fits(t, levels, false),
    ensures
        reading(t) == Some(t),
    decreases levels,
{
    match t {
        Tree::Array(a) => {
            assert(t->Array_0 == a);
            assert forall|i: int| 0 <= i < a.len() implies rereadable(#[trigger] a[i]) && reread(
                a[i],
            ) == a[i] by {
                law_integers_are_read_back(a[i], (levels - 1) as nat);
            }
            assert(reread(t)->Array_0 =~= a);
        },
        Tree::Object(m) => {
            assert(t->Object_0 == m);
            assert forall|k: Seq<char>| m.contains_key(k) implies rereadable(#[trigger] m[k])
                && reread(m[k]) == m[k] by {
                law_integers_are_read_back(m[k], (levels - 1) as nat);
            }
            assert(reread(t)->Object_0 =~= m);
        },
        _ => {},
    }
}

/// Reading a document back keeps an array's length, and reads its elements one by one.
pub proof fn lemma_reread_array(a: Seq<Tree>)
    ensures
        reread(Tree::Array(a)) is Array,
        reread(Tree::Array(a))->Array_0.len() == a.len(),
        forall|i: int|
            0 <= i < a.len() ==> #[trigger] reread(Tree::Array(a))->Array_0[i]
                == reread(a[i]),
        rereadable(Tree::Array(a)) <==> forall|i: int|
            0 <= i < a.len() ==> rereadable(#[trigger] a[i]),
{
    let t = Tree::Array(a);
    assert(t->Array_0 == a);
}

/// Reading a document back keeps an object's names, and reads its fields one by one.
pub proof fn lemma_reread_object(m: Map<Seq<char>, Tree>)
    ensures
        reread(Tree::Object(m)) is Object,
        reread(Tree::Object(m))->Object_0.dom() == m.dom(),
        forall|k: Seq<char>|
            m.contains_key(k) ==> #[trigger] reread(Tree::Object(m))->Object_0[k]
                == reread(m[k]),
        rereadable(Tree::Object(m)) <==> forall|k: Seq<char>|
            m.contains_key(k) ==> rereadable(#[trigger] m[k]),
{
    let t = Tree::Object(m);
    assert(t->Object_0 == m);
    assert(reread(t)->Object_0.dom() =~= m.dom());
}

/// No name comes before itself.
pub proof fn lemma_name_before_irreflexive(a: Seq<char>)
    ensures
        !name_before(a, a),
    decreases a.len(),
{
    if a.len() > 0 {
        lemma_name_before_irreflexive(a.drop_first());
    }
}

/// The last field of a name, if there is one.
pub open spec fn field(o: Seq<(String, Json)>, name: Seq<char>) -> Option<Json>
    decreases o.len(),
{
    if o.len() == 0 {
        None
    } else if o.last().0@ == name {
        Some(o.last().1)
    } else {
        field(o.drop_last(), name)
    }
}

/// Where the field that [`field`] finds is written.
proof fn lemma_field_at(o: Seq<(String, Json)>, name: Seq<char>, i: int)
    requires
        last_named(field_trees(o), name, i),
    ensures
        field(o, name) == Some(o[i].1),
    decreases o.len(),
{
    if i < o.len() - 1 {
        let all = field_trees(o);
        let rest = field_trees(o.drop_last());
        assert(all[o.len() - 1].0 != name);
        assert(forall|j: int| 0 <= j < rest.len() ==> rest[j] == all[j]);
        lemma_field_at(o.drop_last(), name, i);
    }
}

/// [`field`] finds nothing where no field has the name.
proof fn lemma_field_missing(o: Seq<(String, Json)>, name: Seq<char>)
    requires
        forall|j: int| 0 <= j < o.len() ==> (#[trigger] o[j]).0@ != name,
    ensures
        field(o, name) is None,
    decreases o.len(),
{
    if o.len() > 0 {
        assert(o[o.len() - 1].0@ != name);
        assert(forall|j: int| 0 <= j < o.len() - 1 ==> o.drop_last()[j] == o[j]);
        lemma_field_missing(o.drop_last(), name);
    }
}

/// An object has the fields that [`field`] finds, and no others.
pub proof fn lemma_field_of_object(o: Seq<(String, Json)>, name: Seq<char>)
    ensures
        field(o, name) is Some <==> object_of(field_trees(o)).contains_key(name),
        field(o, name) matches Some(j) ==> object_of(field_trees(o))[name] == j.tree(),
    decreases o.len(),
{
    if o.len() > 0 {
        lemma_field_of_object(o.drop_last(), name);
        assert(field_trees(o).drop_last() =~= field_trees(o.drop_last()));
    }
}

/// Finds where the last field of a name is written.
pub fn find_field(o: &Vec<(String, Json)>, name: &str) -> (r: Option<usize>)
    ensures
        match r {
            Some(i) => last_named(field_trees(o@), name@, i as int) && field(o@, name@) == Some(
                o@[i as int].1,
            ),
            None => field(o@, name@) is None,
        },
{
    let mut i: usize = o.len();
    while i > 0
        invariant
            i <= o@.len(),
            forall|j: int| i <= j < o@.len() ==> (#[trigger] o@[j]).0@ != name@,
        decreases i,
    {
        i -= 1;
        if crate::text::same(o[i].0.as_str(), name) {
            proof {
                lemma_field_at(o@, name@, i as int);
            }
            return Some(i);
        }
    }
    proof {
        lemma_field_missing(o@, name@);
    }
    None
}

/// Writes another field.
pub fn push_field(o: &mut Vec<(String, Json)>, name: &str, j: Json)
    ensures
        object_of(field_trees(final(o)@)) == object_of(field_trees(old(o)@)).insert(
            name@,
            j.tree(),
        ),
        final(o)@.len() == old(o)@.len() + 1,
{
    let ghost before = field_trees(o@);
    o.push((name.to_owned(), j));
    assert(field_trees(o@).drop_last() =~= before);
}

/// Reads JSON text.
pub fn parse(text: &str) -> (r: Result<Json, serde_json::Error>)
    ensures
        match r {
            Ok(j) => {
                &&& json_document(text@) == Some(j.tree())
                &&& fits(j.tree(), MAX_NESTING as nat, true)
                &&& j.ordered()
            },
            Err(_) => json_document(text@) is None,
        },
{
    match parse_value(text) {
        Ok(v) => Ok(from_value(v, Ghost(MAX_NESTING as nat))),
        Err(e) => Err(e),
    }
}

/// Writes JSON text, on one line. Reading it gives the document back, but for its numbers that are
/// no integers: each of these is read as its own text is.
pub fn render(j: Json) -> (r: String)
    requires
        fits(j.tree(), MAX_NESTING as nat, true),
    ensures
        r@ == json_text(j.tree()),
        !r@.contains('\n'),
        j.tree() is Object ==> r@.len() >= 2 && r@[0] == '{' && r@.last() == '}',
        json_document(r@) == reading(j.tree()),
        fits(j.tree(), MAX_NESTING as nat, false) ==> json_document(r@) == Some(j.tree()),
{
    proof {
        if fits(j.tree(), MAX_NESTING as nat, false) {
            law_integers_are_read_back(j.tree(), MAX_NESTING as nat);
        }
    }
    print_value(&to_value(j))
}

/// Of two names, at most one comes before the other.
pub proof fn lemma_name_before_asymmetric(a: Seq<char>, b: Seq<char>)
    ensures
        !(name_before(a, b) && name_before(b, a)),
    decreases a.len(),
{
    if a.len() > 0 && b.len() > 0 && a[0] == b[0] {
        lemma_name_before_asymmetric(a.drop_first(), b.drop_first());
    }
}

/// A document means what it holds: its value where it is a single one, its elements in order
/// where it is an array, and where it is an object, for each name that is written what is written
/// with it last, and nothing under any other name.
pub proof fn law_a_document_means_what_it_holds(j: Json)
    ensures
        match j {
            Json::Null => j.tree() is Null,
            Json::Bool(b) => j.tree() == Tree::Bool(b),
            Json::Unsigned(n) => j.tree() == Tree::Int(n as int),
            Json::Signed(n) => j.tree() == Tree::Int(n as int),
            Json::Real(x) => j.tree() == Tree::Real(x@),
            Json::Text(s) => j.tree() == Tree::Text(s@),
            Json::Array(a) => {
                &&& j.tree() is Array
                &&& j.tree()->Array_0.len() == a@.len()
                &&& forall|i: int|
                    0 <= i < a@.len() ==> j.tree()->Array_0[i] == (#[trigger] a@[i]).tree()
            },
            Json::Object(o) => {
                &&& j.tree() is Object
                &&& forall|i: int|
                    0 <= i < o@.len() && (forall|l: int|
                        i < l < o@.len() ==> (#[trigger] o@[l]).0@ != o@[i].0@) ==> {
                        &&& j.tree()->Object_0.contains_key((#[trigger] o@[i]).0@)
                        &&& j.tree()->Object_0[o@[i].0@] == o@[i].1.tree()
                    }
                &&& forall|name: Seq<char>| #[trigger]
                    j.tree()->Object_0.contains_key(name) ==> exists|i: int|
                        0 <= i < o@.len() && (#[trigger] o@[i]).0@ == name
            },
        },
{
    if let Json::Object(o) = j {
        let all = field_trees(o@);
        assert forall|i: int|
            0 <= i < o@.len() && (forall|l: int|
                i < l < o@.len() ==> (#[trigger] o@[l]).0@ != o@[i].0@) implies {
            &&& j.tree()->Object_0.contains_key((#[trigger] o@[i]).0@)
            &&& j.tree()->Object_0[o@[i].0@] == o@[i].1.tree()
        } by {
            assert forall|l: int| i < l < all.len() implies (#[trigger] all[l]).0 != all[i].0 by {
                assert(o@[l].0@ != o@[i].0@);
            }
            lemma_object_field(all, o@[i].0@, i);
        }
        assert forall|name: Seq<char>| #[trigger]
            j.tree()->Object_0.contains_key(name) implies exists|i: int|
            0 <= i < o@.len() && (#[trigger] o@[i]).0@ == name by {
            if forall|i: int| 0 <= i < o@.len() ==> (#[trigger] o@[i]).0@ != name {
                assert forall|l: int| 0 <= l < all.len() implies (#[trigger] all[l]).0 != name by {
                    assert(o@[l].0@ != name);
                }
                lemma_object_missing(all, name);
            }
        }
    }
}

/// The field of a name is the one that is written last with it, if any is.
pub proof fn law_the_last_field_of_a_name_counts(o: Seq<(String, Json)>, name: Seq<char>)
    ensures
        forall|i: int|
            0 <= i < o.len() && (#[trigger] o[i]).0@ == name && (forall|l: int|
                i < l < o.len() ==> (#[trigger] o[l]).0@ != name) ==> field(o, name) == Some(
                o[i].1,
            ),
        field(o, name) is None <==> forall|i: int|
            0 <= i < o.len() ==> (#[trigger] o[i]).0@ != name,
    decreases o.len(),
{
    if o.len() > 0 {
        let rest = o.drop_last();
        law_the_last_field_of_a_name_counts(rest, name);
        assert(forall|i: int| 0 <= i < rest.len() ==> #[trigger] rest[i] == o[i]);
        assert forall|i: int|
            0 <= i < o.len() && (#[trigger] o[i]).0@ == name && (forall|l: int|
                i < l < o.len() ==> (#[trigger] o[l]).0@ != name) implies field(o, name) == Some(
            o[i].1,
        ) by {
            if i < rest.len() {
                assert(o[o.len() - 1].0@ != name);
                assert(rest[i].0@ == name);
                assert forall|l: int| i < l < rest.len() implies (#[trigger] rest[l]).0@
                    != name by {
                    assert(o[l].0@ != name);
                }
            }
        }
        if field(o, name) is None {
            assert forall|i: int| 0 <= i < o.len() implies (#[trigger] o[i]).0@ != name by {
                if i < rest.len() {
                    assert(rest[i].0@ != name);
                }
            }
        }
        if forall|i: int| 0 <= i < o.len() ==> (#[trigger] o[i]).0@ != name {
            assert(o[o.len() - 1].0@ != name);
            assert forall|i: int| 0 <= i < rest.len() implies (#[trigger] rest[i]).0@
                != name by {
                assert(o[i].0@ != name);
            }
        }
    }
}

/// In an ordered document the fields of every object are in the order of their names, and all that
/// it holds is ordered too.
pub proof fn law_ordered_documents_are_ordered_throughout(j: Json)
    requires
        j.ordered(),
    ensures
        j matches Json::Array(a) ==> forall|i: int|
            0 <= i < a@.len() ==> (#[trigger] a@[i]).ordered(),
        j matches Json::Object(o) ==> forall|i: int|
            0 <= i < o@.len() ==> (#[trigger] o@[i]).1.ordered(),
        j matches Json::Object(o) ==> forall|i: int, k: int|
            0 <= i < k < o@.len() ==> name_before((#[trigger] o@[i]).0@, (#[trigger] o@[k]).0@),
{
}

/// Names are in the order of the characters at which they first differ, and a name comes before
/// those that it begins: up to `p` the two are the same.
pub proof fn law_names_are_ordered_where_they_differ(a: Seq<char>, b: Seq<char>) -> (p: int)
    ensures
        0 <= p <= a.len(),
        p <= b.len(),
        a.take(p) == b.take(p),
        p < a.len() && p < b.len() ==> a[p] != b[p],
        name_before(a, b) <==> p < b.len() && (p == a.len() || a[p] < b[p]),
    decreases a.len(),
{
    if a.len() > 0 && b.len() > 0 && a[0] == b[0] {
        let p = law_names_are_ordered_where_they_differ(a.drop_first(), b.drop_first());
        assert forall|i: int| 0 <= i < p + 1 implies a[i] == b[i] by {
            if i > 0 {
                assert(a.drop_first().take(p)[i - 1] == b.drop_first().take(p)[i - 1]);
            }
        }
        assert(a.take(p + 1) =~= b.take(p + 1));
        p + 1
    } else {
        assert(a.take(0) =~= b.take(0));
        0
    }
}

} // verus!
