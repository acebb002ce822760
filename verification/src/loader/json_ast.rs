//! Reading the compiler's combined JSON output into the AST of each source file.
use vstd::prelude::*;
use json::JsonValue;
use crate::ast::{AstNode, AttrValue};
use crate::text::copy_string;

verus! {

#[verifier::external_type_specification]
#[verifier::external_body]
pub struct ExJsonValue(JsonValue);

/// A step down a JSON value: into a field of an object, or an element of an array.
pub enum JsonStep {
    Key(Seq<char>),
    Index(nat),
}

/// What a JSON value holds at one place: `null`, a boolean, a number (as
/// `JsonValue::as_u64` reads it), a string, an array (its length) or an object
/// (its keys, in order).
pub enum JsonAtom {
    Null,
    Bool(bool),
    Number(Option<u64>),
    Str(Seq<char>),
    Array(nat),
    Object(Seq<Seq<char>>),
}

/// A JSON value as plain values: what it holds at each path from its root.
pub type JsonDoc = Map<Seq<JsonStep>, JsonAtom>;

/// The JSON value that `text` holds; `None` where the text is not JSON.
pub uninterp spec fn json_doc(text: Seq<char>) -> Option<JsonDoc>;

/// What a `JsonValue` holds: see `JsonDoc`.
pub uninterp spec fn json_contents(v: JsonValue) -> JsonDoc;

/// What `d` holds at its root; `null` where it holds nothing there.
pub open spec fn root(d: JsonDoc) -> JsonAtom {
    if d.contains_key(seq![]) { d[seq![]] } else { JsonAtom::Null }
}

/// The value `null`.
pub open spec fn null_doc() -> JsonDoc {
    map![seq![] => JsonAtom::Null]
}

/// The part of `d` below the step `s`.
pub open spec fn below(d: JsonDoc, s: JsonStep) -> JsonDoc {
    Map::new(|p: Seq<JsonStep>| d.contains_key(seq![s] + p), |p: Seq<JsonStep>| d[seq![s] + p])
}

/// The field `key` of an object; `null` where `d` is not an object or has no such field.
pub open spec fn field(d: JsonDoc, key: Seq<char>) -> JsonDoc {
    match root(d) {
        JsonAtom::Object(keys) => if keys.contains(key) { below(d, JsonStep::Key(key)) } else { null_doc() },
        _ => null_doc(),
    }
}

/// The element `i` of an array; `null` where `d` is not an array or is shorter.
pub open spec fn element(d: JsonDoc, i: nat) -> JsonDoc {
    match root(d) {
        JsonAtom::Array(n) => if i < n { below(d, JsonStep::Index(i)) } else { null_doc() },
        _ => null_doc(),
    }
}

/// What one place of a JSON value holds, as plain values: see `JsonAtom`.
pub enum JsonShape {
    Null,
    Bool(bool),
    Number(Option<u64>),
    Str(String),
    Array(usize),
    Object(Vec<String>),
}

impl View for JsonShape {
    type V = JsonAtom;

    open spec fn view(&self) -> JsonAtom {
        match self {
            JsonShape::Null => JsonAtom::Null,
            JsonShape::Bool(b) => JsonAtom::Bool(*b),
            JsonShape::Number(n) => JsonAtom::Number(*n),
            JsonShape::Str(s) => JsonAtom::Str(s@),
            JsonShape::Array(n) => JsonAtom::Array(*n as nat),
            JsonShape::Object(keys) => JsonAtom::Object(keys@.map_values(|k: String| k@)),
        }
    }
}

/// `json::parse`: the value that `text` holds, or nothing where it is not JSON.
#[verifier::external_body]
fn json_parse(text: &str) -> (r: Option<JsonValue>)
    ensures
        match r {
            Some(v) => json_doc(text@) == Some(json_contents(v)),
            None => json_doc(text@) is None,
        },
{
    json::parse(text).ok()
}

/// What the root of `v` holds: the variant of `JsonValue`, a number read by
/// `JsonValue::as_u64`, the length of an array, the keys of an object in order.
#[verifier::external_body]
fn json_shape(v: &JsonValue) -> (r: JsonShape)
    ensures
        root(json_contents(*v)) == r@,
{
    match v {
        JsonValue::Null => JsonShape::Null,
        JsonValue::Short(s) => JsonShape::Str(s.as_str().to_string()),
        JsonValue::String(s) => JsonShape::Str(s.clone()),
        JsonValue::Number(_) => JsonShape::Number(v.as_u64()),
        JsonValue::Boolean(b) => JsonShape::Bool(*b),
        JsonValue::Object(o) => JsonShape::Object(o.iter().map(|(k, _)| k.to_string()).collect()),
        JsonValue::Array(a) => JsonShape::Array(a.len()),
    }
}

/// `JsonValue[key]`: the field `key` of an object, `null` where there is none.
#[verifier::external_body]
fn json_field<'a>(v: &'a JsonValue, key: &str) -> (r: &'a JsonValue)
    ensures
        json_contents(*r) == field(json_contents(*v), key@),
{
    &v[key]
}

/// `JsonValue[i]`: the element `i` of an array, `null` where there is none.
#[verifier::external_body]
fn json_element(v: &JsonValue, i: usize) -> (r: &JsonValue)
    ensures
        json_contents(*r) == element(json_contents(*v), i as nat),
{
    &v[i]
}

/// The attribute value `x` is what `d` holds, read to a nesting of `depth`:
/// `null`, a boolean, a string, an array element by element, a number that
/// fits in a `u64`; anything else (and an array below the nesting) is `Other`.
pub open spec fn attr_reads(x: AttrValue, d: JsonDoc, depth: nat) -> bool
    decreases depth,
{
    match root(d) {
        JsonAtom::Null => x is Null,
        JsonAtom::Bool(b) => x == AttrValue::Bool(b),
        JsonAtom::Str(s) => x matches AttrValue::Str(t) && t@ == s,
        JsonAtom::Array(n) => if depth == 0 {
            x is Other
        } else {
            x matches AttrValue::List(l) && l@.len() == n
                && forall|i: int| 0 <= i < n ==> attr_reads(#[trigger] l@[i], element(d, i as nat), (depth - 1) as nat)
        },
        JsonAtom::Number(Some(u)) => x == AttrValue::Uint(u),
        _ => x is Other,
    }
}

/// The attributes `attrs` are the fields of the object `d`, in order, each
/// value read to a nesting of `depth`; none where `d` is not an object.
pub open spec fn attrs_read(attrs: Seq<(String, AttrValue)>, d: JsonDoc, depth: nat) -> bool {
    match root(d) {
        JsonAtom::Object(keys) => {
            &&& attrs.len() == keys.len()
            &&& forall|i: int| 0 <= i < keys.len() ==> (#[trigger] attrs[i]).0@ == keys[i]
                && attr_reads(attrs[i].1, field(d, keys[i]), depth)
        },
        _ => attrs.len() == 0,
    }
}

/// The id of a node: a number that fits in a `u32`.
pub open spec fn id_of(d: JsonDoc) -> Option<u32> {
    match root(field(d, "id"@)) {
        JsonAtom::Number(Some(u)) => if u <= u32::MAX { Some(u as u32) } else { None },
        _ => None,
    }
}

/// A string field of a node.
pub open spec fn str_of(d: JsonDoc, key: Seq<char>) -> Option<Seq<char>> {
    match root(field(d, key)) {
        JsonAtom::Str(s) => Some(s),
        _ => None,
    }
}

/// The number of children of a node: the length of its `children` array.
pub open spec fn kids_of(d: JsonDoc) -> nat {
    match root(field(d, "children"@)) {
        JsonAtom::Array(n) => n,
        _ => 0,
    }
}

/// `d` holds a node, read to a nesting of `depth`: it has an id, a name and a
/// source range, and so has each of its children, one level less deep.
pub open spec fn node_readable(d: JsonDoc, depth: nat) -> bool
    decreases depth,
{
    &&& id_of(d) is Some
    &&& str_of(d, "name"@) is Some
    &&& str_of(d, "src"@) is Some
    &&& kids_of(d) > 0 ==> depth > 0 && forall|i: int| 0 <= i < kids_of(d)
        ==> node_readable(#[trigger] element(field(d, "children"@), i as nat), (depth - 1) as nat)
}

/// The node `n` is what `d` holds, read to a nesting of `depth`: its id, name
/// and source range, its attributes (see `attrs_read`) and its children.
pub open spec fn node_reads(n: AstNode, d: JsonDoc, depth: nat) -> bool
    decreases depth,
{
    &&& id_of(d) == Some(n.id)
    &&& str_of(d, "name"@) == Some(n.name@)
    &&& str_of(d, "src"@) == Some(n.src@)
    &&& attrs_read(n.attributes@, field(d, "attributes"@), depth)
    &&& n.children@.len() == kids_of(d)
    &&& kids_of(d) > 0 ==> depth > 0 && forall|i: int| 0 <= i < kids_of(d)
        ==> node_reads(#[trigger] n.children@[i], element(field(d, "children"@), i as nat), (depth - 1) as nat)
}

/// The attribute value that `v` holds: see `attr_reads`.
fn attr_of_json(v: &JsonValue, depth: usize) -> (r: AttrValue)
    ensures
        attr_reads(r, json_contents(*v), depth as nat),
    decreases depth,
{
    let ghost d = json_contents(*v);
    match json_shape(v) {
        JsonShape::Null => AttrValue::Null,
        JsonShape::Bool(b) => AttrValue::Bool(b),
        JsonShape::Str(s) => AttrValue::Str(s),
        JsonShape::Number(Some(n)) => AttrValue::Uint(n),
        JsonShape::Number(None) => AttrValue::Other,
        JsonShape::Object(_) => AttrValue::Other,
        JsonShape::Array(n) => {
            if depth == 0 {
                return AttrValue::Other;
            }
            let mut out: Vec<AttrValue> = Vec::new();
            let mut i: usize = 0;
            while i < n
                invariant
                    depth > 0,
                    d == json_contents(*v),
                    root(d) == JsonAtom::Array(n as nat),
                    i <= n,
                    out@.len() == i,
                    forall|j: int| 0 <= j < i ==> attr_reads(#[trigger] out@[j], element(d, j as nat), (depth - 1) as nat),
                decreases n - i,
            {
                let x = attr_of_json(json_element(v, i), depth - 1);
                out.push(x);
                i = i + 1;
            }
            AttrValue::List(out)
        },
    }
}

/// The AST node that `v` holds, read to a nesting of `depth`: see
/// `node_readable` and `node_reads`.
pub fn node_of_json(v: &JsonValue, depth: usize) -> (r: Option<AstNode>)
    ensures
        r is Some <==> node_readable(json_contents(*v), depth as nat),
        r matches Some(n) ==> node_reads(n, json_contents(*v), depth as nat),
    decreases depth,
{
    let ghost d = json_contents(*v);
    proof {
        reveal_strlit("id");
        reveal_strlit("name");
        reveal_strlit("src");
        reveal_strlit("attributes");
        reveal_strlit("children");
    }
    let id = match json_shape(json_field(v, "id")) {
        JsonShape::Number(Some(n)) => if n <= 0xffff_ffffu64 { n as u32 } else { return None },
        _ => return None,
    };
    let name = match json_shape(json_field(v, "name")) {
        JsonShape::Str(s) => s,
        _ => return None,
    };
    let src = match json_shape(json_field(v, "src")) {
        JsonShape::Str(s) => s,
        _ => return None,
    };
    let atts = json_field(v, "attributes");
    let ghost a = json_contents(*atts);
    let mut attributes: Vec<(String, AttrValue)> = Vec::new();
    match json_shape(atts) {
        JsonShape::Object(keys) => {
            let ghost kv = keys@.map_values(|k: String| k@);
            let mut i: usize = 0;
            while i < keys.len()
                invariant
                    a == json_contents(*atts),
                    root(a) == JsonAtom::Object(kv),
                    kv == keys@.map_values(|k: String| k@),
                    i <= keys@.len(),
                    attributes@.len() == i,
                    forall|j: int| 0 <= j < i ==> (#[trigger] attributes@[j]).0@ == kv[j]
                        && attr_reads(attributes@[j].1, field(a, kv[j]), depth as nat),
                decreases keys@.len() - i,
            {
                let key = copy_string(&keys[i]);
                let x = attr_of_json(json_field(atts, keys[i].as_str()), depth);
                attributes.push((key, x));
                i = i + 1;
            }
        },
        _ => {},
    }
    let kids = json_field(v, "children");
    let ghost k = json_contents(*kids);
    let mut children: Vec<AstNode> = Vec::new();
    match json_shape(kids) {
        JsonShape::Array(n) => {
            let mut i: usize = 0;
            while i < n
                invariant
                    d == json_contents(*v),
                    k == json_contents(*kids),
                    k == field(d, "children"@),
                    root(k) == JsonAtom::Array(n as nat),
                    i <= n,
                    children@.len() == i,
                    i > 0 ==> depth > 0,
                    forall|j: int| 0 <= j < i ==> node_readable(#[trigger] element(k, j as nat), (depth - 1) as nat),
                    forall|j: int| 0 <= j < i ==> node_reads(#[trigger] children@[j], element(k, j as nat),
                        (depth - 1) as nat),
                decreases n - i,
            {
                if depth == 0 {
                    assert(kids_of(d) == n as nat);
                    return None;
                }
                match node_of_json(json_element(kids, i), depth - 1) {
                    Some(c) => children.push(c),
                    None => {
                        assert(kids_of(d) == n as nat);
                        let ghost dn = depth as nat;
                        let ghost ii = i as int;
                        assert(!node_readable(element(k, ii as nat), (dn - 1) as nat));
                        assert(!node_readable(d, dn));
                        return None;
                    },
                }
                i = i + 1;
            }
        },
        _ => {},
    }
    Some(AstNode { id, name, src, attributes, children })
}

/// The AST of the source file `name` in the compiler's output `d`.
pub open spec fn unit_doc(d: JsonDoc, name: Seq<char>) -> JsonDoc {
    field(field(field(d, "sources"@), name), "AST"@)
}

/// Reads the compiler's combined output, already parsed into `value`: for
/// each source file of `sources` (its name and its text, in that order), the
/// AST that `value` holds under `sources`, the file's name and `AST`, paired
/// with the file's text. `None` exactly where one of those ASTs has a node
/// without its id, its name or its source range.
pub fn units_of_value(value: &JsonValue, sources: &Vec<(String, String)>) -> (r: Option<Vec<(AstNode, String)>>)
    ensures
        r is Some <==> forall|i: int| 0 <= i < sources@.len()
            ==> node_readable(unit_doc(json_contents(*value), (#[trigger] sources@[i]).0@), usize::MAX as nat),
        r matches Some(us) ==> {
            &&& us@.len() == sources@.len()
            &&& forall|i: int| 0 <= i < us@.len() ==> (#[trigger] us@[i]).1@ == sources@[i].1@
                && node_reads(us@[i].0, unit_doc(json_contents(*value), sources@[i].0@), usize::MAX as nat)
        },
{
    proof {
        reveal_strlit("sources");
        reveal_strlit("AST");
    }
    let ghost d = json_contents(*value);
    let files = json_field(value, "sources");
    let mut units: Vec<(AstNode, String)> = Vec::new();
    let mut i: usize = 0;
    while i < sources.len()
        invariant
            d == json_contents(*value),
            json_contents(*files) == field(d, "sources"@),
            i <= sources@.len(),
            units@.len() == i,
            forall|j: int| 0 <= j < i ==> node_readable(unit_doc(d, (#[trigger] sources@[j]).0@), usize::MAX as nat),
            forall|j: int| 0 <= j < i ==> (#[trigger] units@[j]).1@ == sources@[j].1@
                && node_reads(units@[j].0, unit_doc(d, sources@[j].0@), usize::MAX as nat),
        decreases sources@.len() - i,
    {
        let file = json_field(files, sources[i].0.as_str());
        match node_of_json(json_field(file, "AST"), usize::MAX) {
            Some(n) => units.push((n, copy_string(&sources[i].1))),
            None => return None,
        }
        i = i + 1;
    }
    Some(units)
}

/// Reads the combined JSON `ast` that the compiler printed: `None` where it
/// is not JSON, else what `units_of_value` reads from the value it holds.
pub fn units_of_json(ast: &str, sources: &Vec<(String, String)>) -> (r: Option<Vec<(AstNode, String)>>)
    ensures
        r is Some <==> (json_doc(ast@) matches Some(d) && forall|i: int| 0 <= i < sources@.len()
            ==> node_readable(unit_doc(d, (#[trigger] sources@[i]).0@), usize::MAX as nat)),
        r matches Some(us) ==> {
            &&& us@.len() == sources@.len()
            &&& json_doc(ast@) matches Some(d) && forall|i: int| 0 <= i < us@.len()
                ==> (#[trigger] us@[i]).1@ == sources@[i].1@
                && node_reads(us@[i].0, unit_doc(d, sources@[i].0@), usize::MAX as nat)
        },
{
    match json_parse(ast) {
        Some(v) => units_of_value(&v, sources),
        None => None,
    }
}

} // verus!
