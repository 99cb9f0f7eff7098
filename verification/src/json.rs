//! JSON documents, read through JSON pointers.

use vstd::prelude::*;
use vstd::string::*;

use crate::table::texts;

verus! {

/// A JSON number: its value where it is an unsigned integer of 64 bits, and the bits of the
/// double-precision value nearest to it.
#[derive(Clone, Copy, Debug, PartialEq, Eq, Structural)]
pub struct Number {
    pub unsigned: Option<u64>,
    pub double: Option<u64>,
}

/// What a JSON pointer reaches. An array is given by its length; its items and the members of an
/// object have pointers of their own.
#[derive(Debug)]
pub enum Node {
    Null,
    Bool(bool),
    Number(Number),
    Text(String),
    Array(usize),
    Object,
}

/// A [`Node`] with its text as a sequence of characters.
pub enum NodeView {
    Null,
    Bool(bool),
    Number(Number),
    Text(Seq<char>),
    Array(usize),
    Object,
}

impl View for Node {
    type V = NodeView;

    open spec fn view(&self) -> NodeView {
        match self {
            Node::Null => NodeView::Null,
            Node::Bool(b) => NodeView::Bool(*b),
            Node::Number(n) => NodeView::Number(*n),
            Node::Text(s) => NodeView::Text(s@),
            Node::Array(n) => NodeView::Array(*n),
            Node::Object => NodeView::Object,
        }
    }
}

/// `serde_json::Value`, a parsed JSON document.
#[verifier::external_type_specification]
#[verifier::external_body]
pub struct ExValue(serde_json::Value);

/// What a JSON document holds: for each JSON pointer that reaches something in it, what it
/// reaches.
pub uninterp spec fn json_contents(document: serde_json::Value) -> Map<Seq<char>, NodeView>;

/// What `serde_json::from_str` makes of a text: what the document holds, or the words in which
/// the text is refused.
pub uninterp spec fn parsed_json(text: Seq<char>) -> std::result::Result<
    Map<Seq<char>, NodeView>,
    Seq<char>,
>;

/// Calls `serde_json::from_str::<serde_json::Value>`. Whether a text is a JSON document, what the
/// document holds and the words of a refusal are functions of the text.
#[verifier::external_body]
pub(crate) fn parse_json(text: &str) -> (r: std::result::Result<serde_json::Value, String>)
    ensures
        match r {
            Ok(v) => parsed_json(text@) == Ok::<Map<Seq<char>, NodeView>, Seq<char>>(
                json_contents(v),
            ),
            Err(words) => parsed_json(text@) == Err::<Map<Seq<char>, NodeView>, Seq<char>>(words@),
        },
{
    serde_json::from_str::<serde_json::Value>(text).map_err(|e| e.to_string())
}

/// Calls `serde_json::Value::pointer` and tells what the pointer reaches, if anything: a null, a
/// boolean, a number with what `as_u64` and `as_f64` make of it, a text, an array of some length
/// or an object.
#[verifier::external_body]
pub(crate) fn node_at(document: &serde_json::Value, pointer: &str) -> (r: Option<Node>)
    ensures
        match r {
            Some(n) => json_contents(*document).dom().contains(pointer@)
                && json_contents(*document)[pointer@] == n@,
            None => !json_contents(*document).dom().contains(pointer@),
        },
{
    document.pointer(pointer).map(|v| match v {
        serde_json::Value::Null => Node::Null,
        serde_json::Value::Bool(b) => Node::Bool(*b),
        serde_json::Value::Number(n) => Node::Number(
            Number { unsigned: n.as_u64(), double: n.as_f64().map(|d| d.to_bits()) },
        ),
        serde_json::Value::String(s) => Node::Text(s.clone()),
        serde_json::Value::Array(a) => Node::Array(a.len()),
        serde_json::Value::Object(_) => Node::Object,
    })
}

/// Calls `serde_json::Value::clone`. Trusted: the copy holds what the document holds.
#[verifier::external_body]
pub(crate) fn copy_document(document: &serde_json::Value) -> (r: serde_json::Value)
    ensures
        json_contents(r) == json_contents(*document),
{
    document.clone()
}

/// Calls `serde_json::Value::default`. Trusted: the document is a null, which only the empty
/// pointer reaches.
#[verifier::external_body]
pub(crate) fn null_document() -> (r: serde_json::Value)
    ensures
        json_contents(r) == null_contents(),
{
    serde_json::Value::default()
}

/// What a document that is a null holds.
pub open spec fn null_contents() -> Map<Seq<char>, NodeView> {
    map![""@ => NodeView::Null]
}

/// What `pointer` reaches in a document that holds `m`; a pointer to nothing and one to a null
/// are both given as none.
pub open spec fn found(m: Map<Seq<char>, NodeView>, pointer: Seq<char>) -> Option<NodeView> {
    if m.dom().contains(pointer) && !(m[pointer] is Null) {
        Some(m[pointer])
    } else {
        None
    }
}

/// The unsigned integer that `pointer` reaches.
pub open spec fn unsigned_at(m: Map<Seq<char>, NodeView>, pointer: Seq<char>) -> Option<u64> {
    match found(m, pointer) {
        Some(NodeView::Number(n)) => n.unsigned,
        _ => None,
    }
}

/// The bits of the number that `pointer` reaches.
pub open spec fn double_at(m: Map<Seq<char>, NodeView>, pointer: Seq<char>) -> Option<u64> {
    match found(m, pointer) {
        Some(NodeView::Number(n)) => n.double,
        _ => None,
    }
}

/// The boolean that `pointer` reaches.
pub open spec fn bool_at(m: Map<Seq<char>, NodeView>, pointer: Seq<char>) -> Option<bool> {
    match found(m, pointer) {
        Some(NodeView::Bool(b)) => Some(b),
        _ => None,
    }
}

/// The text that `pointer` reaches.
pub open spec fn text_at(m: Map<Seq<char>, NodeView>, pointer: Seq<char>) -> Option<Seq<char>> {
    match found(m, pointer) {
        Some(NodeView::Text(s)) => Some(s),
        _ => None,
    }
}

/// The length of the array that `pointer` reaches.
pub open spec fn array_at(m: Map<Seq<char>, NodeView>, pointer: Seq<char>) -> Option<usize> {
    match found(m, pointer) {
        Some(NodeView::Array(n)) => Some(n),
        _ => None,
    }
}

/// Reads the unsigned integer that `pointer` reaches.
pub(crate) fn read_unsigned(document: &serde_json::Value, pointer: &str) -> (r: Option<u64>)
    ensures
        r == unsigned_at(json_contents(*document), pointer@),
{
    match node_at(document, pointer) {
        Some(Node::Number(n)) => n.unsigned,
        _ => None,
    }
}

/// Reads the bits of the number that `pointer` reaches.
pub(crate) fn read_double(document: &serde_json::Value, pointer: &str) -> (r: Option<u64>)
    ensures
        r == double_at(json_contents(*document), pointer@),
{
    match node_at(document, pointer) {
        Some(Node::Number(n)) => n.double,
        _ => None,
    }
}

/// Reads the boolean that `pointer` reaches.
pub(crate) fn read_bool(document: &serde_json::Value, pointer: &str) -> (r: Option<bool>)
    ensures
        r == bool_at(json_contents(*document), pointer@),
{
    match node_at(document, pointer) {
        Some(Node::Bool(b)) => Some(b),
        _ => None,
    }
}

/// Reads the text that `pointer` reaches.
pub(crate) fn read_text(document: &serde_json::Value, pointer: &str) -> (r: Option<String>)
    ensures
        match r {
            Some(s) => text_at(json_contents(*document), pointer@) == Some(s@),
            None => text_at(json_contents(*document), pointer@) is None,
        },
{
    match node_at(document, pointer) {
        Some(Node::Text(s)) => Some(s),
        _ => None,
    }
}

/// Reads the length of the array that `pointer` reaches.
pub(crate) fn read_array(document: &serde_json::Value, pointer: &str) -> (r: Option<usize>)
    ensures
        r == array_at(json_contents(*document), pointer@),
{
    match node_at(document, pointer) {
        Some(Node::Array(n)) => Some(n),
        _ => None,
    }
}

/// A member's name as it stands in a JSON pointer: `~` is written `~0` and `/` is written `~1`.
pub open spec fn escaped(name: Seq<char>) -> Seq<char>
    decreases name.len(),
{
    if name.len() == 0 {
        seq![]
    } else if name.last() == '~' {
        escaped(name.drop_last()) + seq!['~', '0']
    } else if name.last() == '/' {
        escaped(name.drop_last()) + seq!['~', '1']
    } else {
        escaped(name.drop_last()).push(name.last())
    }
}

/// Writes a member's name as it stands in a JSON pointer.
pub(crate) fn escape(name: &str) -> (r: String)
    ensures
        r@ == escaped(name@),
{
    proof {
        reveal_strlit("");
        reveal_strlit("~0");
        reveal_strlit("~1");
    }
    let n = name.unicode_len();
    let mut out = "".to_owned();
    assert(out@ =~= seq![]);
    let mut i: usize = 0;
    while i < n
        invariant
            i <= n,
            n == name@.len(),
            out@ == escaped(name@.take(i as int)),
            "~0"@ =~= seq!['~', '0'],
            "~1"@ =~= seq!['~', '1'],
        decreases n - i,
    {
        let c = name.get_char(i);
        assert(name@.take(i + 1).drop_last() =~= name@.take(i as int));
        if c == '~' {
            out.append("~0");
        } else if c == '/' {
            out.append("~1");
        } else {
            out.append(name.substring_char(i, i + 1));
            assert(out@ =~= escaped(name@.take(i as int)).push(c));
        }
        i = i + 1;
    }
    assert(name@.take(i as int) =~= name@);
    out
}

/// Calls `serde_json::Value::pointer` and lists the keys of the object that it reaches, if it does
/// reach one: the names of its members, each once.
#[verifier::external_body]
pub(crate) fn keys_at(document: &serde_json::Value, pointer: &str) -> (r: Option<Vec<String>>)
    ensures
        match r {
            Some(keys) => json_contents(*document).dom().contains(pointer@) && json_contents(
                *document,
            )[pointer@] is Object && texts(keys@).no_duplicates() && forall|k: Seq<char>|
                #[trigger] texts(keys@).contains(k) <==> json_contents(*document).dom().contains(
                    pointer@ + "/"@ + escaped(k),
                ),
            None => !(json_contents(*document).dom().contains(pointer@) && json_contents(
                *document,
            )[pointer@] is Object),
        },
{
    let object = document.pointer(pointer).and_then(|v| v.as_object());
    object.map(|o| o.keys().cloned().collect())
}

/// The name that was escaped for a JSON pointer.
pub open spec fn unescaped(s: Seq<char>) -> Seq<char>
    decreases s.len(),
{
    if s.len() == 0 {
        seq![]
    } else if s.len() >= 2 && s[s.len() - 2] == '~' {
        unescaped(s.take(s.len() - 2)).push(
            if s.last() == '0' {
                '~'
            } else {
                '/'
            },
        )
    } else {
        unescaped(s.drop_last()).push(s.last())
    }
}

/// An escaped name can be read back, so that different names stay different, and holds no slash, so
/// that it stays one step of a pointer.
pub proof fn lemma_escaped(name: Seq<char>)
    ensures
        unescaped(escaped(name)) == name,
        !escaped(name).contains('/'),
        escaped(name).len() > 0 ==> escaped(name).last() != '~',
    decreases name.len(),
{
    if name.len() > 0 {
        let (d, c) = (name.drop_last(), name.last());
        let (e, x) = (escaped(name), escaped(d));
        lemma_escaped(d);
        if c == '~' || c == '/' {
            assert(e.take(e.len() - 2) =~= x);
        } else {
            assert(e.drop_last() =~= x);
            assert(e.len() >= 2 ==> e[e.len() - 2] == x.last());
        }
        assert(name =~= d.push(c));
        assert forall|i: int| 0 <= i < e.len() implies e[i] != '/' by {
            if i < x.len() {
                assert(e[i] == x[i]);
                assert(x.contains(x[i]));
            }
        }
    }
}

} // verus!
