//! Documents as trees of nodes, and the text that stands for a node: its own
//! text for a scalar, the YAML emitter's output for a sequence or mapping.

use vstd::prelude::*;
use vstd::utf8::encode_utf8;

verus! {

/// One node of a document: a scalar, a sequence of nodes, or a mapping whose
/// entries keep the order in which the document wrote them.
#[derive(Debug, PartialEq)]
pub enum Node {
    Str(String),
    Integer(i64),
    /// A floating-point number, kept as the text that wrote it.
    Real(String),
    Boolean(bool),
    Sequence(Vec<Node>),
    Mapping(Vec<(Node, Node)>),
    Null,
    /// A value that the document layer could not make sense of.
    BadValue,
}

impl Node {
    pub open spec fn is_scalar_spec(&self) -> bool {
        !(self is Sequence || self is Mapping)
    }
}

/// No mapping in `node`, at any depth, holds the same string key twice; a
/// document loaded from YAML always has this.
pub open spec fn unique_keys(node: Node) -> bool
    decreases node,
{
    match node {
        Node::Mapping(h) => (forall|i: int, j: int|
            0 <= i < h@.len() && 0 <= j < h@.len() && i != j && (#[trigger] h@[i]).0 is Str && (
            #[trigger] h@[j]).0 is Str ==> h@[i].0->Str_0@ != h@[j].0->Str_0@) && forall|i: int|
            0 <= i < h@.len() ==> unique_keys(#[trigger] h@[i].1),
        Node::Sequence(v) => forall|i: int| 0 <= i < v@.len() ==> unique_keys(#[trigger] v@[i]),
        _ => true,
    }
}

/// Whether `node` is a scalar: neither a sequence nor a mapping.
pub fn is_scalar(node: &Node) -> (r: bool)
    ensures
        r == node.is_scalar_spec(),
{
    match node {
        Node::Sequence(_) | Node::Mapping(_) => false,
        _ => true,
    }
}

pub open spec fn digit_chars() -> Seq<char> {
    seq!['0', '1', '2', '3', '4', '5', '6', '7', '8', '9']
}

/// The decimal digits of `n`, most significant first.
pub open spec fn decimal(n: nat) -> Seq<char>
    decreases n,
{
    if n < 10 {
        seq![digit_chars()[n as int]]
    } else {
        decimal(n / 10).push(digit_chars()[(n % 10) as int])
    }
}

/// `i` in decimal, with a `-` in front when it is negative.
pub open spec fn signed_decimal(i: int) -> Seq<char> {
    if i < 0 {
        seq!['-'] + decimal((-i) as nat)
    } else {
        decimal(i as nat)
    }
}

/// The decimal digits of `n`.
pub fn decimal_text(n: u64) -> (r: String)
    ensures
        r@ == decimal(n as nat),
    decreases n,
{
    let digits = "0123456789";
    proof {
        reveal_strlit("0123456789");
    }
    let d = (n % 10) as usize;
    let last = digits.substring_char(d, d + 1);
    assert(last@ =~= seq![digit_chars()[d as int]]);
    if n < 10 {
        last.to_owned()
    } else {
        let mut s = decimal_text(n / 10);
        s.append(last);
        s
    }
}

/// `i` in decimal, signed.
pub fn integer_text(i: i64) -> (r: String)
    ensures
        r@ == signed_decimal(i as int),
{
    if i < 0 {
        let magnitude = ((-(i + 1)) as u64) + 1;
        let mut s = String::from_str("-");
        proof {
            reveal_strlit("-");
        }
        s.append(decimal_text(magnitude).as_str());
        s
    } else {
        decimal_text(i as u64)
    }
}

/// What yaml_rust's emitter writes for the document `n`.
pub uninterp spec fn emitted_text(n: Node) -> Seq<char>;

/// Relies on yaml_rust's `YamlEmitter::new` and `YamlEmitter::dump`: `dump`
/// first writes a `---` line, then the node in block style, and what it
/// writes depends on the document alone. Writing into a `String` never fails
/// and `dump` builds no error of its own, so it returns `Ok`.
#[verifier::external_body]
fn emit(n: &Node) -> (r: Result<String, yaml_rust::EmitError>)
    ensures
        r is Ok,
        r->Ok_0@ == emitted_text(*n),
        r->Ok_0@.len() >= 4,
        r->Ok_0@.subrange(0, 4) == doc_start(),
{
    let mut out = String::new();
    let res = yaml_rust::YamlEmitter::new(&mut out).dump(&yaml_of(n));
    res.map(|_| out)
}

/// The node as a yaml_rust document, variant for variant, for the call in
/// `emit`; it claims nothing and decides nothing. Mapping entries go into
/// yaml_rust's hash in order, so where a node breaks `unique_keys` a repeated
/// key keeps its last value, moved to the end.
#[verifier::external_body]
fn yaml_of(n: &Node) -> yaml_rust::Yaml {
    match n {
        Node::Str(s) => yaml_rust::Yaml::String(s.clone()),
        Node::Integer(i) => yaml_rust::Yaml::Integer(*i),
        Node::Real(s) => yaml_rust::Yaml::Real(s.clone()),
        Node::Boolean(b) => yaml_rust::Yaml::Boolean(*b),
        Node::Sequence(v) => yaml_rust::Yaml::Array(v.iter().map(yaml_of).collect()),
        Node::Mapping(h) => yaml_rust::Yaml::Hash(
            h.iter().map(|(k, v)| (yaml_of(k), yaml_of(v))).collect(),
        ),
        Node::Null => yaml_rust::Yaml::Null,
        Node::BadValue => yaml_rust::Yaml::BadValue,
    }
}

/// yaml_rust's emitter error, opaque here: `get_node_structure` turns it
/// into `None`.
#[verifier::external_type_specification]
#[verifier::external_body]
pub struct ExEmitError(yaml_rust::EmitError);

/// yaml_rust's document type, opaque here: it only carries a converted node
/// to the emitter.
#[verifier::external_type_specification]
#[verifier::external_body]
pub struct ExYaml(yaml_rust::Yaml);

pub open spec fn doc_start() -> Seq<char> {
    seq!['-', '-', '-', '\n']
}

/// `t` without the `---` lines at its start.
pub open spec fn strip_doc_start(t: Seq<char>) -> Seq<char>
    decreases t.len(),
{
    if t.len() >= 4 && t.subrange(0, 4) == doc_start() {
        strip_doc_start(t.subrange(4, t.len() as int))
    } else {
        t
    }
}

/// The emitted text of `n` without its document start line.
pub open spec fn structure_spec(n: Node) -> Seq<char> {
    strip_doc_start(emitted_text(n))
}

/// The text that stands for `n` in output and in value filters: a scalar's
/// own text, or the emitted structure of a sequence or mapping.
pub open spec fn rendered(n: Node) -> Seq<char> {
    match n {
        Node::Str(s) => s@,
        Node::Integer(i) => signed_decimal(i as int),
        Node::Real(s) => s@,
        Node::Boolean(b) => if b {
            seq!['t', 'r', 'u', 'e']
        } else {
            seq!['f', 'a', 'l', 's', 'e']
        },
        Node::Null => seq!['n', 'u', 'l', 'l'],
        Node::BadValue => "node `BadValue` is corrupted"@,
        _ => structure_spec(n),
    }
}

/// What `text`, as the emitter wrote it, says without its document start
/// line, or `None` where it is shorter than that line.
pub open spec fn trimmed_structure(t: Seq<char>) -> Option<Seq<char>> {
    if t.len() < 4 {
        None
    } else {
        Some(strip_doc_start(t))
    }
}

/// Takes the `---` lines off the start of the emitter's output `text`.
pub fn trim_document_start(text: &str) -> (r: Option<String>)
    ensures
        match trimmed_structure(text@) {
            Some(t) => r matches Some(s) && s@ == t,
            None => r is None,
        },
{
    let c = text.unicode_len();
    if c < 4 {
        return None;
    }
    let ghost t = text@;
    let mut start: usize = 0;
    assert(t.subrange(0, t.len() as int) =~= t);
    while c >= 4 && start <= c - 4 && text.get_char(start) == '-' && text.get_char(start + 1)
        == '-' && text.get_char(start + 2) == '-' && text.get_char(start + 3) == '\n'
        invariant
            t == text@,
            c == t.len(),
            start <= c,
            strip_doc_start(t) == strip_doc_start(t.subrange(start as int, c as int)),
        decreases c - start,
    {
        let ghost rest = t.subrange(start as int, c as int);
        assert(rest.subrange(0, 4) =~= doc_start());
        assert(rest.subrange(4, rest.len() as int) =~= t.subrange(start + 4, c as int));
        start += 4;
    }
    let ghost rest = t.subrange(start as int, c as int);
    assert(!(rest.len() >= 4 && rest.subrange(0, 4) == doc_start())) by {
        if rest.len() >= 4 && rest.subrange(0, 4) == doc_start() {
            assert(rest.subrange(0, 4)[0] == rest[0]);
            assert(rest.subrange(0, 4)[1] == rest[1]);
            assert(rest.subrange(0, 4)[2] == rest[2]);
            assert(rest.subrange(0, 4)[3] == rest[3]);
        }
    }
    Some(text.substring_char(start, c).to_owned())
}

/// The structure of `node` as the emitter writes it, without the document
/// start line.
pub fn get_node_structure(node: &Node) -> (r: String)
    ensures
        r@ == structure_spec(*node),
{
    match emit(node) {
        Ok(out) => match trim_document_start(out.as_str()) {
            Some(s) => s,
            None => String::new(),
        },
        Err(_) => String::new(),
    }
}

/// The text that stands for `node`: see `rendered`.
pub fn convert_single_node(node: &Node) -> (r: String)
    ensures
        r@ == rendered(*node),
{
    match node {
        Node::Str(s) => s.clone(),
        Node::Integer(i) => integer_text(*i),
        Node::Real(f) => f.clone(),
        Node::Boolean(b) => {
            proof {
                reveal_strlit("true");
                reveal_strlit("false");
            }
            if *b {
                String::from_str("true")
            } else {
                String::from_str("false")
            }
        },
        Node::Null => {
            proof {
                reveal_strlit("null");
            }
            String::from_str("null")
        },
        Node::BadValue => String::from_str("node `BadValue` is corrupted"),
        _ => get_node_structure(node),
    }
}

/// The number of UTF-8 bytes that encode `s`.
pub open spec fn utf8_len(s: Seq<char>) -> nat {
    encode_utf8(s).len()
}

/// The "length" of `node`, in decimal: bytes of a string or of a number's
/// text, entries of a mapping or sequence, `0` for null.
pub open spec fn length_spec(n: Node) -> Seq<char> {
    match n {
        Node::Str(s) => decimal(utf8_len(s@)),
        Node::Mapping(h) => decimal(h@.len()),
        Node::Sequence(v) => decimal(v@.len()),
        Node::Integer(i) => decimal(signed_decimal(i as int).len()),
        Node::Real(f) => decimal(utf8_len(f@)),
        Node::Boolean(b) => decimal(if b { 4 } else { 5 }),
        Node::Null => decimal(0),
        Node::BadValue => "node `BadValue` is corrupted"@,
    }
}

pub fn convert_length(node: &Node) -> (r: String)
    ensures
        r@ == length_spec(*node),
{
    match node {
        Node::Str(s) => decimal_text(s.as_str().as_bytes().len() as u64),
        Node::Mapping(h) => decimal_text(h.len() as u64),
        Node::Sequence(v) => decimal_text(v.len() as u64),
        Node::Integer(i) => decimal_text(integer_text(*i).as_str().unicode_len() as u64),
        Node::Real(f) => decimal_text(f.as_str().as_bytes().len() as u64),
        Node::Boolean(b) => decimal_text(if *b { 4 } else { 5 }),
        Node::Null => decimal_text(0),
        Node::BadValue => String::from_str("node `BadValue` is corrupted"),
    }
}

} // verus!
