use vstd::prelude::*;

use crate::error::{ParseFailure, ParserError};

verus! {

broadcast use vstd::seq::group_seq_axioms;

/// A decoded bencode tree node: a closed variant over byte-strings, signed
/// 64-bit integers, ordered lists and insertion-ordered dictionaries.
#[derive(Debug, PartialEq, Eq)]
pub enum Value {
    /// An arbitrary byte sequence. Bencode strings are length-prefixed byte
    /// blobs, not text; any lossy text conversion is a caller's concern.
    ByteString(Vec<u8>),
    /// A base-10, optionally signed integer.
    Integer(i64),
    /// An ordered sequence of values; order is significant and preserved.
    List(Vec<Value>),
    /// A mapping from byte-string keys to values. Encounter order is
    /// preserved and keys are unique: for a duplicated key the last write
    /// wins, while the key keeps its first position.
    Dictionary(Vec<(Vec<u8>, Value)>),
}

/// Copies a byte vector element by element.
pub fn copy_bytes(src: &Vec<u8>) -> (r: Vec<u8>)
    ensures
        r@ == src@,
{
    let mut out: Vec<u8> = Vec::new();
    let mut i: usize = 0;
    proof {
        assert(out@ =~= src@.subrange(0, 0));
    }
    while i < src.len()
        invariant
            i <= src.len(),
            out@ == src@.subrange(0, i as int),
        decreases src.len() - i,
    {
        out.push(src[i]);
        proof {
            assert(out@ =~= src@.subrange(0, i + 1));
        }
        i = i + 1;
    }
    proof {
        assert(src@.subrange(0, src@.len() as int) =~= src@);
    }
    out
}

/// Compares two byte vectors for equality of their contents.
pub fn bytes_eq(a: &Vec<u8>, b: &Vec<u8>) -> (r: bool)
    ensures
        r <==> a@ == b@,
{
    if a.len() != b.len() {
        return false;
    }
    let mut i: usize = 0;
    while i < a.len()
        invariant
            a@.len() == b@.len(),
            i <= a@.len(),
            forall|j: int| 0 <= j < i ==> a@[j] == b@[j],
        decreases a.len() - i,
    {
        if a[i] != b[i] {
            return false;
        }
        i = i + 1;
    }
    proof {
        assert(a@ =~= b@);
    }
    true
}

/// The phrase naming a value's variant, as extraction errors report it.
pub open spec fn spec_kind_name(v: Value) -> Seq<char> {
    match v {
        Value::ByteString(_) => "a byte string"@,
        Value::Integer(_) => "an integer"@,
        Value::List(_) => "a list"@,
        Value::Dictionary(_) => "a dictionary"@,
    }
}

impl Value {
    /// Names this value's variant, for diagnostics.
    pub fn kind_name(&self) -> (m: String)
        ensures
            m@ == spec_kind_name(*self),
    {
        match self {
            Value::ByteString(_) => "a byte string".to_owned(),
            Value::Integer(_) => "an integer".to_owned(),
            Value::List(_) => "a list".to_owned(),
            Value::Dictionary(_) => "a dictionary".to_owned(),
        }
    }

    /// Views this value as a byte-string, returning the bytes by copy, or
    /// fails with a value-extraction error when the variant does not match.
    pub fn as_string(&self) -> (r: Result<Vec<u8>, ParseFailure>)
        ensures
            match r {
                Ok(b) => *self matches Value::ByteString(b0) && b@ == b0@,
                Err(e) => e.kind == ParserError::ValueDataExtractionError && e.context@
                    == spec_kind_name(*self) && !(*self matches Value::ByteString(_)),
            },
    {
        match self {
            Value::ByteString(bytes) => Ok(copy_bytes(bytes)),
            _ => Err(
                ParseFailure {
                    kind: ParserError::ValueDataExtractionError,
                    context: self.kind_name(),
                },
            ),
        }
    }

    /// Views this value as an integer, or fails with a value-extraction
    /// error when the variant does not match.
    pub fn as_number(&self) -> (r: Result<i64, ParseFailure>)
        ensures
            match r {
                Ok(n) => *self == Value::Integer(n),
                Err(e) => e.kind == ParserError::ValueDataExtractionError && e.context@
                    == spec_kind_name(*self) && !(*self matches Value::Integer(_)),
            },
    {
        match self {
            Value::Integer(n) => Ok(*n),
            _ => Err(
                ParseFailure {
                    kind: ParserError::ValueDataExtractionError,
                    context: self.kind_name(),
                },
            ),
        }
    }

    /// Views this value as a list, by reference, or fails with a
    /// value-extraction error when the variant does not match.
    pub fn as_array(&self) -> (r: Result<&Vec<Value>, ParseFailure>)
        ensures
            match r {
                Ok(items) => *self matches Value::List(l) && items@ == l@,
                Err(e) => e.kind == ParserError::ValueDataExtractionError && e.context@
                    == spec_kind_name(*self) && !(*self matches Value::List(_)),
            },
    {
        match self {
            Value::List(items) => Ok(items),
            _ => Err(
                ParseFailure {
                    kind: ParserError::ValueDataExtractionError,
                    context: self.kind_name(),
                },
            ),
        }
    }

    /// Views this value as a dictionary, by reference, or fails with a
    /// value-extraction error when the variant does not match.
    pub fn as_dictionary(&self) -> (r: Result<&Vec<(Vec<u8>, Value)>, ParseFailure>)
        ensures
            match r {
                Ok(entries) => *self matches Value::Dictionary(m) && entries@ == m@,
                Err(e) => e.kind == ParserError::ValueDataExtractionError && e.context@
                    == spec_kind_name(*self) && !(*self matches Value::Dictionary(_)),
            },
    {
        match self {
            Value::Dictionary(entries) => Ok(entries),
            _ => Err(
                ParseFailure {
                    kind: ParserError::ValueDataExtractionError,
                    context: self.kind_name(),
                },
            ),
        }
    }
}

/// A spec-level value tree: the mathematical shape of a `Value`, with
/// sequences in place of vectors.
pub enum Node {
    Bytes(Seq<u8>),
    Int(i64),
    List(Seq<Node>),
    Dict(Seq<(Seq<u8>, Node)>),
}

/// Whether the runtime value `v` has exactly the shape `n`.
pub open spec fn models(v: Value, n: Node) -> bool
    decreases n,
{
    match n {
        Node::Bytes(s) => v matches Value::ByteString(b) && b@ == s,
        Node::Int(x) => v matches Value::Integer(y) && y == x,
        Node::List(ns) => v matches Value::List(items) && models_seq(items@, ns),
        Node::Dict(ms) => v matches Value::Dictionary(es) && models_entries(es@, ms),
    }
}

/// Whether the runtime values `vs` have exactly the shapes `ns`, pointwise.
pub open spec fn models_seq(vs: Seq<Value>, ns: Seq<Node>) -> bool
    decreases ns,
{
    vs.len() == ns.len() && forall|i: int| 0 <= i < ns.len() ==> models(vs[i], #[trigger] ns[i])
}

/// Whether the runtime entries `es` have exactly the keys and shapes `ms`,
/// pointwise.
pub open spec fn models_entries(es: Seq<(Vec<u8>, Value)>, ms: Seq<(Seq<u8>, Node)>) -> bool
    decreases ms,
{
    es.len() == ms.len() && forall|i: int|
        0 <= i < ms.len() ==> es[i].0@ == (#[trigger] ms[i]).0 && models(es[i].1, ms[i].1)
}

/// The position of `k` among the keys of a spec-level entry run, or -1.
pub open spec fn node_key_index(m: Seq<(Seq<u8>, Node)>, k: Seq<u8>) -> int
    decreases m.len(),
{
    if m.len() == 0 {
        -1
    } else if m[0].0 == k {
        0
    } else {
        let r = node_key_index(m.skip(1), k);
        if r == -1 {
            -1
        } else {
            r + 1
        }
    }
}

/// Spec-level map insertion: an existing key keeps its place and has its
/// shape replaced; a new key is appended.
pub open spec fn node_dict_insert(m: Seq<(Seq<u8>, Node)>, k: Seq<u8>, n: Node) -> Seq<
    (Seq<u8>, Node),
> {
    let i = node_key_index(m, k);
    if i == -1 {
        m.push((k, n))
    } else {
        m.update(i, (k, n))
    }
}

/// Extending corresponding sequences by corresponding elements keeps them
/// corresponding.
pub proof fn lemma_models_seq_push(vs: Seq<Value>, ns: Seq<Node>, v: Value, n: Node)
    requires
        models_seq(vs, ns),
        models(v, n),
    ensures
        models_seq(vs.push(v), ns.push(n)),
{
    assert forall|i: int| 0 <= i < ns.push(n).len() implies models(
        vs.push(v)[i],
        #[trigger] ns.push(n)[i],
    ) by {
        if i < ns.len() {
            assert(models(vs[i], ns[i]));
        }
    }
}

} // verus!
