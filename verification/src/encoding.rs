use vstd::prelude::*;

use crate::value::{models, models_entries, node_dict_insert, node_key_index, Node, Value};

verus! {

/// ASCII '0', the least digit byte.
pub const DIGIT_ZERO: u8 = 48;

/// ASCII '9', the greatest digit byte.
pub const DIGIT_NINE: u8 = 57;

/// ASCII ':', separating a string's length prefix from its content.
pub const STRING_SEP: u8 = 58;

/// ASCII '+', an optional integer sign.
pub const PLUS_SIGN: u8 = 43;

/// ASCII '-', the negative integer sign.
pub const MINUS_SIGN: u8 = 45;

/// ASCII 'i', opening an integer token.
pub const INTEGER_OPEN: u8 = 105;

/// ASCII 'e', closing an integer, list or dictionary token.
pub const TOKEN_CLOSE: u8 = 101;

/// ASCII 'l', opening a list.
pub const LIST_OPEN: u8 = 108;

/// ASCII 'd', opening a dictionary.
pub const DICT_OPEN: u8 = 100;


broadcast use vstd::seq::group_seq_axioms;

/// Whether a byte is an ASCII decimal digit.
pub open spec fn is_digit(b: u8) -> bool {
    DIGIT_ZERO <= b && b <= DIGIT_NINE
}

/// Whether every byte of `t` is an ASCII decimal digit.
pub open spec fn all_digits(t: Seq<u8>) -> bool {
    forall|i: int| 0 <= i < t.len() ==> is_digit(#[trigger] t[i])
}

/// The numeric value of a sequence of ASCII digits, most significant first.
pub open spec fn digits_val(t: Seq<u8>) -> int
    decreases t.len(),
{
    if t.len() == 0 {
        0
    } else {
        digits_val(t.drop_last()) * 10 + (t.last() - DIGIT_ZERO)
    }
}

/// The index of the first occurrence of `b` in `s`, or -1 when absent.
pub open spec fn find_byte(s: Seq<u8>, b: u8) -> int
    decreases s.len(),
{
    if s.len() == 0 {
        -1
    } else if s[0] == b {
        0
    } else {
        let r = find_byte(s.skip(1), b);
        if r == -1 {
            -1
        } else {
            r + 1
        }
    }
}

/// The value denoted by an optionally signed run of ASCII digits, or `None`
/// when the text is not of that shape.
pub open spec fn int_text_val(t: Seq<u8>) -> Option<int> {
    if t.len() >= 1 && all_digits(t) {
        Some(digits_val(t))
    } else if t.len() >= 2 && (t[0] == PLUS_SIGN || t[0] == MINUS_SIGN) && all_digits(
        t.subrange(1, t.len() as int),
    ) {
        let m = digits_val(t.subrange(1, t.len() as int));
        Some(
            if t[0] == MINUS_SIGN {
                -m
            } else {
                m
            },
        )
    } else {
        None
    }
}

/// Whether `s` is a complete length-prefixed encoding of the byte-string
/// `b`: decimal digits giving the length, a separator, then exactly the
/// content bytes.
pub open spec fn encodes_bytestring(s: Seq<u8>, b: Seq<u8>) -> bool {
    let c = find_byte(s, STRING_SEP);
    &&& 1 <= c
    &&& all_digits(s.subrange(0, c))
    &&& digits_val(s.subrange(0, c)) == b.len()
    &&& s.len() == c + 1 + b.len()
    &&& s.subrange(c + 1, s.len() as int) == b
}

/// Whether `s` is a complete integer encoding of `n`: an opening marker,
/// an optionally signed decimal literal, and a closing marker.
pub open spec fn encodes_integer(s: Seq<u8>, n: i64) -> bool {
    &&& s.len() >= 3
    &&& s[0] == INTEGER_OPEN
    &&& s[s.len() - 1] == TOKEN_CLOSE
    &&& int_text_val(s.subrange(1, s.len() - 1)) == Some(n as int)
}

/// The position of `k` among the keys of `m`, or -1 when absent.
pub open spec fn key_index(m: Seq<(Seq<u8>, Value)>, k: Seq<u8>) -> int
    decreases m.len(),
{
    if m.len() == 0 {
        -1
    } else if m[0].0 == k {
        0
    } else {
        let r = key_index(m.skip(1), k);
        if r == -1 {
            -1
        } else {
            r + 1
        }
    }
}

/// Map insertion: an existing key keeps its place and has its value
/// replaced; a new key is appended.
pub open spec fn dict_insert(m: Seq<(Seq<u8>, Value)>, k: Seq<u8>, v: Value) -> Seq<
    (Seq<u8>, Value),
> {
    let i = key_index(m, k);
    if i == -1 {
        m.push((k, v))
    } else {
        m.update(i, (k, v))
    }
}

/// The map obtained by inserting a raw key/value sequence in order: keys
/// keep their first position, and for a duplicated key the last write wins.
pub open spec fn dict_merge(raw: Seq<(Seq<u8>, Value)>) -> Seq<(Seq<u8>, Value)>
    decreases raw.len(),
{
    if raw.len() == 0 {
        Seq::empty()
    } else {
        dict_insert(dict_merge(raw.drop_last()), raw.last().0, raw.last().1)
    }
}

/// The value paired with `k` in `m`, or `None` when the key is absent.
pub open spec fn dict_lookup(m: Seq<(Seq<u8>, Value)>, k: Seq<u8>) -> Option<Value> {
    let i = key_index(m, k);
    if i == -1 {
        None
    } else {
        Some(m[i].1)
    }
}

/// The entries of an owned dictionary, with keys abstracted to sequences.
pub open spec fn entries_view(es: Seq<(Vec<u8>, Value)>) -> Seq<(Seq<u8>, Value)> {
    Seq::new(es.len(), |i: int| (es[i].0@, es[i].1))
}

/// Whether no two entries of `m` share a key.
pub open spec fn unique_keys(m: Seq<(Seq<u8>, Value)>) -> bool {
    forall|i: int, j: int| 0 <= i < j < m.len() ==> #[trigger] m[i].0 != #[trigger] m[j].0
}

/// Whether `s` is a complete encoding of the single value `v`.
pub open spec fn encodes(s: Seq<u8>, v: Value) -> bool
    decreases s.len(), 0int,
{
    match v {
        Value::ByteString(b) => encodes_bytestring(s, b@),
        Value::Integer(n) => encodes_integer(s, n),
        Value::List(items) => {
            &&& s.len() >= 2
            &&& s[0] == LIST_OPEN
            &&& s[s.len() - 1] == TOKEN_CLOSE
            &&& encodes_stream(s.subrange(1, s.len() - 1), items@)
        },
        Value::Dictionary(entries) => {
            &&& s.len() >= 2
            &&& s[0] == DICT_OPEN
            &&& s[s.len() - 1] == TOKEN_CLOSE
            &&& exists|raw: Seq<(Seq<u8>, Value)>|
                encodes_kv_stream(s.subrange(1, s.len() - 1), raw) && #[trigger] dict_merge(raw)
                    == entries_view(entries@)
        },
    }
}

/// Whether `s` splits into consecutive complete encodings of the values of
/// `vs`, in order, with nothing left over.
pub open spec fn encodes_stream(s: Seq<u8>, vs: Seq<Value>) -> bool
    decreases s.len(), vs.len() + 1,
{
    if vs.len() == 0 {
        s.len() == 0
    } else {
        exists|k: int|
            1 <= k && k <= s.len() && encodes(#[trigger] s.subrange(0, k), vs[0])
                && encodes_stream(s.subrange(k, s.len() as int), vs.skip(1))
    }
}

/// Whether `s` splits into consecutive key/value pairs matching `raw`: each
/// key a byte-string encoding, each value a complete encoding, in order.
pub open spec fn encodes_kv_stream(s: Seq<u8>, raw: Seq<(Seq<u8>, Value)>) -> bool
    decreases s.len(), raw.len() + 1,
{
    if raw.len() == 0 {
        s.len() == 0
    } else {
        exists|k1: int, k2: int|
            2 <= k1 && 1 <= k2 && k1 + k2 <= s.len() && encodes_bytestring(
                s.subrange(0, k1),
                raw[0].0,
            ) && encodes(#[trigger] s.subrange(k1, k1 + k2), raw[0].1) && encodes_kv_stream(
                s.subrange(k1 + k2, s.len() as int),
                raw.skip(1),
            )
    }
}

/// Every complete encoding takes at least two bytes.
pub proof fn lemma_encodes_min_len(s: Seq<u8>, v: Value)
    requires
        encodes(s, v),
    ensures
        s.len() >= 2,
{
    match v {
        Value::ByteString(b) => {
            let c = find_byte(s, STRING_SEP);
            assert(s.len() == c + 1 + b@.len());
        },
        Value::Integer(_) => {},
        Value::List(_) => {},
        Value::Dictionary(_) => {},
    }
}

/// A byte-string encoding takes at least two bytes.
pub proof fn lemma_encodes_bytestring_min_len(s: Seq<u8>, b: Seq<u8>)
    requires
        encodes_bytestring(s, b),
    ensures
        s.len() >= 2,
{
    let c = find_byte(s, STRING_SEP);
    assert(s.len() == c + 1 + b.len());
}

/// What `find_byte` says of its result: a non-negative result is the first
/// occurrence; -1 means the byte is absent.
pub proof fn lemma_find_byte_props(s: Seq<u8>, b: u8)
    ensures
        find_byte(s, b) >= 0 ==> find_byte(s, b) < s.len() && s[find_byte(s, b)] == b && (forall|
            i: int,
        | 0 <= i < find_byte(s, b) ==> s[i] != b),
        find_byte(s, b) == -1 ==> forall|i: int| 0 <= i < s.len() ==> s[i] != b,
        find_byte(s, b) >= -1,
    decreases s.len(),
{
    if s.len() == 0 {
    } else if s[0] == b {
    } else {
        lemma_find_byte_props(s.skip(1), b);
        let r = find_byte(s.skip(1), b);
        if r == -1 {
            assert forall|i: int| 0 <= i < s.len() implies s[i] != b by {
                if i > 0 {
                    assert(s.skip(1)[i - 1] != b);
                }
            }
        } else {
            assert(s[r + 1] == s.skip(1)[r]);
            assert forall|i: int| 0 <= i < r + 1 implies s[i] != b by {
                if i > 0 {
                    assert(s.skip(1)[i - 1] != b);
                }
            }
        }
    }
}

/// A byte that occurs at `j`, with no occurrence before it, is the first.
pub proof fn lemma_find_byte_first(s: Seq<u8>, b: u8, j: int)
    requires
        0 <= j < s.len(),
        s[j] == b,
        forall|i: int| 0 <= i < j ==> s[i] != b,
    ensures
        find_byte(s, b) == j,
{
    lemma_find_byte_props(s, b);
    let r = find_byte(s, b);
    if r == -1 {
        assert(s[j] != b);
    } else if r < j {
        assert(s[r] != b);
    } else if r > j {
        assert(s[j] != b);
    }
}

/// Appending a digit multiplies the value by ten and adds the digit.
pub proof fn lemma_digits_val_push(t: Seq<u8>, d: u8)
    ensures
        digits_val(t.push(d)) == digits_val(t) * 10 + (d - DIGIT_ZERO),
{
    assert(t.push(d).drop_last() =~= t);
    assert(t.push(d).last() == d);
}

/// The value of a digit run is non-negative.
pub proof fn lemma_digits_val_nonneg(t: Seq<u8>)
    requires
        all_digits(t),
    ensures
        digits_val(t) >= 0,
    decreases t.len(),
{
    if t.len() > 0 {
        assert(all_digits(t.drop_last())) by {
            assert(forall|i: int|
                0 <= i < t.drop_last().len() ==> t.drop_last()[i] == #[trigger] t[i]);
        }
        lemma_digits_val_nonneg(t.drop_last());
        assert(is_digit(t[t.len() - 1]));
    }
}

/// A prefix of a digit run never exceeds the whole run's value.
pub proof fn lemma_digits_val_prefix_le(t: Seq<u8>, j: int)
    requires
        all_digits(t),
        0 <= j <= t.len(),
    ensures
        digits_val(t.subrange(0, j)) <= digits_val(t),
    decreases t.len() - j,
{
    if j == t.len() {
        assert(t.subrange(0, j) =~= t);
    } else {
        let p = t.subrange(0, j);
        let q = t.subrange(0, j + 1);
        assert(q =~= p.push(t[j]));
        lemma_digits_val_push(p, t[j]);
        assert(all_digits(p)) by {
            assert(forall|i: int| 0 <= i < p.len() ==> p[i] == #[trigger] t[i]);
        }
        lemma_digits_val_nonneg(p);
        assert(is_digit(t[j]));
        lemma_digits_val_prefix_le(t, j + 1);
    }
}

/// A stream extended by one more complete encoding is still a stream.
pub proof fn lemma_encodes_stream_push(a: Seq<u8>, vs: Seq<Value>, b: Seq<u8>, v: Value)
    requires
        encodes_stream(a, vs),
        encodes(b, v),
    ensures
        encodes_stream(a + b, vs.push(v)),
    decreases vs.len(),
{
    lemma_encodes_min_len(b, v);
    if vs.len() == 0 {
        let k = b.len() as int;
        assert((a + b).subrange(0, k) =~= b);
        assert((a + b).subrange(k, (a + b).len() as int) =~= Seq::<u8>::empty());
        assert(vs.push(v).skip(1) =~= Seq::<Value>::empty());
        assert(encodes((a + b).subrange(0, k), vs.push(v)[0]));
        assert(encodes_stream((a + b).subrange(k, (a + b).len() as int), vs.push(v).skip(1)));
    } else {
        let k = choose|k: int|
            1 <= k && k <= a.len() && encodes(#[trigger] a.subrange(0, k), vs[0])
                && encodes_stream(a.subrange(k, a.len() as int), vs.skip(1));
        lemma_encodes_stream_push(a.subrange(k, a.len() as int), vs.skip(1), b, v);
        assert((a + b).subrange(0, k) =~= a.subrange(0, k));
        assert((a + b).subrange(k, (a + b).len() as int) =~= a.subrange(k, a.len() as int) + b);
        assert(vs.push(v).skip(1) =~= vs.skip(1).push(v));
        assert(encodes((a + b).subrange(0, k), vs.push(v)[0]));
        assert(encodes_stream((a + b).subrange(k, (a + b).len() as int), vs.push(v).skip(1)));
    }
}

/// A key/value stream extended by one more encoded pair is still one.
pub proof fn lemma_encodes_kv_push(
    a: Seq<u8>,
    raw: Seq<(Seq<u8>, Value)>,
    kb: Seq<u8>,
    key: Seq<u8>,
    vb: Seq<u8>,
    v: Value,
)
    requires
        encodes_kv_stream(a, raw),
        encodes_bytestring(kb, key),
        encodes(vb, v),
    ensures
        encodes_kv_stream(a + kb + vb, raw.push((key, v))),
    decreases raw.len(),
{
    lemma_encodes_bytestring_min_len(kb, key);
    lemma_encodes_min_len(vb, v);
    let s = a + kb + vb;
    if raw.len() == 0 {
        let k1 = kb.len() as int;
        let k2 = vb.len() as int;
        assert(s.subrange(0, k1) =~= kb);
        assert(s.subrange(k1, k1 + k2) =~= vb);
        assert(s.subrange(k1 + k2, s.len() as int) =~= Seq::<u8>::empty());
        assert(raw.push((key, v)).skip(1) =~= Seq::<(Seq<u8>, Value)>::empty());
        assert(raw.push((key, v))[0] == (key, v));
        assert(encodes(s.subrange(k1, k1 + k2), raw.push((key, v))[0].1));
        assert(encodes_kv_stream(s.subrange(k1 + k2, s.len() as int), raw.push((key, v)).skip(1)));
    } else {
        let (k1, k2) = choose|k1: int, k2: int|
            2 <= k1 && 1 <= k2 && k1 + k2 <= a.len() && encodes_bytestring(
                a.subrange(0, k1),
                raw[0].0,
            ) && encodes(#[trigger] a.subrange(k1, k1 + k2), raw[0].1) && encodes_kv_stream(
                a.subrange(k1 + k2, a.len() as int),
                raw.skip(1),
            );
        lemma_encodes_kv_push(a.subrange(k1 + k2, a.len() as int), raw.skip(1), kb, key, vb, v);
        assert(s.subrange(0, k1) =~= a.subrange(0, k1));
        assert(s.subrange(k1, k1 + k2) =~= a.subrange(k1, k1 + k2));
        assert(s.subrange(k1 + k2, s.len() as int) =~= a.subrange(k1 + k2, a.len() as int) + kb
            + vb);
        assert(raw.push((key, v)).skip(1) =~= raw.skip(1).push((key, v)));
        assert(raw.push((key, v))[0] == raw[0]);
        assert(encodes(s.subrange(k1, k1 + k2), raw.push((key, v))[0].1));
        assert(encodes_kv_stream(s.subrange(k1 + k2, s.len() as int), raw.push((key, v)).skip(1)));
    }
}

/// Merging one more raw pair is one map insertion.
pub proof fn lemma_dict_merge_push(raw: Seq<(Seq<u8>, Value)>, key: Seq<u8>, v: Value)
    ensures
        dict_merge(raw.push((key, v))) == dict_insert(dict_merge(raw), key, v),
{
    assert(raw.push((key, v)).drop_last() =~= raw);
    assert(raw.push((key, v)).last() == (key, v));
}

/// What `key_index` says of its result: a non-negative result is the first
/// entry with that key; -1 means the key is absent.
pub proof fn lemma_key_index_props(m: Seq<(Seq<u8>, Value)>, k: Seq<u8>)
    ensures
        key_index(m, k) >= 0 ==> key_index(m, k) < m.len() && m[key_index(m, k)].0 == k && (forall|
            i: int,
        | 0 <= i < key_index(m, k) ==> m[i].0 != k),
        key_index(m, k) == -1 ==> forall|i: int| 0 <= i < m.len() ==> m[i].0 != k,
        key_index(m, k) >= -1,
    decreases m.len(),
{
    if m.len() == 0 {
    } else if m[0].0 == k {
    } else {
        lemma_key_index_props(m.skip(1), k);
        let r = key_index(m.skip(1), k);
        if r == -1 {
            assert forall|i: int| 0 <= i < m.len() implies m[i].0 != k by {
                if i > 0 {
                    assert(m.skip(1)[i - 1].0 != k);
                }
            }
        } else {
            assert(m[r + 1] == m.skip(1)[r]);
            assert forall|i: int| 0 <= i < r + 1 implies m[i].0 != k by {
                if i > 0 {
                    assert(m.skip(1)[i - 1].0 != k);
                }
            }
        }
    }
}

/// A key found at `j`, with no earlier entry carrying it, is the first.
pub proof fn lemma_key_index_first(m: Seq<(Seq<u8>, Value)>, k: Seq<u8>, j: int)
    requires
        0 <= j < m.len(),
        m[j].0 == k,
        forall|i: int| 0 <= i < j ==> m[i].0 != k,
    ensures
        key_index(m, k) == j,
{
    lemma_key_index_props(m, k);
    let r = key_index(m, k);
    if r == -1 {
        assert(m[j].0 != k);
    } else if r < j {
        assert(m[r].0 != k);
    } else if r > j {
        assert(m[j].0 != k);
    }
}

/// A merged raw sequence never holds two entries with the same key.
pub proof fn lemma_dict_merge_unique(raw: Seq<(Seq<u8>, Value)>)
    ensures
        unique_keys(dict_merge(raw)),
    decreases raw.len(),
{
    if raw.len() == 0 {
    } else {
        lemma_dict_merge_unique(raw.drop_last());
        let m = dict_merge(raw.drop_last());
        let k = raw.last().0;
        let v = raw.last().1;
        lemma_key_index_props(m, k);
        let i0 = key_index(m, k);
        let m2 = dict_merge(raw);
        assert(m2 == dict_insert(m, k, v));
        if i0 == -1 {
            assert forall|i: int, j: int| 0 <= i < j < m2.len() implies #[trigger] m2[i].0
                != #[trigger] m2[j].0 by {
                if j < m.len() {
                    assert(m[i].0 != m[j].0);
                } else {
                    assert(m2[j].0 == k);
                    assert(m[i].0 != k);
                }
            }
        } else {
            assert forall|i: int, j: int| 0 <= i < j < m2.len() implies #[trigger] m2[i].0
                != #[trigger] m2[j].0 by {
                assert(m2[i].0 == m[i].0);
                assert(m2[j].0 == m[j].0);
                assert(m[i].0 != m[j].0);
            }
        }
    }
}

/// An unterminated composite is not decodable: input that starts with a
/// list or dictionary opener and never holds a closing marker matches no
/// value sequence, so a decoder sound for `encodes_stream` must reject it
/// rather than hand back a partial tree.
pub proof fn lemma_unterminated_composite_fails(s: Seq<u8>, vs: Seq<Value>)
    requires
        s.len() > 0,
        s[0] == LIST_OPEN || s[0] == DICT_OPEN,
        forall|i: int| 0 <= i < s.len() ==> s[i] != TOKEN_CLOSE,
    ensures
        !encodes_stream(s, vs),
{
    if encodes_stream(s, vs) {
        if vs.len() == 0 {
            assert(s.len() == 0);
        } else {
            let k = choose|k: int|
                1 <= k && k <= s.len() && encodes(#[trigger] s.subrange(0, k), vs[0])
                    && encodes_stream(s.subrange(k, s.len() as int), vs.skip(1));
            let tok = s.subrange(0, k);
            assert(tok[0] == s[0]);
            match vs[0] {
                Value::ByteString(_) => {
                    let c = find_byte(tok, STRING_SEP);
                    assert(is_digit(tok.subrange(0, c)[0]));
                    assert(tok.subrange(0, c)[0] == tok[0]);
                },
                Value::Integer(_) => {
                    assert(tok[0] == INTEGER_OPEN);
                },
                Value::List(_) => {
                    assert(tok[k - 1] == TOKEN_CLOSE);
                    assert(tok[k - 1] == s[k - 1]);
                },
                Value::Dictionary(_) => {
                    assert(tok[k - 1] == TOKEN_CLOSE);
                    assert(tok[k - 1] == s[k - 1]);
                },
            }
        }
    }
}

/// Only strings are eligible as dictionary keys: in any decodable run of
/// dictionary entries, the key position holds a length-prefixed byte-string
/// token, which begins with a digit. Input offering any other token as a
/// key matches no entry run, so a decoder sound for `encodes_kv_stream`
/// must reject it rather than crash.
pub proof fn lemma_dict_keys_are_strings(s: Seq<u8>, raw: Seq<(Seq<u8>, Value)>)
    requires
        encodes_kv_stream(s, raw),
        raw.len() > 0,
    ensures
        s.len() > 0 && is_digit(s[0]),
{
    let (k1, k2) = choose|k1: int, k2: int|
        2 <= k1 && 1 <= k2 && k1 + k2 <= s.len() && encodes_bytestring(
            s.subrange(0, k1),
            raw[0].0,
        ) && encodes(#[trigger] s.subrange(k1, k1 + k2), raw[0].1) && encodes_kv_stream(
            s.subrange(k1 + k2, s.len() as int),
            raw.skip(1),
        );
    let kb = s.subrange(0, k1);
    let c = find_byte(kb, STRING_SEP);
    assert(is_digit(kb.subrange(0, c)[0]));
    assert(kb.subrange(0, c)[0] == s[0]);
}

/// Every decodable dictionary keeps its keys unique: whatever raw entry run
/// the input held, the merged entries never repeat a key.
pub proof fn lemma_decoded_dictionary_keys_unique(s: Seq<u8>, entries: Vec<(Vec<u8>, Value)>)
    requires
        encodes(s, Value::Dictionary(entries)),
    ensures
        unique_keys(entries_view(entries@)),
{
    let raw = choose|raw: Seq<(Seq<u8>, Value)>|
        encodes_kv_stream(s.subrange(1, s.len() - 1), raw) && #[trigger] dict_merge(raw)
            == entries_view(entries@);
    lemma_dict_merge_unique(raw);
}

/// Corresponding entry runs agree on where any key stands.
pub proof fn lemma_node_key_index(es: Seq<(Vec<u8>, Value)>, ms: Seq<(Seq<u8>, Node)>, k: Seq<u8>)
    requires
        models_entries(es, ms),
    ensures
        key_index(entries_view(es), k) == node_key_index(ms, k),
    decreases ms.len(),
{
    if ms.len() == 0 {
    } else {
        assert(entries_view(es)[0].0 == es[0].0@);
        assert(es[0].0@ == ms[0].0);
        if ms[0].0 == k {
        } else {
            assert(models_entries(es.skip(1), ms.skip(1))) by {
                assert forall|i: int|
                    0 <= i < ms.skip(1).len() implies es.skip(1)[i].0@ == (#[trigger] ms.skip(
                    1,
                )[i]).0 && models(es.skip(1)[i].1, ms.skip(1)[i].1) by {
                    assert(ms.skip(1)[i] == ms[i + 1]);
                    assert(es.skip(1)[i] == es[i + 1]);
                    assert(es[i + 1].0@ == ms[i + 1].0 && models(es[i + 1].1, ms[i + 1].1));
                }
            }
            lemma_node_key_index(es.skip(1), ms.skip(1), k);
            assert(entries_view(es).skip(1) =~= entries_view(es.skip(1)));
        }
    }
}

/// Inserting corresponding pairs into corresponding entry runs keeps them
/// corresponding: whatever runtime entries realize the inserted map, they
/// match the spec-level insertion.
pub proof fn lemma_node_dict_insert(
    es0: Seq<(Vec<u8>, Value)>,
    ms: Seq<(Seq<u8>, Node)>,
    es1: Seq<(Vec<u8>, Value)>,
    k: Seq<u8>,
    v: Value,
    n: Node,
)
    requires
        models_entries(es0, ms),
        models(v, n),
        entries_view(es1) == dict_insert(entries_view(es0), k, v),
    ensures
        models_entries(es1, node_dict_insert(ms, k, n)),
{
    lemma_node_key_index(es0, ms, k);
    let ki = key_index(entries_view(es0), k);
    lemma_key_index_props(entries_view(es0), k);
    let ms1 = node_dict_insert(ms, k, n);
    assert(entries_view(es1).len() == es1.len());
    assert(entries_view(es0).len() == es0.len());
    assert(es0.len() == ms.len());
    assert forall|i: int| 0 <= i < entries_view(es1).len() implies entries_view(es1)[i] == (
    es1[i].0@,
    es1[i].1,
    ) by {}
    if ki == -1 {
        assert(es1.len() == ms1.len());
        assert forall|i: int|
            0 <= i < ms1.len() implies es1[i].0@ == (#[trigger] ms1[i]).0 && models(
            es1[i].1,
            ms1[i].1,
        ) by {
            assert(entries_view(es1)[i] == entries_view(es0).push((k, v))[i]);
            if i < ms.len() {
                assert(entries_view(es0)[i] == (es0[i].0@, es0[i].1));
                assert(es0[i].0@ == ms[i].0 && models(es0[i].1, ms[i].1));
            }
        }
    } else {
        assert(es1.len() == ms1.len());
        assert forall|i: int|
            0 <= i < ms1.len() implies es1[i].0@ == (#[trigger] ms1[i]).0 && models(
            es1[i].1,
            ms1[i].1,
        ) by {
            assert(entries_view(es1)[i] == entries_view(es0).update(ki, (k, v))[i]);
            if i != ki {
                assert(entries_view(es0)[i] == (es0[i].0@, es0[i].1));
                assert(es0[i].0@ == ms[i].0 && models(es0[i].1, ms[i].1));
            }
        }
    }
}

} // verus!
