use vstd::prelude::*;

use crate::collector::{
    collector_insert_effect, ArrayCollector, Collector, CollectorResult, DictionaryCollector,
};
use crate::encoding::{
    all_digits, dict_merge, digits_val, encodes, encodes_bytestring, encodes_integer,
    encodes_kv_stream, encodes_stream, entries_view, find_byte, int_text_val, is_digit,
    lemma_digits_val_nonneg, lemma_digits_val_prefix_le, lemma_digits_val_push,
    lemma_node_dict_insert,
    lemma_encodes_stream_push, lemma_find_byte_first, lemma_find_byte_props, DICT_OPEN, DIGIT_NINE,
    DIGIT_ZERO, INTEGER_OPEN,
    LIST_OPEN, MINUS_SIGN, PLUS_SIGN, STRING_SEP, TOKEN_CLOSE,
};
use crate::error::ParserError;
use crate::value::{
    lemma_models_seq_push, models, models_entries, models_seq, node_dict_insert, Node, Value,
};

verus! {

broadcast use vstd::seq::group_seq_axioms;

/// What the integer token at the head of `rest` denotes: its value and its
/// length in bytes, or `None` when no well-formed token is there. The token
/// runs to the first closing marker; the text between must be an optionally
/// signed decimal literal whose value fits a signed 64-bit integer.
pub open spec fn number_token(rest: Seq<u8>) -> Option<(int, int)> {
    let e = find_byte(rest, TOKEN_CLOSE);
    if e >= 1 {
        match int_text_val(rest.subrange(1, e)) {
            Some(m) => if i64::MIN <= m && m <= i64::MAX {
                Some((m, e + 1))
            } else {
                None
            },
            None => None,
        }
    } else {
        None
    }
}

/// What the byte-string token at the head of `rest` holds: its content and
/// its length in bytes, or `None` when no well-formed token is there. The
/// length prefix runs to the first separator and must be all digits; the
/// declared length must not overrun the buffer.
pub open spec fn string_token(rest: Seq<u8>) -> Option<(Seq<u8>, int)> {
    let c = find_byte(rest, STRING_SEP);
    if c >= 1 && all_digits(rest.subrange(0, c)) {
        let n = digits_val(rest.subrange(0, c));
        if c + 1 + n <= rest.len() {
            Some((rest.subrange(c + 1, c + 1 + n), c + 1 + n))
        } else {
            None
        }
    } else {
        None
    }
}

/// One open composite as the reference machine tracks it: a list's
/// children so far, or a dictionary's merged entries and pending key.
pub enum Frame {
    ListF(Seq<Node>),
    DictF(Seq<(Seq<u8>, Node)>, Option<Seq<u8>>),
}

/// Routes a completed shape to the innermost open frame, or to the results
/// when none is open: with no pending key a dictionary accepts only a
/// byte-string, as its next key.
pub open spec fn route_node(results: Seq<Node>, stack: Seq<Frame>, n: Node) -> Result<
    (Seq<Node>, Seq<Frame>),
    ParserError,
> {
    if stack.len() == 0 {
        Ok((results.push(n), stack))
    } else {
        match stack.last() {
            Frame::ListF(ch) => Ok(
                (results, stack.update(stack.len() - 1, Frame::ListF(ch.push(n)))),
            ),
            Frame::DictF(ms, pk) => match pk {
                None => match n {
                    Node::Bytes(k) => Ok(
                        (results, stack.update(stack.len() - 1, Frame::DictF(ms, Some(k)))),
                    ),
                    _ => Err(ParserError::StructParseError),
                },
                Some(k) => Ok(
                    (
                        results,
                        stack.update(
                            stack.len() - 1,
                            Frame::DictF(node_dict_insert(ms, k, n), None),
                        ),
                    ),
                ),
            },
        }
    }
}

/// Closes the innermost open frame into a completed shape and routes it
/// outward. Fails when no composite is open, or when a dictionary still
/// holds a pending key.
pub open spec fn close_frame(results: Seq<Node>, stack: Seq<Frame>) -> Result<
    (Seq<Node>, Seq<Frame>),
    ParserError,
> {
    if stack.len() == 0 {
        Err(ParserError::StructParseError)
    } else {
        match stack.last() {
            Frame::ListF(ch) => route_node(results, stack.drop_last(), Node::List(ch)),
            Frame::DictF(ms, pk) => match pk {
                Some(_) => Err(ParserError::StructParseError),
                None => route_node(results, stack.drop_last(), Node::Dict(ms)),
            },
        }
    }
}

/// The reference machine from an arbitrary state: one token per step,
/// driven by the byte at `pos`, exactly as the decoder's dispatch table
/// reads. It fixes, for every input, both the decoded shapes and the error
/// kind. (The bounds guards on a token's extent always hold when the token
/// spec returns one; they keep the recursion visibly decreasing.)
pub open spec fn spec_parse_at(
    s: Seq<u8>,
    pos: int,
    results: Seq<Node>,
    stack: Seq<Frame>,
) -> Result<Seq<Node>, ParserError>
    decreases s.len() - pos,
{
    if pos < 0 || pos >= s.len() {
        if stack.len() == 0 {
            Ok(results)
        } else {
            Err(ParserError::StructParseError)
        }
    } else {
        let b = s[pos];
        if is_digit(b) {
            match string_token(s.subrange(pos, s.len() as int)) {
                Some(tok) => if 1 <= tok.1 && pos + tok.1 <= s.len() {
                    match route_node(results, stack, Node::Bytes(tok.0)) {
                        Ok(p) => spec_parse_at(s, pos + tok.1, p.0, p.1),
                        Err(e) => Err(e),
                    }
                } else {
                    Err(ParserError::StringParseError)
                },
                None => Err(ParserError::StringParseError),
            }
        } else if b == INTEGER_OPEN {
            match number_token(s.subrange(pos, s.len() as int)) {
                Some(tok) => if 1 <= tok.1 && pos + tok.1 <= s.len() {
                    match route_node(results, stack, Node::Int(tok.0 as i64)) {
                        Ok(p) => spec_parse_at(s, pos + tok.1, p.0, p.1),
                        Err(e) => Err(e),
                    }
                } else {
                    Err(ParserError::NumberParseError)
                },
                None => Err(ParserError::NumberParseError),
            }
        } else if b == DICT_OPEN {
            spec_parse_at(s, pos + 1, results, stack.push(Frame::DictF(Seq::empty(), None)))
        } else if b == LIST_OPEN {
            spec_parse_at(s, pos + 1, results, stack.push(Frame::ListF(Seq::empty())))
        } else if b == TOKEN_CLOSE {
            match close_frame(results, stack) {
                Ok(p) => spec_parse_at(s, pos + 1, p.0, p.1),
                Err(e) => Err(e),
            }
        } else {
            Err(ParserError::UndefinedTokenError)
        }
    }
}

/// What decoding `s` yields: the reference machine run from the start.
pub open spec fn spec_parse(s: Seq<u8>) -> Result<Seq<Node>, ParserError> {
    spec_parse_at(s, 0, Seq::empty(), Seq::empty())
}

/// Whether `f` is the reference frame for the collector `c`.
pub open spec fn frame_models(c: Collector, f: Frame) -> bool {
    match c {
        Collector::Array(a) => f matches Frame::ListF(ns) && models_seq(a.array@, ns),
        Collector::Dictionary(d) => f matches Frame::DictF(ms, pk) && models_entries(d.map@, ms)
            && match d.current_key {
            None => pk is None,
            Some(k) => pk matches Some(k2) && k2 == k@,
        },
    }
}

/// `push_value`'s effect matches `route_node`: routing a value whose shape
/// is `nd` into corresponding machine state yields corresponding state.
proof fn lemma_route_step(
    results0: Seq<Value>,
    collectors0: Seq<Collector>,
    results1: Seq<Value>,
    collectors1: Seq<Collector>,
    value: Value,
    nd: Node,
    twr: Seq<Node>,
    tws: Seq<Frame>,
)
    requires
        models_seq(results0, twr),
        collectors0.len() == tws.len(),
        forall|i: int| 0 <= i < tws.len() ==> frame_models(collectors0[i], #[trigger] tws[i]),
        models(value, nd),
        collectors0.len() == 0 ==> results1 == results0.push(value) && collectors1 == collectors0,
        collectors0.len() > 0 ==> results1 == results0 && collectors1.len() == collectors0.len()
            && collectors1.drop_last() == collectors0.drop_last() && collector_insert_effect(
            collectors0.last(),
            collectors1.last(),
            value,
        ),
    ensures
        route_node(twr, tws, nd) matches Ok(p) && models_seq(results1, p.0) && collectors1.len()
            == p.1.len() && (forall|i: int|
            0 <= i < p.1.len() ==> frame_models(collectors1[i], #[trigger] p.1[i])),
{
    if tws.len() == 0 {
        lemma_models_seq_push(results0, twr, value, nd);
    } else {
        let f = tws.last();
        let c0 = collectors0.last();
        let c1 = collectors1.last();
        assert(f == tws[tws.len() - 1]);
        assert(frame_models(c0, f));
        match c0 {
            Collector::Array(a0) => {
                match f {
                    Frame::ListF(ch) => {
                        match c1 {
                            Collector::Array(a1) => {
                                lemma_models_seq_push(a0.array@, ch, value, nd);
                                let tws1 = tws.update(tws.len() - 1, Frame::ListF(ch.push(nd)));
                                assert(route_node(twr, tws, nd) matches Ok(p) && p.0 == twr && p.1
                                    == tws1);
                                assert forall|i: int|
                                    0 <= i < tws1.len() implies frame_models(
                                    collectors1[i],
                                    #[trigger] tws1[i],
                                ) by {
                                    if i < tws.len() - 1 {
                                        assert(collectors1[i] == collectors1.drop_last()[i]);
                                        assert(collectors0[i] == collectors0.drop_last()[i]);
                                        assert(frame_models(collectors0[i], tws[i]));
                                    } else {
                                        assert(collectors1[i] == c1);
                                    }
                                }
                            },
                            _ => {
                                assert(false);
                            },
                        }
                    },
                    _ => {
                        assert(false);
                    },
                }
            },
            Collector::Dictionary(d0) => {
                match f {
                    Frame::DictF(ms, pk) => {
                        match d0.current_key {
                            None => {
                                match nd {
                                    Node::Bytes(ks) => {
                                        match c1 {
                                            Collector::Dictionary(d1) => {
                                                let tws1 = tws.update(
                                                    tws.len() - 1,
                                                    Frame::DictF(ms, Some(ks)),
                                                );
                                                assert(route_node(twr, tws, nd) matches Ok(p)
                                                    && p.0 == twr && p.1 == tws1);
                                                assert(frame_models(c1, Frame::DictF(
                                                    ms,
                                                    Some(ks),
                                                )));
                                                assert forall|i: int|
                                                    0 <= i < tws1.len() implies frame_models(
                                                    collectors1[i],
                                                    #[trigger] tws1[i],
                                                ) by {
                                                    if i < tws.len() - 1 {
                                                        assert(collectors1[i]
                                                            == collectors1.drop_last()[i]);
                                                        assert(collectors0[i]
                                                            == collectors0.drop_last()[i]);
                                                        assert(frame_models(
                                                            collectors0[i],
                                                            tws[i],
                                                        ));
                                                    } else {
                                                        assert(collectors1[i] == c1);
                                                    }
                                                }
                                            },
                                            _ => {
                                                assert(false);
                                            },
                                        }
                                    },
                                    _ => {
                                        assert(false);
                                    },
                                }
                            },
                            Some(pk0) => {
                                match c1 {
                                    Collector::Dictionary(d1) => {
                                        lemma_node_dict_insert(
                                            d0.map@,
                                            ms,
                                            d1.map@,
                                            pk0@,
                                            value,
                                            nd,
                                        );
                                        let tws1 = tws.update(
                                            tws.len() - 1,
                                            Frame::DictF(node_dict_insert(ms, pk0@, nd), None),
                                        );
                                        assert(route_node(twr, tws, nd) matches Ok(p) && p.0
                                            == twr && p.1 == tws1);
                                        assert forall|i: int|
                                            0 <= i < tws1.len() implies frame_models(
                                            collectors1[i],
                                            #[trigger] tws1[i],
                                        ) by {
                                            if i < tws.len() - 1 {
                                                assert(collectors1[i]
                                                    == collectors1.drop_last()[i]);
                                                assert(collectors0[i]
                                                    == collectors0.drop_last()[i]);
                                                assert(frame_models(collectors0[i], tws[i]));
                                            } else {
                                                assert(collectors1[i] == c1);
                                            }
                                        }
                                    },
                                    _ => {
                                        assert(false);
                                    },
                                }
                            },
                        }
                    },
                    _ => {
                        assert(false);
                    },
                }
            },
        }
    }
}

/// Decodes the integer token starting at `pos`, returning its value and the
/// number of bytes consumed; fails exactly when no well-formed token is
/// there.
pub fn decode_number(s: &Vec<u8>, pos: usize) -> (r: Result<(i64, usize), ParserError>)
    requires
        pos < s@.len(),
        s@[pos as int] == INTEGER_OPEN,
    ensures
        match r {
            Ok((n, off)) => {
                &&& number_token(s@.subrange(pos as int, s@.len() as int)) == Some(
                    (n as int, off as int),
                )
                &&& 3 <= off
                &&& pos + off <= s@.len()
                &&& encodes_integer(s@.subrange(pos as int, pos + off), n)
            },
            Err(e) => e == ParserError::NumberParseError && number_token(
                s@.subrange(pos as int, s@.len() as int),
            ) is None,
        },
{
    let ghost rest = s@.subrange(pos as int, s@.len() as int);
    let len = s.len();
    // scan for the closing marker
    let mut i: usize = pos + 1;
    while i < len && s[i] != TOKEN_CLOSE
        invariant
            pos + 1 <= i <= len,
            len == s@.len(),
            pos < s@.len(),
            forall|t: int| pos + 1 <= t < i ==> s@[t] != TOKEN_CLOSE,
        decreases len - i,
    {
        i = i + 1;
    }
    if i == len {
        proof {
            lemma_find_byte_props(rest, TOKEN_CLOSE);
            let fb = find_byte(rest, TOKEN_CLOSE);
            if fb >= 0 {
                assert(rest[fb] == s@[pos + fb]);
                assert(rest[fb] != TOKEN_CLOSE);
            }
        }
        return Err(ParserError::NumberParseError);
    }
    proof {
        assert(rest[i - pos] == TOKEN_CLOSE);
        assert forall|t: int| 0 <= t < i - pos implies rest[t] != TOKEN_CLOSE by {
            assert(rest[t] == s@[pos + t]);
        }
        lemma_find_byte_first(rest, TOKEN_CLOSE, i - pos);
    }
    let ghost eidx = i - pos;
    let ghost middle = rest.subrange(1, eidx as int);
    if i == pos + 1 {
        proof {
            assert(middle.len() == 0);
        }
        return Err(ParserError::NumberParseError);
    }
    let mut j: usize = pos + 1;
    let mut neg: bool = false;
    let mut has_sign: bool = false;
    if s[j] == MINUS_SIGN {
        neg = true;
        has_sign = true;
        j = j + 1;
    } else if s[j] == PLUS_SIGN {
        has_sign = true;
        j = j + 1;
    }
    let ghost dstart = j as int;
    proof {
        assert(middle[0] == s@[pos + 1]);
        assert(MINUS_SIGN < DIGIT_ZERO && PLUS_SIGN < DIGIT_ZERO);
        if has_sign {
            assert(middle.subrange(1, middle.len() as int) =~= s@.subrange(dstart, i as int));
        } else {
            assert(middle =~= s@.subrange(dstart, i as int));
        }
    }
    if j == i {
        // a sign with no digits
        proof {
            assert(middle.len() == 1);
            assert(!is_digit(middle[0]));
        }
        return Err(ParserError::NumberParseError);
    }
    // accumulate the digits negatively, so that the least value also fits
    let mut acc: i64 = 0;
    while j < i
        invariant
            dstart <= j <= i,
            pos + 1 <= dstart <= pos + 2,
            dstart < i,
            i < len,
            len == s@.len(),
            rest == s@.subrange(pos as int, s@.len() as int),
            eidx == i - pos,
            middle == rest.subrange(1, eidx as int),
            find_byte(rest, TOKEN_CLOSE) == eidx,
            s@[i as int] == TOKEN_CLOSE,
            s@[pos as int] == INTEGER_OPEN,
            has_sign ==> dstart == pos + 2 && !is_digit(middle[0]) && middle.subrange(
                1,
                middle.len() as int,
            ) == s@.subrange(dstart, i as int),
            !has_sign ==> dstart == pos + 1 && middle == s@.subrange(dstart, i as int)
                && middle[0] != MINUS_SIGN && middle[0] != PLUS_SIGN,
            has_sign ==> (middle[0] == MINUS_SIGN || middle[0] == PLUS_SIGN),
            neg ==> has_sign && middle[0] == MINUS_SIGN,
            has_sign && !neg ==> middle[0] == PLUS_SIGN,
            all_digits(s@.subrange(dstart, j as int)),
            acc == -digits_val(s@.subrange(dstart, j as int)),
            acc <= 0,
        decreases i - j,
    {
        let ghost prefix = s@.subrange(dstart, j as int);
        let b = s[j];
        if b < DIGIT_ZERO || b > DIGIT_NINE {
            proof {
                assert(middle[j - pos - 1] == s@[j as int]);
                assert(!is_digit(middle[j - pos - 1]));
                if has_sign {
                    let tail = middle.subrange(1, middle.len() as int);
                    assert(tail[j - pos - 2] == middle[j - pos - 1]);
                    assert(!all_digits(tail));
                    assert(!is_digit(middle[0]));
                    assert(!all_digits(middle));
                } else {
                    assert(!all_digits(middle));
                }
            }
            return Err(ParserError::NumberParseError);
        }
        let d = b - DIGIT_ZERO;
        proof {
            lemma_digits_val_push(prefix, b);
            assert(s@.subrange(dstart, j + 1) =~= prefix.push(b));
            lemma_digits_val_nonneg(prefix);
        }
        let step = match acc.checked_mul(10) {
            Some(x) => x.checked_sub(d as i64),
            None => None,
        };
        match step {
            Some(v) => {
                acc = v;
            },
            None => {
                proof {
                    let grown = s@.subrange(dstart, j + 1);
                    assert(digits_val(grown) > 0x8000000000000000);
                    let run = s@.subrange(dstart, i as int);
                    if all_digits(run) {
                        assert(grown =~= run.subrange(0, j + 1 - dstart));
                        lemma_digits_val_prefix_le(run, j + 1 - dstart);
                        assert(digits_val(run) > 0x8000000000000000);
                        if has_sign {
                            assert(middle.subrange(1, middle.len() as int) == run);
                            assert(!is_digit(middle[0]));
                            assert(!all_digits(middle));
                        } else {
                            assert(middle == run);
                        }
                    } else {
                        if has_sign {
                            assert(middle.subrange(1, middle.len() as int) == run);
                            assert(!is_digit(middle[0]));
                            assert(!all_digits(middle));
                        } else {
                            assert(middle == run);
                        }
                    }
                }
                return Err(ParserError::NumberParseError);
            },
        }
        j = j + 1;
    }
    let ghost run = s@.subrange(dstart, i as int);
    proof {
        lemma_digits_val_nonneg(run);
        if has_sign {
            assert(middle.subrange(1, middle.len() as int) == run);
            assert(!is_digit(middle[0]));
            assert(!all_digits(middle));
            assert(middle.len() >= 2);
        } else {
            assert(middle == run);
            assert(middle.len() >= 1);
        }
    }
    let n: i64 = if neg {
        acc
    } else {
        if acc == i64::MIN {
            // the positive value just exceeds the representable range
            proof {
                assert(digits_val(run) == 0x8000000000000000);
                assert(int_text_val(middle) == Some(digits_val(run)));
            }
            return Err(ParserError::NumberParseError);
        }
        -acc
    };
    let off = i + 1 - pos;
    proof {
        if has_sign {
            if neg {
                assert(int_text_val(middle) == Some(-digits_val(run)));
            } else {
                assert(int_text_val(middle) == Some(digits_val(run)));
            }
        } else {
            assert(int_text_val(middle) == Some(digits_val(run)));
        }
        assert(number_token(rest) == Some((n as int, off as int)));
        let tok = s@.subrange(pos as int, pos + off);
        assert(tok[0] == s@[pos as int]);
        assert(tok[off - 1] == s@[i as int]);
        assert(tok.subrange(1, off - 1) =~= middle);
        assert(encodes_integer(tok, n));
    }
    Ok((n, off))
}

/// Decodes the length-prefixed byte-string token starting at `pos`,
/// returning its content and the number of bytes consumed; fails exactly
/// when no well-formed token is there, in particular when the declared
/// length overruns the remaining buffer.
pub fn decode_string(s: &Vec<u8>, pos: usize) -> (r: Result<(Vec<u8>, usize), ParserError>)
    requires
        pos < s@.len(),
        is_digit(s@[pos as int]),
    ensures
        match r {
            Ok((content, off)) => {
                &&& string_token(s@.subrange(pos as int, s@.len() as int)) == Some(
                    (content@, off as int),
                )
                &&& 2 <= off
                &&& pos + off <= s@.len()
                &&& encodes_bytestring(s@.subrange(pos as int, pos + off), content@)
            },
            Err(e) => e == ParserError::StringParseError && string_token(
                s@.subrange(pos as int, s@.len() as int),
            ) is None,
        },
{
    let ghost rest = s@.subrange(pos as int, s@.len() as int);
    let len = s.len();
    let mut j: usize = pos;
    let mut acc: usize = 0;
    while j < len && s[j] != STRING_SEP
        invariant
            pos <= j <= len,
            len == s@.len(),
            pos < s@.len(),
            rest == s@.subrange(pos as int, s@.len() as int),
            is_digit(s@[pos as int]),
            forall|t: int| pos <= t < j ==> s@[t] != STRING_SEP && is_digit(#[trigger] s@[t]),
            acc == digits_val(s@.subrange(pos as int, j as int)),
        decreases len - j,
    {
        let ghost prefix = s@.subrange(pos as int, j as int);
        let b = s[j];
        if b < DIGIT_ZERO || b > DIGIT_NINE {
            proof {
                lemma_find_byte_props(rest, STRING_SEP);
                let c = find_byte(rest, STRING_SEP);
                if c >= 0 {
                    assert(rest[c] == STRING_SEP);
                    assert forall|t: int| 0 <= t <= j - pos implies rest[t] != STRING_SEP by {
                        assert(rest[t] == s@[pos + t]);
                    }
                    assert(c > j - pos);
                    assert(rest.subrange(0, c)[j - pos] == s@[j as int]);
                    assert(!all_digits(rest.subrange(0, c)));
                }
            }
            return Err(ParserError::StringParseError);
        }
        let d = (b - DIGIT_ZERO) as usize;
        proof {
            lemma_digits_val_push(prefix, b);
            assert(s@.subrange(pos as int, j + 1) =~= prefix.push(b));
            lemma_digits_val_nonneg(prefix);
        }
        let step = match acc.checked_mul(10) {
            Some(x) => x.checked_add(d),
            None => None,
        };
        match step {
            Some(v) => {
                acc = v;
            },
            None => {
                proof {
                    let grown = s@.subrange(pos as int, j + 1);
                    assert(digits_val(grown) > usize::MAX);
                    lemma_find_byte_props(rest, STRING_SEP);
                    let c = find_byte(rest, STRING_SEP);
                    if c >= 0 {
                        assert(rest[c] == STRING_SEP);
                        assert forall|t: int| 0 <= t <= j - pos implies rest[t] != STRING_SEP by {
                            assert(rest[t] == s@[pos + t]);
                        }
                        assert(c > j - pos);
                        if all_digits(rest.subrange(0, c)) {
                            assert(grown =~= rest.subrange(0, c).subrange(0, j + 1 - pos));
                            lemma_digits_val_prefix_le(rest.subrange(0, c), j + 1 - pos);
                            assert(digits_val(rest.subrange(0, c)) > usize::MAX);
                            assert(rest.len() <= usize::MAX);
                        }
                    }
                }
                return Err(ParserError::StringParseError);
            },
        }
        j = j + 1;
    }
    if j == len {
        // no separator anywhere after the digits
        proof {
            lemma_find_byte_props(rest, STRING_SEP);
            let c = find_byte(rest, STRING_SEP);
            if c >= 0 {
                assert(rest[c] == s@[pos + c]);
                assert(rest[c] != STRING_SEP);
            }
        }
        return Err(ParserError::StringParseError);
    }
    let ghost c = (j - pos) as int;
    proof {
        assert(s@[pos as int] != STRING_SEP);
        assert(j > pos);
        assert(rest[c] == s@[j as int]);
        assert forall|t: int| 0 <= t < c implies rest[t] != STRING_SEP by {
            assert(rest[t] == s@[pos + t]);
        }
        lemma_find_byte_first(rest, STRING_SEP, c);
        assert(rest.subrange(0, c) =~= s@.subrange(pos as int, j as int));
        assert forall|t: int| 0 <= t < c implies is_digit(#[trigger] rest.subrange(0, c)[t]) by {
            assert(rest.subrange(0, c)[t] == s@[pos + t]);
        }
    }
    let n = acc;
    let remaining = len - j - 1;
    if n > remaining {
        // the declared length overruns the buffer
        proof {
            assert(c + 1 + digits_val(rest.subrange(0, c)) > rest.len());
        }
        return Err(ParserError::StringParseError);
    }
    let mut content: Vec<u8> = Vec::new();
    let mut t: usize = 0;
    proof {
        assert(content@ =~= s@.subrange(j + 1, j + 1 as int));
    }
    while t < n
        invariant
            t <= n,
            n <= len - j - 1,
            pos <= j < len,
            len == s@.len(),
            rest == s@.subrange(pos as int, s@.len() as int),
            c == j - pos,
            find_byte(rest, STRING_SEP) == c,
            1 <= c,
            all_digits(rest.subrange(0, c)),
            digits_val(rest.subrange(0, c)) == n,
            content@ == s@.subrange(j + 1, j + 1 + t),
        decreases n - t,
    {
        content.push(s[j + 1 + t]);
        proof {
            assert(content@ =~= s@.subrange(j + 1, j + 1 + t + 1));
        }
        t = t + 1;
    }
    let off = j - pos + 1 + n;
    proof {
        assert(rest.subrange(c + 1, c + 1 + n) =~= s@.subrange(j + 1, j + 1 + n));
        assert(string_token(rest) == Some((content@, off as int)));
        let tok = s@.subrange(pos as int, pos + off);
        assert(tok[c] == s@[j as int]);
        assert forall|u: int| 0 <= u < c implies tok[u] != STRING_SEP by {
            assert(tok[u] == s@[pos + u]);
        }
        lemma_find_byte_first(tok, STRING_SEP, c);
        assert(tok.subrange(0, c) =~= rest.subrange(0, c));
        assert(tok.subrange(c + 1, tok.len() as int) =~= content@);
        assert(encodes_bytestring(tok, content@));
    }
    Ok((content, off))
}

/// The bytes that the open collectors account for, outermost first: for
/// each, its opening token byte and what it has consumed since.
pub open spec fn stack_bytes(cs: Seq<Collector>) -> Seq<u8>
    decreases cs.len(),
{
    if cs.len() == 0 {
        Seq::empty()
    } else {
        stack_bytes(cs.drop_last()) + seq![cs.last().opener()] + cs.last().consumed()
    }
}

/// The bencode decoder: a single left-to-right pass over an owned byte
/// buffer, with an explicit collector stack in place of recursion, so that
/// nesting depth is bounded only by memory.
pub struct Parser {
    result: Vec<Value>,
    current_position: usize,
    collectors: Vec<Collector>,
    encoded_bytes: Vec<u8>,
    results_bytes: Ghost<Seq<u8>>,
}

impl Parser {
    /// The byte buffer being decoded.
    pub closed spec fn input(&self) -> Seq<u8> {
        self.encoded_bytes@
    }

    /// A parser as `new` returns it: nothing consumed, nothing produced.
    pub closed spec fn fresh(&self) -> bool {
        &&& self.current_position == 0
        &&& self.result@ == Seq::<Value>::empty()
        &&& self.collectors@ == Seq::<Collector>::empty()
        &&& self.results_bytes@ == Seq::<u8>::empty()
    }

    /// Completed results and open collectors match the bytes that produced
    /// them.
    spec fn structures_ok(&self) -> bool {
        &&& encodes_stream(self.results_bytes@, self.result@)
        &&& forall|i: int|
            0 <= i < self.collectors@.len() ==> (#[trigger] self.collectors@[i]).wf()
    }

    pub fn new(encoded_bytes: Vec<u8>) -> (r: Self)
        ensures
            r.input() == encoded_bytes@,
            r.fresh(),
    {
        Parser {
            result: Vec::new(),
            current_position: 0,
            collectors: Vec::new(),
            encoded_bytes,
            results_bytes: Ghost(Seq::empty()),
        }
    }

    /// Routes a completed value to the innermost open collector, or to the
    /// top-level results when no composite is open. This is the single join
    /// point shared by leaf tokens and finalized composites.
    fn push_value(&mut self, value: Value, seg: Ghost<Seq<u8>>) -> (r: Result<(), ParserError>)
        requires
            old(self).structures_ok(),
            encodes(seg@, value),
        ensures
            match r {
                Ok(_) => {
                    &&& final(self).structures_ok()
                    &&& final(self).results_bytes@ + stack_bytes(final(self).collectors@) == old(
                        self,
                    ).results_bytes@ + stack_bytes(old(self).collectors@) + seg@
                    &&& final(self).encoded_bytes@ == old(self).encoded_bytes@
                    &&& final(self).current_position == old(self).current_position
                    &&& old(self).collectors@.len() == 0 ==> final(self).result@ == old(
                        self,
                    ).result@.push(value) && final(self).collectors@ == old(self).collectors@
                    &&& old(self).collectors@.len() > 0 ==> final(self).result@ == old(
                        self,
                    ).result@ && final(self).collectors@.len() == old(self).collectors@.len()
                        && final(self).collectors@.drop_last() == old(self).collectors@.drop_last()
                        && collector_insert_effect(
                        old(self).collectors@.last(),
                        final(self).collectors@.last(),
                        value,
                    )
                },
                Err(e) => {
                    &&& e == ParserError::StructParseError
                    &&& old(self).collectors@.len() > 0
                    &&& (old(self).collectors@.last() matches Collector::Dictionary(d)
                        && d.current_key is None)
                    &&& !(value matches Value::ByteString(_))
                    &&& final(self).result@ == old(self).result@
                    &&& final(self).collectors@ == old(self).collectors@
                    &&& final(self).results_bytes@ == old(self).results_bytes@
                    &&& final(self).encoded_bytes@ == old(self).encoded_bytes@
                    &&& final(self).current_position == old(self).current_position
                    &&& final(self).structures_ok()
                },
            },
    {
        if self.collectors.len() == 0 {
            proof {
                lemma_encodes_stream_push(self.results_bytes@, self.result@, seg@, value);
            }
            let ghost orb = self.results_bytes@;
            self.result.push(value);
            self.results_bytes = Ghost(orb + seg@);
            proof {
                assert(self.results_bytes@ + stack_bytes(self.collectors@) =~= orb + stack_bytes(
                    self.collectors@,
                ) + seg@);
            }
            Ok(())
        } else {
            let ghost cs0 = self.collectors@;
            let mut c = match self.collectors.pop() {
                Some(c) => c,
                None => {
                    proof {
                        assert(false);
                    }
                    return Err(ParserError::StructParseError);
                },
            };
            let ghost oc = c;
            match c.insert(value, seg) {
                Ok(_) => {},
                Err(e) => {
                    self.collectors.push(c);
                    proof {
                        assert(self.collectors@ =~= cs0);
                    }
                    return Err(e);
                },
            }
            self.collectors.push(c);
            proof {
                assert(self.collectors@.drop_last() =~= cs0.drop_last());
                assert(self.collectors@.last() == c);
                assert(cs0.last() == oc);
                assert(stack_bytes(self.collectors@) == stack_bytes(cs0.drop_last()) + seq![
                    c.opener(),
                ] + c.consumed());
                assert(stack_bytes(cs0) == stack_bytes(cs0.drop_last()) + seq![oc.opener()]
                    + oc.consumed());
                assert(self.results_bytes@ + stack_bytes(self.collectors@) =~= self.results_bytes@
                    + stack_bytes(cs0) + seg@);
                assert forall|i: int| 0 <= i < self.collectors@.len() implies (
                #[trigger] self.collectors@[i]).wf() by {
                    if i < self.collectors@.len() - 1 {
                        assert(self.collectors@[i] == cs0[i]);
                        assert(cs0[i].wf());
                    }
                }
            }
            Ok(())
        }
    }

    /// Pops and finalizes the innermost collector into a Value, handing
    /// back the ghost bytes that produced it. Fails when no composite is
    /// open, or when a dictionary still holds a pending key.
    fn get_last_collector_as_value(&mut self) -> (r: Result<
        (Value, Ghost<Seq<u8>>),
        ParserError,
    >)
        requires
            old(self).structures_ok(),
        ensures
            match r {
                Ok(pair) => {
                    &&& old(self).collectors@.len() > 0
                    &&& final(self).collectors@ == old(self).collectors@.drop_last()
                    &&& encodes(pair.1@, pair.0)
                    &&& pair.1@ == seq![old(self).collectors@.last().opener()] + old(
                        self,
                    ).collectors@.last().consumed() + seq![TOKEN_CLOSE]
                    &&& final(self).structures_ok()
                    &&& final(self).results_bytes@ == old(self).results_bytes@
                    &&& final(self).result@ == old(self).result@
                    &&& final(self).encoded_bytes@ == old(self).encoded_bytes@
                    &&& final(self).current_position == old(self).current_position
                    &&& !old(self).collectors@.last().has_pending_key()
                    &&& match old(self).collectors@.last() {
                        Collector::Array(a) => pair.0 matches Value::List(items) && items@
                            == a.array@,
                        Collector::Dictionary(d) => pair.0 matches Value::Dictionary(es) && es@
                            == d.map@,
                    }
                },
                Err(e) => e == ParserError::StructParseError && (old(self).collectors@.len() == 0
                    || old(self).collectors@.last().has_pending_key()) && *final(self) == *old(
                    self,
                ),
            },
    {
        let ghost cs0 = self.collectors@;
        let n = self.collectors.len();
        if n == 0 {
            return Err(ParserError::StructParseError);
        }
        let pending = match &self.collectors[n - 1] {
            Collector::Dictionary(d) => d.current_key.is_some(),
            Collector::Array(_) => false,
        };
        if pending {
            // an odd number of children between open and close
            return Err(ParserError::StructParseError);
        }
        let c = match self.collectors.pop() {
            Some(c) => c,
            None => {
                proof {
                    assert(false);
                }
                return Err(ParserError::StructParseError);
            },
        };
        let ghost oc = c;
        let ghost seg = seq![oc.opener()] + oc.consumed() + seq![TOKEN_CLOSE];
        let value = match c.result() {
            CollectorResult::Array(items) => Value::List(items),
            CollectorResult::Dictionary(entries) => Value::Dictionary(entries),
        };
        proof {
            assert(seg.len() == oc.consumed().len() + 2);
            assert(seg[0] == oc.opener());
            assert(seg[seg.len() - 1] == TOKEN_CLOSE);
            assert(seg.subrange(1, seg.len() - 1) =~= oc.consumed());
            match oc {
                Collector::Array(a) => {
                    assert(oc.consumed() == a.bytes@);
                    assert(encodes_stream(seg.subrange(1, seg.len() - 1), a.array@));
                    assert(encodes(seg, value));
                },
                Collector::Dictionary(d) => {
                    assert(d.key_bytes@ =~= Seq::<u8>::empty());
                    assert(oc.consumed() =~= d.bytes@);
                    assert(encodes_kv_stream(seg.subrange(1, seg.len() - 1), d.raw@));
                    assert(dict_merge(d.raw@) == entries_view(d.map@));
                    assert(value matches Value::Dictionary(entries) && entries@ == d.map@);
                    assert(encodes(seg, value));
                },
            }
            assert forall|i: int|
                0 <= i < self.collectors@.len() implies (#[trigger] self.collectors@[i]).wf() by {
                assert(self.collectors@[i] == cs0[i]);
                assert(cs0[i].wf());
            }
        }
        Ok((value, Ghost(seg)))
    }

    /// Decodes the whole buffer in one pass. On success the returned
    /// top-level values are exactly what the input encodes: the input
    /// splits into consecutive complete encodings of them, in order. An
    /// empty input yields an empty sequence of values. Every failure is
    /// reported as a typed decode error, never by panicking.
    pub fn parse(self) -> (r: Result<Vec<Value>, ParserError>)
        requires
            self.fresh(),
        ensures
            (match (r, spec_parse(self.input())) {
                (Ok(vals), Ok(ns)) => models_seq(vals@, ns),
                (Err(e), Err(se)) => e == se,
                _ => false,
            }),
            match r {
                Ok(vals) => encodes_stream(self.input(), vals@),
                Err(e) => e != ParserError::ValueDataExtractionError,
            },
            self.input().len() == 0 ==> (r matches Ok(vals) && vals@ == Seq::<Value>::empty()),
    {
        let mut this = self;
        this.run()
    }

    /// The decoding pass itself, over the parser state in place.
    #[verifier::rlimit(100)]
    fn run(&mut self) -> (r: Result<Vec<Value>, ParserError>)
        requires
            old(self).fresh(),
        ensures
            (match (r, spec_parse(old(self).input())) {
                (Ok(vals), Ok(ns)) => models_seq(vals@, ns),
                (Err(e), Err(se)) => e == se,
            _ => false,
            }),
            match r {
                Ok(vals) => encodes_stream(old(self).input(), vals@),
                Err(e) => e != ParserError::ValueDataExtractionError,
            },
            old(self).input().len() == 0 ==> (r matches Ok(vals) && vals@ == Seq::<
                Value,
            >::empty()),
    {
        let ghost input_seq = self.encoded_bytes@;
        let ghost mut tw_results: Seq<Node> = Seq::empty();
        let ghost mut tw_stack: Seq<Frame> = Seq::empty();
        proof {
            assert(self.results_bytes@ + stack_bytes(self.collectors@) =~= input_seq.subrange(
                0,
                0,
            ));
            assert(spec_parse(input_seq) == spec_parse_at(input_seq, 0, tw_results, tw_stack));
            assert(models_seq(self.result@, tw_results));
        }
        while self.current_position < self.encoded_bytes.len()
            invariant
                input_seq == old(self).encoded_bytes@,
                self.encoded_bytes@ == input_seq,
                self.current_position <= input_seq.len(),
                self.structures_ok(),
                self.results_bytes@ + stack_bytes(self.collectors@) == input_seq.subrange(
                    0,
                    self.current_position as int,
                ),
                spec_parse(input_seq) == spec_parse_at(
                    input_seq,
                    self.current_position as int,
                    tw_results,
                    tw_stack,
                ),
                models_seq(self.result@, tw_results),
                self.collectors@.len() == tw_stack.len(),
                forall|i: int|
                    0 <= i < tw_stack.len() ==> frame_models(
                        self.collectors@[i],
                        #[trigger] tw_stack[i],
                    ),
            decreases input_seq.len() - self.current_position,
        {
            let ghost prev = self;
            let ghost twr0 = tw_results;
            let ghost tws0 = tw_stack;
            let pos = self.current_position;
            let b = self.encoded_bytes[pos];
            if b >= DIGIT_ZERO && b <= DIGIT_NINE {
                let (content, off) = match decode_string(&self.encoded_bytes, pos) {
                    Ok(x) => x,
                    Err(e) => {
                        proof {
                            assert(spec_parse_at(input_seq, pos as int, twr0, tws0) matches Err(
                                se,
                            ) && se == ParserError::StringParseError);
                        }
                        return Err(e);
                    },
                };
                let ghost seg = input_seq.subrange(pos as int, pos + off);
                let ghost nd = Node::Bytes(content@);
                let value = Value::ByteString(content);
                let ghost gv = value;
                match self.push_value(value, Ghost(seg)) {
                    Ok(_) => {},
                    Err(e) => {
                        proof {
                            assert(false);
                        }
                        return Err(e);
                    },
                }
                self.current_position = pos + off;
                proof {
                    assert(input_seq.subrange(0, pos as int) + seg =~= input_seq.subrange(
                        0,
                        pos + off,
                    ));
                    assert(models(gv, nd));
                    lemma_route_step(
                        prev.result@,
                        prev.collectors@,
                        self.result@,
                        self.collectors@,
                        gv,
                        nd,
                        twr0,
                        tws0,
                    );
                    let p = route_node(twr0, tws0, nd)->Ok_0;
                    tw_results = p.0;
                    tw_stack = p.1;
                    assert(spec_parse_at(input_seq, pos as int, twr0, tws0) == spec_parse_at(
                        input_seq,
                        pos + off,
                        tw_results,
                        tw_stack,
                    ));
                }
            } else if b == INTEGER_OPEN {
                let (n, off) = match decode_number(&self.encoded_bytes, pos) {
                    Ok(x) => x,
                    Err(e) => {
                        proof {
                            assert(spec_parse_at(input_seq, pos as int, twr0, tws0) matches Err(
                                se,
                            ) && se == ParserError::NumberParseError);
                        }
                        return Err(e);
                    },
                };
                let ghost seg = input_seq.subrange(pos as int, pos + off);
                let ghost nd = Node::Int(n);
                let value = Value::Integer(n);
                let ghost gv = value;
                match self.push_value(value, Ghost(seg)) {
                    Ok(_) => {},
                    Err(e) => {
                        proof {
                            assert(tws0.len() == prev.collectors@.len());
                            assert(frame_models(
                                prev.collectors@[tws0.len() - 1],
                                tws0[tws0.len() - 1],
                            ));
                            assert(route_node(twr0, tws0, nd) matches Err(se) && se
                                == ParserError::StructParseError);
                            assert(spec_parse_at(input_seq, pos as int, twr0, tws0) matches Err(
                                se,
                            ) && se == ParserError::StructParseError);
                        }
                        return Err(e);
                    },
                }
                self.current_position = pos + off;
                proof {
                    assert(input_seq.subrange(0, pos as int) + seg =~= input_seq.subrange(
                        0,
                        pos + off,
                    ));
                    assert(models(gv, nd));
                    lemma_route_step(
                        prev.result@,
                        prev.collectors@,
                        self.result@,
                        self.collectors@,
                        gv,
                        nd,
                        twr0,
                        tws0,
                    );
                    let p = route_node(twr0, tws0, nd)->Ok_0;
                    tw_results = p.0;
                    tw_stack = p.1;
                    assert(spec_parse_at(input_seq, pos as int, twr0, tws0) == spec_parse_at(
                        input_seq,
                        pos + off,
                        tw_results,
                        tw_stack,
                    ));
                }
            } else if b == DICT_OPEN {
                self.collectors.push(Collector::Dictionary(DictionaryCollector::new()));
                self.current_position = pos + 1;
                proof {
                    let cs = self.collectors@;
                    assert(cs.drop_last() =~= prev.collectors@);
                    assert(cs.last().opener() == DICT_OPEN);
                    assert(cs.last().consumed() =~= Seq::<u8>::empty());
                    assert(stack_bytes(cs) =~= stack_bytes(prev.collectors@) + seq![DICT_OPEN]);
                    assert(seq![DICT_OPEN] =~= input_seq.subrange(pos as int, pos + 1));
                    assert(self.results_bytes@ + stack_bytes(cs) =~= (prev.results_bytes@
                        + stack_bytes(prev.collectors@)) + seq![DICT_OPEN]);
                    assert((prev.results_bytes@ + stack_bytes(prev.collectors@)) + seq![DICT_OPEN]
                        =~= input_seq.subrange(0, pos + 1));
                    assert forall|i: int|
                        0 <= i < cs.len() implies (#[trigger] cs[i]).wf() by {
                        if i < cs.len() - 1 {
                            assert(cs[i] == prev.collectors@[i]);
                            assert(prev.collectors@[i].wf());
                        }
                    }
                    tw_stack = tws0.push(Frame::DictF(Seq::empty(), None));
                    assert(cs.last() == self.collectors@[cs.len() - 1]);
                    assert(models_entries(
                        Seq::<(Vec<u8>, Value)>::empty(),
                        Seq::<(Seq<u8>, Node)>::empty(),
                    ));
                    assert(models_seq(Seq::<Value>::empty(), Seq::<Node>::empty()));
                    assert(frame_models(cs.last(), tw_stack.last()));
                    assert forall|i: int|
                        0 <= i < tw_stack.len() implies frame_models(
                        self.collectors@[i],
                        #[trigger] tw_stack[i],
                    ) by {
                        if i < tw_stack.len() - 1 {
                            assert(cs[i] == prev.collectors@[i]);
                            assert(tw_stack[i] == tws0[i]);
                            assert(frame_models(prev.collectors@[i], tws0[i]));
                        }
                    }
                    assert(spec_parse_at(input_seq, pos as int, twr0, tws0) == spec_parse_at(
                        input_seq,
                        pos + 1,
                        tw_results,
                        tw_stack,
                    ));
                }
            } else if b == LIST_OPEN {
                self.collectors.push(Collector::Array(ArrayCollector::new()));
                self.current_position = pos + 1;
                proof {
                    let cs = self.collectors@;
                    assert(cs.drop_last() =~= prev.collectors@);
                    assert(cs.last().opener() == LIST_OPEN);
                    assert(cs.last().consumed() =~= Seq::<u8>::empty());
                    assert(stack_bytes(cs) =~= stack_bytes(prev.collectors@) + seq![LIST_OPEN]);
                    assert(seq![LIST_OPEN] =~= input_seq.subrange(pos as int, pos + 1));
                    assert(self.results_bytes@ + stack_bytes(cs) =~= (prev.results_bytes@
                        + stack_bytes(prev.collectors@)) + seq![LIST_OPEN]);
                    assert((prev.results_bytes@ + stack_bytes(prev.collectors@)) + seq![LIST_OPEN]
                        =~= input_seq.subrange(0, pos + 1));
                    assert forall|i: int|
                        0 <= i < cs.len() implies (#[trigger] cs[i]).wf() by {
                        if i < cs.len() - 1 {
                            assert(cs[i] == prev.collectors@[i]);
                            assert(prev.collectors@[i].wf());
                        }
                    }
                    tw_stack = tws0.push(Frame::ListF(Seq::empty()));
                    assert(cs.last() == self.collectors@[cs.len() - 1]);
                    assert(models_entries(
                        Seq::<(Vec<u8>, Value)>::empty(),
                        Seq::<(Seq<u8>, Node)>::empty(),
                    ));
                    assert(models_seq(Seq::<Value>::empty(), Seq::<Node>::empty()));
                    assert(frame_models(cs.last(), tw_stack.last()));
                    assert forall|i: int|
                        0 <= i < tw_stack.len() implies frame_models(
                        self.collectors@[i],
                        #[trigger] tw_stack[i],
                    ) by {
                        if i < tw_stack.len() - 1 {
                            assert(cs[i] == prev.collectors@[i]);
                            assert(tw_stack[i] == tws0[i]);
                            assert(frame_models(prev.collectors@[i], tws0[i]));
                        }
                    }
                    assert(spec_parse_at(input_seq, pos as int, twr0, tws0) == spec_parse_at(
                        input_seq,
                        pos + 1,
                        tw_results,
                        tw_stack,
                    ));
                }
            } else if b == TOKEN_CLOSE {
                let (value, seg) = match self.get_last_collector_as_value() {
                    Ok(x) => x,
                    Err(e) => {
                        proof {
                            if prev.collectors@.len() > 0 {
                                assert(frame_models(
                                    prev.collectors@[tws0.len() - 1],
                                    tws0[tws0.len() - 1],
                                ));
                            }
                            assert(close_frame(twr0, tws0) matches Err(se) && se
                                == ParserError::StructParseError);
                            assert(spec_parse_at(input_seq, pos as int, twr0, tws0) matches Err(
                                se,
                            ) && se == ParserError::StructParseError);
                        }
                        return Err(e);
                    },
                };
                let ghost nd = match tws0.last() {
                    Frame::ListF(ch) => Node::List(ch),
                    Frame::DictF(ms, _) => Node::Dict(ms),
                };
                let ghost gv = value;
                let ghost mid = self;
                proof {
                    assert(frame_models(prev.collectors@[tws0.len() - 1], tws0[tws0.len() - 1]));
                    match prev.collectors@.last() {
                        Collector::Array(a) => {
                            assert(models(gv, nd));
                        },
                        Collector::Dictionary(d) => {
                            assert(models(gv, nd));
                        },
                    }
                    assert(close_frame(twr0, tws0) == route_node(twr0, tws0.drop_last(), nd));
                    assert forall|i: int|
                        0 <= i < tws0.drop_last().len() implies frame_models(
                        mid.collectors@[i],
                        #[trigger] tws0.drop_last()[i],
                    ) by {
                        assert(tws0.drop_last()[i] == tws0[i]);
                        assert(mid.collectors@[i] == prev.collectors@.drop_last()[i]);
                        assert(prev.collectors@.drop_last()[i] == prev.collectors@[i]);
                        assert(frame_models(prev.collectors@[i], tws0[i]));
                    }
                }
                match self.push_value(value, seg) {
                    Ok(_) => {},
                    Err(e) => {
                        proof {
                            assert(mid.collectors@.len() == tws0.drop_last().len());
                            assert(frame_models(
                                mid.collectors@[mid.collectors@.len() - 1],
                                tws0.drop_last()[mid.collectors@.len() - 1],
                            ));
                            assert(tws0.drop_last().last() == tws0.drop_last()[mid.collectors@.len()
                                - 1]);
                            assert(route_node(twr0, tws0.drop_last(), nd) matches Err(se) && se
                                == ParserError::StructParseError);
                            assert(spec_parse_at(input_seq, pos as int, twr0, tws0) matches Err(
                                se,
                            ) && se == ParserError::StructParseError);
                        }
                        return Err(e);
                    },
                }
                self.current_position = pos + 1;
                proof {
                    let opener = prev.collectors@.last().opener();
                    let consumed = prev.collectors@.last().consumed();
                    assert(stack_bytes(prev.collectors@) == stack_bytes(mid.collectors@) + seq![
                        opener,
                    ] + consumed);
                    assert(self.results_bytes@ + stack_bytes(self.collectors@)
                        == mid.results_bytes@ + stack_bytes(mid.collectors@) + seg@);
                    assert(mid.results_bytes@ + stack_bytes(mid.collectors@) + seg@
                        =~= prev.results_bytes@ + stack_bytes(prev.collectors@) + seq![
                        TOKEN_CLOSE,
                    ]);
                    assert(seq![TOKEN_CLOSE] =~= input_seq.subrange(pos as int, pos + 1));
                    assert(prev.results_bytes@ + stack_bytes(prev.collectors@) + seq![TOKEN_CLOSE]
                        =~= input_seq.subrange(0, pos + 1));
                    lemma_route_step(
                        mid.result@,
                        mid.collectors@,
                        self.result@,
                        self.collectors@,
                        gv,
                        nd,
                        twr0,
                        tws0.drop_last(),
                    );
                    let p = route_node(twr0, tws0.drop_last(), nd)->Ok_0;
                    tw_results = p.0;
                    tw_stack = p.1;
                    assert(spec_parse_at(input_seq, pos as int, twr0, tws0) == spec_parse_at(
                        input_seq,
                        pos + 1,
                        tw_results,
                        tw_stack,
                    ));
                }
            } else {
                proof {
                    assert(spec_parse_at(input_seq, pos as int, twr0, tws0) matches Err(se) && se
                        == ParserError::UndefinedTokenError);
                }
                return Err(ParserError::UndefinedTokenError);
            }
        }
        // decoding succeeds only with every composite closed
        if self.collectors.len() > 0 {
            proof {
                assert(spec_parse_at(
                    input_seq,
                    self.current_position as int,
                    tw_results,
                    tw_stack,
                ) matches Err(se) && se == ParserError::StructParseError);
            }
            return Err(ParserError::StructParseError);
        }
        proof {
            assert(stack_bytes(self.collectors@) =~= Seq::<u8>::empty());
            assert(self.results_bytes@ =~= self.results_bytes@ + stack_bytes(self.collectors@));
            assert(input_seq.subrange(0, input_seq.len() as int) =~= input_seq);
            assert(encodes_stream(input_seq, self.result@));
            assert(spec_parse_at(input_seq, self.current_position as int, tw_results, tw_stack)
                matches Ok(ns) && ns == tw_results);
            assert(models_seq(self.result@, tw_results));
        }
        let mut out: Vec<Value> = Vec::new();
        core::mem::swap(&mut out, &mut self.result);
        Ok(out)
    }
}

} // verus!
