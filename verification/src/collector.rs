use vstd::prelude::*;

use crate::encoding::{
    dict_insert, dict_merge, encodes, encodes_bytestring, encodes_kv_stream, encodes_stream,
    entries_view, key_index, lemma_dict_merge_push, lemma_encodes_kv_push,
    lemma_encodes_stream_push, lemma_key_index_first, lemma_key_index_props,
};
use crate::error::ParserError;
use crate::value::{bytes_eq, Value};

verus! {

broadcast use vstd::seq::group_seq_axioms;

/// What a finalized collector yields: the children of a closed list, or the
/// entries of a closed dictionary.
pub enum CollectorResult {
    Array(Vec<Value>),
    Dictionary(Vec<(Vec<u8>, Value)>),
}

/// Accumulates the children of an open list, together with the ghost bytes
/// that produced them.
pub struct ArrayCollector {
    pub array: Vec<Value>,
    /// The input bytes whose decoding produced `array`, in order.
    pub bytes: Ghost<Seq<u8>>,
}

impl ArrayCollector {
    /// The accumulated children are exactly what the recorded bytes encode.
    pub open spec fn wf(&self) -> bool {
        encodes_stream(self.bytes@, self.array@)
    }

    pub fn new() -> (r: Self)
        ensures
            r.wf(),
            r.array@ == Seq::<Value>::empty(),
            r.bytes@ == Seq::<u8>::empty(),
    {
        ArrayCollector { array: Vec::new(), bytes: Ghost(Seq::empty()) }
    }

    /// Appends a completed child unconditionally.
    pub fn insert(&mut self, value: Value, seg: Ghost<Seq<u8>>)
        requires
            old(self).wf(),
            encodes(seg@, value),
        ensures
            final(self).wf(),
            final(self).array@ == old(self).array@.push(value),
            final(self).bytes@ == old(self).bytes@ + seg@,
    {
        let ghost ob = self.bytes@;
        let ghost oa = self.array@;
        proof {
            lemma_encodes_stream_push(ob, oa, seg@, value);
        }
        self.array.push(value);
        self.bytes = Ghost(ob + seg@);
    }
}

/// Accumulates the entries of an open dictionary. Completed children arrive
/// alternating key, value: with no pending key the incoming child must be a
/// byte-string and becomes the pending key; with one, the pair is inserted
/// (an existing key keeps its place, its value replaced; a new key is
/// appended) and the slot is cleared.
pub struct DictionaryCollector {
    pub map: Vec<(Vec<u8>, Value)>,
    pub current_key: Option<Vec<u8>>,
    /// The input bytes whose decoding produced the completed pairs.
    pub bytes: Ghost<Seq<u8>>,
    /// The completed key/value pairs in encounter order, duplicates kept.
    pub raw: Ghost<Seq<(Seq<u8>, Value)>>,
    /// The input bytes that produced the pending key, when one is held.
    pub key_bytes: Ghost<Seq<u8>>,
}

impl DictionaryCollector {
    /// The entries are the merge of the raw pairs that the recorded bytes
    /// encode; the pending key, when held, is what its bytes encode.
    pub open spec fn wf(&self) -> bool {
        &&& encodes_kv_stream(self.bytes@, self.raw@)
        &&& entries_view(self.map@) == dict_merge(self.raw@)
        &&& match self.current_key {
            Some(k) => encodes_bytestring(self.key_bytes@, k@),
            None => self.key_bytes@ == Seq::<u8>::empty(),
        }
    }

    /// All input bytes this collector accounts for.
    pub open spec fn consumed(&self) -> Seq<u8> {
        self.bytes@ + self.key_bytes@
    }

    pub fn new() -> (r: Self)
        ensures
            r.wf(),
            r.map@ == Seq::<(Vec<u8>, Value)>::empty(),
            r.current_key is None,
            r.consumed() == Seq::<u8>::empty(),
    {
        let r = DictionaryCollector {
            map: Vec::new(),
            current_key: None,
            bytes: Ghost(Seq::empty()),
            raw: Ghost(Seq::empty()),
            key_bytes: Ghost(Seq::empty()),
        };
        proof {
            assert(entries_view(r.map@) =~= dict_merge(r.raw@));
            assert(r.consumed() =~= Seq::<u8>::empty());
        }
        r
    }

    /// Accepts a completed child, in the two-phase key/value discipline.
    pub fn insert(&mut self, value: Value, seg: Ghost<Seq<u8>>) -> (r: Result<(), ParserError>)
        requires
            old(self).wf(),
            encodes(seg@, value),
        ensures
            match r {
                Ok(_) => final(self).wf() && final(self).consumed() == old(self).consumed()
                    + seg@ && match old(self).current_key {
                    None => value matches Value::ByteString(k) && final(self).current_key
                        matches Some(k2) && k2@ == k@ && final(self).map@ == old(self).map@
                        && final(self).raw@ == old(self).raw@,
                    Some(pk) => final(self).current_key is None && final(self).raw@ == old(self).raw@.push(((pk@, value))) && entries_view(final(self).map@) == dict_insert(
                        entries_view(old(self).map@),
                        pk@,
                        value,
                    ),
                },
                Err(e) => e == ParserError::StructParseError && old(self).current_key is None && !(
                value matches Value::ByteString(_)) && *final(self) == *old(self),
            },
    {
        let ghost oself = *self;
        let pending = self.current_key.take();
        match pending {
            Some(key) => {
                let ghost keyv = key@;
                let ghost om = self.map@;
                let ghost oraw = self.raw@;
                let ghost ob = self.bytes@;
                let ghost kb = self.key_bytes@;
                proof {
                    lemma_encodes_kv_push(ob, oraw, kb, keyv, seg@, value);
                    lemma_dict_merge_push(oraw, keyv, value);
                }
                match find_key(&self.map, &key) {
                    Some(i) => {
                        self.map[i] = (key, value);
                        proof {
                            assert(entries_view(self.map@) =~= dict_insert(
                                entries_view(om),
                                keyv,
                                value,
                            ));
                        }
                    },
                    None => {
                        self.map.push((key, value));
                        proof {
                            assert(entries_view(self.map@) =~= dict_insert(
                                entries_view(om),
                                keyv,
                                value,
                            ));
                        }
                    },
                }
                self.raw = Ghost(oraw.push((keyv, value)));
                self.bytes = Ghost(ob + kb + seg@);
                self.key_bytes = Ghost(Seq::empty());
                proof {
                    assert(self.consumed() =~= oself.consumed() + seg@);
                }
                Ok(())
            },
            None => {
                match value {
                    Value::ByteString(k) => {
                        self.current_key = Some(k);
                        self.key_bytes = Ghost(seg@);
                        proof {
                            assert(self.consumed() =~= oself.consumed() + seg@);
                        }
                        Ok(())
                    },
                    _ => {
                        proof {
                            assert(*self == oself);
                        }
                        Err(ParserError::StructParseError)
                    },
                }
            },
        }
    }
}

/// Locates `key` among the entries of `map`: the returned index is the
/// `key_index` position of the key, `None` when it is absent.
pub fn find_key(map: &Vec<(Vec<u8>, Value)>, key: &Vec<u8>) -> (r: Option<usize>)
    ensures
        match r {
            Some(i) => 0 <= i < map@.len() && key_index(entries_view(map@), key@) == i,
            None => key_index(entries_view(map@), key@) == -1,
        },
{
    let mut i: usize = 0;
    while i < map.len()
        invariant
            i <= map@.len(),
            forall|j: int| 0 <= j < i ==> entries_view(map@)[j].0 != key@,
        decreases map@.len() - i,
    {
        if bytes_eq(&map[i].0, key) {
            proof {
                assert(entries_view(map@)[i as int].0 == key@);
                lemma_key_index_first(entries_view(map@), key@, i as int);
            }
            return Some(i);
        }
        proof {
            assert(entries_view(map@)[i as int].0 == map@[i as int].0@);
        }
        i = i + 1;
    }
    proof {
        lemma_key_index_props(entries_view(map@), key@);
        let ki = key_index(entries_view(map@), key@);
        if ki >= 0 {
            assert(entries_view(map@)[ki].0 != key@);
        }
    }
    None
}


/// What accepting the completed child `value` does to a collector: a list
/// appends it; a dictionary either holds it as the pending key (it must
/// then be a byte-string) or pairs it with the pending key and inserts.
pub open spec fn collector_insert_effect(c0: Collector, c1: Collector, value: Value) -> bool {
    match c0 {
        Collector::Array(a0) => c1 matches Collector::Array(a1) && a1.array@ == a0.array@.push(
            value,
        ),
        Collector::Dictionary(d0) => c1 matches Collector::Dictionary(d1) && match d0.current_key {
            None => value matches Value::ByteString(k) && d1.current_key matches Some(k2) && k2@
                == k@ && d1.map@ == d0.map@,
            Some(pk) => d1.current_key is None && entries_view(d1.map@) == dict_insert(
                entries_view(d0.map@),
                pk@,
                value,
            ),
        },
    }
}

/// An open composite: the two collector kinds behind one variant, so that a
/// decoder can stack them uniformly.
pub enum Collector {
    Array(ArrayCollector),
    Dictionary(DictionaryCollector),
}

impl Collector {
    pub open spec fn wf(&self) -> bool {
        match self {
            Collector::Array(a) => a.wf(),
            Collector::Dictionary(d) => d.wf(),
        }
    }

    /// The token byte that opened this composite.
    pub open spec fn opener(&self) -> u8 {
        match self {
            Collector::Array(_) => crate::encoding::LIST_OPEN,
            Collector::Dictionary(_) => crate::encoding::DICT_OPEN,
        }
    }

    /// All input bytes this collector accounts for, after its opener.
    pub open spec fn consumed(&self) -> Seq<u8> {
        match self {
            Collector::Array(a) => a.bytes@,
            Collector::Dictionary(d) => d.consumed(),
        }
    }

    /// Whether a dictionary key is waiting for its value.
    pub open spec fn has_pending_key(&self) -> bool {
        match self {
            Collector::Array(_) => false,
            Collector::Dictionary(d) => d.current_key is Some,
        }
    }

    /// Routes a completed child to the collector. A list accepts any
    /// child; only a dictionary offered a non-string child as a key
    /// refuses, and it is then unchanged.
    pub fn insert(&mut self, value: Value, seg: Ghost<Seq<u8>>) -> (r: Result<(), ParserError>)
        requires
            old(self).wf(),
            encodes(seg@, value),
        ensures
            match r {
                Ok(_) => final(self).wf() && final(self).opener() == old(self).opener()
                    && final(self).consumed() == old(self).consumed() + seg@
                    && collector_insert_effect(*old(self), *final(self), value),
                Err(e) => e == ParserError::StructParseError && (*old(self)
                    matches Collector::Dictionary(d) && d.current_key is None) && !(value
                    matches Value::ByteString(_)) && *final(self) == *old(self),
            },
    {
        match self {
            Collector::Array(a) => {
                a.insert(value, seg);
                Ok(())
            },
            Collector::Dictionary(d) => d.insert(value, seg),
        }
    }

    /// Finalizes the collector into its accumulated contents, by move.
    pub fn result(self) -> (r: CollectorResult)
        ensures
            match self {
                Collector::Array(a) => r matches CollectorResult::Array(v) && v == a.array,
                Collector::Dictionary(d) => r matches CollectorResult::Dictionary(m) && m == d.map,
            },
    {
        match self {
            Collector::Array(a) => CollectorResult::Array(a.array),
            Collector::Dictionary(d) => CollectorResult::Dictionary(d.map),
        }
    }
}

} // verus!
