use vstd::prelude::*;

use vstd::slice::slice_to_vec;
use vstd::string::StringSliceAdditionalSpecFns;

use crate::collector::find_key;
use crate::encoding::{
    dict_lookup, encodes_stream, entries_view, key_index, lemma_key_index_props,
    lemma_node_key_index,
};
use crate::error::TorrentError;
use crate::parser::{spec_parse, Parser};
use crate::value::{models, models_entries, models_seq, node_key_index, Node, Value};

verus! {

broadcast use vstd::seq::group_seq_axioms;

/// The dictionary key naming the tracker URL.
pub open spec fn announce_key() -> Seq<u8> {
    "announce".spec_bytes()
}

/// The dictionary key naming the producing program.
pub open spec fn created_by_key() -> Seq<u8> {
    "created by".spec_bytes()
}

/// The dictionary key holding the nested info dictionary.
pub open spec fn info_key() -> Seq<u8> {
    "info".spec_bytes()
}

/// The info key naming the payload.
pub open spec fn name_key() -> Seq<u8> {
    "name".spec_bytes()
}

/// The info key giving the payload length.
pub open spec fn length_key() -> Seq<u8> {
    "length".spec_bytes()
}

/// The info key holding the concatenated piece hashes.
pub open spec fn pieces_key() -> Seq<u8> {
    "pieces".spec_bytes()
}

/// The info key giving the piece length.
pub open spec fn piece_length_key() -> Seq<u8> {
    "piece length".spec_bytes()
}

/// Builds the runtime bytes of a key literal.
fn key_bytes(k: &str) -> (r: Vec<u8>)
    ensures
        r@ == k.spec_bytes(),
{
    slice_to_vec(k.as_bytes())
}

/// Looks a key up among dictionary entries, handing the value out by
/// reference.
pub fn dict_get<'a>(entries: &'a Vec<(Vec<u8>, Value)>, key: &Vec<u8>) -> (r: Option<&'a Value>)
    ensures
        match r {
            Some(v) => dict_lookup(entries_view(entries@), key@) == Some(*v),
            None => dict_lookup(entries_view(entries@), key@) is None,
        },
{
    proof {
        lemma_key_index_props(entries_view(entries@), key@);
    }
    match find_key(entries, key) {
        Some(i) => Some(&entries[i].1),
        None => None,
    }
}

/// The byte-string payload under `key`, when an entry of that key and type
/// is present.
pub open spec fn spec_string_field(m: Seq<(Seq<u8>, Value)>, key: Seq<u8>) -> Option<Seq<u8>> {
    match dict_lookup(m, key) {
        Some(Value::ByteString(b)) => Some(b@),
        _ => None,
    }
}

/// The integer payload under `key`, when an entry of that key and type is
/// present.
pub open spec fn spec_int_field(m: Seq<(Seq<u8>, Value)>, key: Seq<u8>) -> Option<i64> {
    match dict_lookup(m, key) {
        Some(Value::Integer(n)) => Some(n),
        _ => None,
    }
}

/// The byte-string under an ASCII key, or a parse error exactly when no
/// such entry of that type exists.
fn lookup_string(entries: &Vec<(Vec<u8>, Value)>, key: &str) -> (r: Result<Vec<u8>, TorrentError>)
    ensures
        match r {
            Ok(b) => spec_string_field(entries_view(entries@), key.spec_bytes()) == Some(b@),
            Err(e) => e == TorrentError::TorrentFileParseError && spec_string_field(
                entries_view(entries@),
                key.spec_bytes(),
            ) is None,
        },
{
    let kv = key_bytes(key);
    match dict_get(entries, &kv) {
        Some(v) => match v.as_string() {
            Ok(b) => Ok(b),
            Err(_) => Err(TorrentError::TorrentFileParseError),
        },
        None => Err(TorrentError::TorrentFileParseError),
    }
}

/// The integer under an ASCII key, or a parse error exactly when no such
/// entry of that type exists.
fn lookup_number(entries: &Vec<(Vec<u8>, Value)>, key: &str) -> (r: Result<i64, TorrentError>)
    ensures
        match r {
            Ok(n) => spec_int_field(entries_view(entries@), key.spec_bytes()) == Some(n),
            Err(e) => e == TorrentError::TorrentFileParseError && spec_int_field(
                entries_view(entries@),
                key.spec_bytes(),
            ) is None,
        },
{
    let kv = key_bytes(key);
    match dict_get(entries, &kv) {
        Some(v) => match v.as_number() {
            Ok(n) => Ok(n),
            Err(_) => Err(TorrentError::TorrentFileParseError),
        },
        None => Err(TorrentError::TorrentFileParseError),
    }
}

/// The file-level fields of a metainfo document's info dictionary.
#[derive(Debug)]
pub struct TorrentInfo {
    pub name: Vec<u8>,
    pub length: i64,
    pub pieces: Vec<u8>,
    pub piece_length: i64,
}

/// A torrent record assembled from the first decoded value of a metainfo
/// document.
#[derive(Debug)]
pub struct Torrent {
    pub announce: Vec<u8>,
    pub created_by: Vec<u8>,
    pub torrent_info: TorrentInfo,
}

/// Whether the info dictionary holds every required field, with `ti` their
/// values.
pub open spec fn spec_torrent_info_ok(m: Seq<(Seq<u8>, Value)>, ti: TorrentInfo) -> bool {
    &&& spec_string_field(m, name_key()) == Some(ti.name@)
    &&& spec_int_field(m, length_key()) == Some(ti.length)
    &&& spec_string_field(m, pieces_key()) == Some(ti.pieces@)
    &&& spec_int_field(m, piece_length_key()) == Some(ti.piece_length)
}

/// Whether the info dictionary holds every required field of the right
/// type.
pub open spec fn spec_torrent_info_extractable(m: Seq<(Seq<u8>, Value)>) -> bool {
    &&& spec_string_field(m, name_key()) is Some
    &&& spec_int_field(m, length_key()) is Some
    &&& spec_string_field(m, pieces_key()) is Some
    &&& spec_int_field(m, piece_length_key()) is Some
}

/// Whether the decoded values yield a torrent record: a first value that is
/// a dictionary with the required fields, of the right types, and a nested
/// info dictionary likewise complete.
pub open spec fn spec_torrent_extractable(vals: Seq<Value>) -> bool {
    &&& vals.len() > 0
    &&& vals[0] matches Value::Dictionary(entries) && {
        let m = entries_view(entries@);
        &&& spec_string_field(m, announce_key()) is Some
        &&& spec_string_field(m, created_by_key()) is Some
        &&& (dict_lookup(m, info_key()) matches Some(Value::Dictionary(im))
            && spec_torrent_info_extractable(entries_view(im@)))
    }
}

/// Whether `t` carries exactly the fields that the decoded values hold.
pub open spec fn spec_torrent_ok(vals: Seq<Value>, t: Torrent) -> bool {
    &&& vals.len() > 0
    &&& vals[0] matches Value::Dictionary(entries) && {
        let m = entries_view(entries@);
        &&& spec_string_field(m, announce_key()) == Some(t.announce@)
        &&& spec_string_field(m, created_by_key()) == Some(t.created_by@)
        &&& (dict_lookup(m, info_key()) matches Some(Value::Dictionary(im))
            && spec_torrent_info_ok(entries_view(im@), t.torrent_info))
    }
}


/// The shape paired with `k` in a spec-level entry run, or `None`.
pub open spec fn node_lookup(m: Seq<(Seq<u8>, Node)>, k: Seq<u8>) -> Option<Node> {
    let i = node_key_index(m, k);
    if i == -1 {
        None
    } else {
        Some(m[i].1)
    }
}

/// The byte-string shape under `key`, when present with that type.
pub open spec fn node_string_field(m: Seq<(Seq<u8>, Node)>, key: Seq<u8>) -> Option<Seq<u8>> {
    match node_lookup(m, key) {
        Some(Node::Bytes(b)) => Some(b),
        _ => None,
    }
}

/// The integer shape under `key`, when present with that type.
pub open spec fn node_int_field(m: Seq<(Seq<u8>, Node)>, key: Seq<u8>) -> Option<i64> {
    match node_lookup(m, key) {
        Some(Node::Int(n)) => Some(n),
        _ => None,
    }
}

/// Whether a decoded info dictionary shape holds every required field of
/// the right type.
pub open spec fn node_info_extractable(m: Seq<(Seq<u8>, Node)>) -> bool {
    &&& node_string_field(m, name_key()) is Some
    &&& node_int_field(m, length_key()) is Some
    &&& node_string_field(m, pieces_key()) is Some
    &&& node_int_field(m, piece_length_key()) is Some
}

/// Whether decoded shapes yield a torrent record: a first dictionary with
/// the required fields and a complete nested info dictionary.
pub open spec fn node_torrent_extractable(ns: Seq<Node>) -> bool {
    &&& ns.len() > 0
    &&& ns[0] matches Node::Dict(m) && {
        &&& node_string_field(m, announce_key()) is Some
        &&& node_string_field(m, created_by_key()) is Some
        &&& (node_lookup(m, info_key()) matches Some(Node::Dict(im)) && node_info_extractable(im))
    }
}

/// Corresponding entry runs agree on every lookup, up to `models`.
pub proof fn lemma_lookup_models(es: Seq<(Vec<u8>, Value)>, ms: Seq<(Seq<u8>, Node)>, k: Seq<u8>)
    requires
        models_entries(es, ms),
    ensures
        match (dict_lookup(entries_view(es), k), node_lookup(ms, k)) {
            (Some(v), Some(n)) => models(v, n),
            (None, None) => true,
            _ => false,
        },
{
    lemma_node_key_index(es, ms, k);
    lemma_key_index_props(entries_view(es), k);
    let i = key_index(entries_view(es), k);
    if i >= 0 {
        assert(entries_view(es)[i] == (es[i].0@, es[i].1));
        assert(es[i].0@ == ms[i].0 && models(es[i].1, ms[i].1));
    }
}

/// Runtime values and their shapes agree on whether a torrent record can
/// be extracted.
pub proof fn lemma_torrent_extractable_models(vals: Seq<Value>, ns: Seq<Node>)
    requires
        models_seq(vals, ns),
    ensures
        spec_torrent_extractable(vals) <==> node_torrent_extractable(ns),
{
    if vals.len() > 0 {
        assert(models(vals[0], ns[0]));
        match ns[0] {
            Node::Dict(m) => {
                match vals[0] {
                    Value::Dictionary(es) => {
                        lemma_lookup_models(es@, m, announce_key());
                        lemma_lookup_models(es@, m, created_by_key());
                        lemma_lookup_models(es@, m, info_key());
                        match (dict_lookup(entries_view(es@), info_key()), node_lookup(
                            m,
                            info_key(),
                        )) {
                            (Some(iv), Some(inode)) => {
                                match inode {
                                    Node::Dict(im) => {
                                        match iv {
                                            Value::Dictionary(ies) => {
                                                lemma_lookup_models(ies@, im, name_key());
                                                lemma_lookup_models(ies@, im, length_key());
                                                lemma_lookup_models(ies@, im, pieces_key());
                                                lemma_lookup_models(ies@, im, piece_length_key());
                                            },
                                            _ => {},
                                        }
                                    },
                                    _ => {},
                                }
                            },
                            _ => {},
                        }
                    },
                    _ => {},
                }
            },
            _ => {},
        }
    }
}

impl TorrentInfo {
    /// Extracts the required info fields, or fails with a parse error
    /// exactly when one is missing or has the wrong type.
    pub fn new(info: &Vec<(Vec<u8>, Value)>) -> (r: Result<TorrentInfo, TorrentError>)
        ensures
            match r {
                Ok(ti) => spec_torrent_info_ok(entries_view(info@), ti)
                    && spec_torrent_info_extractable(entries_view(info@)),
                Err(e) => e == TorrentError::TorrentFileParseError
                    && !spec_torrent_info_extractable(entries_view(info@)),
            },
    {
        let name = match lookup_string(info, "name") {
            Ok(b) => b,
            Err(e) => {
                return Err(e);
            },
        };
        let length = match lookup_number(info, "length") {
            Ok(n) => n,
            Err(e) => {
                return Err(e);
            },
        };
        let pieces = match lookup_string(info, "pieces") {
            Ok(b) => b,
            Err(e) => {
                return Err(e);
            },
        };
        let piece_length = match lookup_number(info, "piece length") {
            Ok(n) => n,
            Err(e) => {
                return Err(e);
            },
        };
        Ok(TorrentInfo { name, length, pieces, piece_length })
    }
}

impl Torrent {
    /// Decodes a metainfo byte buffer and assembles the torrent record from
    /// its first decoded value: the announce and created-by strings and the
    /// nested info dictionary. Any decode failure, missing key or wrong
    /// type is surfaced as a parse error, never as a panic.
    pub fn new(byte_data: Vec<u8>) -> (r: Result<Torrent, TorrentError>)
        ensures
            match r {
                Ok(t) => (spec_parse(byte_data@) matches Ok(ns) && node_torrent_extractable(ns))
                    && exists|vals: Seq<Value>|
                    #[trigger] encodes_stream(byte_data@, vals) && spec_torrent_ok(vals, t)
                        && spec_torrent_extractable(vals),
                Err(e) => e == TorrentError::TorrentFileParseError && match spec_parse(
                    byte_data@,
                ) {
                    Ok(ns) => !node_torrent_extractable(ns),
                    Err(_) => true,
                },
            },
    {
        let ghost input = byte_data@;
        let parser = Parser::new(byte_data);
        let data = match parser.parse() {
            Ok(vals) => vals,
            Err(_) => {
                return Err(TorrentError::TorrentFileParseError);
            },
        };
        proof {
            lemma_torrent_extractable_models(data@, spec_parse(input)->Ok_0);
        }
        match Torrent::from_values(&data) {
            Ok(t) => {
                proof {
                    assert(encodes_stream(input, data@));
                }
                Ok(t)
            },
            Err(e) => Err(e),
        }
    }

    /// Assembles the record from already-decoded values: succeeds if and
    /// only if the first value is a dictionary holding every required field
    /// with the right type.
    pub fn from_values(values: &Vec<Value>) -> (r: Result<Torrent, TorrentError>)
        ensures
            match r {
                Ok(t) => spec_torrent_ok(values@, t) && spec_torrent_extractable(values@),
                Err(e) => e == TorrentError::TorrentFileParseError && !spec_torrent_extractable(
                    values@,
                ),
            },
    {
        if values.len() == 0 {
            return Err(TorrentError::TorrentFileParseError);
        }
        let first = &values[0];
        let dict = match first.as_dictionary() {
            Ok(d) => d,
            Err(_) => {
                return Err(TorrentError::TorrentFileParseError);
            },
        };
        let announce = match lookup_string(dict, "announce") {
            Ok(b) => b,
            Err(e) => {
                return Err(e);
            },
        };
        let created_by = match lookup_string(dict, "created by") {
            Ok(b) => b,
            Err(e) => {
                return Err(e);
            },
        };
        let info_kv = key_bytes("info");
        let info_value = match dict_get(dict, &info_kv) {
            Some(v) => v,
            None => {
                return Err(TorrentError::TorrentFileParseError);
            },
        };
        let info_entries = match info_value.as_dictionary() {
            Ok(d) => d,
            Err(_) => {
                return Err(TorrentError::TorrentFileParseError);
            },
        };
        let torrent_info = match TorrentInfo::new(info_entries) {
            Ok(ti) => ti,
            Err(e) => {
                return Err(e);
            },
        };
        Ok(Torrent { announce, created_by, torrent_info })
    }
}

} // verus!
