use bencode::collector::{ArrayCollector, Collector, CollectorResult, DictionaryCollector};
use bencode::error::{ParserError, TorrentError};
use bencode::parser::{decode_number, decode_string};
use bencode::torrent::Torrent;
use bencode::value::Value;

#[test]
fn accessors_on_matching_variants() {
    assert_eq!(
        Value::ByteString(b"abc".to_vec()).as_string().unwrap(),
        b"abc".to_vec()
    );
    assert_eq!(Value::Integer(7).as_number().unwrap(), 7);
    let list = Value::List(vec![Value::Integer(1)]);
    assert_eq!(list.as_array().unwrap(), &vec![Value::Integer(1)]);
    let dict = Value::Dictionary(vec![(b"k".to_vec(), Value::Integer(2))]);
    assert_eq!(
        dict.as_dictionary().unwrap(),
        &vec![(b"k".to_vec(), Value::Integer(2))]
    );
}

#[test]
fn accessors_on_wrong_variants_fail_without_panicking() {
    let number = Value::Integer(5);
    let failure = number.as_string().unwrap_err();
    assert_eq!(failure.kind, ParserError::ValueDataExtractionError);
    assert_eq!(failure.context, "an integer");
    assert_eq!(
        number.as_array().unwrap_err().kind,
        ParserError::ValueDataExtractionError
    );
    assert_eq!(
        number.as_dictionary().unwrap_err().kind,
        ParserError::ValueDataExtractionError
    );
    let text = Value::ByteString(Vec::new());
    let failure = text.as_number().unwrap_err();
    assert_eq!(failure.kind, ParserError::ValueDataExtractionError);
    assert_eq!(failure.context, "a byte string");
}

#[test]
fn extraction_errors_name_the_actual_variant() {
    assert_eq!(
        Value::List(Vec::new()).as_number().unwrap_err().context,
        "a list"
    );
    assert_eq!(
        Value::Dictionary(Vec::new()).as_string().unwrap_err().context,
        "a dictionary"
    );
    assert_eq!(Value::Integer(0).kind_name(), "an integer");
}

#[test]
fn decode_string_directly() {
    let input = b"4:spamrest".to_vec();
    assert_eq!(
        decode_string(&input, 0),
        Ok((b"spam".to_vec(), 6))
    );
    let short = b"9:ab".to_vec();
    assert_eq!(decode_string(&short, 0), Err(ParserError::StringParseError));
}

#[test]
fn decode_number_directly() {
    let input = b"i-307e".to_vec();
    assert_eq!(decode_number(&input, 0), Ok((-307, 6)));
    let plus = b"i+12e".to_vec();
    assert_eq!(decode_number(&plus, 0), Ok((12, 5)));
    let bad = b"i1".to_vec();
    assert_eq!(decode_number(&bad, 0), Err(ParserError::NumberParseError));
}

#[test]
fn collectors_finalize_by_move() {
    let empty_list = Collector::Array(ArrayCollector::new()).result();
    match empty_list {
        CollectorResult::Array(items) => assert!(items.is_empty()),
        CollectorResult::Dictionary(_) => panic!("expected an array result"),
    }
    let empty_dict = Collector::Dictionary(DictionaryCollector::new()).result();
    match empty_dict {
        CollectorResult::Dictionary(entries) => assert!(entries.is_empty()),
        CollectorResult::Array(_) => panic!("expected a dictionary result"),
    }
}

fn sample_metainfo() -> Vec<u8> {
    b"d8:announce3:url10:created by2:me4:infod4:name2:fn6:lengthi5e6:pieces2:ab12:piece lengthi2eee"
        .to_vec()
}

#[test]
fn torrent_from_metainfo_bytes() {
    let torrent = Torrent::new(sample_metainfo()).unwrap();
    assert_eq!(torrent.announce, b"url".to_vec());
    assert_eq!(torrent.created_by, b"me".to_vec());
    assert_eq!(torrent.torrent_info.name, b"fn".to_vec());
    assert_eq!(torrent.torrent_info.length, 5);
    assert_eq!(torrent.torrent_info.pieces, b"ab".to_vec());
    assert_eq!(torrent.torrent_info.piece_length, 2);
}

#[test]
fn torrent_missing_key_is_a_parse_error() {
    // no announce entry
    let bytes = b"d4:infod4:name2:fn6:lengthi5e6:pieces2:ab12:piece lengthi2eee".to_vec();
    assert!(matches!(
        Torrent::new(bytes),
        Err(TorrentError::TorrentFileParseError)
    ));
    // announce holds an integer instead of a string
    let wrong_type = b"d8:announcei1e10:created by2:me4:infod4:name2:fn6:lengthi5e6:pieces2:ab12:piece lengthi2eee".to_vec();
    assert!(matches!(
        Torrent::new(wrong_type),
        Err(TorrentError::TorrentFileParseError)
    ));
    // not bencode at all
    assert!(matches!(
        Torrent::new(b"xyz".to_vec()),
        Err(TorrentError::TorrentFileParseError)
    ));
    // a top-level value that is not a dictionary
    assert!(matches!(
        Torrent::new(b"i1e".to_vec()),
        Err(TorrentError::TorrentFileParseError)
    ));
}

#[test]
fn torrent_error_messages() {
    assert_eq!(
        TorrentError::TorrentFileReadError.message(),
        "Torrent file read error"
    );
    assert_eq!(
        TorrentError::TorrentFileParseError.message(),
        "Torrent file parse error"
    );
}
