use ppbert::bertterm::BertTerm;
use ppbert::config::Config;
use ppbert::error::BertError;
use ppbert::pp::ErlangPrettyPrinter;
use ppbert::pp::JsonPrettyPrinter;
use ppbert::pp::PrettyPrinter;
use ppbert::store::erlang_pp;
use ppbert::store::json_pp;
use ppbert::store::parser::BertParser;
use ppbert::store::terms::{Tag, Terms};

fn format_float(bits: u64) -> Vec<u8> {
    let mut buf = ryu::Buffer::new();
    buf.format(f64::from_bits(bits)).as_bytes().to_vec()
}

fn parse_float(text: Vec<u8>) -> Option<u64> {
    let s: String = text.iter().map(|b| *b as char).collect();
    s.parse::<f64>().ok().map(f64::to_bits)
}

fn fill(bytes: &[u8]) -> Result<Terms, BertError> {
    let mut parser = BertParser::new(bytes.to_vec());
    let mut terms = Terms::default();
    parser.bert1_next(&mut terms, &parse_float).unwrap()?;
    assert!(parser.eof());
    Ok(terms)
}

fn tree(bytes: &[u8]) -> Result<BertTerm, BertError> {
    let mut parser = ppbert::parser::BertParser::new(bytes.to_vec());
    parser.bert1_next(&parse_float).unwrap()
}

fn samples() -> Vec<Vec<u8>> {
    vec![
        vec![131, 106],
        vec![131, 97, 7],
        vec![131, 98, 255, 255, 255, 0],
        vec![131, 110, 2, 1, 0, 1],
        vec![131, 111, 0, 0, 0, 9, 0, 1, 2, 3, 4, 5, 6, 7, 8, 9],
        vec![131, 70, 0x40, 0x58, 0xa0, 0, 0, 0, 0, 0],
        b"\x83\x631.5e3\x00\x00\x00".to_vec(),
        b"\x83\x64\x00\x04caf\xe9".to_vec(),
        b"\x83\x73\x04true".to_vec(),
        b"\x83\x76\x00\x05false".to_vec(),
        b"\x83\x77\x03\xe2\x82\xac".to_vec(),
        b"\x83\x6b\x00\x06a\"b\\c\x00".to_vec(),
        b"\x83\x6d\x00\x00\x00\x03\xff\x7f ".to_vec(),
        vec![131, 104, 0],
        vec![131, 104, 2, 100, 0, 2, b'o', b'k', 97, 42],
        vec![131, 105, 0, 0, 0, 1, 104, 1, 106],
        vec![131, 108, 0, 0, 0, 0, 106],
        vec![131, 108, 0, 0, 0, 2, 97, 1, 108, 0, 0, 0, 1, 97, 2, 106, 106],
        vec![131, 108, 0, 0, 0, 1, 97, 1, 97, 2],
        vec![131, 108, 0, 0, 0, 1, 97, 1, 104, 1, 106],
        vec![131, 108, 0, 0, 0, 1, 97, 1, 108, 0, 0, 0, 0, 106],
        vec![
            131, 108, 0, 0, 0, 2, 104, 2, 100, 0, 1, b'a', 97, 1, 104, 2, 107, 0, 1, b'b', 106, 106,
        ],
        vec![131, 108, 0, 0, 0, 1, 104, 2, 100, 0, 1, b'a', 97, 1, 104, 2, 109, 0, 0, 0, 1, b'b', 97, 2],
        vec![131, 108, 0, 0, 0, 1, 104, 2, 97, 1, 97, 1, 106],
        vec![131, 116, 0, 0, 0, 0],
        vec![131, 116, 0, 0, 0, 2, 97, 0, 100, 0, 4, b'z', b'e', b'r', b'o', 97, 42, 104, 1, 97, 1],
        vec![
            131, 104, 3, 108, 0, 0, 0, 3, 97, 1, 97, 2, 97, 3, 106, 116, 0, 0, 0, 1, 100, 0, 1, b'k',
            108, 0, 0, 0, 1, 104, 2, 100, 0, 1, b'p', 106, 106, 109, 0, 0, 0, 0,
        ],
    ]
}

#[test]
fn the_store_lays_terms_out_flat() {
    let terms = fill(&[131, 104, 2, 100, 0, 2, b'o', b'k', 97, 42]).unwrap();
    assert_eq!(terms.tags.len(), 3);
    assert!(matches!(terms.tags[0], Tag::Tuple(2)));
    assert!(matches!(terms.tags[1], Tag::Atom { off: 0, len: 2 }));
    assert!(matches!(terms.tags[2], Tag::Int(42)));
    assert_eq!(terms.bytes, b"ok".to_vec());

    let terms = fill(b"\x83\x68\x03\x64\x00\x04caf\xe9\x6b\x00\x02hi\x6d\x00\x00\x00\x01\x00").unwrap();
    assert!(matches!(terms.tags[1], Tag::Atom { off: 0, len: 5 }));
    assert!(matches!(terms.tags[2], Tag::String { off: 5, len: 2 }));
    assert!(matches!(terms.tags[3], Tag::Binary { off: 7, len: 1 }));
    assert_eq!(terms.bytes, "caféhi\0".as_bytes().to_vec());
}

#[test]
fn the_store_marks_lists() {
    let terms = fill(&[131, 106]).unwrap();
    assert!(matches!(terms.tags[..], [Tag::List(0)]));
    let terms = fill(&[131, 108, 0, 0, 0, 0, 106]).unwrap();
    assert!(matches!(terms.tags[..], [Tag::Proplist(0)]));
    let terms = fill(&[131, 108, 0, 0, 0, 2, 97, 1, 97, 2, 106]).unwrap();
    assert!(matches!(terms.tags[..], [Tag::List(2), Tag::Int(1), Tag::Int(2)]));
    let terms = fill(&[131, 108, 0, 0, 0, 1, 97, 1, 97, 2]).unwrap();
    assert!(matches!(terms.tags[..], [Tag::List(2), Tag::Int(1), Tag::Int(2)]));
    let terms = fill(&[131, 108, 0, 0, 0, 1, 97, 1, 104, 1, 106]).unwrap();
    assert!(matches!(terms.tags[..], [Tag::List(2), Tag::Int(1), Tag::Tuple(1), Tag::List(0)]));
    let terms = fill(&[131, 108, 0, 0, 0, 1, 97, 1, 108, 0, 0, 0, 0, 106]).unwrap();
    assert!(matches!(terms.tags[..], [Tag::List(2), Tag::Int(1), Tag::Proplist(0)]));
    let terms = fill(&[131, 108, 0, 0, 0, 1, 104, 2, 100, 0, 1, b'a', 97, 1, 106]).unwrap();
    assert!(matches!(
        terms.tags[..],
        [Tag::Proplist(1), Tag::Tuple(2), Tag::Atom { .. }, Tag::Int(1)]
    ));
    let terms =
        fill(&[131, 108, 0, 0, 0, 1, 104, 2, 100, 0, 1, b'a', 97, 1, 104, 2, 107, 0, 0, 97, 2])
            .unwrap();
    assert!(matches!(terms.tags[0], Tag::Proplist(2)));
    let terms = fill(&[131, 108, 0, 0, 0, 1, 104, 2, 97, 1, 97, 1, 106]).unwrap();
    assert!(matches!(terms.tags[0], Tag::List(1)));
}

#[test]
fn records_know_their_kind() {
    assert!(Tag::Atom { off: 0, len: 0 }.is_proplist_key());
    assert!(Tag::String { off: 0, len: 0 }.is_proplist_key());
    assert!(Tag::Binary { off: 0, len: 0 }.is_proplist_key());
    assert!(!Tag::Int(1).is_proplist_key());
    assert!(!Tag::Tuple(2).is_proplist_key());
    assert!(Tag::Int(1).is_simple());
    assert!(Tag::Float(0).is_simple());
    assert!(Tag::List(0).is_simple());
    assert!(!Tag::List(1).is_simple());
    assert!(!Tag::Proplist(0).is_simple());
    assert!(!Tag::Tuple(0).is_simple());
    assert!(!Tag::Mapping(0).is_simple());
}

#[test]
fn the_store_is_emptied_and_filled_again() {
    let mut parser = BertParser::new(vec![131, 107, 0, 1, b'a', 131, 100, 0, 2, b'b', b'c']);
    let mut terms = Terms::default();
    assert_eq!(parser.bert1_next(&mut terms, &parse_float), Some(Ok(())));
    assert_eq!(terms.bytes, b"a".to_vec());
    terms.clear();
    assert!(terms.tags.is_empty() && terms.bytes.is_empty());
    assert_eq!(parser.bert1_next(&mut terms, &parse_float), Some(Ok(())));
    assert!(matches!(terms.tags[..], [Tag::Atom { off: 0, len: 2 }]));
    assert_eq!(terms.bytes, b"bc".to_vec());
    assert_eq!(parser.bert1_next(&mut terms, &parse_float), None);
    assert_eq!(terms.bytes, b"bc".to_vec());
    terms.push_tag(Tag::Int(3));
    assert_eq!(terms.push_bytes(b"xyz"), (2, 3));
    terms.pop_tag();
    assert_eq!(terms.tags.len(), 1);
}

#[test]
fn both_decoders_fail_alike() {
    let broken: Vec<Vec<u8>> = vec![
        vec![130, 97, 0],
        vec![131],
        vec![131, 200],
        vec![131, 104, 2, 97, 1, 200],
        vec![131, 104, 2, 97, 1],
        vec![131, 118, 0, 2, 0xc3, 0x28],
        vec![131, 99, b'x', 0],
        vec![131, 110, 3, 0, 1],
        vec![131, 108, 0, 0, 0, 1, 97, 1],
        vec![131, 108, 0, 0, 0, 1, 97],
        vec![131, 116, 0, 0, 0, 1, 97, 1],
        vec![131, 116, 0, 0, 0, 1, 97, 1, 13],
        vec![131, 107, 0, 4, b'f', b'o', b'o'],
        vec![131, 109, 0, 0],
    ];
    for bytes in broken {
        let expected = tree(&bytes).unwrap_err();
        assert_eq!(fill(&bytes).err(), Some(expected));
    }
}

#[test]
fn the_store_prints_what_the_tree_prints() {
    let mut config = Config::default();
    config.indent = 3;
    config.short_collection = 2;
    config.terminator = ";";
    for bytes in samples() {
        let term = tree(&bytes).unwrap();
        let terms = fill(&bytes).unwrap();
        for transform in [false, true] {
            config.transform_proplists = transform;
            let mut expected = Vec::new();
            JsonPrettyPrinter::new(transform).write(&term, &mut expected, &format_float);
            let mut out = Vec::new();
            json_pp::pp(&terms, &config, &mut out, &format_float);
            assert_eq!(String::from_utf8_lossy(&out), String::from_utf8_lossy(&expected));
        }
        let mut expected = Vec::new();
        ErlangPrettyPrinter::new(3, 2, ";").write(&term, &mut expected, &format_float);
        let mut out = Vec::new();
        erlang_pp::pp(&terms, &config, &mut out, &format_float);
        assert_eq!(String::from_utf8_lossy(&out), String::from_utf8_lossy(&expected));
    }
}

#[test]
fn the_store_prints_json() {
    let terms = fill(&[
        131, 108, 0, 0, 0, 2, 104, 2, 100, 0, 1, b'a', 97, 1, 104, 2, 107, 0, 1, b'b', 106, 106,
    ])
    .unwrap();
    let mut config = Config::default();
    let mut out = Vec::new();
    json_pp::pp(&terms, &config, &mut out, &format_float);
    assert_eq!(out, b"[[\"a\",1],[\"b\",[]]]\n".to_vec());
    config.transform_proplists = true;
    let mut out = Vec::new();
    json_pp::pp(&terms, &config, &mut out, &format_float);
    assert_eq!(out, b"{\"a\":1,\"b\":[]}\n".to_vec());
}

#[test]
fn the_store_prints_erlang() {
    let terms = fill(&[
        131, 104, 3, 100, 0, 2, b'o', b'k', 108, 0, 0, 0, 1, 104, 1, 106, 106, 70, 0x40, 0x58, 0xa0,
        0, 0, 0, 0, 0,
    ])
    .unwrap();
    let config = Config::default();
    let mut out = Vec::new();
    erlang_pp::pp(&terms, &config, &mut out, &format_float);
    assert_eq!(
        String::from_utf8(out).unwrap(),
        "{\n  ok, \n  [\n    {[]}\n  ], \n  98.5\n}.\n"
    );
}

#[test]
fn framing_into_the_store() {
    let mut parser = BertParser::new(vec![2, 131, 97, 1, 0x80, 0x01, 131, 106]);
    let mut terms = Terms::default();
    assert_eq!(parser.bert2_next(&mut terms, &parse_float), Some(Ok(())));
    assert_eq!(parser.bert2_next(&mut terms, &parse_float), Some(Ok(())));
    assert_eq!(parser.bert2_next(&mut terms, &parse_float), None);
    assert!(matches!(terms.tags[..], [Tag::Int(1), Tag::List(0)]));

    let mut log = vec![1, 2, 3, 4, 6, 7, 8, 9];
    for record in [[131u8, 97, 7], [131, 97, 8]] {
        log.extend_from_slice(&[0, 0, 0, 3, 0x62, 0x57, 0x4c, 0x41]);
        log.extend_from_slice(&record);
    }
    let mut parser = BertParser::new(log.clone());
    let mut terms = Terms::default();
    assert_eq!(parser.disk_log_next(&mut terms, &parse_float), Some(Ok(())));
    assert_eq!(parser.disk_log_next(&mut terms, &parse_float), Some(Ok(())));
    assert_eq!(parser.disk_log_next(&mut terms, &parse_float), None);
    assert!(matches!(terms.tags[..], [Tag::Int(7), Tag::Int(8)]));

    let mut parser = BertParser::new(log);
    assert_eq!(parser.disk_log_magic(), Ok(()));
    assert_eq!(parser.disk_log_opened_status(), Ok(()));
    let mut terms = Terms::default();
    assert_eq!(parser.disk_log_term(&mut terms, &parse_float), Ok(()));
    assert_eq!(
        parser.disk_log_magic(),
        Err(BertError::InvalidDiskLogMagic { offset: 19, actual: 3 })
    );
    assert_eq!(BertParser::new(vec![0xac, 0x02]).parse_varint(), Ok(300));
}

fn store(tags: Vec<Tag>, bytes: &[u8]) -> Terms {
    let mut terms = Terms::default();
    for tag in tags {
        terms.push_tag(tag);
    }
    terms.push_bytes(bytes);
    terms
}

#[test]
fn a_filled_store_holds_a_term() {
    for bytes in samples() {
        let terms = fill(&bytes).unwrap();
        assert_eq!(terms.check_term(0), Some(terms.tags.len()));
        assert_eq!(terms.check_term(terms.tags.len()), None);
    }
    let terms = fill(&[131, 104, 2, 104, 1, 97, 1, 106]).unwrap();
    assert_eq!(terms.check_term(0), Some(4));
    assert_eq!(terms.check_term(1), Some(3));
    assert_eq!(terms.check_term(2), Some(3));
    assert_eq!(terms.check_term(3), Some(4));
    assert!(!terms.is_property(0));
    assert!(!terms.is_property(1));
}

#[test]
fn a_store_put_together_badly_holds_none() {
    assert_eq!(Terms::default().check_term(0), None);
    assert_eq!(store(vec![Tag::Tuple(2), Tag::Int(1)], b"").check_term(0), None);
    assert_eq!(store(vec![Tag::Mapping(1), Tag::Int(1)], b"").check_term(0), None);
    assert_eq!(store(vec![Tag::Atom { off: 1, len: 3 }], b"abc").check_term(0), None);
    assert_eq!(store(vec![Tag::Atom { off: 1, len: 2 }], b"abc").check_term(0), Some(1));
    assert_eq!(store(vec![Tag::Atom { off: 0, len: 2 }], b"\xc3\x28").check_term(0), None);
    assert_eq!(store(vec![Tag::String { off: 0, len: 2 }], b"\xc3\x28").check_term(0), Some(1));
    assert_eq!(store(vec![Tag::Binary { off: 3, len: 0 }], b"abc").check_term(0), Some(1));
    assert_eq!(store(vec![Tag::Binary { off: 4, len: 0 }], b"abc").check_term(0), None);
    assert_eq!(
        store(vec![Tag::Binary { off: u32::MAX, len: u32::MAX }], b"abc").check_term(0),
        None
    );
    let property = || vec![Tag::Tuple(2), Tag::Atom { off: 0, len: 1 }, Tag::Int(1)];
    let mut tags = vec![Tag::List(1)];
    tags.extend(property());
    assert_eq!(store(tags, b"a").check_term(0), None);
    let mut tags = vec![Tag::Proplist(1)];
    tags.extend(property());
    let terms = store(tags, b"a");
    assert_eq!(terms.check_term(0), Some(4));
    assert!(terms.is_property(1));
    assert_eq!(store(vec![Tag::Proplist(1), Tag::Int(1)], b"").check_term(0), None);
    assert_eq!(store(vec![Tag::List(1), Tag::Int(1)], b"").check_term(0), Some(2));
    assert_eq!(store(vec![Tag::List(0)], b"").check_term(0), Some(1));
    assert_eq!(store(vec![Tag::Proplist(0)], b"").check_term(0), Some(1));
}

#[test]
fn no_record_follows_a_failure() {
    let mut parser = BertParser::new(vec![130, 131, 97, 0]);
    let mut terms = Terms::default();
    assert_eq!(
        parser.bert1_next(&mut terms, &parse_float),
        Some(Err(BertError::InvalidMagicNumber { offset: 0, actual: 130 }))
    );
    assert!(parser.eof());
    assert_eq!(parser.bert1_next(&mut terms, &parse_float), None);
    assert!(terms.tags.is_empty());

    let mut parser = BertParser::new(vec![0, 131, 104, 2, 97, 1, 200, 0, 131, 106]);
    let mut terms = Terms::default();
    assert_eq!(
        parser.bert2_next(&mut terms, &parse_float),
        Some(Err(BertError::InvalidTag(6, 200)))
    );
    assert_eq!(parser.bert2_next(&mut terms, &parse_float), None);

    let mut parser = BertParser::new(vec![1, 2, 3, 4, 0, 0, 0, 0, 9, 9]);
    let mut terms = Terms::default();
    assert_eq!(
        parser.disk_log_next(&mut terms, &parse_float),
        Some(Err(BertError::InvalidDiskLogOpenedStatus { offset: 4, actual: 0 }))
    );
    assert_eq!(parser.disk_log_next(&mut terms, &parse_float), None);
}
