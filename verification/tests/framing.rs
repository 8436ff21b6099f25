use ppbert::bertterm::BertTerm;
use ppbert::config::Config;
use ppbert::convert::usize_to_leb128;
use ppbert::erlang::scanner::scan;
use ppbert::erlang::tokens::TokenType;
use ppbert::error::BertError;
use ppbert::parser::BertParser;
use ppbert::parsers::{Bert1Parser, Bert2Parser, DiskLogParser};

fn no_floats(_text: Vec<u8>) -> Option<u64> {
    None
}

#[test]
fn test_usize_to_leb128() {
    assert_eq!(usize_to_leb128(10), vec![0x0A]);
    assert_eq!(usize_to_leb128(300), vec![0xAC, 0x02]);
    assert_eq!(usize_to_leb128(624485), vec![0xE5, 0x8E, 0x26]);
}

#[test]
fn leb128_edges() {
    assert_eq!(usize_to_leb128(0), Vec::<u8>::new());
    assert_eq!(usize_to_leb128(127), vec![0x7f]);
    assert_eq!(usize_to_leb128(128), vec![0x80, 0x01]);
}

#[test]
fn a_written_length_prefix_is_read_back() {
    for n in [1usize, 10, 127, 128, 300, 624485, (1 << 56) - 1] {
        let mut bytes = usize_to_leb128(n);
        let len = bytes.len();
        bytes.push(0xff);
        let mut parser = BertParser::new(bytes);
        assert_eq!(parser.parse_varint(), Ok(n as u64));
        assert_eq!(parser.eat_slice(1).map(|s| s.len()), Ok(1));
        assert!(parser.eof());
        assert!(len <= 8);
    }
}

#[test]
fn varint_edges() {
    assert_eq!(BertParser::new(vec![]).parse_varint(), Ok(0));
    assert_eq!(BertParser::new(vec![0x80]).parse_varint(), Ok(0));
    assert_eq!(BertParser::new(vec![0xe5, 0x8e, 0x26]).parse_varint(), Ok(624485));
    assert_eq!(
        BertParser::new(vec![0xff, 0xff, 0xff, 0xff, 0xff, 0xff, 0xff, 0x7f]).parse_varint(),
        Ok((1 << 56) - 1)
    );
    let mut parser = BertParser::new(vec![9, 0xff, 0xff, 0xff, 0xff, 0xff, 0xff, 0xff, 0xff, 1]);
    assert_eq!(parser.eat_u8(), Ok(9));
    assert_eq!(parser.parse_varint(), Err(BertError::VarintTooLarge(1)));
}

#[test]
fn reads_report_what_is_missing() {
    let mut parser = BertParser::new(vec![1, 2, 3]);
    assert!(parser.can_read(3));
    assert!(!parser.can_read(4));
    assert_eq!(parser.peek(), Ok(1));
    assert_eq!(parser.eat_u16_be(), Ok(0x0102));
    assert_eq!(
        parser.eat_u32_be(),
        Err(BertError::NotEnoughData { offset: 2, needed: 4, available: 1 })
    );
    assert_eq!(
        parser.eat_slice(2).map(|s| s.to_vec()),
        Err(BertError::NotEnoughData { offset: 2, needed: 2, available: 1 })
    );
    assert_eq!(parser.eat_char(), Ok('\u{3}'));
    assert!(parser.eof());
    assert_eq!(parser.peek(), Err(BertError::NotEnoughData { offset: 3, needed: 1, available: 0 }));
    assert_eq!(parser.eat_u8(), Err(BertError::NotEnoughData { offset: 3, needed: 1, available: 0 }));
    assert_eq!(BertParser::new(vec![0xff, 0xff, 0xff, 0xfe]).eat_i32_be(), Ok(-2));
    assert_eq!(
        BertParser::new(vec![1, 2, 3, 4, 5, 6, 7, 8]).eat_u64_be(),
        Ok(0x0102030405060708)
    );
}

#[test]
fn decoding_errors_carry_offsets() {
    let mut parser = BertParser::new(vec![131, 104, 2, 97, 1, 200]);
    assert_eq!(
        parser.bert1_next(&no_floats),
        Some(Err(BertError::InvalidTag(5, 200)))
    );
    let mut parser = BertParser::new(vec![130, 97, 0]);
    assert_eq!(
        parser.bert1_next(&no_floats),
        Some(Err(BertError::InvalidMagicNumber { offset: 0, actual: 130 }))
    );
    let mut parser = BertParser::new(vec![131, 118, 0, 2, 0xc3, 0x28]);
    assert_eq!(parser.bert1_next(&no_floats), Some(Err(BertError::InvalidUTF8Atom(4))));
    let mut parser = BertParser::new(vec![131, 99, b'1', 0, 0]);
    assert_eq!(parser.bert1_next(&no_floats), Some(Err(BertError::InvalidFloat(2))));
    assert!(parser.eof());
    let mut parser = BertParser::new(vec![131, 110, 3, 0, 1]);
    assert_eq!(
        parser.bert1_next(&no_floats),
        Some(Err(BertError::NotEnoughData { offset: 5, needed: 1, available: 0 }))
    );
    let mut parser = BertParser::new(vec![131, 108, 0, 0, 0, 1, 97, 1]);
    assert_eq!(
        parser.bert1_next(&no_floats),
        Some(Err(BertError::NotEnoughData { offset: 8, needed: 1, available: 0 }))
    );
    let mut parser = BertParser::new(vec![131, 116, 0, 0, 0, 1, 97, 1]);
    assert_eq!(
        parser.bert1_next(&no_floats),
        Some(Err(BertError::NotEnoughData { offset: 8, needed: 1, available: 0 }))
    );
}

#[test]
fn bert1_stream() {
    let mut parser = Bert1Parser::new(vec![131, 97, 1, 131, 106]);
    assert_eq!(parser.next(&no_floats), Some(Ok(BertTerm::Int(1))));
    assert_eq!(parser.next(&no_floats), Some(Ok(BertTerm::Nil)));
    assert_eq!(parser.next(&no_floats), None);
    assert_eq!(parser.next(&no_floats), None);
}

#[test]
fn bert2_stream() {
    let mut parser = Bert2Parser::new(vec![2, 131, 97, 1, 0x80, 0x01, 131, 106]);
    assert_eq!(parser.next(&no_floats), Some(Ok(BertTerm::Int(1))));
    assert_eq!(parser.next(&no_floats), Some(Ok(BertTerm::Nil)));
    assert_eq!(parser.next(&no_floats), None);
}

fn disk_log(records: &[&[u8]], status: [u8; 4]) -> Vec<u8> {
    let mut bytes = vec![1, 2, 3, 4];
    bytes.extend_from_slice(&status);
    for record in records {
        bytes.extend_from_slice(&[0, 0, 0, record.len() as u8]);
        bytes.extend_from_slice(&[0x62, 0x57, 0x4c, 0x41]);
        bytes.extend_from_slice(record);
    }
    bytes
}

#[test]
fn disk_log_stream() {
    let bytes = disk_log(&[&[131, 97, 7], &[131, 106]], [6, 7, 8, 9]);
    let mut parser = DiskLogParser::new(bytes);
    assert_eq!(parser.next(&no_floats), Some(Ok(BertTerm::Int(7))));
    assert_eq!(parser.next(&no_floats), Some(Ok(BertTerm::Nil)));
    assert_eq!(parser.next(&no_floats), None);
    let bytes = disk_log(&[&[131, 97, 7]], [0x63, 0x58, 0x4d, 0x0b]);
    assert_eq!(DiskLogParser::new(bytes).next(&no_floats), Some(Ok(BertTerm::Int(7))));
}

#[test]
fn disk_log_errors() {
    let mut bytes = disk_log(&[&[131, 97, 7]], [6, 7, 8, 9]);
    bytes[3] = 5;
    assert_eq!(
        DiskLogParser::new(bytes).next(&no_floats),
        Some(Err(BertError::InvalidDiskLogMagic { offset: 0, actual: 0x01020305 }))
    );
    let bytes = disk_log(&[&[131, 97, 7]], [6, 7, 8, 10]);
    assert_eq!(
        DiskLogParser::new(bytes).next(&no_floats),
        Some(Err(BertError::InvalidDiskLogOpenedStatus { offset: 4, actual: 0x0607080a }))
    );
    let mut bytes = disk_log(&[&[131, 97, 7]], [6, 7, 8, 9]);
    bytes[12] = 0;
    assert_eq!(
        DiskLogParser::new(bytes).next(&no_floats),
        Some(Err(BertError::InvalidDiskLogTermMagic { offset: 12, actual: 0x00574c41 }))
    );
    let bytes = disk_log(&[&[130, 97, 7]], [6, 7, 8, 9]);
    assert_eq!(
        DiskLogParser::new(bytes).next(&no_floats),
        Some(Err(BertError::InvalidMagicNumber { offset: 16, actual: 130 }))
    );
}

#[test]
fn error_messages() {
    assert_eq!(
        BertError::InvalidMagicNumber { offset: 0, actual: 130 }.to_string(),
        "invalid magic number at offset 0: expected 0x83, found 0x82"
    );
    assert_eq!(BertError::InvalidTag(12, 7).to_string(), "invalid tag at offset 12: 0x07");
    assert_eq!(BertError::InvalidFloat(3).to_string(), "invalid float at offset 3");
    assert_eq!(
        BertError::InvalidUTF8Atom(4).to_string(),
        "UTF-8 atom is not correctly encoded at offset 4"
    );
    assert_eq!(
        BertError::InvalidLatin1Atom(5).to_string(),
        "Latin-1 atom is not correctly encoded at offset 5"
    );
    assert_eq!(
        BertError::VarintTooLarge(6).to_string(),
        "varint is too large (greater than 2^64-1) at offset 6"
    );
    assert_eq!(
        BertError::NotEnoughData { offset: 1000, needed: 4, available: 1 }.to_string(),
        "no enough data available at offset 1000: needed 4 bytes, only 1 remaining"
    );
    assert_eq!(
        BertError::InvalidDiskLogMagic { offset: 0, actual: 0xdeadbeef }.to_string(),
        "invalid disk_log magic at 0: expected 0x01020304, found 0xdeadbeef"
    );
    assert_eq!(
        BertError::InvalidDiskLogTermMagic { offset: 8, actual: 1 }.to_string(),
        "invalid disk_log term magic at offset 8: expected 0x62574c41, found 0x00000001"
    );
    assert_eq!(
        BertError::InvalidDiskLogOpenedStatus { offset: 4, actual: 0x10 }.to_string(),
        "invalid disk_log opened status at offset 4: expected 0x06070809, found 0x00000010"
    );
    assert_eq!(
        BertError::InvalidTag(usize::MAX, 255).message_bytes(),
        format!("invalid tag at offset {}: 0xff", usize::MAX).into_bytes()
    );
}

#[test]
fn default_config() {
    let config = Config::default();
    assert!(!config.transform_proplists);
    assert_eq!(config.indent, 2);
    assert_eq!(config.short_collection, 8);
    assert_eq!(config.terminator, ".");
}

#[test]
fn scanner_skips_white_space() {
    let tokens = scan("<stdin>", " \t\n  \u{a0}".chars().collect()).unwrap();
    assert_eq!(tokens.len(), 1);
    assert!(matches!(tokens[0].ty, TokenType::Eof));
    assert!(tokens[0].lexeme.is_none());
    assert_eq!((tokens[0].line, tokens[0].col), (2, 4));
    let tokens = scan("<stdin>", vec![]).unwrap();
    assert_eq!((tokens[0].line, tokens[0].col), (1, 1));
    let tokens = scan("<stdin>", vec!['\n', '\0', 'x']).unwrap();
    assert_eq!((tokens[0].line, tokens[0].col), (2, 1));
}

#[test]
fn scanner_rejects_other_characters() {
    let err = scan("file.erl", "\n\n  x".chars().collect()).unwrap_err();
    assert_eq!(err.filename, "file.erl");
    assert_eq!(err.message, "unknown character");
    assert_eq!((err.line, err.col), (3, 3));
}

#[test]
fn a_stream_ends_at_its_first_error() {
    let mut parser = Bert1Parser::new(vec![130, 97, 1, 131, 106]);
    assert_eq!(
        parser.next(&no_floats),
        Some(Err(BertError::InvalidMagicNumber { offset: 0, actual: 130 }))
    );
    assert_eq!(parser.next(&no_floats), None);
    assert_eq!(parser.next(&no_floats), None);

    let mut parser = Bert2Parser::new(vec![0, 131, 97, 1, 0, 131, 200, 0, 131, 106]);
    assert_eq!(parser.next(&no_floats), Some(Ok(BertTerm::Int(1))));
    assert_eq!(parser.next(&no_floats), Some(Err(BertError::InvalidTag(6, 200))));
    assert_eq!(parser.next(&no_floats), None);

    let mut parser = DiskLogParser::new(vec![1, 2, 3, 4, 0, 0, 0, 0, 9, 9]);
    assert_eq!(
        parser.next(&no_floats),
        Some(Err(BertError::InvalidDiskLogOpenedStatus { offset: 4, actual: 0 }))
    );
    assert_eq!(parser.next(&no_floats), None);
}

#[test]
fn no_term_follows_a_failure() {
    let mut parser = BertParser::new(vec![130, 131, 97, 0]);
    assert_eq!(
        parser.bert1_next(&no_floats),
        Some(Err(BertError::InvalidMagicNumber { offset: 0, actual: 130 }))
    );
    assert!(parser.eof());
    assert_eq!(parser.bert1_next(&no_floats), None);
    assert_eq!(parser.bert1_next(&no_floats), None);

    let mut parser = BertParser::new(vec![131, 104, 2, 97, 1, 200, 131, 97, 0]);
    assert_eq!(parser.bert1_next(&no_floats), Some(Err(BertError::InvalidTag(5, 200))));
    assert_eq!(parser.bert1_next(&no_floats), None);

    let mut parser = BertParser::new(vec![3, 131, 97, 1, 3, 130, 97, 2, 3, 131, 97, 3]);
    assert_eq!(parser.bert2_next(&no_floats), Some(Ok(BertTerm::Int(1))));
    assert_eq!(
        parser.bert2_next(&no_floats),
        Some(Err(BertError::InvalidMagicNumber { offset: 5, actual: 130 }))
    );
    assert_eq!(parser.bert2_next(&no_floats), None);

    let mut parser =
        BertParser::new(vec![0xff, 0xff, 0xff, 0xff, 0xff, 0xff, 0xff, 0xff, 0, 131, 97, 1]);
    assert_eq!(parser.bert2_next(&no_floats), Some(Err(BertError::VarintTooLarge(0))));
    assert_eq!(parser.bert2_next(&no_floats), None);

    let mut log = disk_log(&[&[131, 200], &[131, 97, 7]], [6, 7, 8, 9]);
    let mut parser = BertParser::new(log.clone());
    assert_eq!(parser.disk_log_next(&no_floats), Some(Err(BertError::InvalidTag(17, 200))));
    assert_eq!(parser.disk_log_next(&no_floats), None);
    log[0] = 9;
    let mut parser = BertParser::new(log);
    assert_eq!(
        parser.disk_log_next(&no_floats),
        Some(Err(BertError::InvalidDiskLogMagic { offset: 0, actual: 0x09020304 }))
    );
    assert_eq!(parser.disk_log_next(&no_floats), None);

    let mut parser = BertParser::new(vec![1, 2, 3]);
    assert_eq!(parser.eat_u8(), Ok(1));
    parser.skip_to_end();
    assert!(parser.eof());
    assert_eq!(parser.peek(), Err(BertError::NotEnoughData { offset: 3, needed: 1, available: 0 }));
}

#[test]
fn white_space_is_what_unicode_says() {
    let listed = |c: char| {
        let code = c as u32;
        (0x09..=0x0d).contains(&code)
            || [0x20, 0x85, 0xa0, 0x1680, 0x2028, 0x2029, 0x202f, 0x205f, 0x3000].contains(&code)
            || (0x2000..=0x200a).contains(&code)
    };
    for code in 0..=0x10ffff_u32 {
        if let Some(c) = char::from_u32(code) {
            let scanned = scan("<all>", vec![c]);
            assert_eq!(scanned.is_ok(), listed(c) || c == '\0', "U+{:04X}", code);
        }
    }
}
