use ppbert::bert_parser::parse;
use ppbert::bertterm::BertTerm;
use ppbert::error::BertError;
use ppbert::parser::BertParser;

const SMALL_INTEGER_EXT: u8 = 97;
const INTEGER_EXT: u8 = 98;
const ATOM_EXT: u8 = 100;
const SMALL_TUPLE_EXT: u8 = 104;
const NIL_EXT: u8 = 106;
const STRING_EXT: u8 = 107;
const LIST_EXT: u8 = 108;
const BINARY_EXT: u8 = 109;

fn no_floats(_text: Vec<u8>) -> Option<u64> {
    None
}

/// The term that the bytes spell, and the bytes that are left over.
fn term(buf: &[u8]) -> Result<(Vec<u8>, BertTerm), BertError> {
    let mut parser = BertParser::new(buf.to_vec());
    let term = parser.bert_term(&no_floats)?;
    Ok((buf[parser.offset()..].to_vec(), term))
}

fn done(term: BertTerm) -> Result<(Vec<u8>, BertTerm), BertError> {
    Ok((vec![], term))
}

#[test]
fn test_small_integer() {
    for i in 0 .. u8::max_value() {
        let buf = &[SMALL_INTEGER_EXT, i];
        let t = term(buf);
        assert_eq!(t, done(BertTerm::Int(i as i32)));
    }
}

#[test]
fn test_integer() {
    let buf0 = &[INTEGER_EXT, 0, 0, 0, 1];
    let buf1 = &[INTEGER_EXT, 0, 0, 1, 0];
    let buf2 = &[INTEGER_EXT, 0, 1, 0, 0];
    let buf3 = &[INTEGER_EXT, 1, 0, 0, 0];

    assert_eq!(term(buf0), done(BertTerm::Int(1)));
    assert_eq!(term(buf1), done(BertTerm::Int(1 << 8)));
    assert_eq!(term(buf2), done(BertTerm::Int(1 << 16)));
    assert_eq!(term(buf3), done(BertTerm::Int(1 << 24)));
}

#[test]
fn test_atom() {
    let buf = &[ATOM_EXT, 0, 2, b'a', b'b'];
    assert_eq!(term(buf), done(BertTerm::Atom("ab".to_string())));
}

#[test]
fn test_small_tuple() {
    let buf = &[SMALL_TUPLE_EXT, 2, ATOM_EXT, 0, 2, b'o', b'k', SMALL_INTEGER_EXT, 42];
    assert_eq!(term(buf),
               done(BertTerm::Tuple(vec![BertTerm::Atom("ok".to_string()),
                                         BertTerm::Int(42)])));
}

#[test]
fn test_nil() {
    let buf = &[NIL_EXT];
    assert_eq!(term(buf), done(BertTerm::Nil));
}

#[test]
fn string_test() {
    let buf = &[STRING_EXT, 0, 5, b'h', b'e', b'l', b'l', b'o'];
    assert_eq!(term(buf),
               done(BertTerm::String(vec![104, 101, 108, 108, 111])));
}

#[test]
fn test_list() {
    let buf0 = &[
        LIST_EXT, 0, 0, 0, 2,
        SMALL_INTEGER_EXT, 42,
        INTEGER_EXT, 0, 1, 0, 0,
        NIL_EXT
    ];
    let buf1 = &[
        LIST_EXT, 0, 0, 0, 2,
        SMALL_INTEGER_EXT, 42,
        INTEGER_EXT, 0, 1, 0, 0,
        SMALL_INTEGER_EXT, 84
    ];
    assert_eq!(term(buf0), done(BertTerm::List(vec![BertTerm::Int(42), BertTerm::Int(65536)])));
    assert_eq!(term(buf1), done(BertTerm::List(vec![BertTerm::Int(42), BertTerm::Int(65536), BertTerm::Int(84)])));
}

#[test]
fn binary_test() {
    let buf = &[BINARY_EXT, 0, 0, 0, 4, 1, 3, 3, 7];
    assert_eq!(term(buf), done(BertTerm::Binary(vec![1,3,3,7])));
}

#[test]
fn parse_reads_one_term_and_tells_where_it_ends() {
    assert_eq!(parse(&[131, 97, 5, 131, 106], &no_floats), Ok((BertTerm::Int(5), 3)));
    assert_eq!(parse(&[131, 106], &no_floats), Ok((BertTerm::Nil, 2)));
    assert_eq!(
        parse(&[130, 106], &no_floats),
        Err(BertError::InvalidMagicNumber { offset: 0, actual: 130 })
    );
    assert_eq!(
        parse(&[], &no_floats),
        Err(BertError::NotEnoughData { offset: 0, needed: 1, available: 0 })
    );
    assert_eq!(parse(&[131, 99, b'1', 0], &no_floats), Err(BertError::InvalidFloat(2)));
}
