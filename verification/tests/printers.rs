use ppbert::bertterm::BertTerm;
use ppbert::bigint::BigInt;
use ppbert::parser::BertParser;
use ppbert::pp::BertWriter;
use ppbert::pp::ErlangPrettyPrinter;
use ppbert::pp::JsonPrettyPrinter;
use ppbert::pp::PrettyPrinter;
use ppbert::pp::{is_printable, must_be_escaped};

fn format_float(bits: u64) -> Vec<u8> {
    let mut buf = ryu::Buffer::new();
    buf.format(f64::from_bits(bits)).as_bytes().to_vec()
}

fn parse_float(text: Vec<u8>) -> Option<u64> {
    let s: String = text.iter().map(|b| *b as char).collect();
    s.parse::<f64>().ok().map(f64::to_bits)
}

fn json(term: &BertTerm, transform: bool) -> String {
    let mut out = Vec::new();
    JsonPrettyPrinter::new(transform).write(term, &mut out, &format_float);
    String::from_utf8(out).unwrap()
}

fn erlang(term: &BertTerm, indent: usize, per_line: usize, terminator: &'static str) -> String {
    let mut out = Vec::new();
    ErlangPrettyPrinter::new(indent, per_line, terminator).write(term, &mut out, &format_float);
    String::from_utf8(out).unwrap()
}

fn bert(term: &BertTerm) -> Vec<u8> {
    let mut out = Vec::new();
    BertWriter::new().write(term, &mut out);
    out
}

fn decode(bytes: &[u8]) -> BertTerm {
    let mut parser = BertParser::new(bytes.to_vec());
    let term = parser.bert1_next(&parse_float).unwrap().unwrap();
    assert!(parser.eof());
    term
}

fn atom_of(name: &str) -> BertTerm {
    BertTerm::Atom(name.to_string())
}

fn big(negative: bool, digits: &[u8]) -> BertTerm {
    BertTerm::BigInt(BigInt::from_bytes_le(negative, digits))
}

#[test]
fn utils_classify_bytes() {
    assert!(is_printable(b' '));
    assert!(is_printable(b'~'));
    assert!(!is_printable(0x1f));
    assert!(!is_printable(0x7f));
    assert!(must_be_escaped(b'"'));
    assert!(must_be_escaped(b'\\'));
    assert!(!must_be_escaped(b'a'));
}

#[test]
fn json_escapes_control_bytes_and_quotes() {
    assert_eq!(json(&BertTerm::Binary(vec![0]), false), "\"\\u0000\"\n");
    assert_eq!(json(&BertTerm::String(vec![b'"']), false), "\"\\\"\"\n");
    assert_eq!(json(&BertTerm::String(b"a\\b".to_vec()), false), "\"a\\\\b\"\n");
    assert_eq!(json(&BertTerm::Binary(vec![b'x', 0xe9, 0x7f, b'y']), false), "\"x\\u00e9\\u007fy\"\n");
}

#[test]
fn json_scalars() {
    assert_eq!(json(&BertTerm::Nil, false), "[]\n");
    assert_eq!(json(&BertTerm::Int(0), false), "0\n");
    assert_eq!(json(&BertTerm::Int(-2147483648), false), "-2147483648\n");
    assert_eq!(json(&BertTerm::Int(2147483647), false), "2147483647\n");
    assert_eq!(json(&big(true, &[10]), false), "\"-10\"\n");
    assert_eq!(json(&big(false, &[0, 0, 0, 0, 1]), false), "\"4294967296\"\n");
    assert_eq!(json(&big(true, &[0, 0]), false), "\"0\"\n");
    assert_eq!(json(&BertTerm::Float(98.5f64.to_bits()), false), "98.5\n");
    assert_eq!(json(&atom_of("true"), false), "true\n");
    assert_eq!(json(&atom_of("false"), false), "false\n");
    assert_eq!(json(&atom_of("null"), false), "\"null\"\n");
    assert_eq!(json(&atom_of("truer"), false), "\"truer\"\n");
    assert_eq!(json(&atom_of("café"), false), "\"café\"\n");
}

#[test]
fn json_collections() {
    let list = BertTerm::List(vec![BertTerm::Int(1), atom_of("a"), BertTerm::Tuple(vec![])]);
    assert_eq!(json(&list, false), "[1,\"a\",[]]\n");
    let tuple = BertTerm::Tuple(vec![BertTerm::Int(1), BertTerm::Nil]);
    assert_eq!(json(&tuple, true), "[1,[]]\n");
    let map = BertTerm::Mapping(
        vec![BertTerm::Int(0), atom_of("k")],
        vec![atom_of("zero"), BertTerm::List(vec![])],
    );
    assert_eq!(json(&map, false), "{0:\"zero\",\"k\":[]}\n");
}

#[test]
fn json_proplists_become_objects_on_request() {
    let proplist = BertTerm::List(vec![
        BertTerm::Tuple(vec![atom_of("a"), BertTerm::Int(1)]),
        BertTerm::Tuple(vec![BertTerm::String(b"b".to_vec()), BertTerm::Int(2)]),
        BertTerm::Tuple(vec![BertTerm::Binary(b"c".to_vec()), BertTerm::Nil]),
    ]);
    assert_eq!(json(&proplist, true), "{\"a\":1,\"b\":2,\"c\":[]}\n");
    assert_eq!(json(&proplist, false), "[[\"a\",1],[\"b\",2],[\"c\",[]]]\n");
    let not_a_proplist = BertTerm::List(vec![
        BertTerm::Tuple(vec![atom_of("a"), BertTerm::Int(1)]),
        BertTerm::Tuple(vec![BertTerm::Int(2), BertTerm::Int(2)]),
    ]);
    assert_eq!(json(&not_a_proplist, true), "[[\"a\",1],[2,2]]\n");
    assert_eq!(json(&BertTerm::List(vec![]), true), "{}\n");
    assert_eq!(json(&BertTerm::List(vec![]), false), "[]\n");
}

#[test]
fn proplist_detection() {
    let entry = |k: BertTerm| BertTerm::Tuple(vec![k, BertTerm::Int(1)]);
    let yes = BertTerm::List(vec![
        entry(atom_of("a")),
        entry(BertTerm::String(vec![1])),
        entry(BertTerm::Binary(vec![2])),
    ]);
    assert!(yes.is_proplist());
    assert!(BertTerm::List(vec![]).is_proplist());
    assert!(!BertTerm::List(vec![entry(atom_of("a")), BertTerm::Int(3)]).is_proplist());
    assert!(!BertTerm::List(vec![entry(BertTerm::Int(3))]).is_proplist());
    assert!(!BertTerm::List(vec![BertTerm::Tuple(vec![atom_of("a")])]).is_proplist());
    assert!(!BertTerm::List(vec![BertTerm::Tuple(vec![atom_of("a"), atom_of("b"), atom_of("c")])]).is_proplist());
    assert!(!BertTerm::Tuple(vec![entry(atom_of("a"))]).is_proplist());
    assert!(!BertTerm::Nil.is_proplist());
}

#[test]
fn basic_terms() {
    assert!(BertTerm::Nil.is_basic());
    assert!(BertTerm::Int(1).is_basic());
    assert!(big(false, &[1]).is_basic());
    assert!(BertTerm::Float(0).is_basic());
    assert!(atom_of("a").is_basic());
    assert!(BertTerm::String(vec![]).is_basic());
    assert!(BertTerm::Binary(vec![]).is_basic());
    assert!(!BertTerm::List(vec![]).is_basic());
    assert!(!BertTerm::Tuple(vec![]).is_basic());
    assert!(!BertTerm::Mapping(vec![], vec![]).is_basic());
}

#[test]
fn erlang_scalars_and_strings() {
    assert_eq!(erlang(&BertTerm::Nil, 2, 4, ""), "[]\n");
    assert_eq!(erlang(&BertTerm::Int(-42), 2, 4, "."), "-42.\n");
    assert_eq!(erlang(&big(true, &[0, 1]), 2, 4, ""), "-256\n");
    assert_eq!(erlang(&BertTerm::Float((-23.5f64).to_bits()), 2, 4, ""), "-23.5\n");
    assert_eq!(erlang(&atom_of("hello"), 2, 4, ""), "hello\n");
    assert_eq!(erlang(&BertTerm::String(b"a\"b\\c".to_vec()), 2, 4, ""), "\"a\\\"b\\\\c\"\n");
    assert_eq!(erlang(&BertTerm::Binary(vec![b'a', 0, 0xff, b'~']), 2, 4, ""), "<<\"a\\x00\\xff~\">>\n");
}

#[test]
fn erlang_small_collections_stay_on_one_line() {
    let list = BertTerm::List(vec![BertTerm::Int(1), BertTerm::Int(2), atom_of("x")]);
    assert_eq!(erlang(&list, 2, 3, "."), "[1, 2, x].\n");
    let tuple = BertTerm::Tuple(vec![atom_of("ok"), BertTerm::Int(42)]);
    assert_eq!(erlang(&tuple, 2, 4, ""), "{ok, 42}\n");
    let map = BertTerm::Mapping(vec![atom_of("a"), atom_of("b")], vec![BertTerm::Int(1), BertTerm::Int(2)]);
    assert_eq!(erlang(&map, 2, 4, ""), "#{a => 1, b => 2}\n");
    assert_eq!(erlang(&BertTerm::List(vec![]), 2, 0, ""), "[]\n");
}

#[test]
fn erlang_large_or_nested_collections_take_a_line_per_element() {
    let list = BertTerm::List(vec![BertTerm::Int(1), BertTerm::Int(2), BertTerm::Int(3)]);
    assert_eq!(erlang(&list, 2, 2, ""), "[\n  1, \n  2, \n  3\n]\n");
    let nested = BertTerm::Tuple(vec![
        atom_of("ok"),
        BertTerm::List(vec![BertTerm::Int(1), BertTerm::Tuple(vec![atom_of("a")])]),
    ]);
    assert_eq!(
        erlang(&nested, 3, 4, "."),
        "{\n   ok, \n   [\n      1, \n      {a}\n   ]\n}.\n"
    );
    let map = BertTerm::Mapping(vec![atom_of("k")], vec![BertTerm::List(vec![BertTerm::Int(1)])]);
    assert_eq!(erlang(&map, 1, 4, ""), "#{\n k => [1]\n}\n");
}

#[test]
fn erlang_indentation_grows_with_every_level() {
    let printer = ErlangPrettyPrinter::new(3, 4, "");
    assert_eq!(printer.indentation(0), Vec::<u8>::new());
    assert_eq!(printer.indentation(2), vec![b' '; 6]);
    assert_eq!(printer.indentation(1365), vec![b' '; 4095]);
    assert_eq!(printer.indentation(1366), vec![b' '; 4098]);
    assert_eq!(printer.indentation(100_000), vec![b' '; 300_000]);
    assert_eq!(ErlangPrettyPrinter::new(0, 4, "").indentation(17), Vec::<u8>::new());
    assert_eq!(ErlangPrettyPrinter::new(0, 4, "").indentation(usize::MAX), Vec::<u8>::new());
    assert_eq!(ErlangPrettyPrinter::new(5000, 4, "").indentation(1), vec![b' '; 5000]);
    assert_eq!(ErlangPrettyPrinter::new(usize::MAX, 4, "").indentation(0), Vec::<u8>::new());
}

#[test]
fn erlang_wide_indentation_is_written_in_full() {
    let list = BertTerm::List(vec![BertTerm::Tuple(vec![BertTerm::Int(1)])]);
    let spaces = |n: usize| " ".repeat(n);
    let expected = format!(
        "[\n{}{{1}}\n].\n",
        spaces(5000)
    );
    assert_eq!(erlang(&list, 5000, 4, "."), expected);
    let nested = BertTerm::Tuple(vec![BertTerm::List(vec![BertTerm::List(vec![]), BertTerm::Nil])]);
    let expected = format!(
        "{{\n{}[\n{}[], \n{}[]\n{}]\n}}\n",
        spaces(3000),
        spaces(6000),
        spaces(6000),
        spaces(3000)
    );
    assert_eq!(erlang(&nested, 3000, 4, ""), expected);
}

#[test]
fn erlang_write_string_takes_any_brackets() {
    let printer = ErlangPrettyPrinter::new(2, 4, "");
    let mut out = vec![b'>'];
    printer.write_string(b"a\tb", &mut out, b"<<\"", b"\">>");
    assert_eq!(out, b"><<\"a\\x09b\">>".to_vec());
}

#[test]
fn bert_writer_picks_the_smallest_tag() {
    assert_eq!(bert(&BertTerm::Nil), vec![131, 106]);
    assert_eq!(bert(&BertTerm::Int(0)), vec![131, 97, 0]);
    assert_eq!(bert(&BertTerm::Int(255)), vec![131, 97, 255]);
    assert_eq!(bert(&BertTerm::Int(256)), vec![131, 98, 0, 0, 1, 0]);
    assert_eq!(bert(&BertTerm::Int(-1)), vec![131, 98, 255, 255, 255, 255]);
    assert_eq!(bert(&BertTerm::Int(-2147483648)), vec![131, 98, 128, 0, 0, 0]);
    assert_eq!(bert(&big(true, &[10])), vec![131, 110, 1, 1, 10]);
    assert_eq!(bert(&big(false, &[42, 0, 0])), vec![131, 110, 1, 0, 42]);
    assert_eq!(bert(&big(true, &[])), vec![131, 110, 1, 0, 0]);
    assert_eq!(
        bert(&BertTerm::Float(1.0f64.to_bits())),
        vec![131, 70, 0x3f, 0xf0, 0, 0, 0, 0, 0, 0]
    );
    assert_eq!(bert(&atom_of("ab")), vec![131, 118, 0, 2, b'a', b'b']);
    assert_eq!(bert(&atom_of("é")), vec![131, 118, 0, 2, 0xc3, 0xa9]);
    assert_eq!(bert(&BertTerm::String(b"hi".to_vec())), vec![131, 107, 0, 2, b'h', b'i']);
    assert_eq!(bert(&BertTerm::Binary(vec![1, 3, 3, 7])), vec![131, 109, 0, 0, 0, 4, 1, 3, 3, 7]);
    assert_eq!(
        bert(&BertTerm::Tuple(vec![atom_of("ok"), BertTerm::Int(42)])),
        vec![131, 104, 2, 118, 0, 2, b'o', b'k', 97, 42]
    );
    assert_eq!(
        bert(&BertTerm::List(vec![BertTerm::Int(42), BertTerm::Int(65536)])),
        vec![131, 108, 0, 0, 0, 2, 97, 42, 98, 0, 1, 0, 0, 106]
    );
    assert_eq!(
        bert(&BertTerm::Mapping(vec![BertTerm::Int(0)], vec![atom_of("z")])),
        vec![131, 116, 0, 0, 0, 1, 97, 0, 118, 0, 1, b'z']
    );
}

#[test]
fn bert_writer_uses_the_large_forms_from_256_on() {
    let tuple = BertTerm::Tuple((0..256).map(|_| BertTerm::Nil).collect());
    let bytes = bert(&tuple);
    assert_eq!(&bytes[..6], &[131, 105, 0, 0, 1, 0]);
    assert_eq!(bytes.len(), 6 + 256);
    let digits: Vec<u8> = (0..256).map(|_| 7u8).collect();
    let bytes = bert(&big(false, &digits));
    assert_eq!(&bytes[..7], &[131, 111, 0, 0, 1, 0, 0]);
    assert_eq!(&bytes[7..], &digits[..]);
}

#[test]
fn what_is_written_is_read_back() {
    let digits: Vec<u8> = (1..=255).chain(1..=45).collect();
    let terms = vec![
        BertTerm::Nil,
        BertTerm::Int(0),
        BertTerm::Int(255),
        BertTerm::Int(256),
        BertTerm::Int(-1),
        BertTerm::Int(i32::MIN),
        BertTerm::Int(i32::MAX),
        big(false, &[]),
        big(true, &[1]),
        big(false, &[0, 0, 0, 0, 0, 0, 0, 0, 1]),
        big(true, &digits),
        BertTerm::Float(3.141592f64.to_bits()),
        BertTerm::Float(f64::NAN.to_bits()),
        atom_of(""),
        atom_of("jérôme"),
        BertTerm::String(vec![]),
        BertTerm::String(vec![0, 1, 2, 255]),
        BertTerm::Binary(b"foobar".to_vec()),
        BertTerm::Tuple(vec![]),
        BertTerm::Tuple((0..300).map(BertTerm::Int).collect()),
        BertTerm::List(vec![]),
        BertTerm::List(vec![BertTerm::Nil]),
        BertTerm::List(vec![atom_of("a"), BertTerm::List(vec![BertTerm::Int(1)]), BertTerm::Nil]),
        BertTerm::Mapping(vec![], vec![]),
        BertTerm::Mapping(
            vec![BertTerm::Int(0), BertTerm::Tuple(vec![atom_of("k")])],
            vec![atom_of("zero"), BertTerm::Mapping(vec![atom_of("x")], vec![BertTerm::Nil])],
        ),
    ];
    for term in terms {
        assert_eq!(decode(&bert(&term)), term);
    }
}

#[test]
fn an_improper_list_is_written_as_a_proper_one() {
    let improper = [131, 108, 0, 0, 0, 1, 97, 1, 97, 2];
    let term = decode(&improper);
    assert_eq!(term, BertTerm::List(vec![BertTerm::Int(1), BertTerm::Int(2)]));
    assert_eq!(bert(&term), vec![131, 108, 0, 0, 0, 2, 97, 1, 97, 2, 106]);
}

#[test]
fn bigints_are_equal_when_their_values_are() {
    assert_eq!(BigInt::from_bytes_le(false, &[5, 0, 0]), BigInt::from_bytes_le(false, &[5]));
    assert_eq!(BigInt::from_bytes_le(true, &[0]), BigInt::from_bytes_le(false, &[]));
    assert!(BigInt::from_bytes_le(true, &[5]) != BigInt::from_bytes_le(false, &[5]));
    let n = BigInt::from_bytes_le(true, &[0x15, 0xcd, 0x5b, 0x07, 0, 0]);
    assert!(n.is_negative());
    assert_eq!(n.magnitude(), &vec![0x15, 0xcd, 0x5b, 0x07]);
    assert_eq!(n.to_bytes_le(), (true, vec![0x15, 0xcd, 0x5b, 0x07]));
    assert_eq!(n.to_decimal(), b"-123456789".to_vec());
    assert_eq!(n.clone(), n);
    let zero = BigInt::from_bytes_le(true, &[0, 0]);
    assert!(!zero.is_negative());
    assert_eq!(zero.to_bytes_le(), (false, vec![0]));
    assert_eq!(zero.to_decimal(), b"0".to_vec());
    let large = BigInt::from_bytes_le(false, &[0, 0, 0, 0, 0, 0, 0, 0, 0, 0, 0, 0, 0, 0, 0, 0, 1]);
    assert_eq!(large.to_decimal(), b"340282366920938463463374607431768211456".to_vec());
}
