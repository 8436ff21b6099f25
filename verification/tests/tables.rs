use ppbert::bertterm::BertTerm;
use ppbert::convert::{bert2_table, write_bert2_record};
use ppbert::parsers::Bert2Parser;
use ppbert::pretty::print;

fn no_floats(_text: Vec<u8>) -> Option<u64> {
    None
}

fn format_float(bits: u64) -> Vec<u8> {
    let mut buf = ryu::Buffer::new();
    buf.format(f64::from_bits(bits)).as_bytes().to_vec()
}

fn atom_of(name: &str) -> BertTerm {
    BertTerm::Atom(name.to_string())
}

#[test]
fn a_record_is_a_length_and_a_term() {
    let mut out = vec![9];
    write_bert2_record(&BertTerm::Int(7), &mut out);
    assert_eq!(out, vec![9, 3, 131, 97, 7]);
    let mut out = Vec::new();
    write_bert2_record(&BertTerm::Binary(vec![0; 200]), &mut out);
    assert_eq!(&out[..8], &[0xce, 0x01, 131, 109, 0, 0, 0, 200]);
    assert_eq!(out.len(), 2 + 206);
}

#[test]
fn a_table_becomes_a_stream_of_records() {
    let items = vec![BertTerm::Int(1), atom_of("x"), BertTerm::Tuple(vec![BertTerm::Nil])];
    let table = BertTerm::Tuple(vec![atom_of("users"), BertTerm::List(items.clone_items())]);
    let (name, records) = bert2_table(&table).unwrap();
    assert_eq!(name, "users");
    let mut parser = Bert2Parser::new(records);
    for item in items {
        assert_eq!(parser.next(&no_floats), Some(Ok(item)));
    }
    assert_eq!(parser.next(&no_floats), None);

    let empty = BertTerm::Tuple(vec![atom_of("none"), BertTerm::List(vec![])]);
    assert_eq!(bert2_table(&empty), Some(("none".to_string(), vec![])));
}

trait CloneItems {
    fn clone_items(&self) -> Vec<BertTerm>;
}

impl CloneItems for Vec<BertTerm> {
    fn clone_items(&self) -> Vec<BertTerm> {
        let mut out = Vec::new();
        for item in self {
            let mut bytes = Vec::new();
            ppbert::pp::BertWriter::new().write(item, &mut bytes);
            out.push(ppbert::bert_parser::parse(&bytes, &no_floats).unwrap().0);
        }
        out
    }
}

#[test]
fn what_is_no_table_is_refused() {
    assert_eq!(bert2_table(&BertTerm::Int(1)), None);
    assert_eq!(bert2_table(&BertTerm::List(vec![])), None);
    assert_eq!(bert2_table(&BertTerm::Tuple(vec![atom_of("a")])), None);
    assert_eq!(bert2_table(&BertTerm::Tuple(vec![atom_of("a"), BertTerm::Nil])), None);
    assert_eq!(
        bert2_table(&BertTerm::Tuple(vec![BertTerm::Int(1), BertTerm::List(vec![])])),
        None
    );
    assert_eq!(
        bert2_table(&BertTerm::Tuple(vec![atom_of("a"), BertTerm::List(vec![]), BertTerm::Nil])),
        None
    );
}

#[test]
fn print_uses_two_spaces_and_four_terms_a_line() {
    let small = BertTerm::List((1..=4).map(BertTerm::Int).collect());
    let mut out = Vec::new();
    print(&small, 0, &mut out, &format_float);
    assert_eq!(out, b"[1, 2, 3, 4]".to_vec());
    let large = BertTerm::Tuple((1..=5).map(BertTerm::Int).collect());
    let mut out = Vec::new();
    print(&large, 1, &mut out, &format_float);
    assert_eq!(
        String::from_utf8(out).unwrap(),
        "{\n    1, \n    2, \n    3, \n    4, \n    5\n  }"
    );
}
