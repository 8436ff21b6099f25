use ppbert::bertterm::BertTerm;
use ppbert::bigint::BigInt;
use ppbert::config::Config;
use ppbert::parser::BertParser;
use ppbert::pp::BertWriter;
use ppbert::pp::ErlangPrettyPrinter;
use ppbert::pp::JsonPrettyPrinter;
use ppbert::pp::PrettyPrinter;
use ppbert::store::erlang_pp;
use ppbert::store::json_pp;
use ppbert::store::terms::Terms;

struct Dice(u64);

impl Dice {
    fn roll(&mut self, sides: u64) -> u64 {
        self.0 = self.0.wrapping_mul(6364136223846793005).wrapping_add(1442695040888963407);
        (self.0 >> 33) % sides
    }

    fn bytes(&mut self, most: u64) -> Vec<u8> {
        let len = self.roll(most + 1);
        (0..len).map(|_| self.roll(256) as u8).collect()
    }

    fn name(&mut self) -> String {
        let len = self.roll(6);
        (0..len)
            .map(|_| ['a', 'Z', '_', 'é', '€', '"', '\\', ' ', '0'][self.roll(9) as usize])
            .collect()
    }

    fn terms(&mut self, most: u64, depth: u32) -> Vec<BertTerm> {
        let len = self.roll(most + 1);
        (0..len).map(|_| self.term(depth)).collect()
    }

    fn term(&mut self, depth: u32) -> BertTerm {
        let kinds = if depth == 0 { 7 } else { 11 };
        match self.roll(kinds) {
            0 => BertTerm::Nil,
            1 => BertTerm::Int(self.roll(1 << 32) as u32 as i32),
            2 => BertTerm::Int(self.roll(300) as i32 - 20),
            3 => BertTerm::BigInt(BigInt::from_bytes_le(self.roll(2) == 1, &self.bytes(12))),
            4 => BertTerm::Float(((self.roll(1 << 32) << 32) | self.roll(1 << 32)) & !(0x7ff << 52)),
            5 => BertTerm::Atom(self.name()),
            6 => {
                if self.roll(2) == 0 {
                    BertTerm::String(self.bytes(8))
                } else {
                    BertTerm::Binary(self.bytes(8))
                }
            }
            7 => BertTerm::Tuple(self.terms(4, depth - 1)),
            8 => BertTerm::List(self.terms(4, depth - 1)),
            9 => {
                let len = self.roll(4);
                BertTerm::List(
                    (0..len)
                        .map(|_| {
                            BertTerm::Tuple(vec![BertTerm::Atom(self.name()), self.term(depth - 1)])
                        })
                        .collect(),
                )
            }
            _ => {
                let len = self.roll(4);
                let keys = (0..len).map(|_| self.term(depth - 1)).collect();
                let vals = (0..len).map(|_| self.term(depth - 1)).collect();
                BertTerm::Mapping(keys, vals)
            }
        }
    }
}

fn format_float(bits: u64) -> Vec<u8> {
    let mut buf = ryu::Buffer::new();
    buf.format(f64::from_bits(bits)).as_bytes().to_vec()
}

fn no_floats(_text: Vec<u8>) -> Option<u64> {
    None
}

#[test]
fn written_terms_are_read_back_and_print_alike() {
    let mut dice = Dice(2026);
    let mut config = Config::default();
    for round in 0..400 {
        let term = dice.term(3);
        let mut bytes = Vec::new();
        BertWriter::new().write(&term, &mut bytes);

        let mut parser = BertParser::new(bytes.clone());
        match parser.bert1_next(&no_floats) {
            Some(Ok(decoded)) => assert_eq!(decoded, term),
            other => panic!("{:?}", other),
        }
        assert!(parser.eof());

        let mut flat = ppbert::store::parser::BertParser::new(bytes);
        let mut terms = Terms::default();
        assert_eq!(flat.bert1_next(&mut terms, &no_floats), Some(Ok(())));
        assert_eq!(terms.check_term(0), Some(terms.tags.len()));

        config.transform_proplists = round % 2 == 0;
        config.indent = round % 5;
        config.short_collection = round % 4;
        let mut expected = Vec::new();
        JsonPrettyPrinter::new(config.transform_proplists).write(&term, &mut expected, &format_float);
        let mut out = Vec::new();
        json_pp::pp(&terms, &config, &mut out, &format_float);
        assert_eq!(out, expected);

        let mut expected = Vec::new();
        ErlangPrettyPrinter::new(config.indent, config.short_collection, ".")
            .write(&term, &mut expected, &format_float);
        let mut out = Vec::new();
        erlang_pp::pp(&terms, &config, &mut out, &format_float);
        assert_eq!(out, expected);
    }
}
