use ppbert::bertterm::BertTerm;
use ppbert::error::BertError;
use ppbert::parser::BertParser;

fn no_floats(_text: Vec<u8>) -> Option<u64> {
    None
}

fn parse_stream(bytes: &[u8]) -> Result<Vec<BertTerm>, BertError> {
    let mut parser = BertParser::new(bytes.to_vec());
    let mut terms = Vec::new();
    while let Some(res) = parser.bert2_next(&no_floats) {
        terms.push(res?);
    }
    return Ok(terms);
}

#[test]
fn zero_terms() {
    assert!(parse_stream(&[]).is_ok());
}

#[test]
fn one_term() {
    // The length is not looked at.
    assert!(parse_stream(&[0, 131, 97, 0]).is_ok());
    assert!(parse_stream(&[0, 130, 97, 0]).is_err());
}

#[test]
fn two_terms() {
    // The length is not looked at.
    assert!(parse_stream(&[0, 131, 97, 0,
                 1, 131, 97, 0]).is_ok());
    assert!(parse_stream(&[0, 130, 97, 0,
                 1, 131, 97, 0]).is_err());
    assert!(parse_stream(&[0, 131, 97, 0,
                 1, 130, 97, 0]).is_err());
    assert!(parse_stream(&[0, 130, 97, 0,
                 1, 130, 97, 0]).is_err());
}

#[test]
fn test_varint() {
    assert_eq!(1, {
        match BertParser::new(vec![1]).parse_varint() {
            Ok(x) => x,
            Err(_) => u64::max_value(),
        }
    });

    assert_eq!(300, {
        match BertParser::new(vec![0b1010_1100, 0b0000_0010]).parse_varint() {
            Ok(x) => x,
            Err(_) => u64::max_value(),
        }
    });

    assert!(
        BertParser::new(vec![0xff, 0xff, 0xff, 0xff, 0xff, 0xff, 0xff, 0x7f])
            .parse_varint()
            .is_ok()
    );
    assert!(
        BertParser::new(vec![0xff, 0xff, 0xff, 0xff, 0xff, 0xff, 0xff, 0x80])
            .parse_varint()
            .is_err()
    );
}
