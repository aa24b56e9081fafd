use raig::aiger::LineParser;

#[test]
fn just_int() {
    let mut parser = LineParser::new("42".as_bytes().to_vec());
    assert_eq!(parser.parse_int(), Some(42));
    assert!(parser.rest().is_empty());
}

#[test]
fn int_with_stuff() {
    let mut parser = LineParser::new("42x".as_bytes().to_vec());
    assert_eq!(parser.parse_int(), Some(42));
    assert_eq!(parser.rest().len(), 1);
}

#[test]
fn two_ints() {
    let mut parser = LineParser::new("42 27 x".as_bytes().to_vec());
    assert_eq!(parser.parse_ints(), Some([42, 27]));
    assert_eq!(parser.rest().len(), 2);
}

#[test]
fn missing_int_is_none() {
    let mut parser = LineParser::new("x42".as_bytes().to_vec());
    assert_eq!(parser.parse_int(), None);
    assert_eq!(parser.rest().len(), 3);
}

#[test]
fn overflowing_int_is_refused() {
    let mut parser = LineParser::new("99999999999999999999999".as_bytes().to_vec());
    assert_eq!(parser.parse_int_checked(), Err(()));
}

#[test]
fn too_few_ints() {
    let mut parser = LineParser::new("1 x 3".as_bytes().to_vec());
    assert_eq!(parser.parse_ints::<3>(), None);
}

#[test]
fn word_and_whitespace() {
    let mut parser = LineParser::new("aag \t 7\n".as_bytes().to_vec());
    assert_eq!(parser.parse_word(), b"aag");
    parser.skip_whitespace();
    assert_eq!(parser.parse_int(), Some(7));
    parser.skip_whitespace();
    assert!(parser.rest().is_empty());
}

#[test]
fn clear_empties_the_buffer() {
    let mut parser = LineParser::new("12".as_bytes().to_vec());
    parser.clear();
    assert!(parser.rest().is_empty());
    assert_eq!(parser.parse_int(), None);
}
