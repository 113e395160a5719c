use arkham_client::cardcode::Code;

#[test]
fn code_from_str_plain() {
    let c = Code::from_str("01104");
    assert_eq!(c.number, 1104);
    assert_eq!(c.letter, 0);
    assert_eq!(c.i64(), 1104);
}

#[test]
fn code_from_str_with_letter() {
    let c = Code::from_str("02214b");
    assert_eq!(c.number, 2214);
    assert_eq!(c.letter, b'b');
    assert_eq!(c.i64(), 2214 + 98 * 65536);
}

#[test]
fn code_from_undoes_i64() {
    for text in ["01104", "02214b", "00000", "65535", "12345z"] {
        let c = Code::from_str(text);
        assert!(Code::from(c.i64()) == c);
    }
}

#[test]
fn code_parse_chars_rejects_bad_codes() {
    let odd: Vec<char> = "01a04".chars().collect();
    assert!(Code::parse_chars(&odd) == Some(Code { number: 5904, letter: 0 }));
    let below: Vec<char> = "0/104".chars().collect();
    assert!(Code::parse_chars(&below).is_none());
    let wide: Vec<char> = vec!['0', '1', '\u{e9}', '0', '4'];
    assert!(Code::parse_chars(&wide).is_none());
    let big: Vec<char> = "70000".chars().collect();
    assert!(Code::parse_chars(&big).is_none());
    let ok: Vec<char> = "01104".chars().collect();
    assert!(Code::parse_chars(&ok) == Some(Code::from_str("01104")));
}

#[test]
fn code_range_in_either_order() {
    let up = Code::from_range("01104-01106");
    let down = Code::from_range("01106-01104");
    let numbers: Vec<u16> = up.iter().map(|c| c.number).collect();
    assert_eq!(numbers, vec![1104, 1105, 1106]);
    assert!(up == down);
    assert_eq!(Code::from_range("01104").len(), 1);
}

#[test]
fn code_list_of_ranges() {
    let codes = Code::from_list("01104 01110-01111");
    let numbers: Vec<u16> = codes.iter().map(|c| c.number).collect();
    assert_eq!(numbers, vec![1104, 1110, 1111]);
}

#[test]
fn code_order_number_then_letter() {
    let a = Code::from_str("01104");
    let b = Code::from_str("01105");
    let c = Code::from_str("01104b");
    assert!(a.lt(&b));
    assert!(!b.lt(&a));
    assert!(a.lt(&c));
    assert!(c.lt(&b));
    assert_eq!(a.compare(&b), std::cmp::Ordering::Less);
    assert_eq!(b.compare(&a), std::cmp::Ordering::Greater);
    assert_eq!(a.compare(&a), std::cmp::Ordering::Equal);
}

#[test]
fn code_display_pads_and_marks_letter() {
    assert_eq!(Code::from_str("1104").to_string(), "01104");
    assert_eq!(Code::from_str("02214b").to_string(), "02214c");
    assert_eq!(Code::from_str("02214a").to_string(), "02214c");
}
