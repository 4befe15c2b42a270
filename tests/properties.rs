use ez_bencoding::bdecode_node::BdecodeNode as FlatNode;
use ez_bencoding::tokenizer::tokenize;
use ez_bencoding::{BdecodeError, BdecodeNode, BdecodeTokenType, IBdecodeNode, Style};
use std::sync::Arc;

fn parse(text: &str) -> Result<BdecodeNode, BdecodeError> {
    BdecodeNode::parse_buffer(text.as_bytes().to_vec())
}

#[test]
fn scenario_single_int() {
    let node = parse("i19e").unwrap();
    assert_eq!(19, node.as_int().unwrap());
    let BdecodeNode::Int(inner) = &node else { panic!("not an integer") };
    assert_eq!(2, inner.tokens().len());
}

#[test]
fn scenario_single_string() {
    let node = parse("2:k1").unwrap();
    assert_eq!(b"k1", node.as_str());
    let BdecodeNode::Str(inner) = &node else { panic!("not a string") };
    assert_eq!(2, inner.tokens().len());
}

#[test]
fn scenario_list() {
    let node = parse("li19e2:abe").unwrap();
    assert_eq!(2, node.len());
    assert_eq!(19, node.list_item_as_int(0).unwrap());
    assert_eq!(b"ab", node.list_item_as_str(1));
}

#[test]
fn scenario_dict() {
    let node = parse("d1:a1:b2:cd3:foo4:baroi9ee").unwrap();
    assert_eq!(3, node.len());
    assert_eq!(b"b", node.dict_find(b"a").unwrap().as_str());
    assert_eq!(9, node.dict_find(b"baro").unwrap().as_int().unwrap());
    let BdecodeNode::Dict(inner) = &node else { panic!("not a dictionary") };
    assert_eq!(9, inner.tokens().len());
    assert!(node.dict_find(b"zz").is_none());
    assert!(node.dict_find_as_int(b"a").is_none());
    assert!(node.dict_find_as_str(b"baro").is_none());
    assert!(node.dict_find_as_list(b"a").is_none());
    assert!(node.dict_find_as_dict(b"a").is_none());
}

#[test]
fn scenario_nested_find() {
    let node = parse("d2:k12:v12:k2li1ei2ee3:k03i3e2:k4d2:k5i5e2:k6i6eee").unwrap();
    assert_eq!(4, node.len());
    let list = node.dict_find_as_list(b"k2").unwrap();
    assert_eq!(2, list.len());
    assert_eq!(1, list[0].as_int().unwrap());
    assert_eq!(2, list[1].as_int().unwrap());
    let dict = node.dict_find_as_dict(b"k4").unwrap();
    assert_eq!(2, dict.len());
    assert_eq!(b"k5", dict[0].0);
    assert_eq!(5, dict[0].1.as_int().unwrap());
    assert_eq!(b"k6", dict[1].0);
    assert_eq!(6, dict[1].1.as_int().unwrap());
}

#[test]
fn scenario_triply_nested() {
    let node = parse("d2:k1d2:k2d2:k3li9eeee2:k41:4e").unwrap();
    let inner = node.dict_find(b"k1").unwrap().dict_find(b"k2").unwrap().dict_find(b"k3").unwrap();
    assert_eq!(1, inner.len());
    assert_eq!(9, inner.list_item_as_int(0).unwrap());
    assert_eq!(b"4", node.dict_find_as_str(b"k4").unwrap());
}

#[test]
fn scenario_trailing_bytes_ignored() {
    let tokens = tokenize(b"d1:ai1eee", 100, 1000000).unwrap();
    assert_eq!(5, tokens.len());
    assert_eq!(BdecodeTokenType::End, tokens[4].node_type());
    assert_eq!(8, tokens[4].offset());
    let node = parse("d1:ai1eee").unwrap();
    assert_eq!(Some(1), node.dict_find_as_int(b"a"));
}

#[test]
fn scenario_double_minus() {
    assert!(matches!(parse("i--1e"), Err(BdecodeError::ExpectedDigit(2))));
}

#[test]
fn scenario_key_without_value() {
    assert!(matches!(parse("d1:ae"), Err(BdecodeError::ExpectedValue(4))));
}

#[test]
fn scenario_two_digit_header() {
    let tokens = tokenize(b"10:abcdefghij", 100, 1000000).unwrap();
    assert_eq!(2, tokens[0].header_size());
    assert_eq!(b"abcdefghij", parse("10:abcdefghij").unwrap().as_str());
}

#[test]
fn terminator_is_past_the_value() {
    for text in ["i19e", "2:k1", "le", "d1:ali1eee", "d1:ai1eee"] {
        let tokens = tokenize(text.as_bytes(), 100, 1000000).unwrap();
        let last = tokens[tokens.len() - 1];
        assert_eq!(BdecodeTokenType::End, last.node_type());
        let end = if text == "d1:ai1eee" { 8 } else { text.len() as u32 };
        assert_eq!(end, last.offset());
    }
}

#[test]
fn containers_skip_to_their_end() {
    let tokens = tokenize(b"d1:ali1eee", 100, 1000000).unwrap();
    // d, 1:a, l, i1e, end of list, end of dict, terminator
    assert_eq!(7, tokens.len());
    assert_eq!(6, tokens[0].next_item());
    assert_eq!(3, tokens[2].next_item());
    for (i, t) in tokens.iter().enumerate() {
        let kind = t.node_type();
        if kind == BdecodeTokenType::Dict || kind == BdecodeTokenType::List {
            let n = t.next_item() as usize;
            assert!(n >= 2);
            assert_eq!(BdecodeTokenType::End, tokens[i + n - 1].node_type());
        }
    }
}

#[test]
fn strings_span_to_next_token() {
    let buffer = b"d3:key5:valuee";
    let tokens = tokenize(buffer, 100, 1000000).unwrap();
    assert_eq!(1 + 1 + 3, tokens[2].offset() - tokens[1].offset());
    assert_eq!(1 + 1 + 5, tokens[3].offset() - tokens[2].offset());
    assert_eq!(b':', buffer[(tokens[2].offset() + tokens[2].header_size() as u32) as usize]);
}

#[test]
fn dict_keys_are_strings() {
    let node = FlatNode::with_buffer(Arc::new(b"d1:ali1ee1:bi2ee".to_vec())).unwrap();
    assert_eq!(2, node.len());
    let keys = node.item_indexes();
    assert_eq!(&vec![1, 5], keys.as_ref());
    let tokens = node.tokens();
    for k in keys.iter() {
        assert_eq!(BdecodeTokenType::Str, tokens[*k as usize].node_type());
    }
}

#[test]
fn int_round_trip_at_the_bounds() {
    assert_eq!(1000000000000000000, parse("i1000000000000000000e").unwrap().as_int().unwrap());
    assert_eq!(-1000000000000000000, parse("i-1000000000000000000e").unwrap().as_int().unwrap());
    assert_eq!(0, parse("i0e").unwrap().as_int().unwrap());
    assert_eq!(0, parse("i-0e").unwrap().as_int().unwrap());
    assert_eq!(i64::MAX, parse("i9223372036854775807e").unwrap().as_int().unwrap());
    assert_eq!(-i64::MAX, parse("i-9223372036854775807e").unwrap().as_int().unwrap());
}

#[test]
fn int_overflow_is_recoverable() {
    let node = parse("i9223372036854775808e").unwrap();
    match node.as_int() {
        Err(BdecodeError::Overflow(text)) => assert_eq!("9223372036854775808", text),
        other => panic!("unexpected {:?}", other),
    }
    let dict = parse("d1:ai99999999999999999999ee").unwrap();
    assert_eq!(None, dict.dict_find_as_int(b"a"));
    match parse("i123456789012345678901e") {
        Err(BdecodeError::Overflow(text)) => assert_eq!("123456789012345678901", text),
        other => panic!("unexpected {:?}", other),
    }
}

#[test]
fn empty_containers() {
    let dict = parse("de").unwrap();
    assert_eq!(0, dict.len());
    assert!(dict.dict_find(b"").is_none());
    assert!(dict.dict_find_as_dict(b"x").is_none());
    let list = parse("le").unwrap();
    assert_eq!(0, list.len());
    let BdecodeNode::List(inner) = &list else { panic!("not a list") };
    assert!(inner.items().is_empty());
    assert!(inner.item_indexes().is_empty());
    let wrapped = parse("d1:alee").unwrap();
    assert_eq!(Some(0), wrapped.dict_find_as_list(b"a").map(|v| v.len()));
    let wrapped = parse("d1:adee").unwrap();
    assert_eq!(Some(0), wrapped.dict_find_as_dict(b"a").map(|v| v.len()));
}

#[test]
fn depth_limit_boundary() {
    // two levels of nesting: the list, and the integer in it
    assert!(BdecodeNode::parse(b"li0ee".to_vec(), Some(2), None).is_ok());
    assert!(matches!(
        BdecodeNode::parse(b"lli0eee".to_vec(), Some(2), None),
        Err(BdecodeError::DepthExceeded(2))
    ));
    assert!(matches!(BdecodeNode::parse(b"lle".to_vec(), Some(1), None), Err(BdecodeError::DepthExceeded(1))));
    let deep = format!("{}{}", "l".repeat(99), "e".repeat(99));
    assert!(BdecodeNode::parse(deep.into_bytes(), None, None).is_ok());
    let deeper = format!("{}{}", "l".repeat(100), "e".repeat(100));
    assert!(matches!(BdecodeNode::parse(deeper.into_bytes(), None, None), Err(BdecodeError::DepthExceeded(100))));
}

#[test]
fn buffer_length_limit() {
    let too_long = vec![0u8; 1 << 29];
    assert!(matches!(BdecodeNode::parse_buffer(too_long), Err(BdecodeError::LimitExceeded(536870912))));
    let longest = vec![0u8; (1 << 29) - 1];
    assert!(matches!(BdecodeNode::parse_buffer(longest), Err(BdecodeError::ExpectedDigit(0))));
}

#[test]
fn each_error_kind() {
    assert!(matches!(parse(""), Err(BdecodeError::UnexpectedEof(0))));
    assert!(matches!(parse("e"), Err(BdecodeError::UnexpectedEof(0))));
    assert!(matches!(parse("l"), Err(BdecodeError::UnexpectedEof(1))));
    assert!(matches!(parse("5"), Err(BdecodeError::UnexpectedEof(1))));
    assert!(matches!(parse("5:ab"), Err(BdecodeError::UnexpectedEof(1))));
    assert!(matches!(parse("3x:abc"), Err(BdecodeError::ExpectedColon(1))));
    assert!(matches!(parse("12"), Err(BdecodeError::ExpectedColon(0))));
    assert!(matches!(parse("di1ei2ee"), Err(BdecodeError::ExpectedDigit(1))));
    assert!(matches!(parse("x"), Err(BdecodeError::ExpectedDigit(0))));
    assert!(matches!(parse("00000000:"), Err(BdecodeError::LimitExceeded(7))));
    assert!(matches!(
        BdecodeNode::parse(b"li1ei2ee".to_vec(), None, Some(2)),
        Err(BdecodeError::LimitExceeded(2))
    ));
    assert!(BdecodeNode::parse(b"li1ei2ee".to_vec(), None, Some(4)).is_ok());
    assert!(matches!(BdecodeNode::parse(b"i1e".to_vec(), None, Some(0)), Err(BdecodeError::LimitExceeded(0))));
    assert!(matches!(BdecodeNode::parse(b"i1e".to_vec(), Some(0), None), Err(BdecodeError::DepthExceeded(0))));
}

#[test]
fn json_compact_and_pretty() {
    let node = parse("d1:ai1ee").unwrap();
    assert_eq!("{ \"a\": 1 }", node.to_json());
    let list = parse("li1ei2ee").unwrap();
    assert_eq!("[1, 2]", list.to_json());
    assert_eq!("[\n    1,\n    2\n]", list.to_json_pretty());
    let nested = parse("d1:ali1eee").unwrap();
    assert_eq!("{\n    \"a\": [\n        1\n    ]\n}", nested.to_json_pretty());
    assert_eq!("{ \"a\": [1] }", nested.to_json());
    assert_eq!("\"a\\x22b\"", parse("3:a\"b").unwrap().to_json());
    assert_eq!("\"a b\\x04\"", parse("4:a b\x04").unwrap().to_json());
    assert_eq!("-42", parse("i-42e").unwrap().to_json());
    assert_eq!("7", parse("i007e").unwrap().to_json());
    assert_eq!("99999999999999999999", parse("i99999999999999999999e").unwrap().to_json());
    assert_eq!("{  }", parse("de").unwrap().to_json());
    assert_eq!("[]", parse("le").unwrap().to_json());
    assert_eq!("[1, 2]", list.to_json_with_style(Style::Compact));
    let BdecodeNode::Str(text) = parse("2:\x04b").unwrap() else { panic!("not a string") };
    assert_eq!("\"\\x04b\"", text.to_json_with_style(Style::Pretty(usize::MAX)));
    let BdecodeNode::Int(number) = parse("i-5e").unwrap() else { panic!("not an integer") };
    assert_eq!(-5, number.value().unwrap());
    assert_eq!(ez_bencoding::BdecodeTokenType::Int, number.token_type());
    assert_eq!(0, number.token_index());
    let BdecodeNode::Dict(d) = &node else { panic!("not a dictionary") };
    assert_eq!("{ \"a\": 1 }", d.to_json());
}

#[test]
fn duplicate_keys_find_the_first() {
    let node = parse("d1:ai1e1:ai2ee").unwrap();
    assert_eq!(2, node.len());
    assert_eq!(Some(1), node.dict_find_as_int(b"a"));
    let (k, v) = node.dict_item(1);
    assert_eq!(b"a", k.as_str());
    assert_eq!(2, v.as_int().unwrap());
}
