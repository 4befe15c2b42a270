use ez_bencoding::{BdecodeToken, BdecodeTokenType};

#[test]
fn token_test_token_type() {
    assert_eq!(BdecodeTokenType::from_bits(1), BdecodeTokenType::Dict);
    assert_eq!(1, BdecodeTokenType::from_bits(1) as u8);
}

#[test]
fn token_fields_round_trip() {
    let t = BdecodeToken::new_all(536870911, BdecodeTokenType::Str, 536870911, 7);
    assert_eq!(536870911, t.offset());
    assert_eq!(BdecodeTokenType::Str, t.node_type());
    assert_eq!(536870911, t.next_item());
    assert_eq!(7, t.header_size());

    let mut d = BdecodeToken::new_dict(12, 0);
    d.set_next_item(5);
    assert_eq!(12, d.offset());
    assert_eq!(BdecodeTokenType::Dict, d.node_type());
    assert_eq!(5, d.next_item());
    assert_eq!(0, d.header_size());

    let e = BdecodeToken::new_end(3);
    assert_eq!(1, e.next_item());
    assert_eq!(BdecodeTokenType::End, e.node_type());
}
