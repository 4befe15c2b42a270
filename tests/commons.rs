use ez_bencoding::NodeType;

#[test]
fn commons_test_node_type() {
    assert_eq!(NodeType::from_bits(1), NodeType::Dict);
    assert_eq!(1, NodeType::from_bits(1) as u8);
}

#[test]
fn node_type_codes_round_trip() {
    for bits in 0u8..8 {
        let kind = NodeType::from_bits(bits);
        if (1..=5).contains(&bits) {
            assert_eq!(bits, kind.into_bits());
        } else {
            assert_eq!(NodeType::Undefined, kind);
        }
    }
}
