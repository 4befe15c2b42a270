use ez_bencoding::{BdecodeNode, IBdecodeNode};

fn compact(text: &str) -> Vec<u8> {
    text.replace(" ", "").into()
}

#[test]
fn test_print() {
    // {"\x04b": "v\x02", "k2": {"k3": "v3", "k4": 9}, "k5": [7, {"b1": "bb"}], "k6": "v6"}
    let buffer = b"d 2:\x04b 2:v\x02 2:k2 d 2:k3 2:v3 2:k4 i9e e 2:k5 l i7e d 2:b1 2:bb e e 2:k6 2:v6 e"
        .iter()
        .filter(|v| **v != b' ')
        .cloned()
        .collect::<Vec<_>>();
    let node = BdecodeNode::parse_buffer(buffer).unwrap();
    println!("{}", &node.to_json_pretty());
    println!("{}", &node.to_json());
}

#[test]
fn decode_test_new_bdecode_node() {
    let node = BdecodeNode::parse_buffer("2:k1".into()).unwrap();
    let BdecodeNode::Str(node) = node else {
        panic!("not a Str node");
    };
    assert_eq!(2, node.tokens().len());

    let node = BdecodeNode::parse_buffer("i19e".into()).unwrap();
    let BdecodeNode::Int(node) = node else {
        panic!("not a Int node");
    };
    assert_eq!(2, node.tokens().len());

    let node = BdecodeNode::parse_buffer(compact("l i19e 2:ab e")).unwrap();
    let BdecodeNode::List(node) = node else {
        panic!("not a List node");
    };
    assert_eq!(5, node.tokens().len());
    assert_eq!(2, node.len());

    let node = BdecodeNode::parse_buffer(compact("d 1:a 1:b 2:cd 3:foo 4:baro i9e e")).unwrap();
    let BdecodeNode::Dict(node) = node else {
        panic!("not a Dict node");
    };
    assert_eq!(node.tokens().len(), 9);
    assert_eq!(3, node.len());

    let node = BdecodeNode::parse_buffer(compact(
        "d 2:k1 2:v1 2:k2 d 2:k3 2:v3 2:k4 i9e e 2:k5 l i7e i8e e 2:k6 2:v6 e",
    ))
    .unwrap();
    let BdecodeNode::Dict(node) = node else {
        panic!("not a Dict node");
    };
    assert_eq!(node.tokens().len(), 19);
    assert_eq!(4, node.len());

    let node = BdecodeNode::parse_buffer(compact("d 10:k111111111 2:v1 2:k2 d 2:k3 i9e e e")).unwrap();
    let BdecodeNode::Dict(node) = node else {
        panic!("not a Dict node");
    };
    assert_eq!(10, node.tokens().len());
    assert_eq!(2, node.len());

    let node = BdecodeNode::parse_buffer(compact("d 2:k1 l i9e e 2:k2 i2e e")).unwrap();
    let BdecodeNode::Dict(node) = node else {
        panic!("not a Dict node");
    };
    assert_eq!(9, node.tokens().len());
    assert_eq!(2, node.len());

    let node = BdecodeNode::parse_buffer(compact("d 2:k1 d 2:k2 i9e e 2:k3 i3e e")).unwrap();
    let BdecodeNode::Dict(node) = node else {
        panic!("not a Dict node");
    };
    assert_eq!(10, node.tokens().len());
    assert_eq!(2, node.len());

    let node = BdecodeNode::parse_buffer(compact("d 2:k1 d 2:k2 d 2:k3 l i9e e e e 2:k4 1:4 e")).unwrap();
    let BdecodeNode::Dict(node) = node else {
        panic!("not a Dict node");
    };
    assert_eq!(15, node.tokens().len());
    assert_eq!(2, node.len());
}

#[test]
fn decode_test_list_at() {
    // [19, "ab", {"k1": "v1", "k2": [1, 2]} ]
    let node = BdecodeNode::parse_buffer(compact("l i19e 2:ab d 2:k1 2:v1 2:k2 l i1e i2e e e e")).unwrap();
    assert_eq!(19, node.list_item(0).as_int().unwrap());
    assert_eq!(19, node.list_item_as_int(0).unwrap());
    assert_eq!(b"ab", node.list_item(1).as_str().as_ref());

    let node_2 = node.list_item(2);
    assert!(matches!(node_2, BdecodeNode::Dict(_)));
    assert_eq!(2, node.list_item(2).len());

    assert_eq!(b"ab", node.list_item_as_str(1).as_ref());
}

#[test]
fn test_dict_item() {
    // [19, "ab", {"k1": "v1", "k2": [1, 2]} ]
    let node = BdecodeNode::parse_buffer(compact("l i19e 2:ab d 2:k1 2:v1 2:k2 l i1e i2e e e e")).unwrap();
    assert_eq!(3, node.len());

    let node_2 = node.list_item(2);
    assert_eq!(2, node_2.len());

    let (key, val) = node_2.dict_item(0);
    assert_eq!(b"k1", key.as_str().as_ref());
    assert_eq!(b"v1", val.as_str().as_ref());

    let (key, val) = node_2.dict_item(1);
    assert_eq!(b"k2", key.as_str().as_ref());
    let BdecodeNode::List(val) = val else {
        panic!("not a List node");
    };
    assert_eq!(7, val.token_index());
    assert_eq!(2, val.len());
    assert_eq!(&vec![8, 9], val.item_indexes().as_ref());
}

#[test]
fn decode_test_dict_find() {
    // {"k1": "v1", "k2": [1, 2], "k03": 3, "k4": {"k5": 5, "k6": 6}}
    let node = BdecodeNode::parse_buffer(compact(
        "d 2:k1 2:v1 2:k2 l i1e i2e e 3:k03 i3e 2:k4 d 2:k5 i5e 2:k6 i6e e e",
    ))
    .unwrap();
    assert_eq!(4, node.len());

    let val_1 = node.dict_find(b"k1").unwrap();
    assert_eq!(b"v1", val_1.as_str().as_ref());

    let val_3 = node.dict_find(b"k03").unwrap();
    assert_eq!(3, val_3.as_int().unwrap());

    let val_2 = node.dict_find(b"k2").unwrap();
    assert!(matches!(val_2, BdecodeNode::List(_)));
    let BdecodeNode::List(val_2) = val_2 else {
        panic!("not a List node");
    };
    assert_eq!(4, val_2.token_index());
    assert_eq!(2, val_2.len());
    assert_eq!(1, val_2.item(0).as_int().unwrap());
    assert_eq!(2, val_2.item(1).as_int().unwrap());

    let v1 = node.dict_find_as_str(b"k1");
    assert_eq!(b"v1", v1.unwrap().as_ref());

    let v03 = node.dict_find_as_int(b"k03");
    assert_eq!(3, v03.unwrap());

    let v2 = node.dict_find_as_list(b"k2").unwrap();
    let BdecodeNode::Int(v2_0) = &v2[0] else {
        panic!("not a Int node");
    };
    assert_eq!(5, v2_0.token_index());
    let BdecodeNode::Int(v2_1) = &v2[1] else {
        panic!("not a Int node");
    };
    assert_eq!(6, v2_1.token_index());

    let v4 = node.dict_find_as_dict(b"k4").unwrap();
    let v5 = &v4.iter().find(|(k, _)| *k == b"k5").unwrap().1;
    assert_eq!(5, v5.as_int().unwrap());
    let v6 = &v4.iter().find(|(k, _)| *k == b"k6").unwrap().1;
    assert_eq!(6, v6.as_int().unwrap());
}

#[test]
fn decode_test_string_value() {
    let node = BdecodeNode::parse_buffer("11:k1000000012".into()).unwrap();
    assert_eq!(node.as_str().as_ref(), b"k1000000012");
}

#[test]
fn decode_test_int_value() {
    let node = BdecodeNode::parse_buffer("i19e".into()).unwrap();
    assert_eq!(node.as_int().unwrap(), 19);
}

#[test]
fn decode_test_node_type() {
    let node = BdecodeNode::parse_buffer("2:k1".into()).unwrap();
    assert!(matches!(node, BdecodeNode::Str(_)))
}
