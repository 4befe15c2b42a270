use std::sync::Arc;

use ez_bencoding::bdecode_node::BdecodeNode;
use ez_bencoding::navigate::gen_item_indexes;
use ez_bencoding::{BdecodeToken, BdecodeTokenType};

fn compact(text: &str) -> Arc<Vec<u8>> {
    Arc::new(text.replace(" ", "").into())
}

#[test]
fn bdecode_node_test_list_at() {
    // [19, "ab", {"k1": "v1", "k2": [1, 2]} ]
    let node = BdecodeNode::with_buffer(compact("l i19e 2:ab d 2:k1 2:v1 2:k2 l i1e i2e e e e")).unwrap();
    assert_eq!(19, node.list_at(0).int_value().unwrap());
    assert_eq!(19, node.list_int_value_at(0).unwrap());
    assert_eq!(b"ab", node.list_at(1).string_value().as_ref());

    let node_2 = node.list_at(2);
    assert_eq!(BdecodeTokenType::Dict, node_2.token_type());
    assert_eq!(3, node_2.token_index());
    assert_eq!(&vec![4, 6], node_2.item_indexes().as_ref());
    assert_eq!(2, node.list_at(2).len());

    assert_eq!(b"ab", node.list_string_value_at(1).as_ref());
}

#[test]
fn test_dict_at() {
    // [19, "ab", {"k1": "v1", "k2": [1, 2]} ]
    let node = BdecodeNode::with_buffer(compact("l i19e 2:ab d 2:k1 2:v1 2:k2 l i1e i2e e e e")).unwrap();
    assert_eq!(3, node.len());

    let node_2 = node.list_at(2);
    assert_eq!(2, node_2.len());

    let (key, val) = node_2.dict_at(0);
    assert_eq!(b"k1", key.string_value().as_ref());
    assert_eq!(b"v1", val.string_value().as_ref());

    let (key, val) = node_2.dict_at(1);
    assert_eq!(b"k2", key.string_value().as_ref());
    assert_eq!(7, val.token_index());
    assert_eq!(2, val.len());
    assert_eq!(&vec![8, 9], val.item_indexes().as_ref());
}

#[test]
fn bdecode_node_test_dict_find() {
    // {"k1": "v1", "k2": [1, 2], "k03": 3, "k4": {"k5": 5, "k6": 6}}
    let node = BdecodeNode::with_buffer(compact(
        "d 2:k1 2:v1 2:k2 l i1e i2e e 3:k03 i3e 2:k4 d 2:k5 i5e 2:k6 i6e e e",
    ))
    .unwrap();
    assert_eq!(4, node.len());

    let val_1 = node.dict_find(b"k1").unwrap();
    assert_eq!(b"v1", val_1.string_value().as_ref());

    let val_3 = node.dict_find(b"k03").unwrap();
    assert_eq!(3, val_3.int_value().unwrap());

    let val_2 = node.dict_find(b"k2").unwrap();
    assert_eq!(BdecodeTokenType::List, val_2.token_type());
    assert_eq!(4, val_2.token_index());
    assert_eq!(2, val_2.len());
    assert_eq!(1, val_2.list_at(0).int_value().unwrap());
    assert_eq!(2, val_2.list_at(1).int_value().unwrap());

    let v1 = node.dict_find_string_value(b"k1");
    assert_eq!(b"v1", v1.unwrap().as_ref());

    let v03 = node.dict_find_int_value(b"k03");
    assert_eq!(3, v03.unwrap());

    let v2 = node.dict_find_list(b"k2").unwrap();
    assert_eq!(5, v2[0].token_index());
    assert_eq!(6, v2[1].token_index());

    let v4 = node.dict_find_dict(b"k4").unwrap();
    let v5 = &v4.iter().find(|(k, _)| *k == b"k5").unwrap().1;
    assert_eq!(5, v5.int_value().unwrap());
    let v6 = &v4.iter().find(|(k, _)| *k == b"k6").unwrap().1;
    assert_eq!(6, v6.int_value().unwrap());
}

#[test]
fn bdecode_node_test_gen_item_indexes() {
    // 2:v1
    let v_1 = BdecodeToken::new_str(0, 1);
    let e_x = BdecodeToken::new_end(1);
    let tokens = vec![v_1, e_x];
    let rst = gen_item_indexes(&tokens, 0);
    assert_eq!(rst, (Arc::new(vec![]), 0));

    // {"k1": "v1", "k2": [1, 2], "k3": 3}
    let d_1 = BdecodeToken::new_dict(0, 11);
    let k_1 = BdecodeToken::new_str(1, 1);
    let v_1 = BdecodeToken::new_str(5, 1);
    let k_2 = BdecodeToken::new_str(9, 1);
    let l_2 = BdecodeToken::new_list(13, 4);
    let i_1 = BdecodeToken::new_int(14);
    let i_2 = BdecodeToken::new_int(17);
    let e_2 = BdecodeToken::new_end(20);
    let k_3 = BdecodeToken::new_str(21, 1);
    let i_3 = BdecodeToken::new_int(25);
    let e_1 = BdecodeToken::new_end(28);
    let e_x = BdecodeToken::new_end(29);
    let tokens = vec![d_1, k_1, v_1, k_2, l_2, i_1, i_2, e_2, k_3, i_3, e_1, e_x];
    let rst = gen_item_indexes(&tokens, 0);
    assert_eq!(rst, (Arc::new(vec![1, 3, 8]), 3));

    // [1, [2], {"k4": 4}]
    let l_1 = BdecodeToken::new_list(0, 9);
    let i_1 = BdecodeToken::new_int(1);
    let l_2 = BdecodeToken::new_list(4, 3);
    let i_2 = BdecodeToken::new_int(5);
    let e_2 = BdecodeToken::new_end(8);
    let d_3 = BdecodeToken::new_dict(9, 4);
    let k_4 = BdecodeToken::new_str(10, 1);
    let i_4 = BdecodeToken::new_int(14);
    let e_3 = BdecodeToken::new_end(17);
    let e_x = BdecodeToken::new_end(18);
    let tokens = vec![l_1, i_1, l_2, i_2, e_2, d_3, k_4, i_4, e_3, e_x];
    let rst = gen_item_indexes(&tokens, 0);
    assert_eq!(rst, (Arc::new(vec![1, 2, 5]), 3));
}

#[test]
fn bdecode_node_test_string_value() {
    let buffer: Arc<Vec<u8>> = Arc::new("11:k1000000012".into());
    let node = BdecodeNode::with_buffer(buffer).unwrap();
    assert_eq!(node.string_value().as_ref(), b"k1000000012");
}

#[test]
fn bdecode_node_test_int_value() {
    let buffer: Arc<Vec<u8>> = Arc::new("i19e".into());
    let node = BdecodeNode::with_buffer(buffer).unwrap();
    assert_eq!(node.int_value().unwrap(), 19);
}

#[test]
fn bdecode_node_test_token_type() {
    let buffer: Arc<Vec<u8>> = Arc::new("2:k1".into());
    let node = BdecodeNode::with_buffer(buffer).unwrap();
    assert_eq!(BdecodeTokenType::Str, node.token_type());
}

#[test]
fn bdecode_node_test_new_bdecode_node() {
    let node = BdecodeNode::with_buffer(Arc::new("2:k1".into())).unwrap();
    assert_eq!(2, node.tokens().len());

    let node = BdecodeNode::with_buffer(Arc::new("i19e".into())).unwrap();
    assert_eq!(2, node.tokens().len());

    let node = BdecodeNode::with_buffer(compact("l i19e 2:ab e")).unwrap();
    assert_eq!(5, node.tokens().len());
    assert_eq!(2, node.len());

    let node = BdecodeNode::with_buffer(compact("d 1:a 1:b 2:cd 3:foo 4:baro i9e e")).unwrap();
    assert_eq!(node.tokens().len(), 9);
    assert_eq!(3, node.len());

    let node = BdecodeNode::with_buffer(compact(
        "d 2:k1 2:v1 2:k2 d 2:k3 2:v3 2:k4 i9e e 2:k5 l i7e i8e e 2:k6 2:v6 e",
    ))
    .unwrap();
    assert_eq!(node.tokens().len(), 19);
    assert_eq!(4, node.len());

    let node = BdecodeNode::with_buffer(compact("d 10:k111111111 2:v1 2:k2 d 2:k3 i9e e e")).unwrap();
    assert_eq!(10, node.tokens().len());
    assert_eq!(2, node.len());

    let node = BdecodeNode::with_buffer(compact("d 2:k1 l i9e e 2:k2 i2e e")).unwrap();
    assert_eq!(9, node.tokens().len());
    assert_eq!(2, node.len());

    let node = BdecodeNode::with_buffer(compact("d 2:k1 d 2:k2 i9e e 2:k3 i3e e")).unwrap();
    assert_eq!(10, node.tokens().len());
    assert_eq!(2, node.len());

    let node = BdecodeNode::with_buffer(compact("d 2:k1 d 2:k2 d 2:k3 l i9e e e e 2:k4 1:4 e")).unwrap();
    assert_eq!(15, node.tokens().len());
    assert_eq!(2, node.len());
}
