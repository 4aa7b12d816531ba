use huffmanrs::{CodeTable, FrequencyTable, Huffman, HuffmanNode};

fn leaf(c: char, f: u32) -> Option<Box<HuffmanNode>> {
    Some(Box::new(HuffmanNode::new(Some(c), f, None, None)))
}

#[test]
fn frequency_table_hello_world() {
    let table = Huffman::build_frequency_table("hello world");
    assert_eq!(table.get('h'), Some(1));
    assert_eq!(table.get('e'), Some(1));
    assert_eq!(table.get('l'), Some(3));
    assert_eq!(table.get('o'), Some(2));
    assert_eq!(table.get('w'), Some(1));
    assert_eq!(table.get('r'), Some(1));
    assert_eq!(table.get('d'), Some(1));
    assert_eq!(table.get(' '), Some(1));
    assert_eq!(table.get('z'), None);
    assert_eq!(table.len(), 8);
}

#[test]
fn frequency_table_empty_text() {
    let table = Huffman::build_frequency_table("");
    assert_eq!(table.len(), 0);
    assert_eq!(Huffman::build_huffman_tree(&table).is_none(), true);
}

#[test]
fn frequency_table_insert_replaces() {
    let mut table = FrequencyTable::new();
    table.insert('a', 4);
    table.insert('b', 1);
    table.insert('a', 7);
    assert_eq!(table.get('a'), Some(7));
    assert_eq!(table.get('b'), Some(1));
    assert_eq!(table.len(), 2);
}

#[test]
fn huffman_tree_of_four_characters() {
    let mut table = FrequencyTable::new();
    table.insert('a', 5);
    table.insert('b', 2);
    table.insert('c', 1);
    table.insert('d', 3);
    let root = Huffman::build_huffman_tree(&table).unwrap();
    assert_eq!(root.character(), None);
    assert_eq!(root.frequency(), 11);
    let left = root.left().unwrap();
    assert_eq!(left.character(), Some('a'));
    assert_eq!(left.frequency(), 5);
    let right = root.right().unwrap();
    assert_eq!(right.character(), None);
    assert_eq!(right.frequency(), 6);
}

#[test]
fn huffman_tree_of_one_character_is_a_leaf() {
    let mut table = FrequencyTable::new();
    table.insert('x', 4);
    let root = Huffman::build_huffman_tree(&table).unwrap();
    assert_eq!(root.character(), Some('x'));
    assert_eq!(root.frequency(), 4);
    assert!(root.left().is_none());
    assert!(root.right().is_none());
}

#[test]
fn code_table_skips_missing_child() {
    let inner = HuffmanNode::new(None, 1, leaf('a', 2), leaf('b', 1));
    let root = HuffmanNode::new(None, 1, Some(Box::new(inner)), None);
    let mut table = CodeTable::new();
    Huffman::build_code_table(&root, String::new(), &mut table);
    assert_eq!(table.get('a'), Some(&"00".to_string()));
    assert_eq!(table.get('b'), Some(&"01".to_string()));
    assert_eq!(table.len(), 2);
}

#[test]
fn code_table_after_prefix() {
    let root = HuffmanNode::new(None, 3, leaf('a', 1), leaf('b', 2));
    let mut table = CodeTable::new();
    Huffman::build_code_table(&root, "1".to_string(), &mut table);
    assert_eq!(table.get('a'), Some(&"10".to_string()));
    assert_eq!(table.get('b'), Some(&"11".to_string()));
}

#[test]
fn encode_text_with_table() {
    let mut table = CodeTable::new();
    table.insert('a', "0".to_string());
    table.insert('b', "1".to_string());
    assert_eq!(Huffman::encode_text("abab", &table), "0101");
}

#[test]
fn encode_text_skips_unknown_characters() {
    let mut table = CodeTable::new();
    table.insert('a', "0".to_string());
    table.insert('b', "10".to_string());
    assert_eq!(Huffman::encode_text("azbz", &table), "010");
    assert_eq!(Huffman::encode_text("zzz", &table), "");
}

#[test]
fn decode_text_with_tree() {
    let inner = HuffmanNode::new(None, 0, leaf('a', 1), leaf('b', 2));
    let root = HuffmanNode::new(None, 1, Some(Box::new(inner)), None);
    assert_eq!(Huffman::decode_text("0100", &root), "ba");
}

#[test]
fn decode_text_ignores_other_characters_and_trailing_bits() {
    let root = HuffmanNode::new(None, 3, leaf('a', 1), leaf('b', 2));
    assert_eq!(Huffman::decode_text("0x1 0", &root), "aba");
    let deeper = HuffmanNode::new(
        None,
        6,
        leaf('c', 3),
        Some(Box::new(HuffmanNode::new(None, 3, leaf('a', 1), leaf('b', 2)))),
    );
    assert_eq!(Huffman::decode_text("0111", &deeper), "cb");
    assert_eq!(Huffman::decode_text("01", &deeper), "c");
}

#[test]
fn decode_text_single_leaf_root() {
    let root = HuffmanNode::new(Some('q'), 5, None, None);
    assert_eq!(Huffman::decode_text("", &root), "");
    assert_eq!(Huffman::decode_text("01", &root), "qq");
}

#[test]
fn encode_after_build_example() {
    let mut huffman = Huffman::new();
    huffman.build("heellllooo");
    assert_eq!(huffman.encode("hello"), Ok("1101110010".to_string()));
    assert_eq!(huffman.decode("1101110010"), Ok("hello".to_string()));
}

#[test]
fn round_trip_hello_world() {
    let mut huffman = Huffman::new();
    huffman.build("hello world");
    let encoded = huffman.encode("hello world").unwrap();
    assert!(encoded.chars().all(|c| c == '0' || c == '1'));
    assert_eq!(huffman.decode(&encoded), Ok("hello world".to_string()));
}

#[test]
fn round_trip_unicode_text() {
    let text = "déjà vu, ça va? ünïcödé";
    let mut huffman = Huffman::new();
    huffman.build(text);
    let encoded = huffman.encode(text).unwrap();
    assert_eq!(huffman.decode(&encoded), Ok(text.to_string()));
}

#[test]
fn code_table_is_prefix_free() {
    let mut huffman = Huffman::new();
    let text = "the quick brown fox jumps over the lazy dog";
    huffman.build(text);
    let table = huffman.get_code_table().as_ref().unwrap();
    let chars: Vec<char> = {
        let mut v: Vec<char> = Vec::new();
        for c in text.chars() {
            if !v.contains(&c) {
                v.push(c);
            }
        }
        v
    };
    assert_eq!(table.len(), chars.len());
    for &c in &chars {
        for &d in &chars {
            if c != d {
                let a = table.get(c).unwrap();
                let b = table.get(d).unwrap();
                assert!(!b.starts_with(a.as_str()), "{} {} {} {}", c, a, d, b);
            }
        }
    }
}

#[test]
fn code_lengths_follow_frequencies() {
    let mut huffman = Huffman::new();
    huffman.build("heellllooo");
    let table = huffman.get_code_table().as_ref().unwrap();
    let len = |c: char| table.get(c).unwrap().len();
    assert_eq!(len('l'), 1);
    assert_eq!(len('o'), 2);
    assert_eq!(len('h'), 3);
    assert_eq!(len('e'), 3);
    assert!(len('l') <= len('o'));
    assert!(len('o') <= len('e'));
}

#[test]
fn single_symbol_text_gets_empty_code() {
    let mut huffman = Huffman::new();
    huffman.build("aaaa");
    let table = huffman.get_code_table().as_ref().unwrap();
    assert_eq!(table.get('a'), Some(&String::new()));
    assert_eq!(table.len(), 1);
    assert_eq!(huffman.encode("aaaa"), Ok(String::new()));
    assert_eq!(huffman.encode("a"), Ok(String::new()));
}

#[test]
fn unbuilt_coder_returns_errors() {
    let huffman = Huffman::new();
    let message = "Code table is not available".to_string();
    assert_eq!(huffman.encode("hello"), Err(message.clone()));
    assert_eq!(huffman.encode(""), Err(message.clone()));
    assert_eq!(huffman.decode("0101"), Err(message.clone()));
    assert_eq!(huffman.decode(""), Err(message));
    assert!(huffman.get_huffman_tree().is_none());
    assert!(huffman.get_code_table().is_none());
}

#[test]
fn build_on_empty_text_leaves_nothing() {
    let mut huffman = Huffman::new();
    huffman.build("ab");
    huffman.build("");
    assert!(huffman.get_huffman_tree().is_none());
    assert!(huffman.get_code_table().is_none());
    assert!(huffman.encode("ab").is_err());
    assert!(huffman.decode("01").is_err());
}

#[test]
fn unknown_character_adds_no_bits() {
    let mut huffman = Huffman::new();
    huffman.build("heellllooo");
    assert_eq!(huffman.encode("hxello"), Ok("1101110010".to_string()));
    assert_eq!(huffman.encode("xyz"), Ok(String::new()));
}

#[test]
fn build_replaces_previous_state() {
    let mut huffman = Huffman::new();
    huffman.build("aab");
    huffman.build("heellllooo");
    assert_eq!(huffman.encode("hello"), Ok("1101110010".to_string()));
    let table = huffman.get_code_table().as_ref().unwrap();
    assert_eq!(table.get('b'), None);
    assert_eq!(huffman.get_huffman_tree().as_ref().unwrap().frequency(), 10);
}

#[test]
fn setters_replace_tree_and_table() {
    let mut huffman = Huffman::new();
    let root = HuffmanNode::new(None, 3, leaf('a', 1), leaf('b', 2));
    huffman.set_huffman_tree(Some(Box::new(root)));
    assert_eq!(huffman.decode("10"), Ok("ba".to_string()));
    assert!(huffman.encode("ab").is_err());
    let mut table = CodeTable::new();
    table.insert('a', "0".to_string());
    table.insert('b', "1".to_string());
    huffman.set_code_table(Some(table));
    assert_eq!(huffman.encode("ab"), Ok("01".to_string()));
    huffman.set_huffman_tree(None);
    assert!(huffman.decode("10").is_err());
    assert!(huffman.get_code_table().is_some());
}

#[test]
fn node_accessors() {
    let node = HuffmanNode::new(None, 5, leaf('a', 2), leaf('b', 3));
    assert_eq!(node.character(), None);
    assert_eq!(node.frequency(), 5);
    assert_eq!(node.left().unwrap().character(), Some('a'));
    assert_eq!(node.right().unwrap().frequency(), 3);
    let single = HuffmanNode::new(Some('z'), 1, None, None);
    assert!(single.left().is_none());
    assert!(single.right().is_none());
}

#[test]
fn node_description() {
    let node = HuffmanNode::new(None, 5, leaf('a', 2), leaf('b', 3));
    assert_eq!(node.to_string(), "(val: None, f: 5, l: Some('a'), r: Some('b'))");
    let single = HuffmanNode::new(Some('z'), 1, None, None);
    assert_eq!(single.to_string(), "(val: Some('z'), f: 1, l: None, r: None)");
}

#[test]
fn nodes_compare_by_frequency() {
    let a = HuffmanNode::new(Some('a'), 2, None, None);
    let b = HuffmanNode::new(Some('b'), 3, None, None);
    let c = HuffmanNode::new(None, 2, leaf('x', 1), leaf('y', 1));
    assert!(a > b);
    assert!(b < a);
    assert_eq!(a.partial_cmp(&b), Some(std::cmp::Ordering::Greater));
    assert!(a == c);
    assert!(a != b);
    assert_eq!(a.partial_cmp(&c), Some(std::cmp::Ordering::Equal));
}

#[test]
fn clone_keeps_tree_and_table() {
    let mut huffman = Huffman::new();
    huffman.build("hello world");
    let copy = huffman.clone();
    huffman.build("zzzy");
    let encoded = copy.encode("hello world").unwrap();
    assert_eq!(copy.decode(&encoded), Ok("hello world".to_string()));
    let node = HuffmanNode::new(None, 3, leaf('a', 1), leaf('b', 2));
    let node_copy = node.clone();
    assert_eq!(node_copy.left().unwrap().character(), Some('a'));
    assert_eq!(node_copy.right().unwrap().frequency(), 2);
    assert_eq!(node_copy.frequency(), 3);
}
