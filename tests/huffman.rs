use huffman::builder::{build, create_huffman_tree};
use huffman::codec::{decode, encode, DecodeError, EncodedData};
use huffman::encoding::{create_huffman_encoding, HuffmanEncoding};
use huffman::frequency::{chars_of, count};
use huffman::steps::{pop_impl, Step, Steps};
use huffman::tree::HuffmanNodeType;

fn bits_of(steps: &Steps) -> Vec<bool> {
    steps.forward().iter().map(|s| s.bit()).collect()
}

fn round_trip(encoding: &HuffmanEncoding, text: &str) -> String {
    let data = encode(encoding, text);
    decode(encoding, &data).unwrap()
}

#[test]
fn my_test_case() {}

#[test]
fn steps_push_and_pop() {
    let mut steps = Steps::new();
    steps.push(Step::Left);
    steps.push(Step::Right);
    steps.push(Step::Right);
    assert_eq!(steps.len, 3);
    assert_eq!(steps.bits, 0b011);
    assert_eq!(bits_of(&steps), vec![false, true, true]);
    let back: Vec<bool> = steps.backward().iter().map(|s| s.bit()).collect();
    assert_eq!(back, vec![true, true, false]);
    assert_eq!(steps.pop(), Some(Step::Right));
    assert_eq!(steps.pop(), Some(Step::Right));
    assert_eq!(steps.pop(), Some(Step::Left));
    assert_eq!(steps.pop(), None);
    assert_eq!(steps, Steps::new());
}

#[test]
fn steps_equality_includes_length() {
    let mut short = Steps::new();
    short.push(Step::Right);
    let mut long = Steps::new();
    long.push(Step::Left);
    long.push(Step::Right);
    assert_eq!(short.bits, long.bits);
    assert_ne!(short, long);
}

#[test]
fn pop_impl_takes_lowest_bit() {
    let mut bits: u32 = 0b10;
    let mut len: u8 = 2;
    assert_eq!(pop_impl(&mut bits, &mut len), Some(Step::Left));
    assert_eq!((bits, len), (0b1, 1));
    assert_eq!(pop_impl(&mut bits, &mut len), Some(Step::Right));
    assert_eq!((bits, len), (0, 0));
    assert_eq!(pop_impl(&mut bits, &mut len), None);
}

#[test]
fn chars_of_keeps_order() {
    assert_eq!(chars_of("h\u{e9}llo"), vec!['h', '\u{e9}', 'l', 'l', 'o']);
}

#[test]
fn count_abbca() {
    let table = count("abbca");
    assert_eq!(table.len(), 3);
    assert_eq!(table.entry(0), ('a', 2));
    assert_eq!(table.entry(1), ('b', 2));
    assert_eq!(table.entry(2), ('c', 1));
}

#[test]
fn end_to_end_abbca() {
    let encoding = create_huffman_encoding("abbca").unwrap();
    assert_eq!(encoding.len(), 3);
    assert_eq!(round_trip(&encoding, "abbca"), "abbca");
}

#[test]
fn tree_weights_sum_to_text_length() {
    let tree = build(&count("abbca")).unwrap();
    assert_eq!(tree.root.frequency, 5);
    assert!(matches!(tree.root.kind, HuffmanNodeType::Parent(_, _)));
    assert_eq!(tree.depth(), 2);
}

#[test]
fn round_trip_sample_text() {
    let text = "This is test data for generating a huffman encoding!";
    let encoding = create_huffman_encoding(text).unwrap();
    assert_eq!(round_trip(&encoding, text), text);
    let other = "This is test data for encoding and decoding!";
    assert_eq!(round_trip(&encoding, other), other);
}

#[test]
fn codes_are_prefix_free() {
    let encoding = create_huffman_encoding("the quick brown fox jumps over the lazy dog").unwrap();
    let codes: Vec<Vec<bool>> = (0..encoding.len()).map(|i| bits_of(&encoding.entry(i).1)).collect();
    for (i, a) in codes.iter().enumerate() {
        assert!(!a.is_empty());
        for (j, b) in codes.iter().enumerate() {
            if i != j {
                assert!(!(a.len() <= b.len() && b[..a.len()] == a[..]));
            }
        }
    }
}

#[test]
fn paths_are_unique_and_inverse() {
    let text = "mississippi river";
    let encoding = create_huffman_encoding(text).unwrap();
    assert_eq!(encoding.len(), 8);
    for c in text.chars() {
        let steps = encoding.steps_for(c).unwrap();
        assert_eq!(encoding.symbol_for(&steps), Some(c));
    }
    for i in 0..encoding.len() {
        for j in 0..encoding.len() {
            if i != j {
                assert_ne!(encoding.entry(i).1, encoding.entry(j).1);
            }
        }
    }
    assert_eq!(encoding.steps_for('z'), None);
}

#[test]
fn single_symbol_alphabet() {
    let tree = create_huffman_tree("aaaa").unwrap();
    assert!(matches!(tree.root.kind, HuffmanNodeType::Leaf('a')));
    assert_eq!(tree.depth(), 0);
    let encoding = HuffmanEncoding::new(&tree);
    let steps = encoding.steps_for('a').unwrap();
    assert_eq!(bits_of(&steps), vec![false]);
    let data = encode(&encoding, "aaaa");
    assert_eq!(data.data(), &vec![0u8]);
    assert_eq!(data.last_byte_len(), 4);
    assert_eq!(decode(&encoding, &data), Ok("aaaa".to_string()));
}

#[test]
fn empty_input() {
    assert!(count("").is_empty());
    assert_eq!(count("").len(), 0);
    assert!(build(&count("")).is_none());
    assert!(create_huffman_encoding("").is_none());
    let encoding = create_huffman_encoding("ab").unwrap();
    let data = encode(&encoding, "");
    assert!(data.data().is_empty());
    assert_eq!(data.last_byte_len(), 0);
    assert_eq!(decode(&encoding, &data), Ok(String::new()));
}

#[test]
fn bit_packing_boundary() {
    let encoding = create_huffman_encoding("ab").unwrap();
    let a = bits_of(&encoding.steps_for('a').unwrap());
    let b = bits_of(&encoding.steps_for('b').unwrap());
    assert_eq!(a.len(), 1);
    assert_eq!(b.len(), 1);
    let byte = |text: &str| -> u8 {
        text.chars().fold(0u8, |acc, c| (acc << 1) | if (c == 'a') == a[0] { 1 } else { 0 })
    };

    let eight = encode(&encoding, "abababab");
    assert_eq!(eight.data().len(), 1);
    assert_eq!(eight.last_byte_len(), 8);
    assert_eq!(eight.data()[0], byte("abababab"));

    let nine = encode(&encoding, "ababababa");
    assert_eq!(nine.data().len(), 2);
    assert_eq!(nine.last_byte_len(), 1);
    assert_eq!(nine.data()[1], if a[0] { 0x80 } else { 0x00 });

    let sixteen = encode(&encoding, "abababababababab");
    assert_eq!(sixteen.data().len(), 2);
    assert_eq!(sixteen.last_byte_len(), 8);

    assert_eq!(decode(&encoding, &eight), Ok("abababab".to_string()));
    assert_eq!(decode(&encoding, &nine), Ok("ababababa".to_string()));
    assert_eq!(decode(&encoding, &sixteen), Ok("abababababababab".to_string()));
}

fn without_last_bit(data: &EncodedData) -> EncodedData {
    let bytes = data.data().clone();
    let last = data.last_byte_len();
    if last > 1 {
        EncodedData::from_parts(bytes, last - 1).unwrap()
    } else {
        let mut shorter = bytes;
        shorter.pop();
        let len = if shorter.is_empty() { 0 } else { 8 };
        EncodedData::from_parts(shorter, len).unwrap()
    }
}

#[test]
fn corruption_detection() {
    let encoding = create_huffman_encoding("abbca").unwrap();
    let last = bits_of(&encoding.steps_for('c').unwrap());
    assert_eq!(last.len(), 2);
    let data = encode(&encoding, "abbcac");
    let truncated = without_last_bit(&data);
    assert_eq!(
        decode(&encoding, &truncated),
        Err(DecodeError::TruncatedOrCorruptStream)
    );
}

#[test]
fn from_parts_checks_bit_count() {
    assert!(EncodedData::from_parts(vec![], 0).is_some());
    assert!(EncodedData::from_parts(vec![], 3).is_none());
    assert!(EncodedData::from_parts(vec![1], 0).is_none());
    assert!(EncodedData::from_parts(vec![1], 9).is_none());
    assert!(EncodedData::from_parts(vec![1, 2], 8).is_some());
}

#[test]
fn decode_with_wrong_encoding_fails() {
    let wide = create_huffman_encoding("abcdefgh").unwrap();
    let narrow = create_huffman_encoding("ab").unwrap();
    let data = encode(&narrow, "a");
    assert_eq!(decode(&wide, &data), Err(DecodeError::TruncatedOrCorruptStream));
}

#[test]
fn step_converts_to_and_from_bool() {
    assert_eq!(Step::from(true), Step::Right);
    assert_eq!(Step::from(false), Step::Left);
    assert!(bool::from(Step::Right));
    assert!(!bool::from(Step::Left));
    assert_eq!(Step::from_bit(true).bit(), true);
}

#[test]
fn encode_abbca_exact_bytes() {
    let encoding = create_huffman_encoding("abbca").unwrap();
    assert_eq!(bits_of(&encoding.steps_for('b').unwrap()), vec![false]);
    assert_eq!(bits_of(&encoding.steps_for('c').unwrap()), vec![true, false]);
    assert_eq!(bits_of(&encoding.steps_for('a').unwrap()), vec![true, true]);
    let data = encode(&encoding, "abbca");
    assert_eq!(data.data(), &vec![0xCBu8]);
    assert_eq!(data.last_byte_len(), 8);
    let data = encode(&encoding, "abc");
    assert_eq!(data.data(), &vec![0b1101_0000u8]);
    assert_eq!(data.last_byte_len(), 5);
    let raw = EncodedData::from_parts(vec![0b1101_0000u8], 5).unwrap();
    assert_eq!(decode(&encoding, &raw), Ok("abc".to_string()));
}

#[test]
fn lone_leaf_weighs_its_count() {
    let tree = create_huffman_tree("aaaa").unwrap();
    assert_eq!(tree.root.frequency, 4);
    assert!(matches!(tree.root.kind, HuffmanNodeType::Leaf('a')));
}

#[test]
fn abbca_tree_weights_and_shape() {
    let tree = create_huffman_tree("abbca").unwrap();
    assert_eq!(tree.root.frequency, 5);
    match &tree.root.kind {
        HuffmanNodeType::Parent(left, right) => {
            assert!(matches!(left.kind, HuffmanNodeType::Leaf('b')));
            assert_eq!(left.frequency, 2);
            assert_eq!(right.frequency, 3);
            match &right.kind {
                HuffmanNodeType::Parent(c, a) => {
                    assert!(matches!(c.kind, HuffmanNodeType::Leaf('c')));
                    assert_eq!(c.frequency, 1);
                    assert!(matches!(a.kind, HuffmanNodeType::Leaf('a')));
                    assert_eq!(a.frequency, 2);
                }
                _ => panic!("expected an inner node"),
            }
        }
        _ => panic!("expected an inner node"),
    }
}

#[test]
fn lighter_node_becomes_left_child() {
    let encoding = create_huffman_encoding("aab").unwrap();
    assert_eq!(bits_of(&encoding.steps_for('b').unwrap()), vec![false]);
    assert_eq!(bits_of(&encoding.steps_for('a').unwrap()), vec![true]);
    let data = encode(&encoding, "aab");
    assert_eq!(data.data(), &vec![0b1100_0000u8]);
    assert_eq!(data.last_byte_len(), 3);
}
