use dict_or_seq::decode::{cautious, decode, DecodeError, Decoder, DictionaryOrSequence, Pull, Shape};
use dict_or_seq::table::KeyedTable;

fn seq_pulls(xs: &[u32]) -> Vec<Pull<u32, &'static str>> {
    let mut v: Vec<Pull<u32, &'static str>> = xs.iter().map(|x| Pull::Element(*x)).collect();
    v.push(Pull::Exhausted);
    v
}

fn map_pulls(es: &[(&str, u32)]) -> Vec<Pull<u32, &'static str>> {
    let mut v: Vec<Pull<u32, &'static str>> =
        es.iter().map(|(k, x)| Pull::Entry(k.to_string(), *x)).collect();
    v.push(Pull::Exhausted);
    v
}

fn sorted_entries(t: KeyedTable<u32>) -> Vec<(String, u32)> {
    let mut e = t.into_entries();
    e.sort();
    e
}

#[test]
fn sequence_keeps_every_element_in_order() {
    match decode(Shape::Sequence, Some(4), seq_pulls(&[5, 3, 5, 1])) {
        Ok(DictionaryOrSequence::Sequence(v)) => assert_eq!(v, vec![5, 3, 5, 1]),
        other => panic!("unexpected {:?}", other),
    }
}

#[test]
fn sequence_ignores_a_wrong_size_hint() {
    match decode(Shape::Sequence, Some(1000), seq_pulls(&[1, 2])) {
        Ok(DictionaryOrSequence::Sequence(v)) => assert_eq!(v, vec![1, 2]),
        other => panic!("unexpected {:?}", other),
    }
    match decode(Shape::Sequence, Some(0), seq_pulls(&[1, 2, 3])) {
        Ok(DictionaryOrSequence::Sequence(v)) => assert_eq!(v, vec![1, 2, 3]),
        other => panic!("unexpected {:?}", other),
    }
}

#[test]
fn mapping_keeps_keys_and_elements() {
    match decode(Shape::Mapping, None, map_pulls(&[("david", 23), ("erin", 7)])) {
        Ok(DictionaryOrSequence::Dictionary(t)) => {
            assert_eq!(t.len(), 2);
            assert_eq!(t.get("david"), Some(&23));
            assert_eq!(t.get("erin"), Some(&7));
            assert_eq!(t.get("frank"), None);
        }
        other => panic!("unexpected {:?}", other),
    }
}

#[test]
fn decoding_twice_gives_equal_values() {
    let input = [("b", 2), ("a", 1), ("b", 4)];
    let first = decode(Shape::Mapping, None, map_pulls(&input));
    let second = decode(Shape::Mapping, None, map_pulls(&input));
    match (first, second) {
        (Ok(DictionaryOrSequence::Dictionary(x)), Ok(DictionaryOrSequence::Dictionary(y))) => {
            assert_eq!(sorted_entries(x), sorted_entries(y));
        }
        other => panic!("unexpected {:?}", other),
    }
    let first = decode(Shape::Sequence, None, seq_pulls(&[9, 8]));
    let second = decode(Shape::Sequence, None, seq_pulls(&[9, 8]));
    match (first, second) {
        (Ok(DictionaryOrSequence::Sequence(x)), Ok(DictionaryOrSequence::Sequence(y))) => {
            assert_eq!(x, y)
        }
        other => panic!("unexpected {:?}", other),
    }
}

#[test]
fn duplicate_key_keeps_later_value() {
    match decode(Shape::Mapping, None, map_pulls(&[("k", 1), ("j", 2), ("k", 3)])) {
        Ok(DictionaryOrSequence::Dictionary(t)) => {
            assert_eq!(sorted_entries(t), vec![(String::from("j"), 2), (String::from("k"), 3)]);
        }
        other => panic!("unexpected {:?}", other),
    }
}

#[test]
fn empty_sequence_decodes() {
    match decode(Shape::Sequence, None, seq_pulls(&[])) {
        Ok(DictionaryOrSequence::Sequence(v)) => assert!(v.is_empty()),
        other => panic!("unexpected {:?}", other),
    }
}

#[test]
fn empty_mapping_decodes() {
    match decode(Shape::Mapping, None, map_pulls(&[])) {
        Ok(DictionaryOrSequence::Dictionary(t)) => {
            assert!(t.is_empty());
            assert_eq!(t.len(), 0);
        }
        other => panic!("unexpected {:?}", other),
    }
}

#[test]
fn element_failure_fails_sequence() {
    let pulls = vec![
        Pull::Element(1),
        Pull::Element(2),
        Pull::ElementFailed("bad element"),
        Pull::Element(3),
        Pull::Exhausted,
    ];
    assert_eq!(decode(Shape::Sequence, None, pulls).unwrap_err(), DecodeError::Element("bad element"));
}

#[test]
fn element_failure_fails_mapping() {
    let pulls = vec![Pull::Entry(String::from("a"), 1), Pull::ElementFailed("bad element")];
    assert_eq!(decode(Shape::Mapping, None, pulls).unwrap_err(), DecodeError::Element("bad element"));
}

#[test]
fn key_failure_fails_mapping() {
    let pulls = vec![Pull::Entry(String::from("a"), 1), Pull::KeyFailed("bad key"), Pull::Exhausted];
    assert_eq!(decode(Shape::Mapping, None, pulls).unwrap_err(), DecodeError::Key("bad key"));
}

#[test]
fn traversal_failure_fails_sequence() {
    let pulls = vec![Pull::Element(1), Pull::TraversalFailed("truncated")];
    assert_eq!(decode(Shape::Sequence, None, pulls).unwrap_err(), DecodeError::Traversal("truncated"));
}

#[test]
fn other_shape_fails() {
    let pulls: Vec<Pull<u32, &str>> = vec![Pull::Element(1), Pull::Exhausted];
    assert_eq!(decode(Shape::Other, None, pulls).unwrap_err(), DecodeError::Shape);
    let pulls: Vec<Pull<u32, &str>> = Vec::new();
    assert_eq!(decode(Shape::Other, None, pulls).unwrap_err(), DecodeError::Shape);
}

#[test]
fn decoder_steps_until_finished() {
    let d: Decoder<u32, &str> = Decoder::start(Shape::Sequence, Some(2));
    assert!(!d.is_finished());
    let d = d.step(Pull::Element(4));
    assert!(!d.is_finished());
    let d = d.step(Pull::Exhausted);
    assert!(d.is_finished());
    match d.into_result() {
        Ok(DictionaryOrSequence::Sequence(v)) => assert_eq!(v, vec![4]),
        other => panic!("unexpected {:?}", other),
    }
    let d: Decoder<u32, &str> = Decoder::start(Shape::Other, None);
    assert!(d.is_finished());
}

#[test]
fn cautious_capacity_values() {
    assert_eq!(cautious::<u64>(Some(10)), 10);
    assert_eq!(cautious::<u64>(None), 0);
    assert_eq!(cautious::<u64>(Some(usize::MAX)), 131072);
    assert_eq!(cautious::<u8>(Some(2_000_000)), 1048576);
    assert_eq!(cautious::<()>(Some(5)), 0);
}

#[test]
fn table_replaces_only_equal_keys() {
    let mut t: KeyedTable<u32> = KeyedTable::new();
    t.insert(String::from("ab"), 1);
    t.insert(String::from("abc"), 2);
    t.insert(String::from("ba"), 3);
    assert_eq!(t.len(), 3);
    t.insert(String::from("abc"), 4);
    assert_eq!(t.len(), 3);
    assert!(t.contains_key("ab"));
    assert!(!t.contains_key("a"));
    assert_eq!(t.get("abc"), Some(&4));
    assert_eq!(t.get("ab"), Some(&1));
    assert_eq!(
        t.into_entries(),
        vec![(String::from("ab"), 1), (String::from("abc"), 4), (String::from("ba"), 3)]
    );
}
