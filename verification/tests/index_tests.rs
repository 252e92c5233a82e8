use als_recommender::index::{hash_text, IndexMap};
use als_recommender::text::{comes_before, same_text};

fn numbered(pairs: &[(&str, usize)]) -> Vec<(String, usize)> {
    pairs.iter().map(|(id, at)| (id.to_string(), *at)).collect()
}

#[test]
fn insert_numbers_identifiers_in_order() {
    let mut m = IndexMap::new();
    assert_eq!(m.insert("b"), 0);
    assert_eq!(m.insert("a"), 1);
    assert_eq!(m.insert("b"), 0);
    assert_eq!(m.len(), 2);
    assert_eq!(m.get("a"), Some(1));
    assert_eq!(m.get("b"), Some(0));
    assert_eq!(m.get("c"), None);
    assert_eq!(m.id_at(1), "a");
}

#[test]
fn from_pairs_places_each_identifier() {
    let m = IndexMap::from_pairs(&numbered(&[("x", 2), ("y", 0), ("z", 1)])).unwrap();
    assert_eq!(m.len(), 3);
    assert_eq!(m.id_at(0), "y");
    assert_eq!(m.id_at(1), "z");
    assert_eq!(m.id_at(2), "x");
    assert_eq!(m.get("x"), Some(2));
}

#[test]
fn from_pairs_refuses_a_position_out_of_range() {
    assert!(IndexMap::from_pairs(&numbered(&[("x", 0), ("y", 2)])).is_none());
}

#[test]
fn from_pairs_refuses_a_repeated_position() {
    assert!(IndexMap::from_pairs(&numbered(&[("x", 0), ("y", 0)])).is_none());
}

#[test]
fn from_pairs_refuses_a_repeated_identifier() {
    assert!(IndexMap::from_pairs(&numbered(&[("x", 0), ("x", 1)])).is_none());
}

#[test]
fn from_pairs_of_nothing_is_the_empty_map() {
    let m = IndexMap::from_pairs(&Vec::new()).unwrap();
    assert_eq!(m.len(), 0);
}

#[test]
fn to_pairs_and_from_pairs_agree() {
    let mut m = IndexMap::new();
    m.insert("p2");
    m.insert("p1");
    let pairs = m.to_pairs();
    assert_eq!(pairs, numbered(&[("p2", 0), ("p1", 1)]));
    let again = IndexMap::from_pairs(&pairs).unwrap();
    assert_eq!(again.get("p2"), Some(0));
    assert_eq!(again.get("p1"), Some(1));
}

#[test]
fn identifiers_compare_as_strings_do() {
    let samples = ["", "a", "ab", "b", "B", "p1", "p10", "p2", "é", "zz", "日本", "a\u{10FFFF}"];
    for a in samples {
        for b in samples {
            assert_eq!(same_text(a, b), a == b);
            assert_eq!(comes_before(a, b), a < b);
        }
    }
}

#[test]
fn hash_of_known_texts() {
    assert_eq!(hash_text(""), 0xcbf2_9ce4_8422_2325);
    assert_eq!(hash_text("a"), 0xaf63_dc4c_8601_ec8c);
    assert_eq!(hash_text("foobar"), 0x8594_4171_f739_67e8);
}

#[test]
fn many_identifiers_keep_their_positions() {
    let mut m = IndexMap::new();
    for i in 0..2000usize {
        assert_eq!(m.insert(&format!("P{:05}", i)), i);
    }
    for i in (0..2000usize).rev() {
        assert_eq!(m.get(&format!("P{:05}", i)), Some(i));
        assert_eq!(m.insert(&format!("P{:05}", i)), i);
    }
    assert_eq!(m.len(), 2000);
    assert_eq!(m.get("P02000"), None);
}
