use algorithms::collections::bit_key::Key;
use algorithms::collections::loopy_patricia::LoopyPatriciaTree;
use algorithms::collections::patricia::PatriciaTree;
use bitvec::order::Msb0;
use bitvec::vec::BitVec;
use bitvec::view::BitView;
use rand::RngCore;

/// A key from a bit-vector, as the program builds them.
fn key_of(bits: &BitVec<u8, Msb0>) -> Key {
    let bools: Vec<bool> = bits.iter().by_vals().collect();
    Key::from_bools(&bools).unwrap()
}

/// A key from a string of the characters `0` and `1`.
fn key(bits: &str) -> Key {
    let bools: Vec<bool> = bits.chars().map(|c| c == '1').collect();
    Key::from_bools(&bools).unwrap()
}

#[test]
fn patricia_add_test() {
    let mut rng = rand::thread_rng();

    const SIZE: usize = 4096;
    let mut p = PatriciaTree::new();
    let mut vector = Vec::new();

    for _i in 0..100 {
        let mut bytes: [u8; SIZE] = [0u8; SIZE];
        rng.fill_bytes(&mut bytes);
        let b = bytes.view_bits::<Msb0>().to_bitvec();
        p.insert(&key_of(&b));
        vector.push(b);
    }

    for b in vector {
        assert!(p.search(&key_of(&b)));
    }

    for _i in 0..100 {
        let mut bytes: [u8; SIZE] = [0u8; SIZE];
        rng.fill_bytes(&mut bytes);
        let b = bytes.view_bits::<Msb0>().to_bitvec();
        assert!(!p.search(&key_of(&b)));
    }
}

#[test]
fn loopy_patricia_add_test() {
    let mut rng = rand::thread_rng();

    const SIZE: usize = 4096;
    let mut p = LoopyPatriciaTree::new();
    let mut vector = Vec::new();

    for _i in 0..100 {
        let mut bytes: [u8; SIZE] = [0u8; SIZE];
        rng.fill_bytes(&mut bytes);
        let b = bytes.view_bits::<Msb0>().to_bitvec();
        p.insert(&key_of(&b));
        vector.push(b);
    }

    for b in vector {
        assert!(p.search(&key_of(&b)));
    }

    for _i in 0..100 {
        let mut bytes: [u8; SIZE] = [0u8; SIZE];
        rng.fill_bytes(&mut bytes);
        let b = bytes.view_bits::<Msb0>().to_bitvec();
        assert!(!p.search(&key_of(&b)));
    }
}

#[test]
fn key_holds_the_bits_it_was_given() {
    let bools = vec![true, false, false, true, true, false, true, false, true, true];
    let k = Key::from_bools(&bools).unwrap();
    assert_eq!(k.len(), 10);
    assert_eq!(k.to_bools(), bools);
    assert_eq!(k.get(0), Some(true));
    assert_eq!(k.get(1), Some(false));
    assert_eq!(k.get(9), Some(true));
    assert_eq!(k.get(10), None);
    let empty = Key::new();
    assert_eq!(empty.len(), 0);
    assert_eq!(empty.to_bools(), Vec::<bool>::new());
    assert_eq!(empty.get(0), None);
}

#[test]
fn key_agrees_with_the_bit_vector_on_bytes() {
    // most significant bit first: 0xA5 is 1010 0101
    let bytes = [0xA5u8, 0x0F];
    let b = bytes.view_bits::<Msb0>().to_bitvec();
    let k = key_of(&b);
    assert_eq!(
        k.to_bools(),
        vec![
            true, false, true, false, false, true, false, true, false, false, false, false, true,
            true, true, true
        ]
    );
}

#[test]
fn matching_bits_are_counted_from_the_given_place() {
    assert_eq!(key("1010").find_number_of_matching_bits(&key("1011"), 0), 3);
    assert_eq!(key("1010").find_number_of_matching_bits(&key("1010"), 0), 4);
    assert_eq!(key("10").find_number_of_matching_bits(&key("1011"), 0), 2);
    assert_eq!(key("1011").find_number_of_matching_bits(&key("10"), 0), 2);
    assert_eq!(key("0").find_number_of_matching_bits(&key("1"), 0), 0);
    assert_eq!(key("").find_number_of_matching_bits(&key("1"), 0), 0);
    assert_eq!(key("1").find_number_of_matching_bits(&key(""), 0), 0);
    assert_eq!(key("11").find_number_of_matching_bits(&key("0011"), 2), 2);
    assert_eq!(key("11").find_number_of_matching_bits(&key("0011"), 3), 1);
    assert_eq!(key("11").find_number_of_matching_bits(&key("0011"), 4), 0);
    assert_eq!(key("110").find_number_of_matching_bits(&key("00111"), 2), 2);
}

#[test]
fn four_keys_recursive() {
    let mut t = PatriciaTree::new();
    t.insert(&key("0000"));
    t.insert(&key("0001"));
    t.insert(&key("001"));
    t.insert(&key("1"));
    assert!(t.search(&key("0000")));
    assert!(t.search(&key("0001")));
    assert!(t.search(&key("001")));
    assert!(t.search(&key("1")));
    assert!(!t.search(&key("00")));
    assert!(!t.search(&key("0")));
    assert!(!t.search(&key("10")));
    assert!(!t.search(&key("")));
}

#[test]
fn four_keys_looping() {
    let mut t = LoopyPatriciaTree::new();
    t.insert(&key("0000"));
    t.insert(&key("0001"));
    t.insert(&key("001"));
    t.insert(&key("1"));
    assert!(t.search(&key("0000")));
    assert!(t.search(&key("0001")));
    assert!(t.search(&key("001")));
    assert!(t.search(&key("1")));
    assert!(!t.search(&key("00")));
    assert!(!t.search(&key("0")));
    assert!(!t.search(&key("10")));
    assert!(!t.search(&key("")));
}

#[test]
fn only_the_empty_key_recursive() {
    let mut t = PatriciaTree::new();
    assert!(!t.search(&key("")));
    t.insert(&key(""));
    assert!(t.search(&key("")));
    assert!(!t.search(&key("0")));
}

#[test]
fn only_the_empty_key_looping() {
    let mut t = LoopyPatriciaTree::new();
    assert!(!t.search(&key("")));
    t.insert(&key(""));
    assert!(t.search(&key("")));
    assert!(!t.search(&key("0")));
}

#[test]
fn two_keys_that_part_at_the_last_bit_recursive() {
    assert_eq!(key("1010").find_number_of_matching_bits(&key("1011"), 0), 3);
    let mut t = PatriciaTree::new();
    t.insert(&key("1010"));
    t.insert(&key("1011"));
    assert!(t.search(&key("1010")));
    assert!(t.search(&key("1011")));
    assert!(!t.search(&key("101")));
    assert!(!t.search(&key("10")));
}

#[test]
fn two_keys_that_part_at_the_last_bit_looping() {
    let mut t = LoopyPatriciaTree::new();
    t.insert(&key("1010"));
    t.insert(&key("1011"));
    assert!(t.search(&key("1010")));
    assert!(t.search(&key("1011")));
    assert!(!t.search(&key("101")));
    assert!(!t.search(&key("10")));
}

#[test]
fn empty_tries_find_nothing() {
    let a = PatriciaTree::new();
    let b = LoopyPatriciaTree::new();
    for q in ["", "0", "1", "0101"] {
        assert!(!a.search(&key(q)));
        assert!(!b.search(&key(q)));
    }
}

/// Every bit string of at most `n` bits.
fn all_strings(n: usize) -> Vec<String> {
    let mut out = vec![String::new()];
    let mut last = vec![String::new()];
    for _ in 0..n {
        let mut next = Vec::new();
        for s in &last {
            next.push(format!("{}0", s));
            next.push(format!("{}1", s));
        }
        out.extend(next.iter().cloned());
        last = next;
    }
    out
}

/// What a lookup answers on a trie that stores exactly `stored`: some stored
/// key begins with `q` and is the beginning of every stored key that begins
/// with `q`.
fn answer(stored: &[&str], q: &str) -> bool {
    stored.iter().any(|m| {
        m.starts_with(q) && stored.iter().all(|t| !t.starts_with(q) || t.starts_with(*m))
    })
}

fn check_against_the_stored_set(keys: &[&str]) {
    let mut a = PatriciaTree::new();
    let mut b = LoopyPatriciaTree::new();
    let mut stored: Vec<&str> = Vec::new();
    for k in keys {
        a.insert(&key(k));
        b.insert(&key(k));
        stored.push(k);
        for q in all_strings(6) {
            let want = answer(&stored, &q);
            assert_eq!(a.search(&key(&q)), want, "recursive, stored {:?}, asked {:?}", stored, q);
            assert_eq!(b.search(&key(&q)), want, "looping, stored {:?}, asked {:?}", stored, q);
        }
    }
}

#[test]
fn answers_follow_the_stored_set() {
    check_against_the_stored_set(&["0000", "0001", "001", "1"]);
    check_against_the_stored_set(&["1010", "1011", "101", "10", ""]);
    check_against_the_stored_set(&["", "0", "00", "000", "0000"]);
    check_against_the_stored_set(&["1111", "111", "11", "1", ""]);
    check_against_the_stored_set(&["01", "10", "0110", "1001", "011", "100", "0", "1"]);
    check_against_the_stored_set(&["110", "", "0", "111", "1"]);
    check_against_the_stored_set(&["001100", "001111", "0011", "00", "110011"]);
}

#[test]
fn every_inserted_key_is_found_in_any_order() {
    let keys = ["0000", "0001", "001", "1", "", "0101", "01", "11111", "1000"];
    let orders: [[usize; 9]; 4] = [
        [0, 1, 2, 3, 4, 5, 6, 7, 8],
        [8, 7, 6, 5, 4, 3, 2, 1, 0],
        [4, 0, 8, 1, 7, 2, 6, 3, 5],
        [6, 5, 2, 0, 1, 4, 8, 3, 7],
    ];
    let mut answers: Vec<Vec<bool>> = Vec::new();
    for order in orders {
        let mut a = PatriciaTree::new();
        let mut b = LoopyPatriciaTree::new();
        for i in order {
            a.insert(&key(keys[i]));
            b.insert(&key(keys[i]));
        }
        for k in keys {
            assert!(a.search(&key(k)));
            assert!(b.search(&key(k)));
        }
        let mut seen = Vec::new();
        for q in all_strings(6) {
            let found = a.search(&key(&q));
            assert_eq!(found, b.search(&key(&q)));
            seen.push(found);
        }
        answers.push(seen);
    }
    for other in &answers[1..] {
        assert_eq!(other, &answers[0]);
    }
}

#[test]
fn inserting_twice_changes_no_answer() {
    let keys = ["0110", "01", "0111", "1", "0110"];
    let mut once = PatriciaTree::new();
    let mut twice = PatriciaTree::new();
    let mut once_l = LoopyPatriciaTree::new();
    let mut twice_l = LoopyPatriciaTree::new();
    for k in keys {
        once.insert(&key(k));
        once_l.insert(&key(k));
        twice.insert(&key(k));
        twice.insert(&key(k));
        twice_l.insert(&key(k));
        twice_l.insert(&key(k));
    }
    for q in all_strings(6) {
        assert_eq!(once.search(&key(&q)), twice.search(&key(&q)));
        assert_eq!(once_l.search(&key(&q)), twice_l.search(&key(&q)));
    }
}

#[test]
fn a_key_and_a_longer_one_that_begins_with_it() {
    for (short, long) in [("101", "10110"), ("", "1"), ("0", "00"), ("1100", "110011")] {
        let mut a = PatriciaTree::new();
        a.insert(&key(short));
        a.insert(&key(long));
        assert!(a.search(&key(short)));
        assert!(a.search(&key(long)));
        let mut b = LoopyPatriciaTree::new();
        b.insert(&key(long));
        b.insert(&key(short));
        assert!(b.search(&key(short)));
        assert!(b.search(&key(long)));
    }
}

#[test]
fn a_branching_point_becomes_a_key_when_inserted() {
    let mut a = PatriciaTree::new();
    let mut b = LoopyPatriciaTree::new();
    for k in ["1010", "1011"] {
        a.insert(&key(k));
        b.insert(&key(k));
    }
    assert!(!a.search(&key("101")));
    assert!(!b.search(&key("101")));
    a.insert(&key("101"));
    b.insert(&key("101"));
    assert!(a.search(&key("101")));
    assert!(b.search(&key("101")));
    assert!(a.search(&key("1010")));
    assert!(b.search(&key("1011")));
}

#[test]
fn the_empty_key_can_come_last() {
    let mut a = PatriciaTree::new();
    let mut b = LoopyPatriciaTree::new();
    for k in ["0", "1"] {
        a.insert(&key(k));
        b.insert(&key(k));
    }
    assert!(!a.search(&key("")));
    assert!(!b.search(&key("")));
    a.insert(&key(""));
    b.insert(&key(""));
    assert!(a.search(&key("")));
    assert!(b.search(&key("")));
    assert!(a.search(&key("0")));
    assert!(b.search(&key("1")));
}

#[test]
fn a_key_that_leaves_the_edge_is_not_found() {
    let mut a = PatriciaTree::new();
    let mut b = LoopyPatriciaTree::new();
    for k in ["0000", "00001", "00000"] {
        a.insert(&key(k));
        b.insert(&key(k));
    }
    // differs from the root's edge at the second bit; a child on the `1` side exists lower down
    assert!(!a.search(&key("01")));
    assert!(!b.search(&key("01")));
    assert!(!a.search(&key("011")));
    assert!(!b.search(&key("011")));
}

#[test]
fn a_beginning_of_a_lone_key_is_answered_by_that_key() {
    let mut a = PatriciaTree::new();
    let mut b = LoopyPatriciaTree::new();
    a.insert(&key("0000"));
    b.insert(&key("0000"));
    // the walk runs out inside the only edge, whose node is a stored key
    assert!(a.search(&key("00")));
    assert!(b.search(&key("00")));
    assert!(!a.search(&key("01")));
    assert!(!b.search(&key("01")));
    assert!(!a.search(&key("00000")));
    assert!(!b.search(&key("00000")));
}

#[test]
fn long_chain_of_nodes() {
    // each key begins with the one before: the trie is one long path
    let mut a = PatriciaTree::new();
    let mut b = LoopyPatriciaTree::new();
    let mut bits: Vec<bool> = Vec::new();
    for i in 0..2000 {
        bits.push(i % 3 == 0);
        let k = Key::from_bools(&bits).unwrap();
        a.insert(&k);
        b.insert(&k);
    }
    let mut bits: Vec<bool> = Vec::new();
    for i in 0..2000 {
        bits.push(i % 3 == 0);
        let k = Key::from_bools(&bits).unwrap();
        assert!(a.search(&k));
        assert!(b.search(&k));
    }
    bits.push(true);
    let k = Key::from_bools(&bits).unwrap();
    assert!(!a.search(&k));
    assert!(!b.search(&k));
}
