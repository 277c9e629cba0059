use std::hash::Hasher;

use rlox::fnv_hasher::{FnvHashMap, FnvHashSet, FnvHasher, FNV_OFFSET_BASIS, FNV_PRIME};
use rlox::object::{bytes_eq, bytes_to_vec, ObjString};
use rlox::repl::is_complete;
use rlox::text::push_decimal;

fn fnv_by_hand(bytes: &[u8]) -> u64 {
    let mut h: u64 = 2166136261;
    for &b in bytes {
        h ^= b as u64;
        h = h.wrapping_mul(16777619);
    }
    h
}

#[test]
fn fnv_starts_at_the_offset_basis() {
    let h = FnvHasher::default();
    assert_eq!(h.finish(), 2166136261);
    assert_eq!(FNV_OFFSET_BASIS, 2166136261);
    assert_eq!(FNV_PRIME, 16777619);
}

#[test]
fn fnv_hashes_one_byte() {
    let mut h = FnvHasher::default();
    h.write(b"a");
    assert_eq!(h.finish(), (2166136261u64 ^ 97).wrapping_mul(16777619));
}

#[test]
fn fnv_hashes_a_long_input_with_wrapping() {
    let text = b"the quick brown fox jumps over the lazy dog";
    let mut h = FnvHasher::default();
    h.write(text);
    assert_eq!(h.finish(), fnv_by_hand(text));
}

#[test]
fn fnv_split_writes_equal_one_write() {
    let mut whole = FnvHasher::default();
    whole.write(b"hello world");
    let mut split = FnvHasher::default();
    split.write(b"hello");
    split.write(b" world");
    assert_eq!(whole.finish(), split.finish());
}

#[test]
fn fnv_map_and_set_use_the_hasher() {
    let mut map: FnvHashMap<u64, u64> = FnvHashMap::new();
    assert!(map.is_empty());
    map.insert(1, 10);
    map.insert(2, 20);
    assert_eq!(map.get(&1), Some(&10));
    assert_eq!(map.len(), 2);
    let mut set: FnvHashSet<&str> = FnvHashSet::new();
    assert!(set.is_empty());
    set.insert("x");
    set.insert("x");
    assert_eq!(set.len(), 1);
}

#[test]
fn complete_when_braces_balance() {
    assert!(is_complete("print 1;"));
    assert!(is_complete("{ print 1; }"));
    assert!(is_complete(""));
}

#[test]
fn incomplete_while_a_brace_is_open() {
    assert!(!is_complete("{"));
    assert!(!is_complete("if (x) { { print 1; }"));
}

#[test]
fn braces_in_strings_do_not_count() {
    assert!(is_complete("print \"{\";"));
    assert!(!is_complete("{ print \"}\";"));
    assert!(is_complete("{ print \"}\"; }"));
}

#[test]
fn extra_closing_brace_is_not_complete() {
    assert!(!is_complete("}"));
}

#[test]
fn object_strings_compare_by_text() {
    let a = ObjString { str: b"abc".to_vec() };
    let b = ObjString { str: bytes_to_vec(b"abc") };
    let c = ObjString { str: b"abd".to_vec() };
    assert!(a.same_text(&b));
    assert!(!a.same_text(&c));
    assert!(bytes_eq(b"", b""));
    assert!(!bytes_eq(b"a", b"ab"));
}

#[test]
fn decimal_text_of_numbers() {
    let mut s = String::from("n=");
    push_decimal(&mut s, 0);
    s.push(' ');
    push_decimal(&mut s, 7);
    s.push(' ');
    push_decimal(&mut s, 10);
    s.push(' ');
    push_decimal(&mut s, 1234567890);
    assert_eq!(s, "n=0 7 10 1234567890");
}
