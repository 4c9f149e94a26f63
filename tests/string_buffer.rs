use strings::string_buffer::{StringBuffer, INIT_CAPACITY};

fn count_nodes(s: &StringBuffer) -> usize {
    s.node_count()
}

fn first_capacity(s: &StringBuffer) -> usize {
    s.first_capacity()
}

fn all_chars(s: &StringBuffer) -> Vec<(char, usize)> {
    let mut it = s.chars();
    let mut out = Vec::new();
    while let Some(p) = it.next() {
        out.push(p);
    }
    out
}

fn check_chars(s: &StringBuffer, expected: &str) {
    let got = all_chars(s);
    assert_eq!(got.len(), expected.chars().count());
    for ((i, (c, b)), cc) in got.into_iter().enumerate().zip(expected.chars()) {
        assert!(c == cc);
        assert!(i == b);
    }
}

#[test]
fn test_new() {
    let s = StringBuffer::new();
    assert!(s.len == 0);
    assert!(s.to_string() == "");
    assert!(count_nodes(&s) == 1);
    assert!(first_capacity(&s) == INIT_CAPACITY);

    let s = StringBuffer::with_capacity(64);
    assert!(s.len == 0);
    assert!(s.to_string() == "");
    assert!(count_nodes(&s) == 1);
    assert!(first_capacity(&s) == 64);
}

#[test]
fn test_from_str() {
    let s: StringBuffer = "Hello".parse().unwrap();
    assert!(s.len == 5);
    assert!(s.to_string() == "Hello");
    assert!(count_nodes(&s) == 1);
    assert!(first_capacity(&s) == INIT_CAPACITY);

    check_chars(&s, "Hello");
}

#[test]
fn test_push_str() {
    let mut s: StringBuffer = "Hello".parse().unwrap();
    assert!(first_capacity(&s) == INIT_CAPACITY);

    s.push_str(" world!");
    assert!(s.to_string() == "Hello world!");
    assert!(s.len == 12);
    s.push_str(" foo");
    assert!(s.to_string() == "Hello world! foo");
    assert!(s.len == 16);

    assert!(count_nodes(&s) == 1);

    check_chars(&s, "Hello world! foo");
}

#[test]
fn test_push_str_multi() {
    let mut s: StringBuffer = StringBuffer::with_capacity(2);
    assert!(first_capacity(&s) == 2);

    s.push_str("Hello");
    assert!(s.to_string() == "Hello");
    assert!(s.len == 5);
    assert!(count_nodes(&s) == 2);
    s.push_str(" world!");
    assert!(s.to_string() == "Hello world!");
    assert!(s.len == 12);
    assert!(count_nodes(&s) == 2);

    check_chars(&s, "Hello world!");
}

#[test]
fn test_truncate() {
    let mut s: StringBuffer = "Hello world!".parse().unwrap();
    s.truncate(8);
    assert!(s.to_string() == "Hello wo");
    assert!(s.len == 8);

    let mut s: StringBuffer = StringBuffer::with_capacity(2);
    s.push_str("Ho");
    s.push_str(" world!");
    s.truncate(4);
    assert!(s.to_string() == "Ho w");
    assert!(s.len == 4);
}

#[test]
fn test_truncate_multi() {
    let mut s: StringBuffer = StringBuffer::with_capacity(9);
    s.push_str("123456789");
    s.push_str("abc");
    assert!(count_nodes(&s) == 2);
    assert!(s.to_string() == "123456789abc");

    s.truncate(10);
    assert!(count_nodes(&s) == 2);
    assert!(s.to_string() == "123456789a");

    s.truncate(9);
    assert!(count_nodes(&s) == 1);
    assert!(s.to_string() == "123456789");

    s.truncate(3);
    assert!(count_nodes(&s) == 1);
    assert!(s.to_string() == "123");
}

#[test]
fn test_truncate_short() {
    let mut s: StringBuffer = StringBuffer::with_capacity(2);
    s.push_str("Ho");
    s.push_str(" world!");
    s.truncate(2);
    assert_eq!("Ho", s.to_string());
    assert!(s.len == 2);
    assert!(count_nodes(&s) == 1);
}

#[test]
fn test_truncate_noop() {
    let mut s: StringBuffer = StringBuffer::with_capacity(2);
    s.push_str("Ho");
    s.truncate(5000);
    assert_eq!("Ho", s.to_string());
    assert!(s.len == 2);
}

#[test]
fn test_cur_offset_no_newlines() {
    let mut s = StringBuffer::new();
    s.push_str("Hello, World!");
    assert_eq!(s.len, s.cur_offset());
}

#[test]
fn test_cur_offset() {
    let mut s = StringBuffer::new();
    s.push_str("Hello\nWorld! How goes it?");
    assert_eq!(19, s.cur_offset());
}

#[test]
fn test_cur_offset_short() {
    let mut s = StringBuffer::with_capacity(10);
    s.push_str("Hello\nW");
    s.push_str("orld! How goes it?");
    assert!(2 == count_nodes(&s));
    assert_eq!(19, s.cur_offset());
}

#[test]
fn test_cur_offset_middle() {
    let mut s = StringBuffer::with_capacity(10);
    s.push_str("Hello\nW");
    s.push_str("orld!\nHow goes it?");
    assert_eq!(12, s.cur_offset());
}

#[test]
fn test_cur_offset_after_truncate() {
    let mut s = StringBuffer::with_capacity(10);
    s.push_str("Hello\nWorld!\nHow goes it?");
    assert!(2 == count_nodes(&s));

    s.truncate(10);
    assert_eq!(4, s.cur_offset());

    s.truncate(3);
    assert_eq!(3, s.cur_offset());
}

#[test]
fn test_eq() {
    let s1: StringBuffer = "Hello".parse().unwrap();
    let s2: StringBuffer = "Hello".parse().unwrap();
    assert_eq!(s1, s2);
}

#[test]
#[should_panic]
fn test_neq() {
    let s1: StringBuffer = "Hello".parse().unwrap();
    let s2: StringBuffer = "Hells".parse().unwrap();
    assert_eq!(s1, s2);
}

#[test]
fn test_clone() {
    let mut s1: StringBuffer = "Hello".parse().unwrap();
    let mut s2 = s1.clone();

    assert_eq!(s1, s2);

    s1.truncate(0);
    assert_eq!(s1.to_string(), "");
    assert_eq!(s2.to_string(), "Hello");

    s2.push_str("World");
    assert_eq!(s1.to_string(), "");
    assert_eq!(s2.to_string(), "HelloWorld");
}

#[test]
fn buffer_chars_multibyte_offsets() {
    let mut s = StringBuffer::with_capacity(3);
    s.push_str("ca");
    s.push_str("fé!");
    assert_eq!(count_nodes(&s), 2);
    assert_eq!(all_chars(&s), vec![('c', 0), ('a', 1), ('f', 2), ('é', 3), ('!', 5)]);
    assert_eq!(s.len, 6);
}

#[test]
fn buffer_new_chunk_capacity_doubles() {
    let mut s = StringBuffer::with_capacity(4);
    s.push_str("abcd");
    s.push_str("e");
    assert_eq!(count_nodes(&s), 2);
    assert_eq!(s.bytes(), b"abcde".to_vec());
}

#[test]
fn buffer_truncate_inside_multibyte_text() {
    let mut s: StringBuffer = "héllo".parse().unwrap();
    s.truncate(3);
    assert_eq!(s.to_string(), "hé");
    assert_eq!(s.cur_offset(), 3);
}
