use strings::rope::{Rope, RopeSlice};

fn text_of(r: &Rope) -> String {
    let mut it = r.chars();
    let mut out = String::new();
    while let Some((c, _)) = it.next() {
        out.push(c);
    }
    out
}

fn char_pairs(r: &Rope) -> Vec<(char, usize)> {
    let mut it = r.chars();
    let mut out = Vec::new();
    while let Some(p) = it.next() {
        out.push(p);
    }
    out
}

fn bytes_of(mut s: RopeSlice) -> Vec<u8> {
    let mut out = Vec::new();
    while let Some(b) = s.next() {
        out.push(b);
    }
    out
}

fn long_text(n: usize) -> String {
    let mut s = String::new();
    for i in 0..n {
        s.push(char::from(b'a' + (i % 26) as u8));
    }
    s
}

#[test]
fn rope_hello_world_scenario() {
    let mut r = Rope::new();
    r.push_copy("Hello");
    assert_eq!(r.len(), 5);
    r.insert_copy(5, " world");
    assert_eq!(text_of(&r), "Hello world");
    r.remove(0, 6);
    assert_eq!(text_of(&r), "world");
    assert_eq!(r.len(), 5);
}

#[test]
fn rope_chars_multibyte_offsets() {
    let mut r = Rope::new();
    r.push(String::from("café"));
    assert_eq!(r.len(), 5);
    assert_eq!(
        char_pairs(&r),
        vec![('c', 0), ('a', 1), ('f', 2), ('é', 3)]
    );
    r.push_copy("s!");
    let pairs = char_pairs(&r);
    assert_eq!(pairs.len(), 6);
    assert_eq!(pairs[4], ('s', 5));
    assert_eq!(pairs[5], ('!', 6));
}

#[test]
fn rope_insert_slice_round_trip() {
    let mut r = Rope::new();
    r.push_copy("abcdef");
    r.insert(3, String::from("XYZ"));
    assert_eq!(bytes_of(r.slice(3..6)), b"XYZ".to_vec());
    assert_eq!(text_of(&r), "abcXYZdef");
}

#[test]
fn rope_insert_round_trip_across_leaves() {
    let mut r = Rope::new();
    let base = long_text(700);
    r.push_copy(&base);
    let ins = long_text(400);
    r.insert_copy(350, &ins);
    assert_eq!(r.len(), 1100);
    assert_eq!(bytes_of(r.slice(350..750)), ins.as_bytes().to_vec());
    let mut expected = String::from(&base[..350]);
    expected.push_str(&ins);
    expected.push_str(&base[350..]);
    assert_eq!(text_of(&r), expected);
    assert_eq!(bytes_of(r.full_slice()), expected.as_bytes().to_vec());
}

#[test]
fn rope_remove_excises_range() {
    let mut r = Rope::new();
    let base = long_text(1000);
    r.push_copy(&base);
    r.remove(100, 900);
    let mut expected = String::from(&base[..100]);
    expected.push_str(&base[900..]);
    assert_eq!(r.len(), 200);
    assert_eq!(text_of(&r), expected);
    r.remove(0, 200);
    assert_eq!(r.len(), 0);
    assert_eq!(text_of(&r), "");
}

#[test]
fn rope_remove_empty_range_is_noop() {
    let mut r = Rope::new();
    r.push_copy("Hello");
    r.remove(2, 2);
    r.remove(5, 5);
    assert_eq!(text_of(&r), "Hello");
    assert_eq!(r.len(), 5);
}

#[test]
fn rope_empty_slices() {
    let r = Rope::new();
    assert_eq!(bytes_of(r.slice(0..0)), Vec::<u8>::new());
    assert_eq!(bytes_of(r.full_slice()), Vec::<u8>::new());
    assert_eq!(char_pairs(&r), vec![]);
    let mut r = Rope::new();
    r.push_copy("abc");
    assert_eq!(bytes_of(r.slice(3..3)), Vec::<u8>::new());
    assert_eq!(bytes_of(r.slice(1..1)), Vec::<u8>::new());
}

#[test]
fn rope_replace_str_keeps_length() {
    let mut r = Rope::new();
    r.push_copy("Hello world");
    r.replace_str(6, "WORLD");
    assert_eq!(r.len(), 11);
    assert_eq!(text_of(&r), "Hello WORLD");
    assert_eq!(bytes_of(r.slice(6..11)), b"WORLD".to_vec());
}

#[test]
fn rope_replace_char() {
    let mut r = Rope::new();
    r.push_copy("café");
    r.replace(3, 'è');
    assert_eq!(r.len(), 5);
    assert_eq!(text_of(&r), "cafè");
    r.replace(0, 'C');
    assert_eq!(text_of(&r), "Cafè");
}

#[test]
fn rope_slice_independence() {
    let mut r = Rope::new();
    r.push_copy("abcdef");
    let mut s1 = r.slice(0..3);
    let mut s2 = r.slice(3..6);
    assert_eq!(s1.next(), Some(b'a'));
    assert_eq!(s2.next(), Some(b'd'));
    assert_eq!(s1.next(), Some(b'b'));
    assert_eq!(s1.next(), Some(b'c'));
    assert_eq!(s1.next(), None);
    assert_eq!(s2.next(), Some(b'e'));
    assert_eq!(s2.next(), Some(b'f'));
    assert_eq!(s2.next(), None);
}

#[test]
fn rope_slice_trims_first_and_last_chunk() {
    let mut r = Rope::new();
    let base = long_text(2000);
    r.push_copy(&base);
    assert_eq!(bytes_of(r.slice(123..1789)), base.as_bytes()[123..1789].to_vec());
    assert_eq!(bytes_of(r.slice(1999..2000)), base.as_bytes()[1999..].to_vec());
}

#[test]
fn rope_many_edits_keep_length() {
    let mut r = Rope::new();
    let mut model = String::new();
    for i in 0..50usize {
        let piece = long_text(i * 7 % 60 + 1);
        let at = (i * 31) % (model.len() + 1);
        r.insert_copy(at, &piece);
        model.insert_str(at, &piece);
        if i % 3 == 0 && model.len() > 10 {
            let s = (i * 13) % (model.len() - 5);
            r.remove(s, s + 5);
            model.replace_range(s..s + 5, "");
        }
        assert_eq!(r.len(), model.len());
    }
    assert_eq!(text_of(&r), model);
}

#[test]
fn rope_multibyte_text_split_over_leaves() {
    let mut r = Rope::new();
    let mut text = String::new();
    for _ in 0..300 {
        text.push('é');
        text.push('€');
    }
    r.push_copy(&text);
    assert_eq!(r.len(), text.len());
    assert_eq!(text_of(&r), text);
    let pairs = char_pairs(&r);
    assert_eq!(pairs.len(), 600);
    assert_eq!(pairs[1], ('€', 2));
    assert_eq!(pairs[2], ('é', 5));
}
