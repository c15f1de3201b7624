use rope_core::node::Node;
use rope_core::{Rope, TextInfo};

const TEXT: &str = "Hello there!  How're you doing?  It's \
                    a fine day, isn't it?  Aren't you glad \
                    we're alive?  こんにちは、みんなさん！";

fn long_text() -> String {
    let mut t = String::new();
    for _ in 0..24 {
        t.push_str(TEXT);
    }
    t
}

#[test]
fn text_info_counts() {
    let info = TextInfo::from_str(TEXT);
    assert_eq!(info.bytes, 127);
    assert_eq!(info.chars, 103);
    assert_eq!(info.line_breaks, 0);

    let info2 = TextInfo::from_str("one\ntwo\r\nthree\rfour\u{2028}five");
    assert_eq!(info2.line_breaks, 3);
}

#[test]
fn text_info_combine() {
    let a = TextInfo::from_str("ab\n");
    let b = TextInfo::from_str("cdé");
    let c = a.combine(&b);
    assert_eq!(c.bytes, 3 + 4);
    assert_eq!(c.chars, 3 + 3);
    assert_eq!(c.line_breaks, 1);
}

#[test]
fn from_str_roundtrip() {
    let t = long_text();
    let r = Rope::from_str(&t);
    assert_eq!(r.to_string(), t);
    assert_eq!(r.len_bytes(), t.len());
    assert_eq!(r.len_chars(), t.chars().count());
}

#[test]
fn chunks_concat_is_text() {
    let t = long_text();
    let r = Rope::from_str(&t);
    let mut joined = String::new();
    for c in r.chunks() {
        joined.push_str(&c);
    }
    assert_eq!(joined, t);
}

#[test]
fn chunk_sizes_within_bounds() {
    let t = long_text();
    let r = Rope::from_str(&t);
    for c in r.chunks() {
        assert!(c.len() <= rope_core::node::MAX_BYTES);
    }
}

#[test]
fn integrity_after_from_str() {
    let t = long_text();
    let r = Rope::from_str(&t);
    assert!(r.verify_integrity());
}

#[test]
fn empty_rope() {
    let r = Rope::new();
    assert_eq!(r.len_chars(), 0);
    assert_eq!(r.len_bytes(), 0);
    assert_eq!(r.len_lines(), 1);
    assert!(r.verify_integrity());
    let r2 = Rope::from_str("");
    assert!(r.eq_rope(&r2));
}

#[test]
fn insert_small() {
    let mut r = Rope::from_str("Hello world!");
    r.insert(5, ",");
    r.insert(r.len_chars(), " Bye.");
    assert!(r.eq_str("Hello, world! Bye."));
    assert!(r.verify_integrity());
}

#[test]
fn remove_range() {
    let mut r = Rope::from_str("Hello, cruel world!");
    r.remove(6, 12);
    assert!(r.eq_str("Hello, world!"));
    assert!(r.verify_integrity());
}

#[test]
fn random_inserts_match_mirror() {
    // a fixed linear-congruential sequence picks positions and pieces
    let pieces = ["a", "xyz", "né", "🇷🇸🇮🇴", "e\u{301}", "\r\n", "こん", "0123456789"];
    let mut seed: u64 = 0x2545F4914F6CDD1D;
    let mut r = Rope::new();
    let mut mirror = String::new();
    for step in 0..200 {
        seed = seed.wrapping_mul(6364136223846793005).wrapping_add(1442695040888963407);
        let n_chars = mirror.chars().count();
        let pos = (seed >> 33) as usize % (n_chars + 1);
        let piece = pieces[step % pieces.len()];
        r.insert(pos, piece);
        let byte_pos = mirror
            .char_indices()
            .map(|p| p.0)
            .chain(core::iter::once(mirror.len()))
            .nth(pos)
            .unwrap();
        mirror.insert_str(byte_pos, piece);
        assert!(r.verify_integrity());
    }
    assert!(r.eq_str(&mirror));
    assert_eq!(r.len_bytes(), mirror.len());
}

#[test]
fn forks_are_independent() {
    let t = long_text();
    let mut a = Rope::from_str(&t);
    let b = a.fork();
    a.insert(100, "≠≠≠");
    a.remove(0, 7);
    assert!(b.eq_str(&t));
    assert!(!a.eq_rope(&b));
    assert!(a.verify_integrity());
    assert!(b.verify_integrity());
}

#[test]
fn full_slice_to_rope_is_identity() {
    let t = long_text();
    let r = Rope::from_str(&t);
    let s = r.slice(0, r.len_chars());
    let r2 = s.to_rope();
    assert!(r.eq_rope(&r2));
}

#[test]
fn empty_slice_is_valid() {
    let r = Rope::from_str(TEXT);
    let s = r.slice(43, 43);
    assert_eq!(s.len_chars(), 0);
    assert_eq!(s.len_bytes(), 0);
    assert!(s.eq_str(""));
}

#[test]
fn byte_char_roundtrip() {
    let t = "a¢ह𐍈b\r\nc";
    let r = Rope::from_str(t);
    let node: &Node = &r.root;
    let n_chars = t.chars().count();
    for i in 0..=n_chars {
        let b = node.char_to_byte(i);
        assert_eq!(node.byte_to_char(b), i);
    }
}

#[test]
fn line_char_roundtrip() {
    let t = "one\ntwo\nthree\nこんにちは\nlast";
    let r = Rope::from_str(t);
    let node: &Node = &r.root;
    let n_chars = t.chars().count();
    for i in 0..=n_chars {
        let k = node.char_to_line(i);
        let start = node.line_to_char(k);
        assert!(start <= i);
        let at_start = i == 0 || {
            let prev = t.chars().nth(i - 1).unwrap();
            prev == '\n'
        };
        assert_eq!(start == i, at_start);
    }
}

#[test]
fn prev_next_grapheme_roundtrip() {
    let t = "ab\r\ncd🇷🇸🇮🇴e\u{301}f";
    let r = Rope::from_str(t);
    let s = r.to_slice();
    let n = s.len_chars();
    for b in 1..n {
        if s.is_grapheme_boundary(b) {
            let nb = s.next_grapheme_boundary(b);
            assert_eq!(s.prev_grapheme_boundary(nb), b);
        }
    }
}

#[test]
fn line_conversions_on_rope() {
    let t = "aa\nbbb\n\ncccc\n";
    let r = Rope::from_str(t);
    let node: &Node = &r.root;
    assert_eq!(r.len_lines(), 5);
    assert_eq!(node.line_to_char(0), 0);
    assert_eq!(node.line_to_char(1), 3);
    assert_eq!(node.line_to_char(2), 7);
    assert_eq!(node.line_to_char(3), 8);
    assert_eq!(node.line_to_char(4), 13);
    assert_eq!(node.char_to_line(0), 0);
    assert_eq!(node.char_to_line(3), 1);
    assert_eq!(node.char_to_line(6), 1);
    assert_eq!(node.char_to_line(7), 2);
    assert_eq!(node.char_to_line(13), 4);
    assert_eq!(node.line_to_byte(1), 3);
    assert_eq!(node.byte_to_line(3), 1);
}

#[test]
fn seam_strings_move_cluster_left() {
    let (l, r) = rope_core::grapheme::fix_grapheme_seam_strings(
        String::from("a\r"),
        String::from("\nb"),
    );
    assert_eq!(l, "a\r\n");
    assert_eq!(r, "b");

    let (l2, r2) = rope_core::grapheme::fix_grapheme_seam_strings(
        String::from("ab"),
        String::from("cd"),
    );
    assert_eq!(l2, "ab");
    assert_eq!(r2, "cd");
}

#[test]
fn graphemes_and_lines() {
    let r = Rope::from_str("a\r\nb🇷🇸c\nd");
    let s = r.to_slice();
    let gs = s.graphemes();
    let expected = ["a", "\r\n", "b", "🇷🇸", "c", "\n", "d"];
    assert_eq!(gs.len(), expected.len());
    for (g, e) in gs.iter().zip(expected.iter()) {
        assert_eq!(g, e);
    }
    let ls = s.lines();
    assert_eq!(ls.len(), 3);
    assert_eq!(ls[0], "a\r\n");
    assert_eq!(ls[1], "b🇷🇸c\n");
    assert_eq!(ls[2], "d");
}

#[test]
fn slice_chars_and_bytes() {
    let r = Rope::from_str("naïve");
    let s = r.to_slice();
    let cs = s.chars();
    assert_eq!(cs, vec!['n', 'a', 'ï', 'v', 'e']);
    let bs = s.bytes();
    assert_eq!(bs, "naïve".as_bytes().to_vec());
}
