use rope_core::Rope;

// 127 bytes, 103 chars, 1 line
const TEXT: &str = "Hello there!  How're you doing?  It's \
                    a fine day, isn't it?  Aren't you glad \
                    we're alive?  こんにちは、みんなさん！";
// 124 bytes, 100 chars, 4 lines
const TEXT_LINES: &str = "Hello there!  How're you doing?\nIt's \
                          a fine day, isn't it?\nAren't you glad \
                          we're alive?\nこんにちは、みんなさん！";

#[test]
fn len_bytes_01() {
    let r = Rope::from_str(TEXT);
    let s = r.slice(7, 98);
    assert_eq!(s.len_bytes(), 105);
}

#[test]
fn len_bytes_02() {
    let r = Rope::from_str(TEXT);
    let s = r.slice(43, 43);
    assert_eq!(s.len_bytes(), 0);
}

#[test]
fn len_chars_01() {
    let r = Rope::from_str(TEXT);
    let s = r.slice(7, 98);
    assert_eq!(s.len_chars(), 91);
}

#[test]
fn len_chars_02() {
    let r = Rope::from_str(TEXT);
    let s = r.slice(43, 43);
    assert_eq!(s.len_chars(), 0);
}

#[test]
fn len_lines_01() {
    let r = Rope::from_str(TEXT_LINES);
    let s = r.slice(34, 98);
    assert_eq!(s.len_lines(), 3);
}

#[test]
fn len_lines_02() {
    let r = Rope::from_str(TEXT_LINES);
    let s = r.slice(43, 43);
    assert_eq!(s.len_lines(), 1);
}

#[test]
fn char_to_line_01() {
    let r = Rope::from_str(TEXT_LINES);
    let s = r.slice(34, 96);

    // 's a fine day, isn't it?\nAren't you glad \
    // we're alive?\nこんにちは、みん

    assert_eq!(0, s.char_to_line(0));
    assert_eq!(0, s.char_to_line(1));

    assert_eq!(0, s.char_to_line(24));
    assert_eq!(1, s.char_to_line(25));
    assert_eq!(1, s.char_to_line(26));

    assert_eq!(1, s.char_to_line(53));
    assert_eq!(2, s.char_to_line(54));
    assert_eq!(2, s.char_to_line(55));

    assert_eq!(3, s.char_to_line(62));
}

#[test]
fn char_to_line_02() {
    let r = Rope::from_str(TEXT_LINES);
    let s = r.slice(43, 43);

    assert_eq!(1, s.char_to_line(0));
}

#[test]
fn line_to_char_01() {
    let r = Rope::from_str(TEXT_LINES);
    let s = r.slice(34, 96);

    assert_eq!(0, s.line_to_char(0));
    assert_eq!(25, s.line_to_char(1));
    assert_eq!(54, s.line_to_char(2));
    assert_eq!(62, s.line_to_char(3));
}

#[test]
fn line_to_char_02() {
    let r = Rope::from_str(TEXT_LINES);
    let s = r.slice(43, 43);

    assert_eq!(0, s.line_to_char(0));
    assert_eq!(0, s.line_to_char(1));
}

#[test]
fn char_01() {
    let r = Rope::from_str(TEXT);
    let s = r.slice(34, 100);

    // t's \
    // a fine day, isn't it?  Aren't you glad \
    // we're alive?  こんにちは、みんな

    assert_eq!(s.char(0), 't');
    assert_eq!(s.char(10), ' ');
    assert_eq!(s.char(18), 'n');
    assert_eq!(s.char(65), 'な');
}

#[test]
fn line_01() {
    let r = Rope::from_str(TEXT_LINES);
    let s = r.slice(34, 96);
    // "'s a fine day, isn't it?\nAren't you glad \
    //  we're alive?\nこんにちは、みん"

    assert!(s.line(0).eq_str("'s a fine day, isn't it?\n"));
    assert!(s.line(1).eq_str("Aren't you glad we're alive?\n"));
    assert!(s.line(2).eq_str("こんにちは、みん"));
}

#[test]
fn line_02() {
    let r = Rope::from_str(TEXT_LINES);
    let s = r.slice(34, 59);
    // "'s a fine day, isn't it?\n"

    assert!(s.line(0).eq_str("'s a fine day, isn't it?\n"));
    assert!(s.line(1).eq_str(""));
}

#[test]
fn line_03() {
    let r = Rope::from_str(TEXT_LINES);
    let s = r.slice(43, 43);

    assert!(s.line(0).eq_str(""));
}

#[test]
fn is_grapheme_boundary_01() {
    let r = Rope::from_str(
        "Hello there!\r\nHow're you doing?\r\n\
         It's a fine day,\r\nisn't it?",
    );
    let s = r.slice(13, 50);
    // "\nHow're you doing?\r\n\
    //  It's a fine day,\r"

    assert!(s.is_grapheme_boundary(0));
    assert!(s.is_grapheme_boundary(1));
    assert!(s.is_grapheme_boundary(18));
    assert!(!s.is_grapheme_boundary(19));
    assert!(s.is_grapheme_boundary(20));
    assert!(s.is_grapheme_boundary(36));
    assert!(s.is_grapheme_boundary(37));
}

#[test]
fn prev_grapheme_boundary_01() {
    let r = Rope::from_str(
        "Hello there!\r\nHow're you doing?\r\n\
         It's a fine day,\r\nisn't it?",
    );
    let s = r.slice(13, 50);
    // "\nHow're you doing?\r\n\
    //  It's a fine day,\r"

    assert_eq!(0, s.prev_grapheme_boundary(0));
    assert_eq!(0, s.prev_grapheme_boundary(1));
    assert_eq!(17, s.prev_grapheme_boundary(18));
    assert_eq!(18, s.prev_grapheme_boundary(19));
    assert_eq!(18, s.prev_grapheme_boundary(20));
    assert_eq!(35, s.prev_grapheme_boundary(36));
    assert_eq!(36, s.prev_grapheme_boundary(37));
}

#[test]
fn next_grapheme_boundary_01() {
    let r = Rope::from_str(
        "Hello there!\r\nHow're you doing?\r\n\
         It's a fine day,\r\nisn't it?",
    );
    let s = r.slice(13, 50);
    // "\nHow're you doing?\r\n\
    //  It's a fine day,\r"

    assert_eq!(1, s.next_grapheme_boundary(0));
    assert_eq!(2, s.next_grapheme_boundary(1));
    assert_eq!(20, s.next_grapheme_boundary(18));
    assert_eq!(20, s.next_grapheme_boundary(19));
    assert_eq!(21, s.next_grapheme_boundary(20));
    assert_eq!(37, s.next_grapheme_boundary(36));
    assert_eq!(37, s.next_grapheme_boundary(37));
}

#[test]
fn slice_01() {
    let r = Rope::from_str(TEXT);
    let s1 = r.slice(0, r.len_chars());

    let s2 = s1.slice(0, s1.len_chars());

    assert!(s2.eq_str(TEXT));
}

#[test]
fn slice_02() {
    let r = Rope::from_str(TEXT);
    let s1 = r.slice(5, 43);

    let s2 = s1.slice(3, 25);

    assert!(s2.eq_str(&TEXT[8..30]));
}

#[test]
fn slice_03() {
    let r = Rope::from_str(TEXT);
    let s1 = r.slice(31, 97);

    let s2 = s1.slice(7, 64);

    assert!(s2.eq_str(&TEXT[38..103]));
}

#[test]
fn slice_04() {
    let r = Rope::from_str(TEXT);
    let s1 = r.slice(5, 43);

    let s2 = s1.slice(21, 21);

    assert!(s2.eq_str(""));
}

#[test]
fn eq_str_01() {
    let r = Rope::from_str(TEXT);
    let slice = r.to_slice();

    assert!(slice.eq_str(TEXT));
    assert!(r.eq_str(TEXT));
}

#[test]
fn eq_str_02() {
    let r = Rope::from_str(TEXT);
    let slice = r.slice(0, 20);

    assert!(!slice.eq_str(TEXT));
    assert!(!slice.eq_rope(&r));
}

#[test]
fn eq_str_03() {
    let mut r = Rope::from_str(TEXT);
    r.remove(20, 21);
    r.insert(20, "z");
    let slice = r.to_slice();

    assert!(!slice.eq_str(TEXT));
    assert!(!r.eq_str(TEXT));
}

#[test]
fn to_rope_01() {
    let r1 = Rope::from_str(TEXT);
    let s = r1.to_slice();
    let r2 = s.to_rope();

    assert!(r1.eq_rope(&r2));
    assert!(s.eq_rope(&r2));
}

#[test]
fn to_rope_02() {
    let r1 = Rope::from_str(TEXT);
    let s = r1.slice(0, 24);
    let r2 = s.to_rope();

    assert!(s.eq_rope(&r2));
}

#[test]
fn to_rope_03() {
    let r1 = Rope::from_str(TEXT);
    let s = r1.slice(13, 89);
    let r2 = s.to_rope();

    assert!(s.eq_rope(&r2));
}

#[test]
fn to_rope_04() {
    let r1 = Rope::from_str(TEXT);
    let s = r1.slice(13, 41);
    let r2 = s.to_rope();

    assert!(s.eq_rope(&r2));
}
