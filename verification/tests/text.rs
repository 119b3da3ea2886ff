use byond_get::text::chars_of;
use byond_get::text::lower;
use byond_get::text::matches_ignore_ascii_case;
use byond_get::text::push_chars;
use byond_get::text::push_decimal;
use byond_get::text::read_u16;
use byond_get::text::text_of;
use byond_get::text::trim_bounds;
use byond_get::text::whitespace;

fn read(text: &str) -> Option<u16> {
    let chars = chars_of(text);
    read_u16(&chars, 0, chars.len())
}

fn trim(text: &str) -> String {
    let chars = chars_of(text);
    let (from, to) = trim_bounds(&chars);
    text_of(&chars, from, to)
}

#[test]
fn chars_of_lists_the_characters() {
    assert_eq!(chars_of("a\u{e9}\u{1F600}z"), vec!['a', '\u{e9}', '\u{1F600}', 'z']);
    assert_eq!(chars_of(""), Vec::<char>::new());
}

#[test]
fn text_of_takes_a_range() {
    let chars = vec!['b', 'y', 'o', 'n', 'd'];
    assert_eq!(text_of(&chars, 1, 4), "yon");
    assert_eq!(text_of(&chars, 0, 5), "byond");
    assert_eq!(text_of(&chars, 2, 2), "");
}

#[test]
fn push_chars_appends() {
    let mut text = String::from("by");
    push_chars(&mut text, &vec!['x', 'o', 'n', 'd', 'x'], 1, 4);
    assert_eq!(text, "byond");
}

#[test]
fn whitespace_is_the_white_space_of_std() {
    for c in '\0'..=char::MAX {
        assert_eq!(whitespace(c), c.is_whitespace(), "at {:?}", c);
    }
}

#[test]
fn lower_is_the_ascii_lowercase_of_std() {
    for c in '\0'..=char::MAX {
        assert_eq!(lower(c), c.to_ascii_lowercase(), "at {:?}", c);
    }
}

#[test]
fn trim_bounds_trims_like_std() {
    for text in [
        "",
        " ",
        "a",
        " a",
        "a ",
        "  a b  ",
        "\t\n linux \r\n",
        "\u{a0}x\u{2003}",
        "\u{200b}x\u{200b}",
        "x\u{85}",
        " \u{1680} ",
    ] {
        assert_eq!(trim(text), text.trim(), "at {:?}", text);
    }
}

#[test]
fn matches_ignore_ascii_case_compares_like_std() {
    let words = ["linux", "LINUX", "LiNuX", "linu", "linuxx", "win32", "WIN32", "", "l\u{131}nux"];
    for left in words {
        for right in words {
            let chars = chars_of(left);
            assert_eq!(
                matches_ignore_ascii_case(&chars, 0, chars.len(), right),
                left.eq_ignore_ascii_case(right),
                "at {:?} and {:?}",
                left,
                right
            );
        }
    }
}

#[test]
fn matches_ignore_ascii_case_looks_at_the_range_only() {
    let chars = chars_of("  Win32 ");
    assert!(matches_ignore_ascii_case(&chars, 2, 7, "win32"));
    assert!(!matches_ignore_ascii_case(&chars, 1, 7, "win32"));
    assert!(matches_ignore_ascii_case(&chars, 2, 5, "WIN"));
}

#[test]
fn push_decimal_writes_like_std() {
    for n in 0..=u16::MAX {
        let mut text = String::new();
        push_decimal(&mut text, n);
        assert_eq!(text, n.to_string());
    }
}

#[test]
fn push_decimal_appends() {
    let mut text = String::from("v");
    push_decimal(&mut text, 516);
    assert_eq!(text, "v516");
}

#[test]
fn read_u16_reads_like_std() {
    for text in [
        "", "0", "00", "7", "+7", "-7", "+", "-", "++7", "+-7", "65535", "65536", "065535",
        "0000000000000000000000065535", "99999", "100000", "4294967296", "18446744073709551616",
        "1a", "a1", " 1", "1 ", "1_000", "\u{661}", "12.5", "0x10",
    ] {
        assert_eq!(read(text), text.parse::<u16>().ok(), "at {:?}", text);
    }
}

#[test]
fn read_u16_reads_every_number_back() {
    for n in 0..=u16::MAX {
        assert_eq!(read(&n.to_string()), Some(n));
    }
}

#[test]
fn read_u16_looks_at_the_range_only() {
    let chars = chars_of("516.1657");
    assert_eq!(read_u16(&chars, 0, 3), Some(516));
    assert_eq!(read_u16(&chars, 4, 8), Some(1657));
    assert_eq!(read_u16(&chars, 0, 8), None);
    assert_eq!(read_u16(&chars, 3, 3), None);
}
