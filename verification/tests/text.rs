//! Text, numbers and object names.
use qoder_statusline::bytes::{read_be32, read_be64};
use qoder_statusline::hex::{hex_to_sha, is_hex};
use qoder_statusline::home::shorten_home;
use qoder_statusline::text::{
    char_index, chars_of, is_white_space, push_decimal, same_chars, strip_prefix, text_of, trim,
};

fn trimmed(text: &str) -> String {
    text_of(trim(&chars_of(text)))
}

#[test]
fn white_space_is_that_of_std() {
    for n in 0..=0x10ffff {
        if let Some(c) = char::from_u32(n) {
            assert_eq!(is_white_space(c), c.is_whitespace());
        }
    }
}

#[test]
fn trimming() {
    for text in ["", " ", " a b ", "\t\r\nx", "x\u{3000}", "plain", "\u{a0}\u{2003}é\u{85}"] {
        assert_eq!(trimmed(text), text.trim());
    }
}

#[test]
fn characters_make_text_again() {
    for text in ["", "abc", "额度: ▓░", "\u{10ffff}"] {
        assert_eq!(text_of(&chars_of(text)), text);
    }
}

#[test]
fn prefixes() {
    let chars = chars_of("ref: x");
    assert_eq!(strip_prefix(&chars, "ref: "), Some(&['x'][..]));
    assert_eq!(strip_prefix(&chars, ""), Some(&chars[..]));
    assert_eq!(strip_prefix(&chars, "ref: xy"), None);
    assert_eq!(strip_prefix(&chars, "Ref"), None);
    assert!(same_chars(&chars, &chars_of("ref: x")));
    assert!(!same_chars(&chars, &chars_of("ref: y")));
    assert!(!same_chars(&chars, &chars_of("ref: ")));
    assert_eq!(char_index(&chars, ' '), 4);
    assert_eq!(char_index(&chars, '!'), 6);
}

#[test]
fn decimal_digits() {
    for n in [0, 7, 10, 99, 1_000, 1_234_567, u64::MAX] {
        let mut text = String::from("n=");
        push_decimal(&mut text, n);
        assert_eq!(text, format!("n={n}"));
        // the digits stand for the number
        assert_eq!(text[2..].parse(), Ok(n));
    }
}

#[test]
fn object_names() {
    let sha = hex_to_sha("44c304ec84d5fbd8588c1af8bc71b1edb9663380").unwrap();
    assert_eq!(sha[..3], [0x44, 0xc3, 0x04]);
    assert_eq!(sha[19], 0x80);
    assert_eq!(hex_to_sha("44C304EC84D5FBD8588C1AF8BC71B1EDB9663380"), Some(sha));
    assert_eq!(hex_to_sha("44c304ec84d5fbd8588c1af8bc71b1edb966338"), None);
    assert_eq!(hex_to_sha("44c304ec84d5fbd8588c1af8bc71b1edb96633800"), None);
    assert_eq!(hex_to_sha("44c304ec84d5fbd8588c1af8bc71b1edb966338g"), None);
    assert_eq!(hex_to_sha(""), None);
}

#[test]
fn object_names_are_written_and_read() {
    let mut bytes = [0u8; 20];
    for (i, byte) in bytes.iter_mut().enumerate() {
        *byte = (i * 13 + 5) as u8;
    }
    let mut text = String::new();
    for byte in bytes {
        text.push_str(&format!("{byte:02x}"));
    }
    assert_eq!(hex_to_sha(&text), Some(bytes));
    assert_eq!(hex_to_sha(&text.to_uppercase()), Some(bytes));
    let (start, end) = text.split_at(17);
    assert_eq!(hex_to_sha(&format!("{}{end}", start.to_uppercase())), Some(bytes));
}

#[test]
fn hexadecimal_digits() {
    assert!(is_hex(&chars_of("0123456789abcdefABCDEF")));
    assert!(is_hex(&[]));
    assert!(!is_hex(&chars_of("12g4")));
    assert!(!is_hex(&chars_of("１")));
}

#[test]
fn big_endian_numbers() {
    let bytes = [9, 0x12, 0x34, 0x56, 0x78, 0x9a, 0xbc, 0xde, 0xf0];
    assert_eq!(read_be32(&bytes, 1), 0x1234_5678);
    assert_eq!(read_be64(&bytes, 1), 0x1234_5678_9abc_def0);
}

#[test]
fn home_is_folded() {
    assert_eq!(shorten_home("/home/me/work", Some("/home/me")), "~/work");
    assert_eq!(shorten_home("/home/me", Some("/home/me")), "~");
    assert_eq!(shorten_home("/home/me/", Some("/home/me")), "~/");
    assert_eq!(shorten_home("C:\\Users\\Me\\code", Some("c:\\users\\me")), "~/code");
    assert_eq!(shorten_home("c:/users/me/code", Some("C:\\Users\\Me")), "~/code");
}

#[test]
fn other_paths_are_kept() {
    assert_eq!(shorten_home("/home/menu/work", Some("/home/me")), "/home/menu/work");
    assert_eq!(shorten_home("/srv/work", Some("/home/me")), "/srv/work");
    assert_eq!(shorten_home("/home", Some("/home/me")), "/home");
    assert_eq!(shorten_home("/srv", Some("")), "/srv");
    assert_eq!(shorten_home("D:\\code\\demo", None), "D:/code/demo");
    assert_eq!(shorten_home("D:\\code\\demo", Some("C:\\Users")), "D:/code/demo");
    // letters outside ASCII are told apart by case
    assert_eq!(shorten_home("/home/É/x", Some("/home/é")), "/home/É/x");
    assert_eq!(shorten_home("/home/é/x", Some("/HOME/é")), "~/x");
}
