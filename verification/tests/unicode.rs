use logquery::lexer::{is_ident_continue, is_ident_start};
use logquery::text::{is_digit, is_hex_digit, is_space, to_ascii_lower};

#[test]
fn white_space_is_what_the_standard_library_says() {
    for n in 0..=0x10ffffu32 {
        if let Some(c) = char::from_u32(n) {
            assert_eq!(is_space(c), c.is_whitespace(), "{c:?}");
        }
    }
}

#[test]
fn ascii_classes_are_what_the_standard_library_says() {
    for n in 0..0x300u32 {
        let c = char::from_u32(n).unwrap();
        assert_eq!(is_digit(c), c.is_ascii_digit(), "{c:?}");
        assert_eq!(is_hex_digit(c), c.is_ascii_hexdigit(), "{c:?}");
        assert_eq!(to_ascii_lower(c), c.to_ascii_lowercase(), "{c:?}");
    }
}

#[test]
fn names_start_with_a_letter_of_any_script() {
    for c in ['a', 'Z', '_', '@', '$', 'é', 'ß', '日'] {
        assert!(is_ident_start(c), "{c:?}");
    }
    for c in ['0', '-', '.', ' ', '%'] {
        assert!(!is_ident_start(c), "{c:?}");
    }
    assert!(is_ident_continue('9'));
    assert!(!is_ident_continue('٣'));
    assert!(!is_ident_continue(' '));
}
