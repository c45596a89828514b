use rtk_core::text::{chars_of, contains_chars, push_decimal, push_joined, split_lines, trim_str};

#[test]
fn lines_follow_str_lines() {
    for text in ["", "a", "a\n", "a\r\nb", "a\n\nb\n", "\n", "a\rb\r", "x\r\n\r\ny"] {
        let expected: Vec<String> = text.lines().map(|s| s.to_string()).collect();
        assert_eq!(split_lines(text), expected, "text {:?}", text);
    }
}

#[test]
fn trim_follows_str_trim() {
    for text in ["", "  ", " a ", "\u{2003}b\u{85}", "a b", "\r\n x\t"] {
        assert_eq!(trim_str(text), text.trim());
    }
}

#[test]
fn decimal_and_join() {
    let mut s = String::from("n=");
    push_decimal(&mut s, 0);
    push_decimal(&mut s, 1234567890);
    assert_eq!(s, "n=01234567890");
    let mut out = String::new();
    push_joined(&mut out, &vec!["a".to_string(), "bc".to_string(), "".to_string()], ", ");
    assert_eq!(out, "a, bc, ");
}

#[test]
fn substring_search() {
    let hay = chars_of("hello world");
    assert!(contains_chars(&hay, &chars_of("lo w")));
    assert!(contains_chars(&hay, &chars_of("")));
    assert!(!contains_chars(&hay, &chars_of("word")));
    assert!(!contains_chars(&chars_of(""), &chars_of("a")));
}

#[test]
fn white_space_is_the_listed_set() {
    let listed = |n: u32| {
        (0x9..=0xd).contains(&n)
            || n == 0x20
            || n == 0x85
            || n == 0xa0
            || n == 0x1680
            || (0x2000..=0x200a).contains(&n)
            || n == 0x2028
            || n == 0x2029
            || n == 0x202f
            || n == 0x205f
            || n == 0x3000
    };
    for n in 0u32..=0x10ffff {
        if let Some(c) = char::from_u32(n) {
            assert_eq!(c.is_whitespace(), listed(n), "code point {:x}", n);
            if n < 0x3100 {
                let s = c.to_string();
                assert_eq!(trim_str(&s).is_empty(), listed(n), "code point {:x}", n);
            }
        }
    }
}
