use fan::decimal::{parse_unsigned, push_decimal, to_decimal, IntError};
use fan::text::{
    chars_of, is_space, lines, push_joined, spells, split, split_whitespace, string_of, trim,
    trim_end_matches, trim_text,
};

fn texts() -> Vec<&'static str> {
    vec![
        "",
        " ",
        "a",
        " a ",
        "\u{3000}warm\u{2003}",
        "a,b,,c,",
        ",",
        ",,",
        "no separator",
        "one\ntwo\r\nthree",
        "\n",
        "\r\n",
        "\n\nx\r",
        "last\r\n",
        "a\rb\nc",
        "  many   words\there\u{85}and\u{a0}there ",
        "温度 50%",
        "\u{200b}zero width\u{feff}",
    ]
}

fn strings(pieces: Vec<&[char]>) -> Vec<String> {
    pieces.into_iter().map(string_of).collect()
}

#[test]
fn white_space_is_unicode_white_space() {
    let mut c = 0u32;
    while c < 0x3100 {
        if let Some(ch) = char::from_u32(c) {
            assert_eq!(is_space(ch), ch.is_whitespace(), "{:x}", c);
        }
        c += 1;
    }
    assert!(!is_space('\u{10ffff}'));
}

#[test]
fn characters_make_the_string_again() {
    for t in texts() {
        assert_eq!(string_of(&chars_of(t)), t);
        assert_eq!(chars_of(t).len(), t.chars().count());
    }
}

#[test]
fn spelling_is_compared_in_full() {
    assert!(spells(&chars_of("cpu"), "cpu"));
    assert!(!spells(&chars_of("cpu0"), "cpu"));
    assert!(!spells(&chars_of("cp"), "cpu"));
    assert!(!spells(&chars_of("CPU"), "cpu"));
    assert!(spells(&chars_of(""), ""));
}

#[test]
fn trimming_takes_both_ends() {
    for t in texts() {
        assert_eq!(string_of(trim(&chars_of(t))), t.trim());
        assert_eq!(trim_text(t), t.trim());
    }
    assert_eq!(trim_text(" 45000\n"), "45000");
}

#[test]
fn padding_is_trimmed() {
    for t in texts() {
        let padded = format!("\t\u{3000}{}\r\n ", t);
        assert_eq!(trim_text(&padded), trim_text(t));
    }
}

#[test]
fn percent_signs_at_the_end_go() {
    assert_eq!(string_of(trim_end_matches(&chars_of("42%"), '%')), "42");
    assert_eq!(string_of(trim_end_matches(&chars_of("42%%"), '%')), "42");
    assert_eq!(string_of(trim_end_matches(&chars_of("%4"), '%')), "%4");
    assert_eq!(string_of(trim_end_matches(&chars_of("%%"), '%')), "");
}

#[test]
fn separators_cut() {
    for t in texts() {
        let expected: Vec<&str> = t.split(',').collect();
        assert_eq!(strings(split(&chars_of(t), ',')), expected);
    }
    assert_eq!(strings(split(&chars_of("a::b"), ':')), vec!["a", "", "b"]);
}

#[test]
fn two_texts_are_cut_each_by_itself() {
    for a in texts() {
        for b in texts() {
            let both = format!("{},{}", a, b);
            let mut expected = strings(split(&chars_of(a), ','));
            expected.extend(strings(split(&chars_of(b), ',')));
            assert_eq!(strings(split(&chars_of(&both), ',')), expected);
        }
    }
}

#[test]
fn words_stand_between_white_space() {
    for t in texts() {
        let expected: Vec<&str> = t.split_whitespace().collect();
        assert_eq!(strings(split_whitespace(&chars_of(t))), expected);
    }
}

#[test]
fn spaced_words_come_back() {
    assert_eq!(
        strings(split_whitespace(&chars_of(" alpha b 35"))),
        vec!["alpha", "b", "35"]
    );
}

#[test]
fn lines_lose_their_endings() {
    for t in texts() {
        let expected: Vec<&str> = t.lines().collect();
        assert_eq!(strings(lines(&chars_of(t))), expected, "{:?}", t);
    }
}

#[test]
fn joined_parts_come_back_when_cut() {
    let parts = vec!["40.0".to_string(), "41.5".to_string(), "39.9".to_string()];
    let mut out = "[".to_string();
    push_joined(&mut out, &parts, ',');
    assert_eq!(out, "[40.0,41.5,39.9");
    assert_eq!(strings(split(&chars_of(&out[1..]), ',')), parts);

    let mut nothing = String::new();
    push_joined(&mut nothing, &vec![], ',');
    assert_eq!(nothing, "");
}

#[test]
fn numbers_read_as_the_machine_reads_them() {
    let cases = [
        "", "0", "7", "255", "256", "300", "0300", "00000000000000000001", "+5", "-5", "+", "-",
        "++5", " 5", "5 ", "5x", "x5", "300x", "25x", "+256", "18446744073709551615",
        "18446744073709551616", "99999999999999999999999x", "٣",
    ];
    for t in cases {
        let chars = chars_of(t);
        assert_eq!(parse_unsigned(&chars, 255).ok(), t.parse::<u8>().ok().map(u64::from), "{}", t);
        assert_eq!(
            parse_unsigned(&chars, 65535).ok(),
            t.parse::<u16>().ok().map(u64::from),
            "{}",
            t
        );
        assert_eq!(parse_unsigned(&chars, u64::MAX).ok(), t.parse::<u64>().ok(), "{}", t);
        if let (Err(ours), Err(theirs)) = (parse_unsigned(&chars, 255), t.parse::<u8>()) {
            assert_eq!(ours.message(), theirs.to_string(), "{}", t);
        }
        if let (Err(ours), Err(theirs)) = (parse_unsigned(&chars, u64::MAX), t.parse::<u64>()) {
            assert_eq!(ours.message(), theirs.to_string(), "{}", t);
        }
    }
}

#[test]
fn each_number_error_has_its_text() {
    assert_eq!(parse_unsigned(&chars_of(""), 255), Err(IntError::Empty));
    assert_eq!(parse_unsigned(&chars_of("4o"), 255), Err(IntError::InvalidDigit));
    assert_eq!(parse_unsigned(&chars_of("256"), 255), Err(IntError::TooLarge));
    assert_eq!(parse_unsigned(&chars_of("256x"), 255), Err(IntError::TooLarge));
    assert_eq!(parse_unsigned(&chars_of("25x6"), 255), Err(IntError::InvalidDigit));
}

#[test]
fn decimals_read_back() {
    for n in [0, 1, 9, 10, 99, 100, 255, 65535, 1234567890, u64::MAX - 1, u64::MAX] {
        let text = to_decimal(n);
        assert_eq!(text, n.to_string());
        assert_eq!(parse_unsigned(&chars_of(&text), u64::MAX), Ok(n));
    }
    let mut out = "pwm=".to_string();
    push_decimal(&mut out, 205);
    assert_eq!(out, "pwm=205");
}
