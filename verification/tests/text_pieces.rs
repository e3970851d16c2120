use qdc_core::dates::{detect_date_fmt, parse_date_with, parse_i32, parse_u32, DateFmt};
use qdc_core::lex::text_below;
use qdc_core::scan::{blank, space, split, split_lines, take_word, trim};
use qdc_core::text::{chars_of, push_decimal, same_text, string_of};

const TEXTS: [&str; 18] = [
    "",
    " ",
    "a",
    "\n",
    "\r\n",
    "a\n",
    "a\nb",
    "a\r\nb\r\n",
    "a\rb\n\n\rc",
    "last\r",
    "\r",
    " \t two words\u{3000}",
    "\u{a0}\u{2028}x\u{85}",
    "x\u{200b}",
    ",a,,b,",
    "\u{b5}T",
    "\u{1f600} \u{e9}",
    "one  two\tthree",
];

fn text(v: &[char]) -> String {
    v.iter().collect()
}

#[test]
fn white_space_is_that_of_unicode() {
    for c in '\0'..=char::MAX {
        assert_eq!(space(c), c.is_whitespace());
    }
}

#[test]
fn trimmed_texts() {
    for s in TEXTS {
        let chars = chars_of(s);
        assert_eq!(text(&trim(&chars)), s.trim());
        assert_eq!(blank(&chars), s.trim().is_empty());
        assert_eq!(string_of(&chars), s);
    }
}

#[test]
fn lines_of_texts() {
    for s in TEXTS {
        let got: Vec<String> = split_lines(&chars_of(s)).iter().map(|l| text(l)).collect();
        let want: Vec<&str> = s.lines().collect();
        assert_eq!(got, want);
    }
}

#[test]
fn cells_of_texts() {
    for s in TEXTS {
        for d in [',', '\t', '\n', 'a'] {
            let got: Vec<String> = split(&chars_of(s), d).iter().map(|c| text(c)).collect();
            let want: Vec<&str> = s.split(d).collect();
            assert_eq!(got, want);
        }
    }
}

#[test]
fn words_of_texts() {
    for s in TEXTS {
        let mut got: Vec<String> = Vec::new();
        let mut rest = chars_of(s);
        while let Some((word, behind)) = take_word(&rest) {
            got.push(text(&word));
            rest = behind;
        }
        let want: Vec<&str> = s.split_whitespace().collect();
        assert_eq!(got, want);
    }
}

#[test]
fn numbers_of_texts() {
    for s in [
        "", "+", "-", "0", "-0", "+0", "7", "+7", "-7", "007", "4294967295", "4294967296",
        "2147483647", "2147483648", "-2147483648", "-2147483649", "99999999999999999999999",
        "-99999999999999999999999", "00000000000000000000001", "1a", "a1", " 1", "1 ", "+-1", "--1",
        "\u{661}",
    ] {
        let chars = chars_of(s);
        assert_eq!(parse_u32(&chars), s.parse::<u32>().ok(), "{}", s);
        assert_eq!(parse_i32(&chars), s.parse::<i32>().ok(), "{}", s);
    }
}

#[test]
fn texts_in_order() {
    for a in TEXTS {
        for b in TEXTS {
            assert_eq!(text_below(a, b), a < b);
            assert_eq!(same_text(a, b), a == b);
        }
    }
}

#[test]
fn decimal_numbers() {
    for n in [0u128, 9, 10, 12345, u64::MAX as u128, u128::MAX] {
        let mut s = String::from("n=");
        push_decimal(&mut s, n);
        assert_eq!(s, format!("n={}", n));
    }
}

#[test]
fn spellings_of_one_date() {
    let spellings = [
        ("2024-02-29 13:45:30.25", DateFmt::IsoSpace),
        ("2024-02-29T13:45:30.25", DateFmt::IsoT),
        ("29/02/2024 13:45:30.25", DateFmt::DayFirstSlash),
        ("29-02-2024 13:45:30.25", DateFmt::DayFirstDash),
        ("2024/02/29 13:45:30.25", DateFmt::YmdSlash),
    ];
    for (s, format) in spellings {
        for around in ["", " ", "\t ", "\u{3000}"] {
            let cell = chars_of(&format!("{around}{s}{around}"));
            assert_eq!(detect_date_fmt(&cell), Some(format));
            assert_eq!(parse_date_with(format, &cell), Some(1_709_214_330_250_000_000));
        }
    }
    assert_eq!(detect_date_fmt(&chars_of("2024.02.29 13:45:30")), None);
}
