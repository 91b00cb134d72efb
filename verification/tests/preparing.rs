use justice::text::{explicit_hyphens, leading_quote, trailing_punctuation};
use justice::{
    prepare, prepare_ranged, split_ranges, with_hyphenation, with_optical_margins, Binary64, Error,
    Margins, Prepared,
};
use std::cell::RefCell;

fn number(x: f64) -> Binary64 {
    Binary64 { bits: x.to_bits() }
}

fn floats(list: &[Binary64]) -> Vec<f64> {
    list.iter().map(|x| f64::from_bits(x.bits)).collect()
}

/// Ten for each character, and four for a space.
fn monospaced(text: &str) -> Binary64 {
    number(
        text.chars()
            .map(|c| if c == ' ' { 4.0 } else { 10.0 })
            .sum::<f64>()
            + 0.0,
    )
}

fn message(r: Result<Prepared, Error>) -> String {
    r.unwrap_err().to_text()
}

#[test]
fn words_are_split_at_ascii_white_space() {
    assert_eq!(split_ranges(""), []);
    assert_eq!(split_ranges("   "), []);
    assert_eq!(split_ranges("one"), [(0, 3)]);
    assert_eq!(split_ranges("  one\t two\r\n\x0cthree "), [(2, 5), (7, 10), (13, 18)]);
    // A no-break space holds a word together; at the ends it is trimmed.
    assert_eq!(split_ranges("a\u{a0}b c"), [(0, 4), (5, 6)]);
    assert_eq!(split_ranges("\u{a0}a\u{3000}b\u{2003}"), [(2, 7)]);
    // Other white space is trimmed too, but separates nothing.
    assert_eq!(split_ranges("é\u{b}ü x"), [(0, 5), (6, 7)]);
}

#[test]
fn a_paragraph_is_measured_word_by_word() {
    let p = prepare("“Hello, wide-open world!”", monospaced).unwrap();
    assert_eq!(p.words, ["“Hello,", "wide-open", "world!”"]);
    assert_eq!(floats(&p.widths), [0.0, 70.0, 160.0, 230.0]);
    assert_eq!(floats(&p.characters), [0.0, 7.0, 16.0, 23.0]);
    assert_eq!(floats(&p.end_hangs), [10.0, 0.0, 20.0]);
    assert_eq!(floats(&p.start_hangs), [10.0, 0.0, 0.0]);
    assert_eq!(f64::from_bits(p.space.bits), 4.0);
    assert_eq!(p.start_protrusions, None);
    assert_eq!(p.end_protrusions, None);
    let entries = p.hyphenation.unwrap();
    assert_eq!(entries.len(), 3);
    assert_eq!(entries[0], None);
    assert_eq!(entries[2], None);
    let f = entries[1].as_ref().unwrap();
    assert_eq!(f.offsets, [0, 5, 9]);
    assert_eq!(
        floats(&f.widths),
        [0.0, 50.0, 90.0, 0.0, 0.0, 40.0, 0.0, 0.0, 0.0]
    );
    assert_eq!(
        floats(&f.hyphen_widths),
        [0.0, 50.0, 0.0, 0.0, 0.0, 0.0, 0.0, 0.0, 0.0]
    );
    assert_eq!(
        floats(&f.characters),
        [0.0, 5.0, 9.0, 0.0, 0.0, 4.0, 0.0, 0.0, 0.0]
    );
    assert_eq!(f.explicit, Some(vec![false, true, false]));
    assert_eq!(f.start_protrusions, None);
    assert_eq!(f.hyphen_protrusion, None);
}

#[test]
fn words_without_hyphens_have_no_fragments() {
    let p = prepare("plain words", monospaced).unwrap();
    assert_eq!(p.hyphenation, None);
}

#[test]
fn graphemes_are_counted_not_characters() {
    // A letter with a combining mark, and a family joined into one.
    let p = prepare("e\u{301}a \u{1f468}\u{200d}\u{1f469}\u{200d}\u{1f467}", monospaced).unwrap();
    assert_eq!(floats(&p.characters), [0.0, 2.0, 3.0]);
    assert_eq!(floats(&p.widths), [0.0, 30.0, 80.0]);
}

#[test]
fn equal_texts_are_measured_once() {
    let asked = RefCell::new(Vec::new());
    prepare("as-as as ... 'as", |text: &str| {
        asked.borrow_mut().push(text.to_string());
        number(5.0)
    })
    .unwrap();
    assert_eq!(
        asked.into_inner(),
        [" ", "as-as", "as-", "as", "...", "'as", "'"]
    );
}

#[test]
fn ranges_are_measured_where_they_stand() {
    let asked = RefCell::new(Vec::new());
    let p = prepare_ranged("go, re-do", number(3.0), |from, to, hyphen| {
        asked.borrow_mut().push((from, to, hyphen));
        number((to - from) as f64)
    })
    .unwrap();
    assert_eq!(
        asked.into_inner(),
        [
            (0, 3, false),
            (2, 3, false),
            (4, 9, false),
            (4, 7, false),
            (7, 9, false),
        ]
    );
    assert_eq!(floats(&p.widths), [0.0, 3.0, 8.0]);
    assert_eq!(floats(&p.end_hangs), [1.0, 0.0]);
}

#[test]
fn widths_that_cannot_be_used_are_refused() {
    for bad in [-1.0, f64::NAN, f64::INFINITY] {
        let r = prepare("a b", |text: &str| {
            number(if text == "b" { bad } else { 1.0 })
        });
        assert_eq!(message(r), "RangeError: Invalid measured word width");
        let r = prepare("a b", |text: &str| {
            number(if text == " " { bad } else { 1.0 })
        });
        assert_eq!(message(r), "RangeError: Invalid measured word width");
        let r = prepare_ranged("ab cd", number(1.0), |from, _, _| {
            number(if from == 3 { bad } else { 1.0 })
        });
        assert_eq!(message(r), "RangeError: Invalid measured word width");
    }
    let r = prepare_ranged("ab", number(0.0), |_, _, _| number(1.0));
    assert_eq!(message(r), "RangeError: Space width must be positive");
}

#[test]
fn a_refused_width_ends_the_measuring() {
    let asked = RefCell::new(0);
    let r = prepare_ranged("one two three", number(1.0), |from, _, _| {
        *asked.borrow_mut() += 1;
        number(if from == 4 { -1.0 } else { 1.0 })
    });
    assert!(r.is_err());
    assert_eq!(asked.into_inner(), 2);
}

#[test]
fn a_hang_is_at_most_its_word() {
    let p = prepare_ranged("a,", number(1.0), |from, _, _| {
        number(if from == 0 { 5.0 } else { 9.0 })
    })
    .unwrap();
    assert_eq!(floats(&p.end_hangs), [5.0]);
}

#[test]
fn punctuation_and_quotes_are_found() {
    assert_eq!(trailing_punctuation("end…’”"), Some("…’”"));
    assert_eq!(trailing_punctuation("?!"), Some("?!"));
    assert_eq!(trailing_punctuation("a.b"), None);
    assert_eq!(trailing_punctuation(""), None);
    assert_eq!(leading_quote("«mot»"), Some("«"));
    assert_eq!(leading_quote("'tis"), Some("'"));
    assert_eq!(leading_quote("»mot"), None);
    assert_eq!(leading_quote(""), None);
}

#[test]
fn hyphens_between_letters_and_digits_are_found() {
    assert_eq!(explicit_hyphens("well-known"), [5]);
    assert_eq!(explicit_hyphens("é\u{2010}1-b"), [5, 7]);
    assert_eq!(explicit_hyphens("-a- --b"), []);
    assert_eq!(explicit_hyphens("a-b\u{a0}c"), []);
}

#[test]
fn ascii_has_known_letters_digits_and_spaces() {
    for code in 0u8..128 {
        let c = code as char;
        let joined = c.is_ascii_alphanumeric();
        assert_eq!(
            explicit_hyphens(&format!("{c}-x")),
            if joined { vec![2] } else { vec![] }
        );
        let trimmed = c == ' ' || ('\t'..='\r').contains(&c);
        assert_eq!(
            split_ranges(&format!("{c}x{c}")),
            [if trimmed { (1, 2) } else { (0, 3) }]
        );
    }
}

#[test]
fn white_space_is_trimmed_and_nothing_else() {
    for code in 0..0x11_0000u32 {
        let Some(c) = char::from_u32(code) else {
            continue;
        };
        let trimmed = matches!(
            code,
            0x9..=0xd
                | 0x20
                | 0x85
                | 0xa0
                | 0x1680
                | 0x2000..=0x200a
                | 0x2028
                | 0x2029
                | 0x202f
                | 0x205f
                | 0x3000
        );
        assert_eq!(trimmed, c.is_whitespace());
        let width = c.len_utf8();
        assert_eq!(
            split_ranges(&format!("{c}x")),
            [(if trimmed { width } else { 0 }, width + 1)]
        );
    }
}

#[test]
fn dictionary_breaks_join_those_of_the_source() {
    let p = prepare("wide-open", monospaced).unwrap();
    let q = with_hyphenation(
        &p,
        |_, _| vec!["wi".to_string(), "de-".to_string(), "open".to_string()],
        |part, _| monospaced(part),
    )
    .unwrap();
    assert_eq!(q.words, p.words);
    assert_eq!(q.widths, p.widths);
    let entries = q.hyphenation.unwrap();
    let f = entries[0].as_ref().unwrap();
    assert_eq!(f.offsets, [0, 2, 5, 9]);
    assert_eq!(f.explicit, Some(vec![false, false, true, false]));
    assert_eq!(
        floats(&f.widths),
        [
            0.0, 20.0, 50.0, 90.0, 0.0, 0.0, 30.0, 70.0, 0.0, 0.0, 0.0, 40.0, 0.0, 0.0, 0.0, 0.0
        ]
    );
    assert_eq!(
        floats(&f.hyphen_widths),
        [
            0.0, 30.0, 50.0, 0.0, 0.0, 0.0, 30.0, 0.0, 0.0, 0.0, 0.0, 0.0, 0.0, 0.0, 0.0, 0.0
        ]
    );
}

#[test]
fn source_breaks_missing_from_the_dictionary_are_retained() {
    let p = prepare("wide-open", monospaced).unwrap();
    let q = with_hyphenation(
        &p,
        |_, _| vec!["wi".to_string(), "de-open".to_string()],
        |part, _| monospaced(part),
    )
    .unwrap();
    let f = q.hyphenation.unwrap()[0].clone().unwrap();
    assert_eq!(f.offsets, [0, 2, 5, 9]);
    assert_eq!(f.explicit, Some(vec![false, false, true, false]));
}

#[test]
fn words_that_stay_whole_keep_their_fragments() {
    let p = prepare("wide-open no\u{a0}break", monospaced).unwrap();
    let asked = RefCell::new(Vec::new());
    let q = with_hyphenation(
        &p,
        |word, index| {
            asked.borrow_mut().push((word.to_string(), index));
            vec![word.to_string()]
        },
        |part, _| monospaced(part),
    )
    .unwrap();
    assert_eq!(asked.into_inner(), [("wide-open".to_string(), 0)]);
    assert_eq!(q.hyphenation, p.hyphenation);
}

#[test]
fn fragments_of_one_word_are_measured_once() {
    let p = prepare("papapa papa", monospaced).unwrap();
    let asked = RefCell::new(Vec::new());
    with_hyphenation(
        &p,
        |word, _| {
            (0..word.len() / 2)
                .map(|i| word[2 * i..2 * i + 2].to_string())
                .collect()
        },
        |part, index| {
            asked.borrow_mut().push((part.to_string(), index));
            monospaced(part)
        },
    )
    .unwrap();
    let expected: Vec<(String, usize)> = [
        ("pa", 0),
        ("pa-", 0),
        ("papa", 0),
        ("papa-", 0),
        ("pa", 1),
        ("pa-", 1),
    ]
    .iter()
    .map(|&(part, index)| (part.to_string(), index))
    .collect();
    assert_eq!(asked.into_inner(), expected);
}

#[test]
fn parts_must_make_up_the_word() {
    let p = prepare("word", monospaced).unwrap();
    let wrong: [&[&str]; 4] = [&[], &["wo", "", "rd"], &["wo", "d"], &["wor"]];
    for parts in wrong {
        let r = with_hyphenation(
            &p,
            |_, _| parts.iter().map(|part| part.to_string()).collect(),
            |part, _| monospaced(part),
        );
        assert_eq!(
            message(r),
            "RangeError: Hyphenation must partition the source word"
        );
    }
}

#[test]
fn parts_must_not_split_a_grapheme() {
    let p = prepare("ne\u{301}e", monospaced).unwrap();
    let r = with_hyphenation(
        &p,
        |_, _| vec!["ne".to_string(), "\u{301}e".to_string()],
        |part, _| monospaced(part),
    );
    assert_eq!(
        message(r),
        "RangeError: Hyphenation must not split a grapheme"
    );
    let q = with_hyphenation(
        &p,
        |_, _| vec!["n".to_string(), "e\u{301}e".to_string()],
        |part, _| monospaced(part),
    )
    .unwrap();
    assert_eq!(q.hyphenation.unwrap()[0].clone().unwrap().offsets, [0, 1, 5]);
}

#[test]
fn fragment_widths_that_cannot_be_used_are_refused() {
    let p = prepare("word", monospaced).unwrap();
    let r = with_hyphenation(
        &p,
        |_, _| vec!["wo".to_string(), "rd".to_string()],
        |part, _| number(if part == "wo-" { f64::NAN } else { 1.0 }),
    );
    assert_eq!(message(r), "RangeError: Invalid measured fragment width");
}

#[test]
fn edges_are_measured_after_every_boundary() {
    let p = prepare("a wide-open", monospaced).unwrap();
    let asked = RefCell::new(Vec::new());
    let q = with_optical_margins(&p, |text, index| {
        asked.borrow_mut().push((text.to_string(), index));
        Margins {
            start: number(text.len() as f64),
            end: number(text.len() as f64 / 2.0),
        }
    })
    .unwrap();
    let expected: Vec<(String, usize)> = [
        ("a", 0),
        ("wide-open", 1),
        ("wide-open", 1),
        ("open", 1),
        ("-", 1),
    ]
    .iter()
    .map(|&(text, index)| (text.to_string(), index))
    .collect();
    assert_eq!(asked.into_inner(), expected);
    assert_eq!(floats(q.start_protrusions.as_ref().unwrap()), [1.0, 9.0]);
    assert_eq!(floats(q.end_protrusions.as_ref().unwrap()), [0.5, 4.5]);
    let entries = q.hyphenation.unwrap();
    assert_eq!(entries[0], None);
    let f = entries[1].as_ref().unwrap();
    assert_eq!(
        floats(f.start_protrusions.as_ref().unwrap()),
        [9.0, 4.0, 0.0]
    );
    assert_eq!(f.hyphen_protrusion, Some(number(0.5)));
    assert_eq!(f.offsets, [0, 5, 9]);
}

#[test]
fn margins_that_cannot_be_used_are_refused() {
    let p = prepare("wide-open", monospaced).unwrap();
    for bad in [-1.0, f64::NAN, f64::INFINITY] {
        for key in ["wide-open", "open", "-"] {
            let r = with_optical_margins(&p, |text, _| Margins {
                start: number(1.0),
                end: number(if text == key { bad } else { 1.0 }),
            });
            assert_eq!(
                message(r),
                "RangeError: Optical margins must be finite and nonnegative"
            );
        }
    }
}

#[test]
fn copies_share_their_measurements() {
    let p = prepare("some words", monospaced).unwrap();
    let q = p.clone();
    assert_eq!(p, q);
    assert!(std::sync::Arc::ptr_eq(&p.widths, &q.widths));
}

#[test]
fn prepared_words_are_the_split_ranges() {
    let text = " zoë \u{201c}said\u{201d}\tso-so\n";
    let p = prepare(text, monospaced).unwrap();
    let words: Vec<&str> = split_ranges(text)
        .iter()
        .map(|&(start, end)| &text[start..end])
        .collect();
    assert_eq!(p.words, words);
    assert!(f64::from_bits(p.space.bits) > 0.0);
    assert!(floats(&p.characters).windows(2).all(|pair| pair[0] <= pair[1]));
    assert_eq!(p.widths.len(), p.words.len() + 1);
    assert_eq!(p.characters.len(), p.words.len() + 1);
}

#[test]
fn a_no_break_space_holds_a_word_together() {
    let p = prepare("a-b\u{a0}c-d e-f", monospaced).unwrap();
    let entries = p.hyphenation.unwrap();
    assert_eq!(entries[0], None);
    assert_eq!(entries[1].as_ref().unwrap().offsets, [0, 2, 3]);
}

#[test]
fn splitting_undoes_joining_by_one_space() {
    for text in [
        "",
        "  one   two\tthree ",
        "a \u{3000}b\u{a0}c \u{b} d",
        "\u{2003}x\r\n\u{b}\n y\u{85}",
    ] {
        let words: Vec<&str> = split_ranges(text)
            .iter()
            .map(|&(start, end)| &text[start..end])
            .collect();
        let joined = words.join(" ");
        let again: Vec<&str> = split_ranges(&joined)
            .iter()
            .map(|&(start, end)| &joined[start..end])
            .collect();
        assert_eq!(again, words);
    }
}

#[test]
fn ranges_measure_as_their_texts() {
    let text = " “Well-known”  state-of-the-art, don't... 'tis ";
    let by_texts = prepare(text, monospaced).unwrap();
    let by_ranges = prepare_ranged(text, monospaced(" "), |from, to, hyphen| {
        assert!(!hyphen);
        assert!(split_ranges(text)
            .iter()
            .any(|&(start, end)| start <= from && from < to && to <= end));
        monospaced(&text[from..to])
    })
    .unwrap();
    assert_eq!(by_texts, by_ranges);
}

#[test]
fn hyphenating_twice_is_hyphenating_once() {
    let p = prepare("a wide-open field", monospaced).unwrap();
    let divide = |word: &str, _: usize| -> Vec<String> {
        if word.len() > 4 {
            vec![word[..2].to_string(), word[2..].to_string()]
        } else {
            vec![word.to_string()]
        }
    };
    let once = with_hyphenation(&p, divide, |part, _| monospaced(part)).unwrap();
    let twice = with_hyphenation(&once, divide, |part, _| monospaced(part)).unwrap();
    assert_eq!(once, twice);
}

#[test]
fn the_first_word_that_cannot_be_divided_is_reported() {
    let p = prepare("one two ne\u{301}e", monospaced).unwrap();
    let divide = |word: &str, index: usize| -> Vec<String> {
        match index {
            1 => vec!["tw".to_string()],
            2 => vec![word[..2].to_string(), word[2..].to_string()],
            _ => vec![word.to_string()],
        }
    };
    let r = with_hyphenation(&p, divide, |part, _| monospaced(part));
    assert_eq!(
        message(r),
        "RangeError: Hyphenation must partition the source word"
    );
    let r = with_hyphenation(
        &p,
        |word, index| divide(word, if index == 1 { 0 } else { index }),
        |part, _| monospaced(part),
    );
    assert_eq!(
        message(r),
        "RangeError: Hyphenation must not split a grapheme"
    );
}
