use justice::numerals::{decimal, js_number_string};
use justice::sampling::{next_measure, sampling_ends};
use justice::statics::plan_key;
use justice::{
    compile_static, compile_static_with, line_text, prepare, solve_with, static_line,
    static_line_with, static_spacing, static_spacing_with, Binary64, Mode, Options, Prepared,
    StaticBand,
};

fn number(x: f64) -> Binary64 {
    Binary64 { bits: x.to_bits() }
}

fn float(x: Binary64) -> f64 {
    f64::from_bits(x.bits)
}

fn advance(text: &str) -> Binary64 {
    let mut width = 0.0;
    for c in text.chars() {
        width += 4.0 + (c as u32 % 7) as f64 * 0.75;
    }
    number(width)
}

/// A number rounded to some places, and its digits; no number here stands
/// halfway between two.
fn print(x: Binary64, places: usize) -> (Binary64, String) {
    let x = float(x);
    let rounded: f64 = format!("{x:.places$}").parse().unwrap_or(x);
    (number(rounded), format!("{rounded:e}"))
}

fn written(x: f64) -> String {
    js_number_string(number(x), &format!("{x:e}"))
}

fn foxes() -> Prepared {
    prepare("“Quick” brown foxes jump over well-fed lazy dogs", advance).unwrap()
}

fn strict() -> Options {
    Options {
        mode: Mode::Strict,
        ..Options::default()
    }
}

fn pairs(list: &[(String, String)]) -> Vec<(&str, &str)> {
    list.iter()
        .map(|(name, value)| (name.as_str(), value.as_str()))
        .collect()
}

#[test]
fn numbers_are_written_as_ecmascript_does() {
    assert_eq!(written(0.0), "0");
    assert_eq!(written(-0.0), "0");
    assert_eq!(written(f64::NAN), "NaN");
    assert_eq!(written(f64::INFINITY), "Infinity");
    assert_eq!(written(f64::NEG_INFINITY), "-Infinity");
    assert_eq!(written(1.0), "1");
    assert_eq!(written(-2.5), "-2.5");
    assert_eq!(written(100.0), "100");
    assert_eq!(written(123456.789), "123456.789");
    assert_eq!(written(0.1), "0.1");
    assert_eq!(written(0.000001), "0.000001");
    assert_eq!(written(0.0000001), "1e-7");
    assert_eq!(written(-1.5e-9), "-1.5e-9");
    assert_eq!(written(1e20), "100000000000000000000");
    assert_eq!(written(1e21), "1e+21");
    assert_eq!(written(1.25e300), "1.25e+300");
    assert_eq!(written(f64::MIN_POSITIVE), "2.2250738585072014e-308");
}

#[test]
fn counts_are_written_in_decimal() {
    for n in [0usize, 7, 10, 99, 100, 12345, usize::MAX] {
        assert_eq!(decimal(n), n.to_string());
    }
}

#[test]
fn shared_rules() {
    let p = foxes();
    let rules = static_spacing(&p, &print);
    assert_eq!(
        pairs(&rules),
        [
            ("--j-cap", "1000000px"),
            ("--j-d", "min(var(--j-cap), calc(100cqw - var(--j-n)))"),
            ("--j-gap", "calc(7px + var(--j-t) + var(--j-s))"),
            ("--j-left", "0px"),
            (
                "--j-s",
                "max(-1.75px, calc((var(--j-d) - var(--j-t) * var(--j-c)) / var(--j-g)))"
            ),
            (
                "--j-t",
                "clamp(-0.3px, calc(min(0px, var(--j-d)) * var(--j-m) + max(0px, var(--j-d)) \
                 * var(--j-p)), 0.3px)"
            ),
        ]
    );
    let o = Options {
        shrink: number(0.5),
        tracking: number(1.0 / 3.0),
        ..Options::default()
    };
    let rules = static_spacing_with(&p, o, &print);
    assert!(rules[4].1.starts_with("max(-3.5px, "));
    assert!(rules[5].1.starts_with("clamp(-0.3333333333px, "));
    assert!(rules[5].1.ends_with(", 0.3333333333px)"));
}

#[test]
fn rules_of_balanced_lines() {
    let p = foxes();
    let layout = solve_with(&p, number(100.0), Options::default()).unwrap();
    assert_eq!(layout.lines.len(), 4);
    let first = static_line(&p, &layout.lines[0], &print);
    assert_eq!(first.line, layout.lines[0]);
    assert_eq!(
        pairs(&first.properties),
        [
            ("--j-c", "13"),
            ("--j-g", "1"),
            ("--j-left", "-1.65px"),
            ("--j-m", "0.0530973"),
            ("--j-n", "75.85px"),
            ("--j-p", "0.037037"),
        ]
    );
    let second = static_line(&p, &layout.lines[1], &print);
    assert_eq!(
        pairs(&second.properties),
        [
            ("--j-c", "15"),
            ("--j-g", "2"),
            ("--j-m", "0.0375"),
            ("--j-n", "99px"),
            ("--j-p", "0.0232558"),
        ]
    );
    let last = static_line(&p, &layout.lines[3], &print);
    assert_eq!(
        pairs(&last.properties),
        [
            ("--j-c", "4"),
            ("--j-cap", "0px"),
            ("--j-g", "1"),
            ("--j-m", "0.25"),
            ("--j-n", "28px"),
            ("--j-p", "0.25"),
            ("--j-s", "0px"),
        ]
    );
}

#[test]
fn rules_of_strict_lines() {
    let p = foxes();
    let layout = solve_with(&p, number(100.0), strict()).unwrap();
    assert_eq!(layout.lines.len(), 3);
    assert_eq!(line_text(&p, &layout.lines[1]), "jump over well-");
    assert_eq!(line_text(&p, &layout.lines[2]), "fed lazy dogs");
    let second = static_line_with(&p, &layout.lines[1], strict(), &print);
    assert_eq!(
        pairs(&second.properties),
        [
            ("--j-c", "15"),
            ("--j-g", "2"),
            ("--j-m", "0.0375"),
            ("--j-n", "95.25px"),
            ("--j-p", "0.0232558"),
            (
                "--j-s",
                "calc(clamp(-1.75px, calc(calc(100cqw - 95.25px) * 0.21875), 0px) + clamp(0px, \
                 calc(calc(100cqw - 95.25px) * 0.3255813953), 4.2px))"
            ),
        ]
    );
    let last = static_line_with(&p, &layout.lines[2], strict(), &print);
    assert_eq!(
        pairs(&last.properties),
        [
            ("--j-c", "13"),
            ("--j-cap", "0px"),
            ("--j-g", "2"),
            ("--j-m", "0.0405405"),
            ("--j-n", "87.25px"),
            ("--j-p", "0.0243902"),
            (
                "--j-s",
                "calc(clamp(-1.75px, calc(min(0px, calc(100cqw - 87.25px)) * 0.2364864865), 0px) \
                 + clamp(0px, calc(min(0px, calc(100cqw - 87.25px)) * 0.3414634146), 4.2px))"
            ),
        ]
    );
}

#[test]
fn strict_lines_without_flexibility_stay_as_they_are() {
    let p = prepare("a b", advance).unwrap();
    let o = Options {
        mode: Mode::Strict,
        stretch: number(0.0),
        shrink: number(0.0),
        tracking: number(0.0),
        ..Options::default()
    };
    let layout = solve_with(&p, number(100.0), o).unwrap();
    let rules = static_line_with(&p, &layout.lines[0], o, &print);
    assert_eq!(
        pairs(&rules.properties),
        [
            ("--j-c", "3"),
            ("--j-cap", "0px"),
            ("--j-g", "1"),
            ("--j-m", "0"),
            ("--j-n", "19.5px"),
            ("--j-p", "0"),
            ("--j-s", "calc(0px + 0px)"),
        ]
    );
}

/// The measures of a band, and the first and last word of its lines.
fn outline(band: &StaticBand) -> (f64, f64, Option<Vec<(usize, usize)>>) {
    let lines = band.lines.as_ref().map(|lines| {
        lines
            .iter()
            .map(|rules| (rules.line.start, rules.line.end))
            .collect()
    });
    (float(band.min), float(band.max), lines)
}

#[test]
fn equal_adjacent_plans_collapse() {
    let p = foxes();
    let bands = compile_static(&p, number(60.0), number(90.0), &print).unwrap();
    let found: Vec<_> = bands.iter().map(outline).collect();
    assert_eq!(
        found,
        [
            (60.0, 71.0, None),
            (
                71.0,
                78.0,
                Some(vec![(0, 2), (2, 4), (4, 6), (5, 7), (7, 8)])
            ),
            (78.0, 91.0, Some(vec![(0, 2), (2, 4), (4, 6), (6, 8)])),
        ]
    );
    let bands =
        compile_static_with(&p, number(60.0), number(90.0), number(0.75), strict(), &print).unwrap();
    assert_eq!(bands.len(), 1);
    assert_eq!(outline(&bands[0]), (60.0, 90.75, None));
}

#[test]
fn ranges_that_cannot_be_sampled_are_refused() {
    let p = foxes();
    for (min, max, step) in [
        (0.0, 10.0, 1.0),
        (-1.0, 10.0, 1.0),
        (10.0, 9.0, 1.0),
        (1.0, 10.0, 0.0),
        (1.0, f64::INFINITY, 1.0),
        (1.0, 10.0, f64::NAN),
        (1e17, 2e17, 1.0),
        (1.0, 1e17, 1.0),
    ] {
        let r = compile_static_with(
            &p,
            number(min),
            number(max),
            number(step),
            Options::default(),
            &print,
        );
        assert_eq!(
            r.unwrap_err().to_text(),
            "RangeError: Invalid static measure range"
        );
    }
    let o = Options {
        shrink: number(2.0),
        ..Options::default()
    };
    let r = compile_static_with(&p, number(60.0), number(61.0), number(1.0), o, &print);
    assert_eq!(
        r.unwrap_err().to_text(),
        "RangeError: Shrink, lastLine, hanging, opening, and protrusion must be at most 1"
    );
}

#[test]
fn samples_may_get_stuck_where_steps_are_lost() {
    let large = 9007199254740994.0;
    assert!(sampling_ends(number(1.0), number(300.0), number(1.0)));
    assert!(sampling_ends(number(0.1), number(7.0), number(0.3)));
    assert!(!sampling_ends(
        number(large),
        number(large + 4.0),
        number(1.0)
    ));
}

#[test]
fn keys_tell_plans_apart() {
    let p = foxes();
    let narrow = solve_with(&p, number(75.0), Options::default()).unwrap();
    let wide = solve_with(&p, number(80.0), Options::default()).unwrap();
    let wider = solve_with(&p, number(81.0), Options::default()).unwrap();
    assert_eq!(
        plan_key(&narrow.lines),
        "[[0,2,null,null],[2,4,null,null],[4,6,null,5],[5,7,5,null],[7,8,null,null]]"
    );
    assert_eq!(plan_key(&wide.lines), plan_key(&wider.lines));
    assert_eq!(plan_key(&vec![]), "[]");
}

#[test]
fn samples_never_go_back() {
    for (min, step) in [(1.0, 1.0), (0.1, 0.3), (60.5, 0.75), (1e-3, 1e-5)] {
        let mut width = number(min);
        for _ in 0..2000 {
            let next = next_measure(number(min), number(step), width);
            assert!(float(next) >= float(width));
            width = next;
        }
    }
    let third = next_measure(number(60.0), number(0.75), number(60.75));
    assert_eq!(float(third), 61.5);
}
