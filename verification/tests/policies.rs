use justice::fit::finish;
use justice::{prepare, solve, solve_measure, solve_with, Binary64, Ending, Error, Line, Measure, Mode, Options};

fn number(x: f64) -> Binary64 {
    Binary64 { bits: x.to_bits() }
}

fn float(x: Binary64) -> f64 {
    f64::from_bits(x.bits)
}

fn refused(measure: Vec<f64>, policy: Options) -> String {
    let p = prepare("some words here", |text| number(text.len() as f64)).unwrap();
    let widths: Vec<Binary64> = measure.iter().map(|&width| number(width)).collect();
    solve_with(&p, widths, policy).unwrap_err().to_text()
}

#[test]
fn the_published_policy() {
    let o = Options::default();
    assert_eq!(float(o.stretch), 0.6);
    assert_eq!(float(o.shrink), 0.25);
    assert_eq!(o.mode, Mode::Balanced);
    assert_eq!(float(o.tracking), 0.3);
    assert_eq!(float(o.compression_penalty), 2.0);
    assert_eq!(float(o.emergency_stretch), 0.15);
    assert_eq!(float(o.hanging), 1.0);
    assert_eq!(float(o.opening), 0.3);
    assert_eq!(float(o.protrusion), 1.0);
    assert_eq!(float(o.adjacent_penalty), 100.0);
    assert_eq!(float(o.last_line), 0.33);
    assert_eq!(o.ending, Ending::Fit);
    assert_eq!(float(o.widow_penalty), 300.0);
    assert_eq!(float(o.hyphen_penalty), 50.0);
    assert_eq!(float(o.consecutive_hyphen_penalty), 200.0);
    assert_eq!(float(o.final_hyphen_penalty), 200.0);
    assert_eq!(float(o.explicit_hyphen_penalty), 20.0);
}

#[test]
fn measures_must_be_positive() {
    let message = "RangeError: Measure must be positive";
    for widths in [
        vec![],
        vec![0.0],
        vec![-1.0],
        vec![10.0, f64::NAN],
        vec![10.0, f64::INFINITY],
    ] {
        assert_eq!(refused(widths, Options::default()), message);
    }
}

#[test]
fn policy_values_must_be_finite_and_nonnegative() {
    let message = "RangeError: Policy values must be finite and nonnegative";
    for bad in [-0.5, f64::NAN, f64::INFINITY] {
        let o = Options {
            widow_penalty: number(bad),
            ..Options::default()
        };
        assert_eq!(refused(vec![10.0], o), message);
        let o = Options {
            stretch: number(bad),
            ..Options::default()
        };
        assert_eq!(refused(vec![10.0], o), message);
        let o = Options {
            explicit_hyphen_penalty: number(bad),
            ..Options::default()
        };
        assert_eq!(refused(vec![10.0], o), message);
    }
    // The measure is looked at first.
    let o = Options {
        widow_penalty: number(-1.0),
        ..Options::default()
    };
    assert_eq!(
        refused(vec![0.0], o),
        "RangeError: Measure must be positive"
    );
}

#[test]
fn fractions_must_be_at_most_one() {
    let message =
        "RangeError: Shrink, lastLine, hanging, opening, and protrusion must be at most 1";
    let d = Options::default();
    let more = number(1.5);
    for o in [
        Options { shrink: more, ..d },
        Options { last_line: more, ..d },
        Options { hanging: more, ..d },
        Options { opening: more, ..d },
        Options {
            protrusion: more,
            ..d
        },
    ] {
        assert_eq!(refused(vec![10.0], o), message);
    }
}

#[test]
fn a_measure_is_one_width_or_several() {
    let p = prepare("a b c", |text| number(5.0 * text.len() as f64)).unwrap();
    let one = solve(&p, number(12.0)).unwrap();
    assert_eq!(one, solve(&p, 12).unwrap());
    assert_eq!(one, solve(&p, vec![number(12.0)]).unwrap());
    assert_eq!(one, solve(&p, [number(12.0), number(12.0)]).unwrap());
    let widths = [number(6.0), number(30.0)];
    let two = solve(&p, &widths[..]).unwrap();
    assert_eq!(two, solve(&p, widths).unwrap());
    let measure = Measure::from(12);
    assert_eq!(one, solve_measure(&p, measure, Options::default()).unwrap());
    assert_eq!(Measure::from(7).into_widths(), [number(7.0)]);
    assert_eq!(Measure::from(widths).into_widths(), widths);
}

#[test]
fn errors_show_their_kind() {
    let e = Error::range("message");
    assert_eq!(e, Error::Range("message".to_string()));
    assert_eq!(e.to_text(), "RangeError: message");
}

fn blank(start: usize, end: usize) -> Line {
    let zero = number(0.0);
    Line {
        start,
        end,
        width: zero,
        natural: zero,
        word_spacing: zero,
        tracking: zero,
        hanging: zero,
        opening: zero,
        residual: zero,
        relaxed: false,
        cost: zero,
        last: false,
        start_offset: None,
        end_offset: None,
        hyphenated: None,
        fitness: None,
    }
}

#[test]
fn finishing_completes_a_loose_line() {
    let o = Options::default();
    let line = Line {
        residual: number(6.0),
        word_spacing: number(2.0),
        ..blank(0, 4)
    };
    let done = finish(line, number(4.0), &o);
    assert_eq!(float(done.word_spacing), 4.0);
    assert_eq!(float(done.residual), 0.0);
    assert!(done.relaxed);
}

#[test]
fn finishing_never_shrinks_beyond_the_limit() {
    let o = Options::default();
    let line = Line {
        residual: number(-30.0),
        ..blank(0, 4)
    };
    let done = finish(line, number(4.0), &o);
    assert_eq!(float(done.word_spacing), -1.0);
    assert_eq!(float(done.residual), -27.0);
}

#[test]
fn finishing_leaves_some_lines_alone() {
    let strict = Options {
        mode: Mode::Strict,
        ..Options::default()
    };
    let loose = Line {
        residual: number(6.0),
        ..blank(0, 4)
    };
    assert_eq!(finish(loose, number(4.0), &strict), loose);
    let lone = Line {
        residual: number(6.0),
        ..blank(3, 4)
    };
    assert_eq!(finish(lone, number(4.0), &Options::default()), lone);
    let even = blank(0, 4);
    assert_eq!(finish(even, number(4.0), &Options::default()), even);
}

#[test]
fn tracking_stays_within_the_policy() {
    let text = "every one of these words is set with tracking of some kind or other";
    let p = prepare(text, |part| number(7.25 * part.len() as f64)).unwrap();
    for width in 20..200 {
        let layout = solve(&p, width).unwrap();
        for line in &layout.lines {
            assert!(float(line.tracking).abs() <= 0.3);
            assert!(float(line.word_spacing) >= -7.25 * 0.25);
        }
    }
}
