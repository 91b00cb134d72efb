use justice::fit::fit;
use justice::{prepare, solve_with, with_hyphenation, Binary64, Mode, Options, Prepared};

fn number(x: f64) -> Binary64 {
    Binary64 { bits: x.to_bits() }
}

fn float(x: Binary64) -> f64 {
    f64::from_bits(x.bits)
}

/// The least cost of all sequences of breaks, each tried in turn.
fn least(p: &Prepared, widths: &[f64], o: &Options, emergency: bool) -> f64 {
    let n = p.words.len();
    let mut best = f64::INFINITY;
    for mask in 0..1usize << (n - 1) {
        let mut cost = 0.0;
        let mut start = 0;
        let mut class = 1;
        let mut index = 0;
        for end in 1..=n {
            if end < n && mask >> (end - 1) & 1 == 0 {
                continue;
            }
            let width = widths[index.min(widths.len() - 1)];
            let line = fit(p, start, end, number(width), o, emergency, None);
            let fitness = line.fitness.unwrap();
            cost += float(line.cost);
            if start != 0 && (class - fitness as i32).abs() > 1 {
                cost += float(o.adjacent_penalty);
            } else {
                cost += 0.0;
            }
            class = fitness;
            start = end;
            index += 1;
        }
        if cost < best {
            best = cost;
        }
    }
    best
}

fn texts() -> Vec<Prepared> {
    [
        "a short line of words that are quite short",
        "incomprehensible antidisestablishmentarianism is a word",
        "one, two, three. “Four” five; six? seven! eight",
        "x yy zzz wwww vvvvv uuuuuu ttttttt ssssssss rrrrrrrrr",
    ]
    .iter()
    .map(|text| {
        prepare(text, |part| {
            number(part.bytes().map(|b| 3.0 + (b % 5) as f64 * 0.5).sum())
        })
        .unwrap()
    })
    .collect()
}

fn measures() -> Vec<Vec<f64>> {
    vec![
        vec![18.0],
        vec![30.0],
        vec![45.0],
        vec![60.0],
        vec![200.0],
        vec![60.0, 30.0],
        vec![20.0, 90.0, 25.0],
        vec![45.0, 45.0, 8.0],
    ]
}

fn numbers(widths: &[f64]) -> Vec<Binary64> {
    widths.iter().map(|&width| number(width)).collect()
}

#[test]
fn no_sequence_of_breaks_costs_less() {
    for p in texts() {
        for widths in measures() {
            let o = Options::default();
            let layout = solve_with(&p, numbers(&widths), o).unwrap();
            let first = least(&p, &widths, &o, false);
            let expected = if first == f64::INFINITY {
                least(&p, &widths, &o, true)
            } else {
                first
            };
            assert_eq!(float(layout.cost), expected);
        }
    }
}

#[test]
fn no_sequence_of_strict_breaks_costs_less() {
    for p in texts() {
        for widths in measures() {
            let o = Options {
                mode: Mode::Strict,
                ..Options::default()
            };
            let layout = solve_with(&p, numbers(&widths), o).unwrap();
            assert_eq!(float(layout.cost), least(&p, &widths, &o, false));
        }
    }
}

#[test]
fn an_early_overflow_may_be_the_optimum() {
    let p = prepare("a b HHHHHHHHH DDDDDDDD", |text| number(text.len() as f64)).unwrap();
    let o = Options {
        mode: Mode::Strict,
        stretch: number(10.0),
        shrink: number(0.0),
        tracking: number(0.0),
        ..Options::default()
    };
    let layout = solve_with(&p, numbers(&[8.0, 8.0, 1.0]), o).unwrap();
    assert_eq!(float(layout.cost), 12502.0);
    let breaks: Vec<(usize, usize)> = layout.lines.iter().map(|l| (l.start, l.end)).collect();
    assert_eq!(breaks, [(0, 3), (3, 4)]);
}

#[test]
fn the_cost_of_a_layout_is_that_of_its_lines() {
    for p in texts() {
        let layout = solve_with(&p, number(45.0), Options::default()).unwrap();
        let sum = layout
            .lines
            .iter()
            .fold(0.0, |sum, line| sum + float(line.cost));
        assert!((sum - float(layout.cost)).abs() < 1e-6);
    }
}

#[test]
fn no_line_costs_less_than_one() {
    for p in texts() {
        for start in 0..p.words.len() {
            for end in start + 1..=p.words.len() {
                for width in [5.0, 40.0, 400.0] {
                    for emergency in [false, true] {
                        let o = Options::default();
                        let line = fit(&p, start, end, number(width), &o, emergency, None);
                        assert!(float(line.cost) >= 1.0);
                    }
                }
            }
        }
    }
}

#[test]
fn strict_spaces_stay_within_their_budget() {
    let o = Options {
        mode: Mode::Strict,
        ..Options::default()
    };
    for p in texts() {
        let space = float(p.space);
        for end in 2..=p.words.len() {
            for width in [5.0, 40.0, 400.0] {
                let line = fit(&p, 0, end, number(width), &o, false, None);
                let gaps = (end - 1) as f64;
                let spacing = float(line.word_spacing);
                assert!(spacing <= gaps * space * 0.6 / gaps);
                assert!(spacing >= -(gaps * space * 0.25 / gaps));
            }
        }
    }
}

#[test]
fn a_wider_measure_is_never_tighter() {
    let o = Options::default();
    for p in texts() {
        for end in 1..=p.words.len() {
            let mut class = 0;
            for width in 1..300 {
                let line = fit(&p, 0, end, number(width as f64), &o, false, None);
                let next = line.fitness.unwrap();
                assert!(class <= next && next <= 3);
                class = next;
            }
        }
    }
}

#[test]
fn spelling_out_the_final_width_changes_no_cost() {
    for p in texts() {
        for widths in measures() {
            let o = Options::default();
            let cost = solve_with(&p, numbers(&widths), o).unwrap().cost;
            for more in 1..4 {
                let mut longer = widths.clone();
                longer.extend(vec![*widths.last().unwrap(); more]);
                assert_eq!(solve_with(&p, numbers(&longer), o).unwrap().cost, cost);
            }
        }
    }
}

#[test]
fn extra_breaks_cost_no_more() {
    let o = Options {
        mode: Mode::Strict,
        ..Options::default()
    };
    let text = "several words of considerable length that want to be divided somewhere";
    let p = prepare(text, |part| number(part.len() as f64)).unwrap();
    let q = with_hyphenation(
        &p,
        |word, _| {
            if word.len() > 5 {
                vec![word[..3].to_string(), word[3..].to_string()]
            } else {
                vec![word.to_string()]
            }
        },
        |part, _| number(part.len() as f64),
    )
    .unwrap();
    for width in 5..80 {
        let whole = solve_with(&p, width, o).unwrap();
        let divided = solve_with(&q, width, o).unwrap();
        assert!(float(divided.cost) <= float(whole.cost));
    }
}
