use justice::{
    line_text, prepare, solve_with, with_hyphenation, with_optical_margins, Binary64, Ending, Layout,
    Line, Margins, Mode, Options, Prepared,
};
use std::sync::Arc;

const PLAIN: &str = "It was the best of times, it was the worst of times, it was the age of \
    wisdom, it was the age of foolishness, it was the epoch of belief, it was the epoch of \
    incredulity, it was the season of Light.";

const TEXT: &str = "When the well-known author sat down, \u{201c}at last,\u{201d} to write of \
    quiet mornings and state-of-the-art machines, nobody expected that every paragraph would \
    come out even; yet it did, and readers (being readers) noticed nothing at all.";

fn number(x: f64) -> Binary64 {
    Binary64 { bits: x.to_bits() }
}

fn float(x: Binary64) -> f64 {
    f64::from_bits(x.bits)
}

/// A font in which the width of a character depends on its code.
fn advance(text: &str) -> Binary64 {
    let mut width = 0.0;
    for c in text.chars() {
        width += 4.0 + (c as u32 % 7) as f64 * 0.75;
    }
    number(width)
}

/// A dictionary that divides long words after three and five letters.
fn divide(word: &str) -> Vec<String> {
    let cuts: &[usize] = if !word.chars().all(|c| c.is_ascii_alphabetic()) || word.len() < 7 {
        &[]
    } else if word.len() >= 9 {
        &[3, 5]
    } else {
        &[3]
    };
    let mut parts = Vec::new();
    let mut from = 0;
    for &cut in cuts {
        parts.push(word[from..cut].to_string());
        from = cut;
    }
    parts.push(word[from..].to_string());
    parts
}

/// A font whose glyphs protrude by something that depends on their code.
fn edges(text: &str) -> Margins {
    let first = text.chars().next().unwrap() as u32;
    let last = text.chars().last().unwrap() as u32;
    Margins {
        start: number(0.25 * (first % 5) as f64),
        end: number(0.5 * (last % 4) as f64),
    }
}

fn plain() -> Prepared {
    prepare(PLAIN, advance).unwrap()
}

fn text() -> Prepared {
    prepare(TEXT, advance).unwrap()
}

fn hyphenated() -> Prepared {
    with_hyphenation(&text(), |word, _| divide(word), |part, _| advance(part)).unwrap()
}

fn protruding(p: &Prepared) -> Prepared {
    with_optical_margins(p, |part, _| edges(part)).unwrap()
}

/// A paragraph of words that are only widths, of one character each.
fn bare(words: &[f64], space: f64) -> Prepared {
    let mut widths = vec![number(0.0)];
    let mut characters = vec![number(0.0)];
    let mut sum = 0.0;
    for (i, &width) in words.iter().enumerate() {
        sum += width;
        widths.push(number(sum));
        characters.push(number((i + 1) as f64));
    }
    Prepared {
        words: words.iter().map(|_| "w".to_string()).collect(),
        widths: Arc::new(widths),
        characters,
        end_hangs: vec![number(0.0); words.len()],
        start_hangs: vec![number(0.0); words.len()],
        start_protrusions: None,
        end_protrusions: None,
        space: number(space),
        hyphenation: None,
    }
}

fn measures(widths: &[f64]) -> Vec<Binary64> {
    widths.iter().map(|&width| number(width)).collect()
}

/// Where a line begins and ends, its class, and its numbers: word spacing,
/// tracking, residual and cost.
type Expected = (
    usize,
    usize,
    Option<usize>,
    Option<usize>,
    Option<bool>,
    i32,
    [f64; 4],
);

fn found(line: &Line) -> Expected {
    (
        line.start,
        line.end,
        line.start_offset,
        line.end_offset,
        line.hyphenated,
        line.fitness.unwrap(),
        [
            float(line.word_spacing),
            float(line.tracking),
            float(line.residual),
            float(line.cost),
        ],
    )
}

fn check(layout: &Layout, cost: f64, candidates: usize, lines: &[Expected]) {
    let list: Vec<Expected> = layout.lines.iter().map(found).collect();
    assert_eq!(list, lines);
    assert_eq!(float(layout.cost), cost);
    assert_eq!(layout.candidates, candidates);
}

#[test]
fn plain_default() {
    let p = plain();
    let policy = Options::default();
    let layout = solve_with(&p, measures(&[180.0]), policy).unwrap();
    check(
        &layout,
        51.30000396357264,
        144,
        &[
            (0, 7, None, None, None, 1, [-0.16203703703703706, -0.02777777777777778, 0.0, 1.158766448204034]),
            (7, 13, None, None, None, 1, [1.5677083333333335, 0.11197916666666667, 0.0, 6.2005338734233]),
            (13, 20, None, None, None, 0, [-1.0026041666666665, -0.17187500000000003, 0.0, 38.610089337384274]),
            (20, 25, None, None, None, 1, [0.042682926829268296, 0.0030487804878048777, 0.0, 1.000104957796554]),
            (25, 31, None, None, None, 1, [0.9742268041237112, 0.06958762886597937, 0.0, 2.248051054430228]),
            (31, 36, None, None, None, 1, [-0.02786624203821656, -0.004777070063694267, 0.0, 1.0008075158667178]),
            (36, 42, None, None, None, 1, [-0.12982195845697328, -0.022255192878338277, 0.0, 1.0816507764675303]),
        ],
    );
}

#[test]
fn plain_wide() {
    let p = plain();
    let policy = Options::default();
    let layout = solve_with(&p, measures(&[420.0]), policy).unwrap();
    check(
        &layout,
        39.13886404263747,
        240,
        &[
            (0, 15, None, None, None, 1, [0.40540540540540543, 0.028957528957528962, 0.0, 1.0899333422700694]),
            (15, 29, None, None, None, 1, [-0.7973372781065089, -0.13668639053254436, 0.0, 19.916555430306026]),
            (29, 42, None, None, None, 1, [-0.7714371980676328, -0.1322463768115942, 0.0, 18.132375270061377]),
        ],
    );
}

#[test]
fn plain_narrow_needs_the_second_pass() {
    let p = plain();
    let policy = Options::default();
    let layout = solve_with(&p, measures(&[70.0]), policy).unwrap();
    check(
        &layout,
        1049805.585093853,
        207,
        &[
            (0, 3, None, None, None, 1, [0.8289473684210527, 0.05921052631578947, 0.0, 1.1084464175087465]),
            (3, 5, None, None, None, 3, [21.9, 0.3, 0.0, 392.5451895043732]),
            (5, 7, None, None, None, 3, [13.3, 0.3, 0.0, 78.75211350593698]),
            (7, 9, None, None, None, 3, [20.4, 0.3, 0.0, 241.2258336370262]),
            (9, 11, None, None, None, 3, [13.850000000000001, 0.3, 0.0, 86.81669103563827]),
            (11, 13, None, None, None, 3, [13.3, 0.3, 0.0, 78.75211350593698]),
            (13, 15, None, None, None, 3, [20.4, 0.3, 0.0, 241.2258336370262]),
            (15, 17, None, None, None, 3, [23.2, 0.3, 0.0, 348.83092634332303]),
            (17, 19, None, None, None, 3, [8.25, 0.3, 0.0, 26.67661494115756]),
            (19, 21, None, None, None, 3, [20.4, 0.3, 0.0, 241.2258336370262]),
            (21, 23, None, None, None, 3, [23.2, 0.3, 0.0, 348.83092634332303]),
            (23, 24, None, None, None, 0, [0.0, -0.3, -1.9000000000000004, 1036612.0606413995]),
            (24, 27, None, None, None, 1, [1.6578947368421053, 0.11842105263157894, 0.0, 1.8675713400699716]),
            (27, 29, None, None, None, 3, [13.100000000000001, 0.3, 0.0, 175.47435718212688]),
            (29, 31, None, None, None, 3, [9.75, 0.3, 0.0, 38.37754346841694]),
            (31, 33, None, None, None, 3, [20.4, 0.3, 0.0, 241.2258336370262]),
            (33, 35, None, None, None, 3, [13.100000000000001, 0.3, 0.0, 75.4743571821269]),
            (35, 36, None, None, None, 3, [0.0, 0.3, 2.1500000000000004, 10470.03181902176]),
            (36, 39, None, None, None, 1, [1.6578947368421053, 0.11842105263157894, 0.0, 101.86757134006997]),
            (39, 41, None, None, None, 2, [2.4347826086956523, 0.17391304347826086, 0.0, 2.214876773530265]),
            (41, 42, None, None, None, 1, [0.0, 0.0, 0.0, 1.0]),
        ],
    );
}

#[test]
fn plain_strict() {
    let p = plain();
    let policy = Options {
        mode: Mode::Strict,
        ..Options::default()
    };
    let layout = solve_with(&p, measures(&[180.0]), policy).unwrap();
    check(
        &layout,
        51.30000396357264,
        309,
        &[
            (0, 7, None, None, None, 1, [-0.16203703703703706, -0.02777777777777778, 0.0, 1.158766448204034]),
            (7, 13, None, None, None, 1, [1.5677083333333335, 0.11197916666666667, 0.0, 6.2005338734233]),
            (13, 20, None, None, None, 0, [-1.0026041666666667, -0.17187500000000003, 1.7763568394002505e-15, 38.610089337384274]),
            (20, 25, None, None, None, 1, [0.042682926829268296, 0.0030487804878048777, 0.0, 1.000104957796554]),
            (25, 31, None, None, None, 1, [0.9742268041237112, 0.06958762886597937, 0.0, 2.248051054430228]),
            (31, 36, None, None, None, 1, [-0.02786624203821656, -0.004777070063694267, 0.0, 1.0008075158667178]),
            (36, 42, None, None, None, 1, [-0.12982195845697328, -0.022255192878338277, 0.0, 1.0816507764675303]),
        ],
    );
}

#[test]
fn plain_indented() {
    let p = plain();
    let policy = Options::default();
    let layout = solve_with(&p, measures(&[120.0, 200.0, 160.0]), policy).unwrap();
    check(
        &layout,
        551.8106323804377,
        162,
        &[
            (0, 5, None, None, None, 1, [-0.1058467741935484, -0.018145161290322582, 0.0, 1.0442536126682556]),
            (5, 11, None, None, None, 3, [4.59, 0.3, 0.0, 218.66280437317778]),
            (11, 17, None, None, None, 1, [-0.054858934169279006, -0.009404388714733543, 0.0, 101.00616109558327]),
            (17, 23, None, None, None, 1, [-0.5653846153846154, -0.09692307692307693, 0.0, 7.744469731451981]),
            (23, 27, None, None, None, 1, [1.3999999999999997, 0.09999999999999999, 0.0, 4.703703703703703]),
            (27, 33, None, None, None, 0, [-1.3761127596439169, -0.23590504451038574, 0.0, 98.24738118525207]),
            (33, 37, None, None, None, 2, [2.2803030303030307, 0.1628787878787879, 0.0, 117.00404714165428]),
            (37, 42, None, None, None, 1, [-0.4005281690140845, -0.06866197183098591, 0.0, 3.3978115369463358]),
        ],
    );
}

#[test]
fn plain_soft_without_classes() {
    let p = plain();
    let policy = Options {
        ending: Ending::Soft,
        adjacent_penalty: number(0.0),
        ..Options::default()
    };
    let layout = solve_with(&p, measures(&[150.0]), policy).unwrap();
    check(
        &layout,
        298.5165960380692,
        130,
        &[
            (0, 6, None, None, None, 0, [-0.8884615384615383, -0.15230769230769228, 0.0, 27.17168866636322]),
            (6, 11, None, None, None, 3, [4.5125, 0.3, 0.0, 114.99964980411809]),
            (11, 16, None, None, None, 2, [2.1818181818181817, 0.1558441558441558, 0.0, 15.018701824402612]),
            (16, 21, None, None, None, 2, [2.590909090909091, 0.18506493506493504, 0.0, 24.4751649935492]),
            (21, 25, None, None, None, 1, [-0.1476793248945148, -0.02531645569620253, 0.0, 1.1201918291641417]),
            (25, 30, None, None, None, 1, [0.04375, 0.0031249999999999997, 0.0, 1.0001130280671295]),
            (30, 35, None, None, None, 3, [4.325, 0.3, 0.0, 106.4533755466472]),
            (35, 39, None, None, None, 1, [1.6692307692307695, 0.11923076923076922, 0.0, 7.277710345757684]),
            (39, 42, None, None, None, 1, [0.0, 0.0, 0.0, 1.0]),
        ],
    );
}

#[test]
fn plain_tracked_beyond_advances() {
    let p = plain();
    let policy = Options {
        tracking: number(9.0),
        ..Options::default()
    };
    let layout = solve_with(&p, measures(&[160.0]), policy).unwrap();
    check(
        &layout,
        7.746508419068635,
        822,
        &[
            (0, 7, None, None, None, 1, [-0.145, -0.7457142857142857, 0.0, 1.1137679300291545]),
            (7, 13, None, None, None, 1, [-0.06668383110195675, -0.3429454170957775, 0.0, 1.011065663976196]),
            (13, 19, None, None, None, 1, [-0.0393048128342246, -0.2021390374331551, 0.0, 1.0022659642161285]),
            (19, 24, None, None, None, 1, [-0.154, -0.7919999999999999, 0.0, 1.1362944]),
            (24, 31, None, None, None, 1, [-0.19496434937611407, -1.0026737967914439, 0.0, 1.2765549676427042]),
            (31, 36, None, None, None, 1, [-0.1322294776119403, -0.6800373134328358, 0.0, 1.08627812456361]),
            (36, 42, None, None, None, 1, [-0.14771598808341607, -0.759682224428997, 0.0, 1.1202813686408426]),
        ],
    );
}

#[test]
fn plain_strict_tiny_column() {
    let p = plain();
    let policy = Options {
        mode: Mode::Strict,
        ..Options::default()
    };
    let layout = solve_with(&p, measures(&[24.0]), policy).unwrap();
    check(
        &layout,
        891962.4837962963,
        151,
        &[
            (0, 2, None, None, None, 0, [-1.75, -0.3, -11.45, 23311.25]),
            (2, 3, None, None, None, 3, [0.0, 0.3, 1.35, 10383.25]),
            (3, 4, None, None, None, 1, [0.0, 0.125, 0.0, 108.2337962962963]),
            (4, 5, None, None, None, 3, [0.0, 0.3, 7.9, 16442.0]),
            (5, 6, None, None, None, 0, [0.0, -0.3, -4.7, 12510.0]),
            (6, 8, None, None, None, 0, [-1.75, -0.3, -9.2, 18665.0]),
            (8, 9, None, None, None, 3, [0.0, 0.3, 1.35, 10383.25]),
            (9, 10, None, None, None, 0, [0.0, -0.3, -5.75, 13607.25]),
            (10, 11, None, None, None, 3, [0.0, 0.3, 7.9, 16442.0]),
            (11, 12, None, None, None, 0, [0.0, -0.3, -4.7, 12510.0]),
            (12, 14, None, None, None, 0, [-1.75, -0.3, -9.2, 18665.0]),
            (14, 15, None, None, None, 3, [0.0, 0.3, 1.35, 10383.25]),
            (15, 16, None, None, None, 3, [0.0, 0.3, 0.6000000000000001, 10137.0]),
            (16, 17, None, None, None, 3, [0.0, 0.3, 7.9, 16342.0]),
            (17, 18, None, None, None, 0, [0.0, -0.3, -9.15, 18673.25]),
            (18, 20, None, None, None, 0, [-1.75, -0.3, -9.2, 18665.0]),
            (20, 21, None, None, None, 3, [0.0, 0.3, 1.35, 10383.25]),
            (21, 22, None, None, None, 3, [0.0, 0.3, 0.6000000000000001, 10137.0]),
            (22, 23, None, None, None, 3, [0.0, 0.3, 7.9, 16342.0]),
            (23, 24, None, None, None, 0, [0.0, -0.3, -47.9, 239742.0]),
            (24, 26, None, None, None, 0, [-1.75, -0.3, -9.2, 18665.0]),
            (26, 27, None, None, None, 3, [0.0, 0.3, 1.35, 10383.25]),
            (27, 28, None, None, None, 0, [0.0, -0.3, -6.5, 14526.0]),
            (28, 29, None, None, None, 3, [0.0, 0.3, 7.9, 16442.0]),
            (29, 30, None, None, None, 0, [0.0, -0.3, -7.65, 16153.25]),
            (30, 32, None, None, None, 0, [-1.75, -0.3, -9.2, 18665.0]),
            (32, 33, None, None, None, 3, [0.0, 0.3, 1.35, 10383.25]),
            (33, 34, None, None, None, 0, [0.0, -0.3, -6.5, 14526.0]),
            (34, 35, None, None, None, 3, [0.0, 0.3, 7.9, 16442.0]),
            (35, 36, None, None, None, 0, [0.0, -0.3, -36.65, 144623.25]),
            (36, 38, None, None, None, 0, [-1.75, -0.3, -9.2, 18665.0]),
            (38, 39, None, None, None, 3, [0.0, 0.3, 1.35, 10383.25]),
            (39, 40, None, None, None, 0, [0.0, -0.3, -17.7, 41630.0]),
            (40, 41, None, None, None, 3, [0.0, 0.3, 7.9, 16442.0]),
            (41, 42, None, None, None, 0, [0.0, -0.3, -9.95, 20201.25]),
        ],
    );
}

#[test]
fn source_hyphens() {
    let p = text();
    let policy = Options::default();
    let layout = solve_with(&p, measures(&[170.0]), policy).unwrap();
    check(
        &layout,
        413.0493686277792,
        1030,
        &[
            (0, 4, None, None, Some(false), 0, [-1.307471264367816, -0.22413793103448273, 0.0, 84.40888348268724]),
            (4, 9, None, None, Some(false), 2, [2.259493670886076, 0.16139240506329114, 0.0, 102.74034458383511]),
            (9, 13, None, None, Some(false), 3, [5.2, 0.3, 0.0, 13.5]),
            (13, 15, None, None, Some(false), 3, [23.25, 0.3, 0.0, 56.00130106417257]),
            (15, 18, None, None, Some(false), 2, [3.433962264150943, 0.2452830188679245, 0.0, 4.096200194301007]),
            (18, 22, None, None, Some(false), 0, [-0.9051724137931036, -0.15517241379310343, 0.0, 128.67641149698633]),
            (22, 28, None, None, Some(false), 1, [0.8020833333333333, 0.05729166666666666, 0.0, 1.1039174735799935]),
            (28, 32, None, None, Some(false), 1, [-0.8192883895131087, -0.1404494382022472, 0.0, 21.522310332216872]),
            (32, 36, None, None, Some(false), 1, [0.0, 0.0, 0.0, 1.0]),
        ],
    );
}

#[test]
fn dictionary_hyphens() {
    let p = hyphenated();
    let policy = Options::default();
    let layout = solve_with(&p, measures(&[110.0]), policy).unwrap();
    check(
        &layout,
        938.6392200412449,
        1175,
        &[
            (0, 3, None, Some(5), Some(false), 3, [6.1499999999999995, 0.3, 0.0, 39.22942061395483]),
            (2, 4, Some(5), None, Some(false), 3, [20.15, 0.3, 0.0, 94.36240296909024]),
            (4, 7, None, None, Some(false), 3, [9.05, 0.3, 0.0, 45.57492069615911]),
            (7, 10, None, None, Some(false), 3, [4.75, 0.3, 0.0, 11.797969981643453]),
            (10, 13, None, None, Some(false), 1, [-0.7630813953488372, -0.13081395348837208, 0.0, 117.58167677059882]),
            (13, 15, None, Some(9), Some(false), 3, [14.350000000000001, 0.3, 0.0, 161.8303671420365]),
            (14, 16, Some(9), None, Some(false), 1, [0.45161290322580644, 0.032258064516129024, 0.0, 101.00582292078639]),
            (16, 18, None, None, Some(false), 3, [14.0, 0.3, 0.0, 140.56521798901807]),
            (18, 21, None, Some(3), Some(true), 2, [2.8488372093023258, 0.20348837209302326, 0.0, 53.63622314004967]),
            (20, 23, Some(3), None, Some(false), 0, [-1.068313953488372, -0.18313953488372092, 0.0, 146.50012105852315]),
            (23, 27, None, None, Some(false), 1, [0.2413793103448276, 0.017241379310344827, 0.0, 1.0025668524528804]),
            (27, 30, None, None, Some(false), 2, [3.181818181818182, 0.22727272727272727, 0.0, 4.817074637512462]),
            (30, 32, None, None, Some(false), 3, [8.75, 0.3, 0.0, 15.536036756339813]),
            (32, 34, None, None, Some(false), 2, [3.862068965517242, 0.27586206896551724, 0.0, 4.19939851307954]),
            (34, 36, None, None, Some(false), 1, [0.0, 0.0, 0.0, 1.0]),
        ],
    );
}

#[test]
fn dictionary_hyphens_indented() {
    let p = hyphenated();
    let policy = Options {
        hyphen_penalty: number(5.0),
        consecutive_hyphen_penalty: number(10.0),
        ..Options::default()
    };
    let layout = solve_with(&p, measures(&[90.0, 130.0]), policy).unwrap();
    check(
        &layout,
        767.4238398960001,
        1359,
        &[
            (0, 3, None, Some(5), Some(false), 1, [-0.7954545454545454, -0.13636363636363635, 0.0, 39.78287002253944]),
            (2, 5, Some(5), None, Some(false), 3, [5.1000000000000005, 0.3, 0.0, 110.6522935007633]),
            (5, 9, None, None, Some(false), 1, [0.34426229508196715, 0.024590163934426226, 0.0, 101.00624882522087]),
            (9, 13, None, Some(3), Some(true), 2, [2.237704918032787, 0.15983606557377047, 0.0, 7.71608362627826]),
            (12, 15, Some(3), Some(6), Some(false), 3, [7.3500000000000005, 0.3, 0.0, 42.20608882117698]),
            (14, 16, Some(6), None, Some(false), 1, [-0.1693548387096774, -0.029032258064516127, 0.0, 101.18126279748917]),
            (16, 19, None, None, Some(false), 1, [0.14583333333333334, 0.010416666666666666, 0.0, 1.00032085655661]),
            (19, 22, None, None, Some(false), 0, [-1.5625, -0.26785714285714285, 0.0, 143.3560495626822]),
            (22, 26, None, None, Some(false), 1, [1.2833333333333334, 0.09166666666666667, 0.0, 1.3154962962962964]),
            (26, 30, None, None, Some(false), 2, [2.754098360655737, 0.1967213114754098, 0.0, 4.199398513079542]),
            (30, 33, None, Some(3), Some(true), 1, [-0.5986842105263158, -0.10263157894736842, 0.0, 14.007727073917481]),
            (32, 36, Some(3), None, Some(false), 1, [0.0, 0.0, 0.0, 201.0]),
        ],
    );
}

#[test]
fn optical_margins() {
    let p = protruding(&hyphenated());
    let policy = Options::default();
    let layout = solve_with(&p, measures(&[140.0]), policy).unwrap();
    check(
        &layout,
        651.1837049280334,
        1257,
        &[
            (0, 3, None, None, Some(false), 3, [4.3999999999999995, 0.3, 0.0, 8.049895139277531]),
            (3, 6, None, None, Some(false), 3, [14.225000000000001, 0.3, 0.0, 92.89600480109736]),
            (6, 10, None, None, Some(false), 2, [3.786885245901639, 0.2704918032786885, 0.0, 8.400723547222956]),
            (10, 13, None, None, Some(false), 3, [11.45, 0.3, 0.0, 54.458504942025954]),
            (13, 15, None, Some(13), Some(false), 3, [16.15, 0.3, 0.0, 55.49442561319819]),
            (14, 17, Some(13), None, Some(false), 2, [2.2604166666666665, 0.16145833333333331, 0.0, 2.0492894865734224]),
            (17, 20, None, None, Some(false), 3, [6.6499999999999995, 0.3, 0.0, 16.86132461693536]),
            (20, 23, None, None, Some(false), 2, [2.2604166666666665, 0.16145833333333331, 0.0, 2.0492894865734224]),
            (23, 27, None, None, Some(false), 3, [8.816666666666666, 0.3, 0.0, 54.89598232728464]),
            (27, 31, None, None, Some(false), 1, [-0.43209876543209885, -0.07407407407407408, 0.0, 104.01068227705427]),
            (31, 34, None, Some(3), Some(true), 1, [0.5714285714285715, 0.04081632653061225, 0.0, 51.017582690790384]),
            (33, 36, Some(3), None, Some(false), 1, [0.0, 0.0, 0.0, 201.0]),
        ],
    );
}

#[test]
fn optical_margins_of_plain_words() {
    let p = protruding(&plain());
    let policy = Options::default();
    let layout = solve_with(&p, measures(&[140.0]), policy).unwrap();
    check(
        &layout,
        313.9695728853911,
        314,
        &[
            (0, 5, None, None, None, 2, [3.9729729729729732, 0.28378378378378377, 0.0, 12.487000600137174]),
            (5, 10, None, None, None, 1, [-0.8183453237410072, -0.14028776978417268, 0.0, 21.451523466284684]),
            (10, 14, None, None, None, 3, [11.566666666666666, 0.3, 0.0, 209.84227576079198]),
            (14, 18, None, None, None, 3, [6.283333333333333, 0.3, 0.0, 25.040384404659555]),
            (18, 23, None, None, None, 3, [4.6000000000000005, 0.3, 0.0, 17.437346502386358]),
            (23, 26, None, None, None, 3, [5.7749999999999995, 0.3, 0.0, 12.86986962518411]),
            (26, 30, None, None, None, 2, [3.6693548387096766, 0.2620967741935483, 0.0, 7.909944165728812]),
            (30, 35, None, None, None, 2, [2.6133333333333333, 0.18666666666666668, 0.0, 4.3336218665670465]),
            (35, 39, None, None, None, 1, [-0.25205761316872427, -0.04320987654320988, 0.0, 1.597606493651398]),
            (39, 42, None, None, None, 1, [0.0, 0.0, 0.0, 1.0]),
        ],
    );
}

#[test]
fn several_measures_share_no_costs() {
    let p = bare(&[11.0, 9.0, 17.0, 32.0], 4.0);
    let policy = Options {
        tracking: number(0.0),
        emergency_stretch: number(0.0),
        adjacent_penalty: number(0.0),
        ..Options::default()
    };
    let layout = solve_with(&p, measures(&[25.0, 23.0, 7.0]), policy).unwrap();
    check(
        &layout,
        6059145.75,
        12,
        &[
            (0, 3, None, None, None, 0, [-1.0, -0.0, -18.0, 4246866.625]),
            (3, 4, None, None, None, 0, [0.0, -0.0, -9.0, 1812279.125]),
        ],
    );
}

#[test]
fn rounding_hides_no_line() {
    let p = bare(&[0.0, 0.0, 13.502280318587431], 4.1);
    let policy = Options {
        tracking: number(0.0),
        shrink: number(1.0),
        hanging: number(0.0),
        emergency_stretch: number(0.0),
        adjacent_penalty: number(0.0),
        ..Options::default()
    };
    let layout = solve_with(&p, measures(&[13.492280318587431]), policy).unwrap();
    check(
        &layout,
        201.73260000580376,
        6,
        &[
            (0, 3, None, None, None, 0, [-4.1, -0.0, -0.009999999999999787, 201.73260000580376]),
        ],
    );
}

#[test]
fn an_early_overflow_keeps_a_word_off_the_narrow_line() {
    let p = bare(&[1.0, 1.0, 9.0, 8.0], 1.0);
    let policy = Options {
        mode: Mode::Strict,
        stretch: number(10.0),
        shrink: number(0.0),
        tracking: number(0.0),
        ..Options::default()
    };
    let layout = solve_with(&p, measures(&[8.0, 8.0, 1.0]), policy).unwrap();
    check(
        &layout,
        12502.0,
        13,
        &[
            (0, 3, None, None, None, 0, [-0.0, -0.0, -5.0, 12501.0]),
            (3, 4, None, None, None, 1, [0.0, 0.0, 0.0, 1.0]),
        ],
    );
}

#[test]
fn a_lone_word_overflows() {
    let p = bare(&[90.0], 4.0);
    let policy = Options::default();
    let layout = solve_with(&p, measures(&[50.0]), policy).unwrap();
    check(
        &layout,
        17021693.040625002,
        2,
        &[
            (0, 1, None, None, None, 0, [0.0, -0.3, -39.7, 17021693.040625002]),
        ],
    );
}

#[test]
fn no_words_make_no_lines() {
    let p = bare(&[], 4.0);
    let policy = Options::default();
    let layout = solve_with(&p, measures(&[50.0]), policy).unwrap();
    check(
        &layout,
        0.0,
        0,
        &[
        ],
    );
}

#[test]
fn a_layout_shows_its_source() {
    for (p, width) in [(plain(), 180.0), (text(), 170.0), (hyphenated(), 110.0)] {
        let layout = solve_with(&p, number(width), Options::default()).unwrap();
        let mut source = String::new();
        for (i, line) in layout.lines.iter().enumerate() {
            let mut shown = line_text(&p, line);
            if line.hyphenated == Some(true) {
                assert_eq!(shown.pop(), Some('-'));
            }
            if i > 0 && line.start_offset.is_none() {
                source.push(' ');
            }
            source.push_str(&shown);
        }
        assert_eq!(source, p.words.join(" "));
    }
}

#[test]
fn lines_take_one_measure_after_the_other() {
    let p = plain();
    let layout = solve_with(&p, measures(&[120.0, 200.0, 160.0]), Options::default()).unwrap();
    let widths: Vec<f64> = layout.lines.iter().map(|line| float(line.width)).collect();
    assert_eq!(
        widths,
        [120.0, 200.0, 160.0, 160.0, 160.0, 160.0, 160.0, 160.0]
    );
    for (i, line) in layout.lines.iter().enumerate() {
        assert_eq!(line.last, i == layout.lines.len() - 1);
    }
    for pair in layout.lines.windows(2) {
        assert_eq!(pair[0].end, pair[1].start);
    }
}

#[test]
fn a_longer_text_takes_work_in_proportion() {
    let widths: Vec<f64> = (0..1200).map(|i| 20.0 + (i % 7) as f64 * 5.0).collect();
    for policy in [
        Options::default(),
        Options {
            mode: Mode::Strict,
            ..Options::default()
        },
    ] {
        let short = solve_with(&bare(&widths[..600], 4.0), number(200.0), policy).unwrap();
        let long = solve_with(&bare(&widths, 4.0), number(200.0), policy).unwrap();
        assert!(short.candidates < 600 * 20);
        assert!(long.candidates < 3 * short.candidates);
        let narrowing = measures(&[200.0, 150.0]);
        let short = solve_with(&bare(&widths[..600], 4.0), narrowing.clone(), policy).unwrap();
        let long = solve_with(&bare(&widths, 4.0), narrowing, policy).unwrap();
        assert!(short.candidates < 600 * 20);
        assert!(long.candidates < 3 * short.candidates);
    }
}

#[test]
fn tracking_beyond_advances_looks_at_every_start() {
    let p = bare(&[10.0, 10.0, 10.0, 10.0, 10.0, 10.0], 4.0);
    let policy = Options {
        mode: Mode::Strict,
        tracking: number(20.0),
        ..Options::default()
    };
    let layout = solve_with(&p, number(15.0), policy).unwrap();
    assert_eq!(layout.candidates, 21);
}

#[test]
fn lines_account_for_their_widths() {
    for (p, width) in [
        (plain(), 180.0),
        (plain(), 60.0),
        (protruding(&plain()), 140.0),
    ] {
        for mode in [Mode::Balanced, Mode::Strict] {
            let policy = Options {
                mode,
                ..Options::default()
            };
            let layout = solve_with(&p, number(width), policy).unwrap();
            for line in &layout.lines {
                let gaps = (line.end - line.start - 1) as f64;
                let chars =
                    float(p.characters[line.end]) - float(p.characters[line.start]) + gaps;
                let natural = float(line.natural);
                let accounted = natural
                    + gaps * float(line.word_spacing)
                    + chars * float(line.tracking)
                    + float(line.residual);
                let target = width + float(line.hanging) + float(line.opening);
                let aim = if line.last && natural <= target {
                    natural
                } else {
                    target
                };
                assert!((accounted - aim).abs() <= 3e-9);
                if mode == Mode::Balanced && gaps > 0.0 && natural <= target {
                    assert!(float(line.residual).abs() <= 3e-9);
                }
            }
        }
    }
}

#[test]
fn a_compressed_line_accounts_for_its_width() {
    let p = bare(&[50.0, 50.0, 90.0], 4.0);
    let policy = Options {
        mode: Mode::Strict,
        tracking: number(0.0),
        ..Options::default()
    };
    let layout = solve_with(&p, number(103.0), policy).unwrap();
    let line = &layout.lines[0];
    assert_eq!((line.start, line.end), (0, 2));
    assert_eq!(float(line.natural), 104.0);
    assert_eq!(float(line.word_spacing), -1.0);
    assert_eq!(float(line.tracking), 0.0);
    assert_eq!(float(line.residual), 0.0);
}
