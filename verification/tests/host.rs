use justice::ffi::{
    justice_line, justice_line_count, justice_options_default, justice_prepare, justice_solve,
    justice_word_byte_ranges, justice_word_count, JusticeJob, JusticeLine, JusticeOptions,
};
use justice::{Binary64, Mode, Options};

fn number(x: f64) -> Binary64 {
    Binary64 { bits: x.to_bits() }
}

fn ten(from: usize, to: usize, _hyphen: bool) -> Binary64 {
    number(10.0 * (to - from) as f64)
}

type Callback = fn(usize, usize, bool) -> Binary64;

fn job(text: &str) -> JusticeJob {
    match justice_prepare(Some(text.as_bytes()), number(10.0), Some(ten as Callback)) {
        Ok(job) => job,
        Err(message) => panic!("{message}"),
    }
}

fn failure(r: Result<JusticeJob, String>) -> String {
    match r {
        Ok(_) => panic!("a job"),
        Err(message) => message,
    }
}

#[test]
fn missing_text_or_callback_is_refused() {
    let message = "justice_prepare: null text, empty text, or missing measure";
    let space = number(10.0);
    assert_eq!(
        failure(justice_prepare(None, space, Some(ten as Callback))),
        message
    );
    assert_eq!(
        failure(justice_prepare(Some(b""), space, Some(ten as Callback))),
        message
    );
    assert_eq!(
        failure(justice_prepare(Some(b"a"), space, None::<Callback>)),
        message
    );
}

#[test]
fn text_must_be_utf8() {
    let r = justice_prepare(Some(b"a\xff"), number(10.0), Some(ten as Callback));
    assert_eq!(failure(r), "justice_prepare: text is not valid UTF-8");
    let r = justice_prepare(Some(&[0xed, 0xa0, 0x80]), number(10.0), Some(ten as Callback));
    assert_eq!(failure(r), "justice_prepare: text is not valid UTF-8");
}

#[test]
fn bad_widths_of_the_host_are_refused() {
    let r = justice_prepare(
        Some(b"a"),
        number(10.0),
        Some(|_: usize, _: usize, _: bool| number(-1.0)),
    );
    assert_eq!(failure(r), "RangeError: Invalid measured word width");
    let r = justice_prepare(Some(b"a"), number(0.0), Some(ten as Callback));
    assert_eq!(failure(r), "RangeError: Space width must be positive");
}

#[test]
fn a_job_from_text_to_lines() {
    let mut job = job("  één twee drie ");
    assert_eq!(justice_word_count(&job), 3);
    assert_eq!(justice_word_byte_ranges(&job), [2, 7, 8, 12, 13, 17]);
    assert_eq!(job.range_for(1), Some((8, 12)));
    assert_eq!(job.range_for(3), None);
    assert_eq!(justice_line_count(&job), 0);
    assert_eq!(
        justice_line(&job, 0).unwrap_err(),
        "justice_line: solved before justice_solve"
    );
    assert_eq!(justice_solve(&mut job, &[number(100.0)], None), Ok(()));
    assert_eq!(justice_line_count(&job), 2);
    assert_eq!(
        justice_line(&job, 0).unwrap(),
        JusticeLine {
            word_start: 0,
            word_end: 2,
            byte_start: 2,
            byte_end: 12,
            word_spacing: number(0.0),
            tracking: number(0.0),
            last: 0,
        }
    );
    let line = justice_line(&job, 1).unwrap();
    assert_eq!((line.word_start, line.word_end, line.last), (2, 3, 1));
    assert_eq!((line.byte_start, line.byte_end), (13, 17));
    assert_eq!(
        justice_line(&job, 2).unwrap_err(),
        "justice_line: index out of range"
    );
}

#[test]
fn requests_that_cannot_be_solved_leave_the_job() {
    let mut job = job("one two");
    assert_eq!(justice_solve(&mut job, &[number(70.0)], None), Ok(()));
    let lines = justice_line_count(&job);
    assert_eq!(
        justice_solve(&mut job, &[], None).unwrap_err(),
        "justice_solve: null job or widths, or no widths at all"
    );
    assert_eq!(
        justice_solve(&mut job, &[number(70.0), number(0.0)], None).unwrap_err(),
        "justice_solve: Measure must be positive"
    );
    let d = justice_options_default();
    let o = JusticeOptions { mode: 2, ..d };
    assert_eq!(
        justice_solve(&mut job, &[number(70.0)], Some(&o)).unwrap_err(),
        "RangeError: Policy mode must be 0 (balanced) or 1 (strict)"
    );
    let o = JusticeOptions { ending: -1, ..d };
    assert_eq!(
        justice_solve(&mut job, &[number(70.0)], Some(&o)).unwrap_err(),
        "RangeError: Policy ending must be 0 (soft) or 1 (fit)"
    );
    let o = JusticeOptions {
        tracking: number(-1.0),
        ..d
    };
    assert_eq!(
        justice_solve(&mut job, &[number(70.0)], Some(&o)).unwrap_err(),
        "RangeError: Policy values must be finite and nonnegative"
    );
    assert_eq!(justice_line_count(&job), lines);
}

#[test]
fn choices_are_numbered() {
    let d = justice_options_default();
    assert_eq!((d.mode, d.ending), (0, 1));
    assert_eq!(d, JusticeOptions::from(&Options::default()));
    assert_eq!(Options::try_from(&d).unwrap(), Options::default());
    let strict = Options {
        mode: Mode::Strict,
        ..Options::default()
    };
    let c = JusticeOptions::from(&strict);
    assert_eq!(c.mode, 1);
    assert_eq!(Options::try_from(&c).unwrap(), strict);
}

#[test]
fn an_indent_takes_a_narrower_first_measure() {
    let mut job = job("aa bb cc dd");
    let widths = [number(20.0), number(80.0)];
    assert_eq!(justice_solve(&mut job, &widths, None), Ok(()));
    let line = justice_line(&job, 0).unwrap();
    assert_eq!((line.word_start, line.word_end), (0, 1));
    let line = justice_line(&job, 1).unwrap();
    assert_eq!((line.word_start, line.word_end), (1, 4));
}

#[test]
fn a_line_that_breaks_inside_a_word_has_its_own_range() {
    let width = |from: usize, to: usize, hyphen: bool| number((to - from + hyphen as usize) as f64);
    let mut job = match justice_prepare(Some(b"ab-cd"), number(1.0), Some(width)) {
        Ok(job) => job,
        Err(message) => panic!("{message}"),
    };
    assert_eq!(justice_solve(&mut job, &[number(3.0)], None), Ok(()));
    assert_eq!(justice_line_count(&job), 2);
    let line = justice_line(&job, 0).unwrap();
    assert_eq!((line.word_start, line.word_end, line.last), (0, 1, 0));
    assert_eq!((line.byte_start, line.byte_end), (0, 3));
    let line = justice_line(&job, 1).unwrap();
    assert_eq!((line.word_start, line.word_end, line.last), (0, 1, 1));
    assert_eq!((line.byte_start, line.byte_end), (3, 5));
}
