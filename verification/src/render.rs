//! The text of a line.

use crate::fragments::{boundary, lemma_boundary_index};
use crate::gauge::{index_at, slice};
use crate::model::{Line, Paragraph, Prepared};
use crate::text::{byte_length, lemma_offset_monotone, offset, part};
use vstd::prelude::*;

verus! {

/// The length of a text in bytes.
pub open spec fn bytes(text: Seq<char>) -> nat {
    offset(text, text.len() as int)
}

/// A word cut at an offset; one beyond its end changes nothing.
pub open spec fn cut(word: Seq<char>, end: Option<usize>) -> Seq<char> {
    match end {
        Some(at) => if at < bytes(word) {
            slice(word, 0, at as int)
        } else {
            word
        },
        None => word,
    }
}

/// What is left of a word from an offset on.
pub open spec fn rest(word: Seq<char>, start: Option<usize>) -> Seq<char> {
    match start {
        Some(at) => if at != 0 {
            slice(word, at as int, bytes(word) as int)
        } else {
            word
        },
        None => word,
    }
}

/// The word with index `i` as far as a line shows it.
pub open spec fn shown(p: Paragraph, line: Line, i: int) -> Seq<char> {
    let word = p.words[i];
    let head = if i == line.end - 1 {
        cut(word, line.end_offset)
    } else {
        word
    };
    if i == line.start {
        rest(head, line.start_offset)
    } else {
        head
    }
}

/// The words of a line from its start to before `end`, joined by spaces.
pub open spec fn spaced(p: Paragraph, line: Line, end: int) -> Seq<char>
    decreases end,
{
    if end <= line.start {
        seq![]
    } else if end == line.start + 1 {
        shown(p, line, line.start as int)
    } else {
        spaced(p, line, end - 1) + seq![' '] + shown(p, line, end - 1)
    }
}

/// The text of a line as rendered.
pub open spec fn rendered(p: Paragraph, line: Line) -> Seq<char> {
    if line.start >= line.end {
        seq![]
    } else if line.hyphenated == Some(true) {
        spaced(p, line, line.end as int).push('-')
    } else {
        spaced(p, line, line.end as int)
    }
}

/// A line whose words exist, and whose offsets lie between characters.
pub open spec fn renderable(p: Paragraph, line: Line) -> bool {
    line.start < line.end ==> {
        let last = p.words[line.end - 1];
        let first = if line.start == line.end - 1 {
            cut(last, line.end_offset)
        } else {
            p.words[line.start as int]
        };
        &&& line.end <= p.words.len()
        &&& line.end_offset matches Some(at) ==> at < bytes(last) ==> boundary(last, at as int)
        &&& line.start_offset matches Some(at) ==> boundary(first, at as int)
    }
}

/// The part of a text from one boundary to another.
fn between(text: &str, from: usize, to: usize) -> (r: &str)
    requires
        from <= to,
        boundary(text@, from as int),
        boundary(text@, to as int),
    ensures
        r@ == slice(text@, from as int, to as int),
{
    let ghost (i, j) = (index_at(text@, from as int), index_at(text@, to as int));
    proof {
        lemma_boundary_index(text@, from as int);
        lemma_boundary_index(text@, to as int);
        if j < i {
            lemma_offset_monotone(text@, j, i);
        }
    }
    part(text, from, to, Ghost(i), Ghost(j))
}

/// The ends of a text are boundaries.
proof fn lemma_ends(text: Seq<char>)
    ensures
        boundary(text, 0),
        boundary(text, bytes(text) as int),
        forall|at: int| #[trigger] boundary(text, at) ==> 0 <= at <= bytes(text),
{
    assert(offset(text, 0) == 0);
    assert(offset(text, text.len() as int) == bytes(text));
    assert forall|at: int| #[trigger] boundary(text, at) implies 0 <= at <= bytes(text) by {
        let i = choose|i: int| 0 <= i <= text.len() && #[trigger] offset(text, i) == at;
        lemma_offset_monotone(text, i, text.len() as int);
    }
}

/// A word as far as a line shows it.
fn show<'a>(p: &'a Prepared, line: &Line, i: usize) -> (r: &'a str)
    requires
        line.start <= i < line.end,
        renderable(p@, *line),
    ensures
        r@ == shown(p@, *line, i as int),
{
    let mut word: &str = p.words[i].as_str();
    assert(word@ == p@.words[i as int]);
    if i == line.end - 1 {
        if let Some(at) = line.end_offset {
            let total: usize = byte_length(word);
            proof {
                lemma_ends(word@);
            }
            if at < total {
                word = between(word, 0, at);
            }
        }
    }
    if i == line.start {
        if let Some(at) = line.start_offset {
            let total: usize = byte_length(word);
            proof {
                lemma_ends(word@);
            }
            if at != 0 {
                word = between(word, at, total);
            }
        }
    }
    word
}

/// The line's text as rendered: source words joined by spaces, trimmed to the
/// chosen offsets, with a rendered hyphen appended when generated.
pub fn line_text(p: &Prepared, line: &Line) -> (r: String)
    requires
        renderable(p@, *line),
    ensures
        r@ == rendered(p@, *line),
{
    if line.start >= line.end {
        let r: String = String::new();
        assert(r@ =~= seq![]);
        return r;
    }
    let mut r: String = show(p, line, line.start).to_owned();
    let mut i: usize = line.start + 1;
    while i < line.end
        invariant
            line.start < i <= line.end,
            renderable(p@, *line),
            r@ == spaced(p@, *line, i as int),
        decreases line.end - i,
    {
        let ghost before = r@;
        proof {
            reveal_strlit(" ");
        }
        r.append(" ");
        r.append(show(p, line, i));
        i = i + 1;
        assert(r@ =~= before + seq![' '] + shown(p@, *line, i - 1));
    }
    if line.hyphenated == Some(true) {
        let ghost before = r@;
        proof {
            reveal_strlit("-");
        }
        r.append("-");
        assert(r@ =~= before.push('-'));
    }
    r
}

}
