//! The message shown when a saved session does not parse as JSON: the
//! kind of error, where it is, the offending line with a caret under the
//! column, and a hint for data errors.

use vstd::prelude::*;

use crate::text::{decimal, string_from_chars, usize_to_text};

verus! {

/// `serde_json::Error`, carried opaquely.
#[verifier::external_type_specification]
#[verifier::external_body]
pub struct ExJsonError(serde_json::Error);

/// The category of a JSON error (`serde_json::error::Category`).
#[derive(Clone, Copy, Debug, PartialEq, Eq)]
pub enum JsonErrorCategory {
    Io,
    Syntax,
    Data,
    Eof,
}

/// What `serde_json::Error::line` returns for an error: the one-based line
/// at which the parser stopped, or 0 where it had no position.
pub uninterp spec fn json_line_of(e: serde_json::Error) -> usize;

/// What `serde_json::Error::column` returns for an error: the one-based
/// column at which the parser stopped, or 0 where it had no position.
pub uninterp spec fn json_column_of(e: serde_json::Error) -> usize;

/// The category that `serde_json::Error::classify` gives an error.
pub uninterp spec fn json_category_of(e: serde_json::Error) -> JsonErrorCategory;

/// The `Display` text of an error that is not an I/O error: composed by
/// the crate from the error's code and position alone.
pub uninterp spec fn json_text_of(e: serde_json::Error) -> Seq<char>;

/// `serde_json::Error::line`, which reads a field of the error: its result
/// is `json_line_of` of the error.
#[verifier::external_body]
fn json_error_line(e: &serde_json::Error) -> (r: usize)
    ensures
        r == json_line_of(*e),
{
    e.line()
}

/// `serde_json::Error::column`, which reads a field of the error: its
/// result is `json_column_of` of the error.
#[verifier::external_body]
fn json_error_column(e: &serde_json::Error) -> (r: usize)
    ensures
        r == json_column_of(*e),
{
    e.column()
}

/// `serde_json::Error::classify`, one arm per category, which reads the
/// error's code: its result is `json_category_of` of the error.
#[verifier::external_body]
fn json_error_category(e: &serde_json::Error) -> (r: JsonErrorCategory)
    ensures
        r == json_category_of(*e),
{
    match e.classify() {
        serde_json::error::Category::Io => JsonErrorCategory::Io,
        serde_json::error::Category::Syntax => JsonErrorCategory::Syntax,
        serde_json::error::Category::Data => JsonErrorCategory::Data,
        serde_json::error::Category::Eof => JsonErrorCategory::Eof,
    }
}

/// The `Display` text of a `serde_json::Error`. For any error but an I/O
/// error the crate composes it from the error's code and position, and the
/// result is `json_text_of` of the error; what that text reads is not
/// stated here. Nothing is stated of the text of an I/O error: it is the
/// operating system's message, which depends on the machine and the
/// locale.
#[verifier::external_body]
fn json_error_display(e: &serde_json::Error) -> (r: String)
    ensures
        json_category_of(*e) != JsonErrorCategory::Io ==> r@ == json_text_of(*e),
{
    e.to_string()
}

/// The position of the first line feed at or after `start`, or the length
/// of `s` when there is none.
pub open spec fn next_newline(s: Seq<char>, start: int) -> int
    decreases s.len() - start,
{
    if start >= s.len() {
        s.len() as int
    } else if s[start] == '\n' {
        start
    } else {
        next_newline(s, start + 1)
    }
}

/// Line `n` (zero-based) of `s` from position `start` on, as `str::lines`
/// splits text: at each line feed, dropping a carriage return just before
/// it; a final line feed ends the last line. The empty text when there is
/// no such line.
pub open spec fn line_from(s: Seq<char>, start: int, n: nat) -> Seq<char>
    decreases s.len() - start,
{
    if start < 0 || start >= s.len() {
        Seq::empty()
    } else {
        let e = next_newline(s, start);
        if n == 0 {
            let piece = s.subrange(start, e);
            if e < s.len() && piece.len() > 0 && piece.last() == '\r' {
                piece.drop_last()
            } else {
                piece
            }
        } else if e >= s.len() {
            Seq::empty()
        } else {
            proof {
                lemma_next_newline_facts(s, start);
            }
            line_from(s, e + 1, (n - 1) as nat)
        }
    }
}

/// `src.lines().nth(n).unwrap_or("")`.
pub open spec fn nth_line(s: Seq<char>, n: nat) -> Seq<char> {
    line_from(s, 0, n)
}

/// The next line feed lies at or after `start`, within the text.
pub proof fn lemma_next_newline_facts(s: Seq<char>, start: int)
    requires
        0 <= start <= s.len(),
    ensures
        start <= next_newline(s, start) <= s.len(),
        next_newline(s, start) < s.len() ==> s[next_newline(s, start)] == '\n',
    decreases s.len() - start,
{
    if start < s.len() && s[start] != '\n' {
        lemma_next_newline_facts(s, start + 1);
    }
}

/// Line `n` of the text `s` (see `nth_line`).
pub fn nth_line_chars(s: &Vec<char>, n: usize) -> (r: Vec<char>)
    ensures
        r@ == nth_line(s@, n as nat),
{
    let len = s.len();
    let mut start: usize = 0;
    let mut k: usize = n;
    loop
        invariant
            start <= len,
            len == s@.len(),
            line_from(s@, 0, n as nat) == line_from(s@, start as int, k as nat),
        decreases len - start,
    {
        if start >= len {
            return Vec::new();
        }
        let mut e = start;
        while e < len && s[e] != '\n'
            invariant
                start <= e <= len,
                len == s@.len(),
                next_newline(s@, start as int) == next_newline(s@, e as int),
            decreases len - e,
        {
            e = e + 1;
        }
        proof {
            lemma_next_newline_facts(s@, start as int);
        }
        assert(e as int == next_newline(s@, start as int));
        if k == 0 {
            let mut end = e;
            if e < len && e > start && s[e - 1] == '\r' {
                end = e - 1;
            }
            let mut out: Vec<char> = Vec::new();
            let mut i = start;
            while i < end
                invariant
                    start <= i <= end <= e <= len,
                    len == s@.len(),
                    out@ == s@.subrange(start as int, i as int),
                decreases end - i,
            {
                out.push(s[i]);
                i = i + 1;
                assert(out@ =~= s@.subrange(start as int, i as int));
            }
            proof {
                let piece = s@.subrange(start as int, e as int);
                if end < e {
                    assert(piece.drop_last() =~= s@.subrange(start as int, end as int));
                    assert(piece.last() == s@[e - 1]);
                } else {
                    assert(out@ =~= piece);
                    if e < len && piece.len() > 0 {
                        assert(piece.last() == s@[e - 1]);
                    }
                }
            }
            return out;
        }
        if e >= len {
            return Vec::new();
        }
        start = e + 1;
        k = k - 1;
    }
}

/// The heading of a JSON error message for each category.
pub open spec fn category_title(c: JsonErrorCategory) -> Seq<char> {
    match c {
        JsonErrorCategory::Syntax => "JSON syntax error"@,
        JsonErrorCategory::Data => "JSON structure/type mismatch"@,
        JsonErrorCategory::Eof => "Unexpected end of file"@,
        JsonErrorCategory::Io => "JSON parse error"@,
    }
}

/// The hint line of a JSON error message: only data errors get one.
pub open spec fn category_hint(c: JsonErrorCategory) -> Seq<char> {
    match c {
        JsonErrorCategory::Data => "Hint: field name misspelled? wrong type? missing field?"@,
        _ => Seq::empty(),
    }
}

/// `n` spaces.
pub open spec fn spaces(n: nat) -> Seq<char> {
    Seq::new(n, |i: int| ' ')
}

/// The message for a JSON error in `src` of category `cat` at `line` and
/// `col`, with the error's own text `text`. With a line number it reads
/// "TITLE at line L, column C: TEXT", the offending line, a caret under the
/// column and the hint, one per line; without one, "TITLE: TEXT" and the
/// hint.
pub open spec fn json_error_message(
    src: Seq<char>,
    cat: JsonErrorCategory,
    line: usize,
    col: usize,
    text: Seq<char>,
) -> Seq<char> {
    if line > 0 {
        category_title(cat) + " at line "@ + decimal(line as nat) + ", column "@ + decimal(
            col as nat,
        ) + ": "@ + text + "\n"@ + nth_line(src, (line - 1) as nat) + "\n"@ + spaces(
            if col > 0 {
                (col - 1) as nat
            } else {
                0
            },
        ) + "^"@ + "\n"@ + category_hint(cat)
    } else {
        category_title(cat) + ": "@ + text + "\n"@ + category_hint(cat)
    }
}

fn title_text(c: JsonErrorCategory) -> (r: String)
    ensures
        r@ == category_title(c),
{
    match c {
        JsonErrorCategory::Syntax => "JSON syntax error".to_owned(),
        JsonErrorCategory::Data => "JSON structure/type mismatch".to_owned(),
        JsonErrorCategory::Eof => "Unexpected end of file".to_owned(),
        JsonErrorCategory::Io => "JSON parse error".to_owned(),
    }
}

fn hint_text(c: JsonErrorCategory) -> (r: String)
    ensures
        r@ == category_hint(c),
{
    match c {
        JsonErrorCategory::Data => "Hint: field name misspelled? wrong type? missing field?".to_owned(),
        _ => String::new(),
    }
}

/// The message for a JSON error, from its category, position and text
/// (see `json_error_message`).
pub fn compose_json_error(
    src: &str,
    cat: JsonErrorCategory,
    line: usize,
    col: usize,
    text: &str,
) -> (r: String)
    ensures
        r@ == json_error_message(src@, cat, line, col, text@),
{
    let mut out = title_text(cat);
    let hint = hint_text(cat);
    if line > 0 {
        let chars = crate::text::chars_of(src);
        let line_chars = nth_line_chars(&chars, line - 1);
        let line_text = string_from_chars(&line_chars);
        let pad_len = col.saturating_sub(1);
        let mut pad: Vec<char> = Vec::new();
        let mut i: usize = 0;
        while i < pad_len
            invariant
                i <= pad_len,
                pad@ == spaces(i as nat),
            decreases pad_len - i,
        {
            pad.push(' ');
            i = i + 1;
            assert(pad@ =~= spaces(i as nat));
        }
        let pad_text = string_from_chars(&pad);
        let line_number = usize_to_text(line);
        let col_number = usize_to_text(col);
        out.append(" at line ");
        out.append(line_number.as_str());
        out.append(", column ");
        out.append(col_number.as_str());
        out.append(": ");
        out.append(text);
        out.append("\n");
        out.append(line_text.as_str());
        out.append("\n");
        out.append(pad_text.as_str());
        out.append("^");
        out.append("\n");
        out.append(hint.as_str());
    } else {
        out.append(": ");
        out.append(text);
        out.append("\n");
        out.append(hint.as_str());
    }
    out
}

/// Whether `m` is the message for the error `e` in `src`: composed by
/// `json_error_message` from the error's category, line and column and a
/// text that is the error's own `json_text_of` unless it is an I/O error
/// (whose text the operating system words).
pub open spec fn describes_json_error(src: Seq<char>, e: serde_json::Error, m: Seq<char>) -> bool {
    exists|t: Seq<char>|
        m == #[trigger] json_error_message(
            src,
            json_category_of(e),
            json_line_of(e),
            json_column_of(e),
            t,
        ) && (json_category_of(e) != JsonErrorCategory::Io ==> t == json_text_of(e))
}

/// The message shown when `src` does not parse as a session: the error's
/// category, line, column and text, as the parser reports them, composed
/// by `json_error_message`.
pub fn format_json_error(src: &str, e: &serde_json::Error) -> (r: String)
    ensures
        describes_json_error(src@, *e, r@),
{
    let line = json_error_line(e);
    let col = json_error_column(e);
    let cat = json_error_category(e);
    let text = json_error_display(e);
    let r = compose_json_error(src, cat, line, col, text.as_str());
    assert(r@ == json_error_message(src@, cat, line, col, text@));
    r
}

} // verus!
