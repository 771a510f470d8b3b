//! Character-level text helpers with exact specifications: whitespace
//! trimming, decimal formatting and parsing of `u32`, digit filtering and
//! substring search.

use vstd::prelude::*;

verus! {

broadcast use vstd::string::group_string_axioms;

// ---------------------------------------------------------------------------
// Conversions between strings and character vectors
// ---------------------------------------------------------------------------

/// The characters of a string slice, in order.
pub fn chars_of(s: &str) -> (v: Vec<char>)
    ensures
        v@ == s@,
{
    let mut v: Vec<char> = Vec::new();
    for c in it: s.chars()
        invariant
            v@ == it.seq().take(it.index() as int),
    {
        v.push(c);
    }
    v
}

/// `String::from_iter` over a slice of characters: the string made of
/// exactly these characters, in order.
#[verifier::external_body]
pub(crate) fn string_from_chars(v: &Vec<char>) -> (s: String)
    ensures
        s@ == v@,
{
    String::from_iter(v.iter())
}

// ---------------------------------------------------------------------------
// Whitespace and trimming
// ---------------------------------------------------------------------------

/// Unicode `White_Space`: the characters that `str::trim` removes.
pub open spec fn is_white_space(c: char) -> bool {
    ||| ('\u{9}' <= c && c <= '\u{d}')
    ||| c == ' '
    ||| c == '\u{85}'
    ||| c == '\u{a0}'
    ||| c == '\u{1680}'
    ||| ('\u{2000}' <= c && c <= '\u{200a}')
    ||| c == '\u{2028}'
    ||| c == '\u{2029}'
    ||| c == '\u{202f}'
    ||| c == '\u{205f}'
    ||| c == '\u{3000}'
}

/// `s` without its leading whitespace.
pub open spec fn trim_front(s: Seq<char>) -> Seq<char>
    decreases s.len(),
{
    if s.len() > 0 && is_white_space(s[0]) {
        trim_front(s.drop_first())
    } else {
        s
    }
}

/// `s` without its trailing whitespace.
pub open spec fn trim_back(s: Seq<char>) -> Seq<char>
    decreases s.len(),
{
    if s.len() > 0 && is_white_space(s.last()) {
        trim_back(s.drop_last())
    } else {
        s
    }
}

/// `s` without leading and trailing whitespace, as `str::trim` gives it.
pub open spec fn trimmed(s: Seq<char>) -> Seq<char> {
    trim_back(trim_front(s))
}

/// Whether a character is Unicode whitespace.
pub fn white_space(c: char) -> (b: bool)
    ensures
        b == is_white_space(c),
{
    ('\u{9}' <= c && c <= '\u{d}') || c == ' ' || c == '\u{85}' || c == '\u{a0}' || c
        == '\u{1680}' || ('\u{2000}' <= c && c <= '\u{200a}') || c == '\u{2028}' || c
        == '\u{2029}' || c == '\u{202f}' || c == '\u{205f}' || c == '\u{3000}'
}

proof fn lemma_trim_front_skip(s: Seq<char>, k: int)
    requires
        0 <= k <= s.len(),
        forall|j: int| 0 <= j < k ==> is_white_space(#[trigger] s[j]),
    ensures
        trim_front(s) == trim_front(s.subrange(k, s.len() as int)),
    decreases k,
{
    if k == 0 {
        assert(s.subrange(0, s.len() as int) =~= s);
    } else {
        let t = s.drop_first();
        assert forall|j: int| 0 <= j < k - 1 implies is_white_space(#[trigger] t[j]) by {
            assert(t[j] == s[j + 1]);
        }
        lemma_trim_front_skip(t, k - 1);
        assert(t.subrange(k - 1, t.len() as int) =~= s.subrange(k, s.len() as int));
    }
}

proof fn lemma_trim_back_skip(s: Seq<char>, k: int)
    requires
        0 <= k <= s.len(),
        forall|j: int| k <= j < s.len() ==> is_white_space(#[trigger] s[j]),
    ensures
        trim_back(s) == trim_back(s.subrange(0, k)),
    decreases s.len() - k,
{
    if k == s.len() {
        assert(s.subrange(0, k) =~= s);
    } else {
        let t = s.drop_last();
        lemma_trim_back_skip(t, k);
        assert(t.subrange(0, k) =~= s.subrange(0, k));
    }
}

/// Bounds `(start, end)` of the trimmed part of `v`.
fn trim_bounds(v: &Vec<char>) -> (r: (usize, usize))
    ensures
        r.0 <= r.1 <= v.len(),
        trimmed(v@) == v@.subrange(r.0 as int, r.1 as int),
{
    let n = v.len();
    let mut i: usize = 0;
    while i < n && white_space(v[i])
        invariant
            i <= n,
            n == v.len(),
            forall|j: int| 0 <= j < i ==> is_white_space(#[trigger] v@[j]),
        decreases n - i,
    {
        i = i + 1;
    }
    proof {
        lemma_trim_front_skip(v@, i as int);
    }
    let ghost front = v@.subrange(i as int, n as int);
    assert(trim_front(v@) == front) by {
        if i < n {
            assert(front[0] == v@[i as int]);
        } else {
            assert(front.len() == 0);
        }
    }
    let mut j: usize = n;
    while j > i && white_space(v[j - 1])
        invariant
            i <= j <= n,
            n == v.len(),
            forall|k: int| j <= k < n ==> is_white_space(#[trigger] v@[k]),
        decreases j,
    {
        j = j - 1;
    }
    proof {
        assert forall|k: int| j - i <= k < front.len() implies is_white_space(#[trigger] front[k]) by {
            assert(front[k] == v@[i + k]);
        }
        lemma_trim_back_skip(front, j - i);
        let back = front.subrange(0, j - i);
        assert(back =~= v@.subrange(i as int, j as int));
        if j > i {
            assert(back.last() == v@[j - 1]);
        }
    }
    (i, j)
}

/// `str::trim`: the text without leading and trailing whitespace.
pub fn trim_text(s: &str) -> (r: String)
    ensures
        r@ == trimmed(s@),
{
    let v = chars_of(s);
    let (a, b) = trim_bounds(&v);
    let mut out: Vec<char> = Vec::new();
    let mut k = a;
    while k < b
        invariant
            a <= k <= b <= v.len(),
            out@ == v@.subrange(a as int, k as int),
        decreases b - k,
    {
        out.push(v[k]);
        k = k + 1;
        assert(out@ =~= v@.subrange(a as int, k as int));
    }
    string_from_chars(&out)
}

/// Whether the text is empty once trimmed (`s.trim().is_empty()`).
pub fn is_blank(s: &str) -> (b: bool)
    ensures
        b == (trimmed(s@).len() == 0),
{
    let v = chars_of(s);
    let (a, b) = trim_bounds(&v);
    a == b
}

// ---------------------------------------------------------------------------
// Decimal digits
// ---------------------------------------------------------------------------

/// Whether `c` is one of `'0'..='9'`.
pub open spec fn is_digit(c: char) -> bool {
    '0' <= c && c <= '9'
}

/// The value of a decimal digit character.
pub open spec fn digit_value(c: char) -> int {
    (c as int) - ('0' as int)
}

/// The character of the digit `d` (for `d < 10`).
pub open spec fn digit_char(d: int) -> char {
    if d == 0 {
        '0'
    } else if d == 1 {
        '1'
    } else if d == 2 {
        '2'
    } else if d == 3 {
        '3'
    } else if d == 4 {
        '4'
    } else if d == 5 {
        '5'
    } else if d == 6 {
        '6'
    } else if d == 7 {
        '7'
    } else if d == 8 {
        '8'
    } else {
        '9'
    }
}

/// Whether every character of `s` is a decimal digit.
pub open spec fn all_digits(s: Seq<char>) -> bool {
    forall|i: int| 0 <= i < s.len() ==> is_digit(#[trigger] s[i])
}

/// The number that the digits `s` spell in base ten.
pub open spec fn digits_value(s: Seq<char>) -> int
    decreases s.len(),
{
    if s.len() == 0 {
        0
    } else {
        digits_value(s.drop_last()) * 10 + digit_value(s.last())
    }
}

/// The shortest decimal spelling of `n`, as `u32::to_string` writes it.
pub open spec fn decimal(n: nat) -> Seq<char>
    decreases n,
{
    if n < 10 {
        seq![digit_char(n as int)]
    } else {
        decimal(n / 10).push(digit_char((n % 10) as int))
    }
}

/// What `str::parse::<u32>` gives for `s`: an optional `+` sign followed by
/// at least one decimal digit, whose value fits in a `u32`.
pub open spec fn u32_from_text(s: Seq<char>) -> Option<u32> {
    let d = if s.len() > 1 && s[0] == '+' {
        s.drop_first()
    } else {
        s
    };
    if d.len() > 0 && all_digits(d) && digits_value(d) <= u32::MAX {
        Some(digits_value(d) as u32)
    } else {
        None
    }
}

/// Whether a character is a decimal digit.
pub fn ascii_digit(c: char) -> (b: bool)
    ensures
        b == is_digit(c),
{
    '0' <= c && c <= '9'
}

/// The character of a decimal digit.
fn digit_to_char(d: u64) -> (c: char)
    requires
        d < 10,
    ensures
        c == digit_char(d as int),
        is_digit(c),
        digit_value(c) == d,
{
    if d == 0 {
        '0'
    } else if d == 1 {
        '1'
    } else if d == 2 {
        '2'
    } else if d == 3 {
        '3'
    } else if d == 4 {
        '4'
    } else if d == 5 {
        '5'
    } else if d == 6 {
        '6'
    } else if d == 7 {
        '7'
    } else if d == 8 {
        '8'
    } else {
        '9'
    }
}

fn char_to_digit(c: char) -> (d: u32)
    requires
        is_digit(c),
    ensures
        d == digit_value(c),
        d < 10,
{
    (c as u32) - 48u32
}

/// The decimal digits of `n`.
pub fn decimal_chars(n: u64) -> (v: Vec<char>)
    ensures
        v@ == decimal(n as nat),
    decreases n,
{
    if n < 10 {
        let c = digit_to_char(n);
        vec![c]
    } else {
        let mut v = decimal_chars(n / 10);
        let c = digit_to_char(n % 10);
        v.push(c);
        v
    }
}

/// `u32::to_string`: the decimal spelling of `n`.
pub fn u32_to_text(n: u32) -> (s: String)
    ensures
        s@ == decimal(n as nat),
{
    let v = decimal_chars(n as u64);
    string_from_chars(&v)
}

/// `usize::to_string`: the decimal spelling of `n`.
pub fn usize_to_text(n: usize) -> (s: String)
    ensures
        s@ == decimal(n as nat),
{
    let v = decimal_chars(n as u64);
    string_from_chars(&v)
}

proof fn lemma_digits_value_nonneg(s: Seq<char>)
    requires
        all_digits(s),
    ensures
        digits_value(s) >= 0,
    decreases s.len(),
{
    if s.len() > 0 {
        lemma_digits_value_nonneg(s.drop_last());
        assert(is_digit(s[s.len() - 1]));
    }
}

proof fn lemma_digits_value_prefix(s: Seq<char>, k: int)
    requires
        all_digits(s),
        0 <= k <= s.len(),
    ensures
        digits_value(s) >= digits_value(s.take(k)),
    decreases s.len(),
{
    if k == s.len() {
        assert(s.take(k) =~= s);
    } else {
        let t = s.drop_last();
        lemma_digits_value_prefix(t, k);
        lemma_digits_value_nonneg(t);
        assert(t.take(k) =~= s.take(k));
        assert(is_digit(s[s.len() - 1]));
    }
}

/// Parses decimal digits after an optional `+`, as `str::parse::<u32>` does.
fn parse_digits_u32(v: &Vec<char>, start: usize) -> (r: Option<u32>)
    requires
        start <= v.len(),
    ensures
        ({
            let d = v@.subrange(start as int, v.len() as int);
            r == (if d.len() > 0 && all_digits(d) && digits_value(d) <= u32::MAX {
                Some(digits_value(d) as u32)
            } else {
                None::<u32>
            })
        }),
{
    let ghost d = v@.subrange(start as int, v.len() as int);
    let n = v.len();
    if start == n {
        return None;
    }
    let mut value: u32 = 0;
    let mut i = start;
    assert(d.skip(0) =~= d);
    assert(d.take(0) =~= Seq::<char>::empty());
    while i < n
        invariant
            start <= i <= n,
            n == v.len(),
            d == v@.subrange(start as int, n as int),
            all_digits(d.take(i - start)),
            value == digits_value(d.take(i - start)),
        decreases n - i,
    {
        let c = v[i];
        if !ascii_digit(c) {
            assert(d[i - start] == c);
            return None;
        }
        let dv = char_to_digit(c);
        assert(d.take(i - start + 1).drop_last() =~= d.take(i - start));
        assert(d.take(i - start + 1).last() == c);
        if value > (u32::MAX - dv) / 10 {
            proof {
                assert(digits_value(d.take(i - start + 1)) > u32::MAX);
                if all_digits(d) {
                    lemma_digits_value_prefix(d, i - start + 1);
                }
            }
            return None;
        }
        value = value * 10 + dv;
        i = i + 1;
        assert(all_digits(d.take(i - start))) by {
            assert forall|j: int| 0 <= j < i - start implies is_digit(#[trigger] d.take(i - start)[j]) by {
                if j < i - start - 1 {
                    assert(d.take(i - start)[j] == d.take(i - start - 1)[j]);
                }
            }
        }
    }
    assert(d.take(n - start) =~= d);
    Some(value)
}

/// `str::parse::<u32>` on the characters `v`.
pub fn parse_u32_chars(v: &Vec<char>) -> (r: Option<u32>)
    ensures
        r == u32_from_text(v@),
{
    if v.len() > 1 && v[0] == '+' {
        let r = parse_digits_u32(v, 1);
        assert(v@.subrange(1, v@.len() as int) =~= v@.drop_first());
        r
    } else {
        let r = parse_digits_u32(v, 0);
        assert(v@.subrange(0, v@.len() as int) =~= v@);
        r
    }
}

/// `str::parse::<u32>`.
pub fn parse_u32(s: &str) -> (r: Option<u32>)
    ensures
        r == u32_from_text(s@),
{
    let v = chars_of(s);
    parse_u32_chars(&v)
}

/// Why a text is not a `u32`, as `str::parse::<u32>` reports it.
#[derive(Clone, Copy, Debug, PartialEq, Eq)]
pub enum IntParseProblem {
    /// The text is empty.
    Empty,
    /// A character that is not a digit (a lone sign counts as one).
    InvalidDigit,
    /// The digits spell a number above `u32::MAX`.
    PosOverflow,
}

/// The first problem met reading the digits `d` from the left, with the
/// value `v` read so far: a character that is not a digit, or a value that
/// grows past `u32::MAX`.
pub open spec fn digits_problem(d: Seq<char>, v: int) -> Option<IntParseProblem>
    decreases d.len(),
{
    if d.len() == 0 {
        None
    } else if !is_digit(d[0]) {
        Some(IntParseProblem::InvalidDigit)
    } else if v * 10 + digit_value(d[0]) > u32::MAX {
        Some(IntParseProblem::PosOverflow)
    } else {
        digits_problem(d.drop_first(), v * 10 + digit_value(d[0]))
    }
}

/// The problem that `str::parse::<u32>` reports for `s`: the empty text, or
/// the first problem in what follows an optional `+` sign.
pub open spec fn u32_parse_problem(s: Seq<char>) -> Option<IntParseProblem> {
    if s.len() == 0 {
        Some(IntParseProblem::Empty)
    } else {
        let d = if s.len() > 1 && s[0] == '+' {
            s.drop_first()
        } else {
            s
        };
        digits_problem(d, 0)
    }
}

/// The text of a parse problem, as `ParseIntError` displays it.
pub open spec fn int_problem_text(p: IntParseProblem) -> Seq<char> {
    match p {
        IntParseProblem::Empty => "cannot parse integer from empty string"@,
        IntParseProblem::InvalidDigit => "invalid digit found in string"@,
        IntParseProblem::PosOverflow => "number too large to fit in target type"@,
    }
}

/// The value of the digits `d` read from the left after the value `v`.
pub open spec fn digits_value_after(d: Seq<char>, v: int) -> int
    decreases d.len(),
{
    if d.len() == 0 {
        v
    } else {
        digits_value_after(d.drop_first(), v * 10 + digit_value(d[0]))
    }
}

proof fn lemma_digits_value_after_push(d: Seq<char>, v: int, c: char)
    ensures
        digits_value_after(d.push(c), v) == digits_value_after(d, v) * 10 + digit_value(c),
    decreases d.len(),
{
    if d.len() > 0 {
        assert(d.push(c).drop_first() =~= d.drop_first().push(c));
        assert(d.push(c)[0] == d[0]);
        lemma_digits_value_after_push(d.drop_first(), v * 10 + digit_value(d[0]), c);
    } else {
        let e = Seq::<char>::empty();
        assert(d.push(c).drop_first() =~= e);
        assert(d.push(c)[0] == c);
        assert(digits_value_after(e, v * 10 + digit_value(c)) == v * 10 + digit_value(c));
    }
}

proof fn lemma_digits_value_after_zero(d: Seq<char>)
    ensures
        digits_value_after(d, 0) == digits_value(d),
    decreases d.len(),
{
    if d.len() > 0 {
        lemma_digits_value_after_zero(d.drop_last());
        lemma_digits_value_after_push(d.drop_last(), 0, d.last());
        assert(d.drop_last().push(d.last()) =~= d);
    }
}

proof fn lemma_digits_value_after_grows(d: Seq<char>, v: int)
    requires
        all_digits(d),
        v >= 0,
    ensures
        digits_value_after(d, v) >= v,
    decreases d.len(),
{
    if d.len() > 0 {
        assert(is_digit(d[0]));
        assert(all_digits(d.drop_first())) by {
            assert forall|i: int| 0 <= i < d.drop_first().len() implies is_digit(
                #[trigger] d.drop_first()[i],
            ) by {
                assert(d.drop_first()[i] == d[i + 1]);
            }
        }
        lemma_digits_value_after_grows(d.drop_first(), v * 10 + digit_value(d[0]));
    }
}

proof fn lemma_digits_problem_none(d: Seq<char>, v: int)
    requires
        0 <= v <= u32::MAX,
    ensures
        digits_problem(d, v) is None <==> (all_digits(d) && digits_value_after(d, v) <= u32::MAX),
    decreases d.len(),
{
    if d.len() > 0 {
        let rest = d.drop_first();
        assert(all_digits(d) <==> (is_digit(d[0]) && all_digits(rest))) by {
            if is_digit(d[0]) && all_digits(rest) {
                assert forall|i: int| 0 <= i < d.len() implies is_digit(#[trigger] d[i]) by {
                    if i > 0 {
                        assert(d[i] == rest[i - 1]);
                    }
                }
            }
            if all_digits(d) {
                assert forall|i: int| 0 <= i < rest.len() implies is_digit(#[trigger] rest[i]) by {
                    assert(rest[i] == d[i + 1]);
                }
            }
        }
        if is_digit(d[0]) {
            let w = v * 10 + digit_value(d[0]);
            if w > u32::MAX {
                if all_digits(rest) {
                    lemma_digits_value_after_grows(rest, w);
                }
            } else {
                lemma_digits_problem_none(rest, w);
            }
        }
    }
}

/// `str::parse::<u32>` reports a problem for exactly the texts that are not
/// a `u32`.
pub proof fn lemma_parse_problem_iff_not_u32(s: Seq<char>)
    ensures
        u32_parse_problem(s) is None <==> u32_from_text(s) is Some,
{
    if s.len() > 0 {
        let d = if s.len() > 1 && s[0] == '+' {
            s.drop_first()
        } else {
            s
        };
        lemma_digits_problem_none(d, 0);
        lemma_digits_value_after_zero(d);
    }
}

impl IntParseProblem {
    /// The text of the problem (see `int_problem_text`).
    pub fn message(&self) -> (r: String)
        ensures
            r@ == int_problem_text(*self),
    {
        match self {
            IntParseProblem::Empty => "cannot parse integer from empty string".to_owned(),
            IntParseProblem::InvalidDigit => "invalid digit found in string".to_owned(),
            IntParseProblem::PosOverflow => "number too large to fit in target type".to_owned(),
        }
    }
}

/// `str::parse::<u32>` with its error: the value, or why the text is not a
/// `u32`.
pub fn parse_u32_detailed(s: &str) -> (r: Result<u32, IntParseProblem>)
    ensures
        match r {
            Ok(v) => u32_from_text(s@) == Some(v),
            Err(p) => u32_from_text(s@) is None && u32_parse_problem(s@) == Some(p),
        },
{
    let v = chars_of(s);
    let n = v.len();
    if n == 0 {
        return Err(IntParseProblem::Empty);
    }
    let start: usize = if n > 1 && v[0] == '+' {
        1
    } else {
        0
    };
    let ghost d = v@.subrange(start as int, n as int);
    assert(d =~= (if v@.len() > 1 && v@[0] == '+' {
        v@.drop_first()
    } else {
        v@
    }));
    let mut value: u32 = 0;
    let mut i = start;
    assert(d.skip(0) =~= d);
    assert(d.take(0) =~= Seq::<char>::empty());
    while i < n
        invariant
            start <= i <= n,
            n == v.len(),
            n > 0,
            v@ == s@,
            d == v@.subrange(start as int, n as int),
            d == (if v@.len() > 1 && v@[0] == '+' {
                v@.drop_first()
            } else {
                v@
            }),
            all_digits(d.take(i - start)),
            value == digits_value(d.take(i - start)),
            digits_problem(d, 0) == digits_problem(d.skip(i - start), value as int),
        decreases n - i,
    {
        let c = v[i];
        assert(d.skip(i - start)[0] == c);
        if !ascii_digit(c) {
            assert(d[i - start] == c);
            return Err(IntParseProblem::InvalidDigit);
        }
        let dv = char_to_digit(c);
        assert(d.take(i - start + 1).drop_last() =~= d.take(i - start));
        assert(d.take(i - start + 1).last() == c);
        if value > (u32::MAX - dv) / 10 {
            proof {
                assert(digits_value(d.take(i - start + 1)) > u32::MAX);
                if all_digits(d) {
                    lemma_digits_value_prefix(d, i - start + 1);
                }
            }
            return Err(IntParseProblem::PosOverflow);
        }
        assert(d.skip(i - start).drop_first() =~= d.skip(i - start + 1));
        value = value * 10 + dv;
        i = i + 1;
        assert(all_digits(d.take(i - start))) by {
            assert forall|j: int| 0 <= j < i - start implies is_digit(#[trigger] d.take(i - start)[j]) by {
                if j < i - start - 1 {
                    assert(d.take(i - start)[j] == d.take(i - start - 1)[j]);
                }
            }
        }
    }
    assert(d.take(n - start) =~= d);
    Ok(value)
}

// ---------------------------------------------------------------------------
// Digit filtering
// ---------------------------------------------------------------------------

/// The decimal digits of `s`, in order, with every other character dropped
/// (`String::retain(|c| c.is_ascii_digit())`).
pub open spec fn keep_digits(s: Seq<char>) -> Seq<char>
    decreases s.len(),
{
    if s.len() == 0 {
        s
    } else if is_digit(s.last()) {
        keep_digits(s.drop_last()).push(s.last())
    } else {
        keep_digits(s.drop_last())
    }
}

/// Keeping the digits of a text leaves only digits.
pub proof fn lemma_keep_digits_are_digits(s: Seq<char>)
    ensures
        all_digits(keep_digits(s)),
    decreases s.len(),
{
    if s.len() > 0 {
        lemma_keep_digits_are_digits(s.drop_last());
        let k = keep_digits(s.drop_last());
        if is_digit(s.last()) {
            assert forall|i: int| 0 <= i < k.push(s.last()).len() implies is_digit(
                #[trigger] k.push(s.last())[i],
            ) by {
                if i < k.len() {
                    assert(k.push(s.last())[i] == k[i]);
                }
            }
        }
    }
}

/// A text of digits alone keeps all of its characters.
pub proof fn lemma_keep_digits_of_digits(s: Seq<char>)
    requires
        all_digits(s),
    ensures
        keep_digits(s) == s,
    decreases s.len(),
{
    if s.len() > 0 {
        assert(all_digits(s.drop_last())) by {
            assert forall|i: int| 0 <= i < s.drop_last().len() implies is_digit(
                #[trigger] s.drop_last()[i],
            ) by {
                assert(s.drop_last()[i] == s[i]);
            }
        }
        lemma_keep_digits_of_digits(s.drop_last());
        assert(is_digit(s[s.len() - 1]));
        assert(s.drop_last().push(s.last()) =~= s);
    }
}

/// The digits of the text, every other character removed.
pub fn digits_only(s: &str) -> (r: Vec<char>)
    ensures
        r@ == keep_digits(s@),
{
    let v = chars_of(s);
    let mut out: Vec<char> = Vec::new();
    let mut i: usize = 0;
    while i < v.len()
        invariant
            i <= v.len(),
            out@ == keep_digits(v@.take(i as int)),
        decreases v.len() - i,
    {
        assert(v@.take(i + 1).drop_last() =~= v@.take(i as int));
        if ascii_digit(v[i]) {
            out.push(v[i]);
        }
        i = i + 1;
    }
    assert(v@.take(v.len() as int) =~= v@);
    out
}

// ---------------------------------------------------------------------------
// Substring search
// ---------------------------------------------------------------------------

/// Whether `needle` occurs in `hay` starting at position `i`.
pub open spec fn occurs_at(hay: Seq<char>, needle: Seq<char>, i: int) -> bool {
    0 <= i && i + needle.len() <= hay.len() && hay.subrange(i, i + needle.len()) == needle
}

/// Whether `needle` is a substring of `hay` (`str::contains`); the empty
/// text is a substring of every text.
pub open spec fn contains_text(hay: Seq<char>, needle: Seq<char>) -> bool {
    exists|i: int| occurs_at(hay, needle, i)
}

fn matches_at(hay: &Vec<char>, needle: &Vec<char>, i: usize) -> (b: bool)
    requires
        i + needle.len() <= hay.len(),
    ensures
        b == occurs_at(hay@, needle@, i as int),
{
    let mut k: usize = 0;
    while k < needle.len()
        invariant
            k <= needle.len(),
            i + needle.len() <= hay.len(),
            forall|j: int| 0 <= j < k ==> hay@[i + j] == needle@[j],
        decreases needle.len() - k,
    {
        if hay[i + k] != needle[k] {
            assert(hay@.subrange(i as int, i + needle.len())[k as int] != needle@[k as int]);
            return false;
        }
        k = k + 1;
    }
    assert(hay@.subrange(i as int, i + needle.len()) =~= needle@);
    true
}

/// Whether `needle` occurs in `hay`.
pub fn contains_chars(hay: &Vec<char>, needle: &Vec<char>) -> (b: bool)
    ensures
        b == contains_text(hay@, needle@),
{
    if needle.len() > hay.len() {
        return false;
    }
    let last = hay.len() - needle.len();
    let mut i: usize = 0;
    loop
        invariant
            i <= last,
            last == hay.len() - needle.len(),
            needle.len() <= hay.len(),
            forall|j: int| 0 <= j < i ==> !occurs_at(hay@, needle@, j),
        decreases last - i,
    {
        if matches_at(hay, needle, i) {
            return true;
        }
        if i == last {
            assert forall|j: int| !occurs_at(hay@, needle@, j) by {
                if 0 <= j && j < i {
                }
            }
            return false;
        }
        i = i + 1;
    }
}

/// Whether the text `needle` occurs in the text `hay`.
pub fn text_contains(hay: &str, needle: &str) -> (b: bool)
    ensures
        b == contains_text(hay@, needle@),
{
    let h = chars_of(hay);
    let n = chars_of(needle);
    contains_chars(&h, &n)
}

// ---------------------------------------------------------------------------
// Upper case
// ---------------------------------------------------------------------------

/// What `str::to_uppercase` gives for the characters `s`: each character
/// replaced by its Unicode upper-case mapping.
pub uninterp spec fn uppercase_of(s: Seq<char>) -> Seq<char>;

/// `str::to_uppercase`. Its result is named, not stated: the Unicode
/// mapping it applies is the standard library's.
#[verifier::external_body]
pub(crate) fn to_uppercase(s: &str) -> (r: String)
    ensures
        r@ == uppercase_of(s@),
{
    s.to_uppercase()
}

// ---------------------------------------------------------------------------
// Laws
// ---------------------------------------------------------------------------

proof fn lemma_digit_char(d: int)
    requires
        0 <= d < 10,
    ensures
        is_digit(digit_char(d)),
        digit_value(digit_char(d)) == d,
{
}

/// The decimal spelling of a number starts with a digit.
pub proof fn lemma_decimal_is_digits(n: nat)
    ensures
        all_digits(decimal(n)),
        decimal(n).len() > 0,
        is_digit(decimal(n)[0]),
{
    lemma_decimal_digits(n);
}

proof fn lemma_decimal_digits(n: nat)
    ensures
        all_digits(decimal(n)),
        decimal(n).len() > 0,
        digits_value(decimal(n)) == n,
        decimal(n)[0] != '+',
    decreases n,
{
    if n < 10 {
        lemma_digit_char(n as int);
        assert(decimal(n) == seq![digit_char(n as int)]);
        assert(seq![digit_char(n as int)].drop_last() =~= Seq::<char>::empty());
        assert(digits_value(Seq::<char>::empty()) == 0);
    } else {
        lemma_decimal_digits(n / 10);
        lemma_digit_char((n % 10) as int);
        let t = decimal(n / 10);
        let s = t.push(digit_char((n % 10) as int));
        assert(s.drop_last() =~= t);
        assert(digits_value(s) == digits_value(t) * 10 + (n % 10) as int);
        assert((n / 10) * 10 + n % 10 == n) by (nonlinear_arith);
        assert forall|i: int| 0 <= i < s.len() implies is_digit(#[trigger] s[i]) by {
            if i < t.len() {
                assert(s[i] == t[i]);
            }
        }
        assert(s[0] == t[0]);
    }
}

/// Parsing the decimal spelling of a number gives the number back:
/// `n.to_string().parse::<u32>() == Ok(n)`.
pub proof fn lemma_parse_decimal_roundtrip(n: u32)
    ensures
        u32_from_text(decimal(n as nat)) == Some(n),
{
    lemma_decimal_digits(n as nat);
}

/// Trimming twice trims no more than trimming once.
pub proof fn lemma_trim_idempotent(s: Seq<char>)
    ensures
        trimmed(trimmed(s)) == trimmed(s),
{
    lemma_trim_front_fixed(s);
    lemma_trim_back_fixed(trim_front(s));
    lemma_trim_back_keeps_front(trim_front(s));
}

proof fn lemma_trim_front_fixed(s: Seq<char>)
    ensures
        trim_front(s).len() == 0 || !is_white_space(trim_front(s)[0]),
    decreases s.len(),
{
    if s.len() > 0 && is_white_space(s[0]) {
        lemma_trim_front_fixed(s.drop_first());
    }
}

proof fn lemma_trim_back_fixed(s: Seq<char>)
    ensures
        trim_back(s).len() == 0 || !is_white_space(trim_back(s).last()),
        trim_back(trim_back(s)) == trim_back(s),
    decreases s.len(),
{
    if s.len() > 0 && is_white_space(s.last()) {
        lemma_trim_back_fixed(s.drop_last());
    }
}

proof fn lemma_trim_back_keeps_front(s: Seq<char>)
    requires
        s.len() == 0 || !is_white_space(s[0]),
    ensures
        trim_front(trim_back(s)) == trim_back(s),
    decreases s.len(),
{
    if s.len() > 0 && is_white_space(s.last()) {
        let t = s.drop_last();
        if t.len() > 0 {
            assert(t[0] == s[0]);
        }
        lemma_trim_back_keeps_front(t);
    }
}

} // verus!
