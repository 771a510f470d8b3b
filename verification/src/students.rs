//! The roster: numbering new students, editing rows, and the incremental
//! student search of the grading page.

use vstd::prelude::*;

use crate::models::{Config, Student};
use crate::sorting::{insert_pos, lemma_stable_sorted_in_order, lemma_stable_sorted_permutes, stable_sorted, total_preorder};
use crate::text::{
    chars_of, contains_chars, contains_text, decimal, decimal_chars, is_digit, ascii_digit,
    parse_u32_chars, string_from_chars, to_uppercase, trim_text, trimmed, u32_from_text,
    uppercase_of, lemma_parse_decimal_roundtrip,
};

verus! {

broadcast use vstd::seq_lib::group_to_multiset_ensures;

// ---------------------------------------------------------------------------
// Numbering new students
// ---------------------------------------------------------------------------

/// The length of the run of non-digit characters that starts `s`.
pub open spec fn leading_non_digits(s: Seq<char>) -> nat
    decreases s.len(),
{
    if s.len() > 0 && !is_digit(s[0]) {
        1 + leading_non_digits(s.drop_first())
    } else {
        0
    }
}

/// `n + 1`, or `u32::MAX` when that overflows.
pub open spec fn successor(n: u32) -> u32 {
    if n < u32::MAX {
        (n + 1) as u32
    } else {
        u32::MAX
    }
}

/// The id that follows `id`: its leading non-digits, then the number that
/// the rest of it spells (0 when the rest is no number) plus one.
pub open spec fn id_after(id: Seq<char>) -> Seq<char> {
    let k = leading_non_digits(id) as int;
    let n = match u32_from_text(id.skip(k)) {
        Some(v) => v,
        None => 0u32,
    };
    id.take(k) + decimal(successor(n) as nat)
}

/// The id of a new roster row: the id after the last student's, or "S1"
/// for an empty roster.
pub open spec fn next_id(students: Seq<Student>) -> Seq<char> {
    if students.len() == 0 {
        "S1"@
    } else {
        id_after(students.last().id@)
    }
}

proof fn lemma_leading_non_digits(s: Seq<char>)
    ensures
        leading_non_digits(s) <= s.len(),
        forall|m: int| 0 <= m < leading_non_digits(s) ==> !is_digit(#[trigger] s[m]),
        leading_non_digits(s) < s.len() ==> is_digit(s[leading_non_digits(s) as int]),
    decreases s.len(),
{
    if s.len() > 0 && !is_digit(s[0]) {
        let t = s.drop_first();
        lemma_leading_non_digits(t);
        assert forall|m: int| 0 <= m < leading_non_digits(s) implies !is_digit(#[trigger] s[m]) by {
            if m > 0 {
                assert(s[m] == t[m - 1]);
            }
        }
        if leading_non_digits(s) < s.len() {
            assert(s[leading_non_digits(s) as int] == t[leading_non_digits(t) as int]);
        }
    }
}

proof fn lemma_leading_non_digits_of(p: Seq<char>, d: Seq<char>)
    requires
        forall|m: int| 0 <= m < p.len() ==> !is_digit(#[trigger] p[m]),
        d.len() > 0,
        is_digit(d[0]),
    ensures
        leading_non_digits(p + d) == p.len(),
    decreases p.len(),
{
    if p.len() > 0 {
        let t = p.drop_first();
        assert((p + d).drop_first() =~= t + d);
        assert forall|m: int| 0 <= m < t.len() implies !is_digit(#[trigger] t[m]) by {
            assert(t[m] == p[m + 1]);
        }
        lemma_leading_non_digits_of(t, d);
        assert((p + d)[0] == p[0]);
    } else {
        assert(p + d =~= d);
    }
}

/// The id of a new roster row (the "Add row" button).
pub fn next_student_id(students: &Vec<Student>) -> (r: String)
    ensures
        r@ == next_id(students@),
{
    if students.len() == 0 {
        return "S1".to_owned();
    }
    let id = chars_of(students[students.len() - 1].id.as_str());
    let n = id.len();
    let mut k: usize = 0;
    assert(id@.subrange(0, n as int) =~= id@);
    while k < n && !ascii_digit(id[k])
        invariant
            k <= n,
            n == id@.len(),
            leading_non_digits(id@) == k + leading_non_digits(id@.subrange(k as int, n as int)),
        decreases n - k,
    {
        let ghost rest = id@.subrange(k as int, n as int);
        assert(rest[0] == id@[k as int]);
        assert(rest.drop_first() =~= id@.subrange(k + 1, n as int));
        k = k + 1;
    }
    proof {
        let rest = id@.subrange(k as int, n as int);
        if k < n {
            assert(rest[0] == id@[k as int]);
        }
        assert(id@.subrange(k as int, n as int) =~= id@.skip(k as int));
    }
    let mut prefix: Vec<char> = Vec::new();
    let mut rest: Vec<char> = Vec::new();
    let mut i: usize = 0;
    while i < n
        invariant
            i <= n,
            n == id@.len(),
            k <= n,
            prefix@ == id@.take(if i < k {
                i as int
            } else {
                k as int
            }),
            rest@ == id@.subrange(k as int, if i < k {
                k as int
            } else {
                i as int
            }),
        decreases n - i,
    {
        if i < k {
            prefix.push(id[i]);
        } else {
            rest.push(id[i]);
        }
        i = i + 1;
        assert(prefix@ =~= id@.take(if i < k {
            i as int
        } else {
            k as int
        }));
        assert(rest@ =~= id@.subrange(k as int, if i < k {
            k as int
        } else {
            i as int
        }));
    }
    assert(rest@ =~= id@.skip(k as int));
    let number = match parse_u32_chars(&rest) {
        Some(v) => v,
        None => 0,
    };
    let next = number.saturating_add(1);
    let mut digits = decimal_chars(next as u64);
    prefix.append(&mut digits);
    string_from_chars(&prefix)
}

/// Ids continue their numbering: after an id made of a non-digit prefix
/// and the decimal number `n`, the next row gets the same prefix and `n + 1`
/// (for `n` below `u32::MAX`).
pub proof fn lemma_next_id_counts_up(prefix: Seq<char>, n: u32)
    requires
        forall|m: int| 0 <= m < prefix.len() ==> !is_digit(#[trigger] prefix[m]),
        n < u32::MAX,
    ensures
        id_after(prefix + decimal(n as nat)) == prefix + decimal((n + 1) as nat),
{
    let d = decimal(n as nat);
    lemma_parse_decimal_roundtrip(n);
    crate::text::lemma_decimal_is_digits(n as nat);
    lemma_leading_non_digits_of(prefix, d);
    let id = prefix + d;
    assert(id.skip(prefix.len() as int) =~= d);
    assert(id.take(prefix.len() as int) =~= prefix);
}

impl Config {
    /// Appends a roster row with the next id and an empty name.
    pub fn add_student_row(&mut self)
        ensures
            final(self).students@.len() == old(self).students@.len() + 1,
            final(self).students@.take(old(self).students@.len() as int) == old(self).students@,
            final(self).students@.last().id@ == next_id(old(self).students@),
            final(self).students@.last().name@ == Seq::<char>::empty(),
            final(self).save_path == old(self).save_path,
            final(self).questions == old(self).questions,
            final(self).scores == old(self).scores,
            final(self).ratings == old(self).ratings,
    {
        let id = next_student_id(&self.students);
        self.students.push(Student { id, name: String::new() });
        assert(self.students@.take(old(self).students@.len() as int) =~= old(self).students@);
    }

    /// Empties the roster.
    pub fn clear_students(&mut self)
        ensures
            final(self).students@.len() == 0,
            final(self).save_path == old(self).save_path,
            final(self).questions == old(self).questions,
            final(self).scores == old(self).scores,
            final(self).ratings == old(self).ratings,
    {
        self.students = Vec::new();
    }

    /// Replaces the roster with the students of an imported session.
    pub fn replace_students(&mut self, students: Vec<Student>)
        ensures
            final(self).students == students,
            final(self).save_path == old(self).save_path,
            final(self).questions == old(self).questions,
            final(self).scores == old(self).scores,
            final(self).ratings == old(self).ratings,
    {
        self.students = students;
    }

    /// Deletes roster row `idx`; an index past the end changes nothing.
    pub fn remove_student(&mut self, idx: usize)
        ensures
            final(self).students@ == if idx < old(self).students@.len() {
                old(self).students@.remove(idx as int)
            } else {
                old(self).students@
            },
            final(self).save_path == old(self).save_path,
            final(self).questions == old(self).questions,
            final(self).scores == old(self).scores,
            final(self).ratings == old(self).ratings,
    {
        if idx < self.students.len() {
            self.students.remove(idx);
        }
    }

    /// Sets the id of roster row `idx`.
    pub fn set_student_id(&mut self, idx: usize, id: String)
        requires
            idx < old(self).students@.len(),
        ensures
            final(self).students@ == old(self).students@.update(
                idx as int,
                Student { id, name: old(self).students@[idx as int].name },
            ),
            final(self).save_path == old(self).save_path,
            final(self).questions == old(self).questions,
            final(self).scores == old(self).scores,
            final(self).ratings == old(self).ratings,
    {
        let st = Student { id, name: self.students[idx].name.clone() };
        self.students.set(idx, st);
    }

    /// Sets the name of roster row `idx`.
    pub fn set_student_name(&mut self, idx: usize, name: String)
        requires
            idx < old(self).students@.len(),
        ensures
            final(self).students@ == old(self).students@.update(
                idx as int,
                Student { id: old(self).students@[idx as int].id, name },
            ),
            final(self).save_path == old(self).save_path,
            final(self).questions == old(self).questions,
            final(self).scores == old(self).scores,
            final(self).ratings == old(self).ratings,
    {
        let st = Student { id: self.students[idx].id.clone(), name };
        self.students.set(idx, st);
    }
}

// ---------------------------------------------------------------------------
// Text order
// ---------------------------------------------------------------------------

/// Lexicographic order of texts by character code, as `String`'s `Ord`
/// compares them (UTF-8 byte order is code point order): `a <= b`.
pub open spec fn text_le(a: Seq<char>, b: Seq<char>) -> bool
    decreases a.len(),
{
    if a.len() == 0 {
        true
    } else if b.len() == 0 {
        false
    } else if a[0] != b[0] {
        a[0] < b[0]
    } else {
        text_le(a.drop_first(), b.drop_first())
    }
}

/// Whether `a <= b` in text order.
pub fn text_le_chars(a: &Vec<char>, b: &Vec<char>) -> (r: bool)
    ensures
        r == text_le(a@, b@),
{
    let mut i: usize = 0;
    assert(a@.subrange(0, a@.len() as int) =~= a@);
    assert(b@.subrange(0, b@.len() as int) =~= b@);
    loop
        invariant
            i <= a@.len(),
            i <= b@.len(),
            text_le(a@, b@) == text_le(
                a@.subrange(i as int, a@.len() as int),
                b@.subrange(i as int, b@.len() as int),
            ),
        decreases a@.len() - i,
    {
        let ghost ra = a@.subrange(i as int, a@.len() as int);
        let ghost rb = b@.subrange(i as int, b@.len() as int);
        if i == a.len() {
            return true;
        }
        if i == b.len() {
            return false;
        }
        assert(ra[0] == a@[i as int] && rb[0] == b@[i as int]);
        if a[i] != b[i] {
            return a[i] < b[i];
        }
        assert(ra.drop_first() =~= a@.subrange(i + 1, a@.len() as int));
        assert(rb.drop_first() =~= b@.subrange(i + 1, b@.len() as int));
        i = i + 1;
    }
}

proof fn lemma_text_le_total(a: Seq<char>, b: Seq<char>)
    ensures
        text_le(a, b) || text_le(b, a),
    decreases a.len(),
{
    if a.len() > 0 && b.len() > 0 && a[0] == b[0] {
        lemma_text_le_total(a.drop_first(), b.drop_first());
    }
}

proof fn lemma_text_le_trans(a: Seq<char>, b: Seq<char>, c: Seq<char>)
    requires
        text_le(a, b),
        text_le(b, c),
    ensures
        text_le(a, c),
    decreases a.len(),
{
    if a.len() > 0 && b.len() > 0 && c.len() > 0 && a[0] == b[0] && b[0] == c[0] {
        lemma_text_le_trans(a.drop_first(), b.drop_first(), c.drop_first());
    }
}

/// Search results are ordered by id.
pub open spec fn id_order() -> spec_fn(Student, Student) -> bool {
    |a: Student, b: Student| text_le(a.id@, b.id@)
}

/// Text order on ids is a total preorder.
pub proof fn lemma_id_order_total()
    ensures
        total_preorder(id_order()),
{
    assert forall|a: Student, b: Student| #[trigger] id_order()(a, b) || id_order()(b, a) by {
        lemma_text_le_total(a.id@, b.id@);
    }
    assert forall|a: Student, b: Student, c: Student|
        #[trigger] id_order()(a, b) && #[trigger] id_order()(b, c) implies id_order()(a, c) by {
        lemma_text_le_trans(a.id@, b.id@, c.id@);
    }
}

// ---------------------------------------------------------------------------
// Student search
// ---------------------------------------------------------------------------

/// The most results that the search shows.
pub const MAX_SEARCH_RESULTS: usize = 30;

/// Whether a student matches the trimmed query `q` (with upper-case form
/// `q_upper`): the upper-cased id contains `q_upper`, or the name contains
/// `q`.
pub open spec fn search_hit(st: Student, q: Seq<char>, q_upper: Seq<char>) -> bool {
    contains_text(uppercase_of(st.id@), q_upper) || contains_text(st.name@, q)
}

/// The students that match, in roster order.
pub open spec fn search_hits(students: Seq<Student>, q: Seq<char>, q_upper: Seq<char>) -> Seq<Student>
    decreases students.len(),
{
    if students.len() == 0 {
        students
    } else {
        let h = search_hits(students.drop_last(), q, q_upper);
        if search_hit(students.last(), q, q_upper) {
            h.push(students.last())
        } else {
            h
        }
    }
}

/// The first `n` elements of `s` (all of them when there are fewer).
pub open spec fn first_n<A>(s: Seq<A>, n: nat) -> Seq<A> {
    if s.len() <= n {
        s
    } else {
        s.take(n as int)
    }
}

/// What the search shows for `query`: nothing for a blank query; otherwise
/// the first 30 matching students in roster order, sorted stably by id.
pub open spec fn search_result(students: Seq<Student>, query: Seq<char>) -> Seq<Student> {
    let q = trimmed(query);
    if q.len() == 0 {
        Seq::empty()
    } else {
        stable_sorted(
            first_n(search_hits(students, q, uppercase_of(q)), MAX_SEARCH_RESULTS as nat),
            id_order(),
        )
    }
}

/// Whether the student matches the query.
fn student_matches(st: &Student, q: &Vec<char>, q_upper: &Vec<char>) -> (b: bool)
    ensures
        b == search_hit(*st, q@, q_upper@),
{
    let id_upper = to_uppercase(st.id.as_str());
    let id_chars = chars_of(id_upper.as_str());
    let name_chars = chars_of(st.name.as_str());
    contains_chars(&id_chars, q_upper) || contains_chars(&name_chars, q)
}

/// Stable sort of students by id.
fn sort_by_id(students: &Vec<Student>) -> (r: Vec<Student>)
    ensures
        r@ == stable_sorted(students@, id_order()),
{
    let ghost before = id_order();
    let mut out: Vec<Student> = Vec::new();
    let mut out_ids: Vec<Vec<char>> = Vec::new();
    let n = students.len();
    let mut k: usize = 0;
    while k < n
        invariant
            k <= n,
            n == students@.len(),
            before == id_order(),
            out@ == stable_sorted(students@.take(k as int), before),
            out_ids@.len() == out@.len(),
            forall|m: int| 0 <= m < out@.len() ==> (#[trigger] out_ids@[m])@ == out@[m].id@,
        decreases n - k,
    {
        let st = students[k].duplicate();
        let key = chars_of(st.id.as_str());
        let mut j: usize = 0;
        assert(out@.subrange(0, out@.len() as int) =~= out@);
        while j < out.len() && text_le_chars(&out_ids[j], &key)
            invariant
                j <= out@.len(),
                out_ids@.len() == out@.len(),
                forall|m: int| 0 <= m < out@.len() ==> (#[trigger] out_ids@[m])@ == out@[m].id@,
                key@ == st.id@,
                before == id_order(),
                insert_pos(out@, st, before) == j + insert_pos(
                    out@.subrange(j as int, out@.len() as int),
                    st,
                    before,
                ),
            decreases out@.len() - j,
        {
            let ghost rest = out@.subrange(j as int, out@.len() as int);
            assert(rest[0] == out@[j as int]);
            assert(before(rest[0], st));
            assert(rest.drop_first() =~= out@.subrange(j + 1, out@.len() as int));
            j = j + 1;
        }
        proof {
            let rest = out@.subrange(j as int, out@.len() as int);
            if j < out@.len() {
                assert(rest[0] == out@[j as int]);
            }
            assert(students@.take(k + 1).drop_last() =~= students@.take(k as int));
            assert(students@.take(k + 1).last() == st);
        }
        assert(j as int == insert_pos(out@, st, before) as int) by {
            let rest = out@.subrange(j as int, out@.len() as int);
            assert(j == out@.len() ==> rest.len() == 0);
        }
        let ghost old_out = out@;
        let ghost old_ids = out_ids@;
        out.insert(j, st);
        out_ids.insert(j, key);
        assert forall|m: int| 0 <= m < out@.len() implies (#[trigger] out_ids@[m])@ == out@[m].id@ by {
            if m < j {
                assert(out_ids@[m] == old_ids[m] && out@[m] == old_out[m]);
            } else if m > j {
                assert(out_ids@[m] == old_ids[m - 1] && out@[m] == old_out[m - 1]);
            }
        }
        k = k + 1;
    }
    assert(students@.take(n as int) =~= students@);
    out
}

/// The student search of the grading page: for a blank query nothing;
/// otherwise the students whose upper-cased id contains the upper-cased
/// trimmed query or whose name contains the trimmed query, the first 30 of
/// them in roster order, sorted stably by id.
pub fn search_students(students: &Vec<Student>, query: &str) -> (r: Vec<Student>)
    ensures
        r@ == search_result(students@, query@),
        trimmed(query@).len() == 0 ==> r@.len() == 0,
        r@.len() <= MAX_SEARCH_RESULTS,
        forall|k: int|
            0 <= k < students@.len() && trimmed(query@).len() > 0 && search_hit(
                #[trigger] students@[k],
                trimmed(query@),
                uppercase_of(trimmed(query@)),
            ) && hits_before(students@, k, trimmed(query@), uppercase_of(trimmed(query@)))
                < MAX_SEARCH_RESULTS ==> r@.contains(students@[k]),
{
    proof {
        lemma_search_result_sound(students@, query@);
        assert forall|k: int|
            0 <= k < students@.len() && trimmed(query@).len() > 0 && search_hit(
                #[trigger] students@[k],
                trimmed(query@),
                uppercase_of(trimmed(query@)),
            ) && hits_before(students@, k, trimmed(query@), uppercase_of(trimmed(query@)))
                < MAX_SEARCH_RESULTS implies search_result(students@, query@).contains(students@[k]) by {
            lemma_search_result_complete(students@, query@, k);
        }
    }
    let q_text = trim_text(query);
    if q_text.as_str().is_empty() {
        return Vec::new();
    }
    let q_upper_text = to_uppercase(q_text.as_str());
    let q = chars_of(q_text.as_str());
    let q_upper = chars_of(q_upper_text.as_str());
    let mut hits: Vec<Student> = Vec::new();
    let mut i: usize = 0;
    while i < students.len()
        invariant
            i <= students@.len(),
            q@ == trimmed(query@),
            q_upper@ == uppercase_of(q@),
            hits@ == search_hits(students@.take(i as int), q@, q_upper@),
        decreases students@.len() - i,
    {
        assert(students@.take(i + 1).drop_last() =~= students@.take(i as int));
        assert(students@.take(i + 1).last() == students@[i as int]);
        if student_matches(&students[i], &q, &q_upper) {
            hits.push(students[i].duplicate());
        }
        i = i + 1;
    }
    assert(students@.take(students@.len() as int) =~= students@);
    let ghost all_hits = hits@;
    hits.truncate(MAX_SEARCH_RESULTS);
    assert(hits@ =~= first_n(all_hits, MAX_SEARCH_RESULTS as nat));
    sort_by_id(&hits)
}

proof fn lemma_search_hits_match(students: Seq<Student>, q: Seq<char>, q_upper: Seq<char>)
    ensures
        search_hits(students, q, q_upper).len() <= students.len(),
        forall|i: int|
            0 <= i < search_hits(students, q, q_upper).len() ==> #[trigger] search_hit(
                search_hits(students, q, q_upper)[i],
                q,
                q_upper,
            ) && students.contains(search_hits(students, q, q_upper)[i]),
    decreases students.len(),
{
    if students.len() > 0 {
        let t = students.drop_last();
        lemma_search_hits_match(t, q, q_upper);
        let h = search_hits(t, q, q_upper);
        assert forall|i: int| 0 <= i < h.len() implies students.contains(#[trigger] h[i]) by {
            assert(search_hit(h[i], q, q_upper));
            assert(t.contains(h[i]));
            let k = choose|k: int| 0 <= k < t.len() && t[k] == h[i];
            assert(students[k] == t[k]);
        }
        assert(students[students.len() - 1] == students.last());
        assert(students.contains(students.last()));
    }
}

/// Search results: at most 30 students, each a roster student that
/// matches the trimmed query, in order of id.
pub proof fn lemma_search_result_sound(students: Seq<Student>, query: Seq<char>)
    ensures
        search_result(students, query).len() <= MAX_SEARCH_RESULTS,
        forall|i: int|
            0 <= i < search_result(students, query).len() ==> {
                &&& search_hit(#[trigger] search_result(students, query)[i], trimmed(query), uppercase_of(trimmed(query)))
                &&& students.contains(search_result(students, query)[i])
            },
        forall|i: int, j: int|
            0 <= i < j < search_result(students, query).len() ==> text_le(
                (#[trigger] search_result(students, query)[i]).id@,
                (#[trigger] search_result(students, query)[j]).id@,
            ),
{
    let q = trimmed(query);
    if q.len() > 0 {
        let qu = uppercase_of(q);
        let h = search_hits(students, q, qu);
        let f = first_n(h, MAX_SEARCH_RESULTS as nat);
        lemma_search_hits_match(students, q, qu);
        lemma_stable_sorted_permutes(f, id_order());
        lemma_id_order_total();
        lemma_stable_sorted_in_order(f, id_order());
        let r = stable_sorted(f, id_order());
        assert forall|i: int| 0 <= i < r.len() implies {
            &&& search_hit(#[trigger] r[i], q, qu)
            &&& students.contains(r[i])
        } by {
            assert(r.contains(r[i]));
            assert(r.to_multiset().count(r[i]) > 0);
            assert(f.to_multiset().count(r[i]) > 0);
            assert(f.contains(r[i]));
            let k = choose|k: int| 0 <= k < f.len() && f[k] == r[i];
            assert(f[k] == h[k]);
        }
        assert forall|i: int, j: int| 0 <= i < j < r.len() implies text_le(
            (#[trigger] r[i]).id@,
            (#[trigger] r[j]).id@,
        ) by {
            assert(id_order()(r[i], r[j]));
        }
    }
}

/// How many of the roster students before position `k` match the trimmed
/// query `q` (with upper-case form `q_upper`).
pub open spec fn hits_before(students: Seq<Student>, k: int, q: Seq<char>, q_upper: Seq<char>) -> nat
    decreases k,
{
    if k <= 0 {
        0
    } else {
        hits_before(students, k - 1, q, q_upper) + if search_hit(students[k - 1], q, q_upper) {
            1nat
        } else {
            0nat
        }
    }
}

proof fn lemma_hits_before_prefix(students: Seq<Student>, k: int, q: Seq<char>, q_upper: Seq<char>)
    requires
        students.len() > 0,
        0 <= k < students.len(),
    ensures
        hits_before(students.drop_last(), k, q, q_upper) == hits_before(students, k, q, q_upper),
    decreases k,
{
    if k > 0 {
        lemma_hits_before_prefix(students, k - 1, q, q_upper);
        assert(students.drop_last()[k - 1] == students[k - 1]);
    }
}

proof fn lemma_search_hits_len(students: Seq<Student>, q: Seq<char>, q_upper: Seq<char>)
    ensures
        search_hits(students, q, q_upper).len() == hits_before(students, students.len() as int, q, q_upper),
    decreases students.len(),
{
    if students.len() > 0 {
        let t = students.drop_last();
        lemma_search_hits_len(t, q, q_upper);
        lemma_hits_before_prefix(students, t.len() as int, q, q_upper);
        assert(students[students.len() - 1] == students.last());
    }
}

proof fn lemma_search_hits_position(students: Seq<Student>, k: int, q: Seq<char>, q_upper: Seq<char>)
    requires
        0 <= k < students.len(),
        search_hit(students[k], q, q_upper),
    ensures
        hits_before(students, k, q, q_upper) < search_hits(students, q, q_upper).len(),
        search_hits(students, q, q_upper)[hits_before(students, k, q, q_upper) as int] == students[k],
    decreases students.len(),
{
    let t = students.drop_last();
    let h = search_hits(t, q, q_upper);
    lemma_hits_before_prefix(students, k, q, q_upper);
    if k == students.len() - 1 {
        lemma_search_hits_len(t, q, q_upper);
        assert(students.last() == students[k]);
    } else {
        assert(t[k] == students[k]);
        lemma_search_hits_position(t, k, q, q_upper);
    }
}

/// The search misses no one: a roster student that matches a non-blank
/// query is among the results unless 30 matching students come before it
/// in the roster; in particular, when fewer than 30 students match, every
/// one of them is found, wherever it stands.
pub proof fn lemma_search_result_complete(students: Seq<Student>, query: Seq<char>, k: int)
    requires
        trimmed(query).len() > 0,
        0 <= k < students.len(),
        search_hit(students[k], trimmed(query), uppercase_of(trimmed(query))),
        hits_before(students, k, trimmed(query), uppercase_of(trimmed(query))) < MAX_SEARCH_RESULTS,
    ensures
        search_result(students, query).contains(students[k]),
{
    let q = trimmed(query);
    let qu = uppercase_of(q);
    let h = search_hits(students, q, qu);
    let idx = hits_before(students, k, q, qu) as int;
    lemma_search_hits_position(students, k, q, qu);
    let f = first_n(h, MAX_SEARCH_RESULTS as nat);
    assert(f[idx] == students[k]);
    assert(f.contains(students[k]));
    lemma_stable_sorted_permutes(f, id_order());
    let r = stable_sorted(f, id_order());
    assert(f.to_multiset().count(students[k]) > 0);
    assert(r.to_multiset().count(students[k]) > 0);
}

/// Position of the first roster student with the given id (selecting a
/// search result).
pub fn position_of_student(students: &Vec<Student>, id: &String) -> (r: Option<usize>)
    ensures
        match r {
            Some(i) => {
                &&& i < students@.len()
                &&& students@[i as int].id@ == id@
                &&& forall|j: int| 0 <= j < i ==> (#[trigger] students@[j]).id@ != id@
            },
            None => forall|j: int| 0 <= j < students@.len() ==> (#[trigger] students@[j]).id@ != id@,
        },
{
    let mut i: usize = 0;
    while i < students.len()
        invariant
            i <= students@.len(),
            forall|j: int| 0 <= j < i ==> (#[trigger] students@[j]).id@ != id@,
        decreases students@.len() - i,
    {
        if students[i].id == *id {
            return Some(i);
        }
        i = i + 1;
    }
    None
}

} // verus!
