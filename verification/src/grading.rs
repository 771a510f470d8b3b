//! Score entry and the score matrix: which score a student holds for a
//! question, how typed input becomes a score, and which students are fully
//! graded.

use vstd::prelude::*;

use crate::models::{Config, Question, Score, Student, TableRow};
use crate::text::{
    decimal, digits_only, keep_digits, lemma_decimal_is_digits, lemma_keep_digits_are_digits,
    lemma_keep_digits_of_digits, lemma_parse_decimal_roundtrip, parse_u32_chars, u32_from_text,
    u32_to_text,
};

verus! {

// ---------------------------------------------------------------------------
// Looking up recorded scores
// ---------------------------------------------------------------------------

/// Whether `sc` is an entry for the given student and question.
pub open spec fn is_entry_for(sc: Score, sid: Seq<char>, qid: u32) -> bool {
    sc.student_id@ == sid && sc.question_id == qid
}

/// The entry that a map built from `scores` keeps for the key: the value of
/// the last entry with that key (`None` when there is no entry).
pub open spec fn last_entry(scores: Seq<Score>, sid: Seq<char>, qid: u32) -> Option<Option<u32>>
    decreases scores.len(),
{
    if scores.len() == 0 {
        None
    } else if is_entry_for(scores.last(), sid, qid) {
        Some(scores.last().score)
    } else {
        last_entry(scores.drop_last(), sid, qid)
    }
}

/// The score recorded for the student and question: the value of the last
/// entry for that key, or `None` when there is none or it is empty.
pub open spec fn recorded(scores: Seq<Score>, sid: Seq<char>, qid: u32) -> Option<u32> {
    match last_entry(scores, sid, qid) {
        Some(Some(v)) => Some(v),
        _ => None,
    }
}

/// Whether some entry of `scores` is for the student and question.
pub open spec fn has_entry(scores: Seq<Score>, sid: Seq<char>, qid: u32) -> bool {
    exists|i: int| 0 <= i < scores.len() && is_entry_for(#[trigger] scores[i], sid, qid)
}

/// Whether `i` is the position of the first entry for the student and
/// question.
pub open spec fn is_first_entry(scores: Seq<Score>, sid: Seq<char>, qid: u32, i: int) -> bool {
    &&& 0 <= i < scores.len()
    &&& is_entry_for(scores[i], sid, qid)
    &&& forall|j: int| 0 <= j < i ==> !is_entry_for(#[trigger] scores[j], sid, qid)
}

/// Whether no two entries share a student and a question.
pub open spec fn unique_keys(scores: Seq<Score>) -> bool {
    forall|i: int, j: int|
        #![trigger scores[i], scores[j]]
        0 <= i < j < scores.len() ==> !is_entry_for(
            scores[j],
            scores[i].student_id@,
            scores[i].question_id,
        )
}

/// Position of the first entry for the student and question.
pub fn find_score_index(scores: &Vec<Score>, student_id: &String, question_id: u32) -> (r: Option<usize>)
    ensures
        match r {
            Some(i) => is_first_entry(scores@, student_id@, question_id, i as int),
            None => !has_entry(scores@, student_id@, question_id),
        },
{
    let mut i: usize = 0;
    while i < scores.len()
        invariant
            i <= scores.len(),
            forall|j: int| 0 <= j < i ==> !is_entry_for(#[trigger] scores@[j], student_id@, question_id),
        decreases scores.len() - i,
    {
        if scores[i].question_id == question_id && scores[i].student_id == *student_id {
            return Some(i);
        }
        i = i + 1;
    }
    None
}

/// The score recorded for the student and question, as the score map of
/// the grading pages gives it (the last entry for the key wins).
pub fn recorded_score(scores: &Vec<Score>, student_id: &String, question_id: u32) -> (r: Option<u32>)
    ensures
        r == recorded(scores@, student_id@, question_id),
{
    let mut found: Option<Option<u32>> = None;
    let mut i: usize = 0;
    while i < scores.len()
        invariant
            i <= scores.len(),
            found == last_entry(scores@.take(i as int), student_id@, question_id),
        decreases scores.len() - i,
    {
        assert(scores@.take(i + 1).drop_last() =~= scores@.take(i as int));
        assert(scores@.take(i + 1).last() == scores@[i as int]);
        if scores[i].question_id == question_id && scores[i].student_id == *student_id {
            found = Some(scores[i].score);
        }
        i = i + 1;
    }
    assert(scores@.take(scores.len() as int) =~= scores@);
    match found {
        Some(Some(v)) => Some(v),
        _ => None,
    }
}

// ---------------------------------------------------------------------------
// Entering scores
// ---------------------------------------------------------------------------

/// The score that typed input stands for: its digits read as a number, kept
/// only when it fits in a `u32` and does not exceed the full score.
pub open spec fn input_score(input: Seq<char>, full: u32) -> Option<u32> {
    match u32_from_text(keep_digits(input)) {
        Some(n) => if n <= full {
            Some(n)
        } else {
            None
        },
        None => None,
    }
}

/// What typed input sets the score field to: every character but the
/// digits is dropped, and the number is kept if it is at most `full`.
pub fn score_from_input(input: &str, full: u32) -> (r: Option<u32>)
    ensures
        r == input_score(input@, full),
        match u32_from_text(keep_digits(input@)) {
            Some(n) => r == (if n <= full {
                Some(n)
            } else {
                None::<u32>
            }),
            None => r is None,
        },
{
    let digits = digits_only(input);
    match parse_u32_chars(&digits) {
        Some(n) => if n <= full {
            Some(n)
        } else {
            None
        },
        None => None,
    }
}

/// Typed input never yields a score above the full score.
pub proof fn lemma_input_score_within_full(input: Seq<char>, full: u32)
    ensures
        input_score(input, full) matches Some(v) ==> v <= full,
{
}

/// Typing the decimal spelling of a number enters that number when it is
/// at most the full score, zero included, and leaves the score empty when
/// it is above.
pub proof fn lemma_input_of_decimal(n: u32, full: u32)
    ensures
        n <= full ==> input_score(decimal(n as nat), full) == Some(n),
        n > full ==> input_score(decimal(n as nat), full) is None,
{
    lemma_decimal_is_digits(n as nat);
    lemma_keep_digits_of_digits(decimal(n as nat));
    lemma_parse_decimal_roundtrip(n);
}

/// Only the digits of the typed text matter: the text and its digits
/// alone enter the same score.
pub proof fn lemma_input_ignores_non_digits(input: Seq<char>, full: u32)
    ensures
        input_score(input, full) == input_score(keep_digits(input), full),
{
    lemma_keep_digits_are_digits(input);
    lemma_keep_digits_of_digits(keep_digits(input));
}

/// How `record_score` changes the entries: the first entry for the key
/// gets the new value; without one, a new entry is appended.
pub open spec fn records_score(
    old_scores: Seq<Score>,
    new_scores: Seq<Score>,
    sid: Seq<char>,
    qid: u32,
    score: Option<u32>,
) -> bool {
    if has_entry(old_scores, sid, qid) {
        forall|i: int|
            #[trigger] is_first_entry(old_scores, sid, qid, i) ==> new_scores == old_scores.update(
                i,
                Score {
                    student_id: old_scores[i].student_id,
                    question_id: old_scores[i].question_id,
                    score,
                },
            )
    } else {
        &&& new_scores.len() == old_scores.len() + 1
        &&& new_scores.take(old_scores.len() as int) == old_scores
        &&& is_entry_for(new_scores.last(), sid, qid)
        &&& new_scores.last().score == score
    }
}

/// The id of the student at `idx`, or the empty text past the end.
pub open spec fn student_id_at(students: Seq<Student>, idx: int) -> Seq<char> {
    if 0 <= idx < students.len() {
        students[idx].id@
    } else {
        Seq::empty()
    }
}

/// The first question with the given id.
pub open spec fn find_question(questions: Seq<Question>, id: u32) -> Option<Question>
    decreases questions.len(),
{
    if questions.len() == 0 {
        None
    } else if questions[0].id == id {
        Some(questions[0])
    } else {
        find_question(questions.drop_first(), id)
    }
}

/// The id of the question that a score row edits: the question's own id,
/// or 0 for the stand-in of a missing question.
pub open spec fn row_question_id(questions: Seq<Question>, id: u32) -> u32 {
    match find_question(questions, id) {
        Some(q) => q.id,
        None => 0,
    }
}

/// The full score that bounds a score row: the question's, or 100 for the
/// stand-in of a missing question.
pub open spec fn row_full_score(questions: Seq<Question>, id: u32) -> u32 {
    match find_question(questions, id) {
        Some(q) => q.full_score,
        None => 100,
    }
}

/// Position of the first question with the given id.
pub fn find_question_index(questions: &Vec<Question>, id: u32) -> (r: Option<usize>)
    ensures
        match r {
            Some(i) => {
                &&& i < questions@.len()
                &&& find_question(questions@, id) == Some(questions@[i as int])
                &&& questions@[i as int].id == id
                &&& forall|j: int| 0 <= j < i ==> (#[trigger] questions@[j]).id != id
            },
            None => find_question(questions@, id) is None,
        },
{
    let n = questions.len();
    let mut i: usize = 0;
    assert(questions@.subrange(0, n as int) =~= questions@);
    while i < n
        invariant
            i <= n,
            n == questions.len(),
            find_question(questions@, id) == find_question(questions@.subrange(i as int, n as int), id),
            forall|j: int| 0 <= j < i ==> (#[trigger] questions@[j]).id != id,
        decreases n - i,
    {
        let ghost rest = questions@.subrange(i as int, n as int);
        assert(rest[0] == questions@[i as int]);
        if questions[i].id == id {
            return Some(i);
        }
        assert(rest.drop_first() =~= questions@.subrange(i + 1, n as int));
        i = i + 1;
    }
    None
}

/// The question that a score row shows: the first with the given id, or a
/// stand-in named "Unknown" with id 0, full score 100, weight 1.0 and no
/// comment.
pub fn question_or_default(config: &Config, id: u32) -> (q: Question)
    ensures
        match find_question(config.questions@, id) {
            Some(found) => q == found,
            None => {
                &&& q.id == 0
                &&& q.name@ == "Unknown"@
                &&& q.full_score == 100
                &&& q.weight_bits == 0x3f80_0000
                &&& q.comment@ == ""@
            },
        },
{
    match find_question_index(&config.questions, id) {
        Some(i) => config.questions[i].duplicate(),
        None => Question {
            id: 0,
            name: "Unknown".to_owned(),
            full_score: 100,
            weight_bits: 0x3f80_0000,
            comment: "".to_owned(),
        },
    }
}

/// The id of the student at `idx`, or the empty text past the end.
pub fn current_student_id(config: &Config, idx: usize) -> (r: String)
    ensures
        r@ == student_id_at(config.students@, idx as int),
{
    if idx < config.students.len() {
        config.students[idx].id.clone()
    } else {
        String::new()
    }
}

impl Config {
    /// Sets the score of the student and question: the first entry for the
    /// key is updated; without one, a new entry is appended.
    pub fn record_score(&mut self, student_id: &String, question_id: u32, score: Option<u32>)
        ensures
            records_score(old(self).scores@, final(self).scores@, student_id@, question_id, score),
            final(self).save_path == old(self).save_path,
            final(self).questions == old(self).questions,
            final(self).students == old(self).students,
            final(self).ratings == old(self).ratings,
    {
        match find_score_index(&self.scores, student_id, question_id) {
            Some(i) => {
                let entry = Score {
                    student_id: self.scores[i].student_id.clone(),
                    question_id: self.scores[i].question_id,
                    score,
                };
                self.scores.set(i, entry);
            },
            None => {
                self.scores.push(Score { student_id: student_id.clone(), question_id, score });
                assert(self.scores@.take(old(self).scores@.len() as int) =~= old(self).scores@);
            },
        }
    }

    /// What typing `input` into the score field of question `question_id`
    /// for the student at `student_idx` does: the digits of the input,
    /// bounded by the question's full score, become the student's score on
    /// the question (see `question_or_default` for a missing question).
    pub fn enter_score_input(&mut self, student_idx: usize, question_id: u32, input: &str)
        ensures
            records_score(
                old(self).scores@,
                final(self).scores@,
                student_id_at(old(self).students@, student_idx as int),
                row_question_id(old(self).questions@, question_id),
                input_score(input@, row_full_score(old(self).questions@, question_id)),
            ),
            final(self).save_path == old(self).save_path,
            final(self).questions == old(self).questions,
            final(self).students == old(self).students,
            final(self).ratings == old(self).ratings,
    {
        let student_id = current_student_id(self, student_idx);
        let question = question_or_default(self, question_id);
        let score = score_from_input(input, question.full_score);
        self.record_score(&student_id, question.id, score);
    }
}

/// The text that the score field shows: `None` when the student has no
/// entry for the question, otherwise the first entry's score in decimal,
/// or the empty text for an empty score.
pub fn score_input_value(config: &Config, student_id: &String, question_id: u32) -> (r: Option<String>)
    ensures
        match r {
            None => !has_entry(config.scores@, student_id@, question_id),
            Some(t) => exists|i: int|
                #[trigger] is_first_entry(config.scores@, student_id@, question_id, i) && t@ == cell_text(
                    config.scores@[i].score,
                ),
        },
{
    match find_score_index(&config.scores, student_id, question_id) {
        Some(i) => match config.scores[i].score {
            Some(v) => Some(u32_to_text(v)),
            None => Some(String::new()),
        },
        None => None,
    }
}

// ---------------------------------------------------------------------------
// The score matrix
// ---------------------------------------------------------------------------

/// What a matrix cell shows for a score: its decimal digits, or nothing.
pub open spec fn cell_text(score: Option<u32>) -> Seq<char> {
    match score {
        Some(v) => decimal(v as nat),
        None => Seq::empty(),
    }
}

/// Whether the student has a score on every question and every question
/// has a positive full score: the condition for a final percentage.
pub open spec fn fully_graded(questions: Seq<Question>, scores: Seq<Score>, sid: Seq<char>) -> bool {
    forall|i: int|
        0 <= i < questions.len() ==> {
            &&& recorded(scores, sid, (#[trigger] questions[i]).id) is Some
            &&& questions[i].full_score > 0
        }
}

/// One answer that enters a student's final percentage.
#[derive(Clone, Copy, Debug, PartialEq, Eq)]
pub struct GradedAnswer {
    pub score: u32,
    pub full_score: u32,
    pub weight_bits: u32,
}

/// The answer that question `q` contributes for the student.
pub open spec fn answer_for(q: Question, scores: Seq<Score>, sid: Seq<char>) -> GradedAnswer {
    GradedAnswer {
        score: recorded(scores, sid, q.id)->0,
        full_score: q.full_score,
        weight_bits: q.weight_bits,
    }
}

/// The student's answers, one per question in order, when the student is
/// fully graded; `None` otherwise. The final percentage is the weighted
/// mean of `score / full_score` over these answers.
pub fn graded_answers(config: &Config, student_id: &String) -> (r: Option<Vec<GradedAnswer>>)
    ensures
        r matches Some(v) ==> forall|i: int|
            0 <= i < v@.len() ==> {
                &&& Some((#[trigger] v@[i]).score) == recorded(
                    config.scores@,
                    student_id@,
                    config.questions@[i].id,
                )
                &&& v@[i].full_score == config.questions@[i].full_score
                &&& v@[i].weight_bits == config.questions@[i].weight_bits
            },
        r is Some <==> forall|i: int|
            0 <= i < config.questions@.len() ==> (recorded(
                config.scores@,
                student_id@,
                (#[trigger] config.questions@[i]).id,
            ) is Some && config.questions@[i].full_score > 0),
        match r {
            Some(v) => {
                &&& fully_graded(config.questions@, config.scores@, student_id@)
                &&& v@.len() == config.questions@.len()
                &&& forall|i: int|
                    0 <= i < v@.len() ==> #[trigger] v@[i] == answer_for(
                        config.questions@[i],
                        config.scores@,
                        student_id@,
                    )
            },
            None => !fully_graded(config.questions@, config.scores@, student_id@),
        },
{
    let mut out: Vec<GradedAnswer> = Vec::new();
    let mut i: usize = 0;
    while i < config.questions.len()
        invariant
            i <= config.questions@.len(),
            out@.len() == i,
            forall|j: int|
                0 <= j < i ==> {
                    &&& recorded(config.scores@, student_id@, (#[trigger] config.questions@[j]).id) is Some
                    &&& config.questions@[j].full_score > 0
                },
            forall|j: int|
                0 <= j < i ==> #[trigger] out@[j] == answer_for(
                    config.questions@[j],
                    config.scores@,
                    student_id@,
                ),
        decreases config.questions@.len() - i,
    {
        let q = &config.questions[i];
        match recorded_score(&config.scores, student_id, q.id) {
            Some(v) => {
                if q.full_score > 0 {
                    out.push(GradedAnswer { score: v, full_score: q.full_score, weight_bits: q.weight_bits });
                } else {
                    return None;
                }
            },
            None => {
                return None;
            },
        }
        i = i + 1;
    }
    Some(out)
}

/// The cells of a student's matrix row: for each question in order, the
/// recorded score in decimal, or the empty text.
pub fn score_cells(config: &Config, student_id: &String) -> (r: Vec<String>)
    ensures
        r@.len() == config.questions@.len(),
        forall|i: int|
            0 <= i < r@.len() ==> (#[trigger] r@[i])@ == cell_text(
                recorded(config.scores@, student_id@, config.questions@[i].id),
            ),
{
    let mut out: Vec<String> = Vec::new();
    let mut i: usize = 0;
    while i < config.questions.len()
        invariant
            i <= config.questions@.len(),
            out@.len() == i,
            forall|j: int|
                0 <= j < i ==> (#[trigger] out@[j])@ == cell_text(
                    recorded(config.scores@, student_id@, config.questions@[j].id),
                ),
        decreases config.questions@.len() - i,
    {
        let cell = match recorded_score(&config.scores, student_id, config.questions[i].id) {
            Some(v) => u32_to_text(v),
            None => String::new(),
        };
        out.push(cell);
        i = i + 1;
    }
    out
}

/// The number of students among `students` that are fully graded.
pub open spec fn graded_count(questions: Seq<Question>, scores: Seq<Score>, students: Seq<Student>) -> nat
    decreases students.len(),
{
    if students.len() == 0 {
        0
    } else {
        graded_count(questions, scores, students.drop_last()) + if fully_graded(
            questions,
            scores,
            students.last().id@,
        ) {
            1nat
        } else {
            0nat
        }
    }
}

/// The score matrix of the grading page and its count of completed
/// students.
///
/// Row `i` shows student `i`'s id, name and score cells; its final column
/// shows `percent_texts[i]` when the student is fully graded and the
/// questions' weights add up to a positive total, and is empty otherwise.
/// The count is the number of rows whose final column is filled in this
/// way.
pub fn matrix_table(config: &Config, total_weight_positive: bool, percent_texts: &Vec<String>) -> (r: (
    Vec<TableRow>,
    usize,
))
    requires
        percent_texts@.len() == config.students@.len(),
    ensures
        r.0@.len() == config.students@.len(),
        forall|i: int|
            0 <= i < r.0@.len() ==> {
                let row = #[trigger] r.0@[i];
                let st = config.students@[i];
                &&& row.student_id@ == st.id@
                &&& row.student_name@ == st.name@
                &&& row.scores@.len() == config.questions@.len()
                &&& forall|k: int|
                    0 <= k < row.scores@.len() ==> (#[trigger] row.scores@[k])@ == cell_text(
                        recorded(config.scores@, st.id@, config.questions@[k].id),
                    )
                &&& row.final_display@ == if total_weight_positive && fully_graded(
                    config.questions@,
                    config.scores@,
                    st.id@,
                ) {
                    percent_texts@[i]@
                } else {
                    Seq::<char>::empty()
                }
            },
        r.1 == if total_weight_positive {
            graded_count(config.questions@, config.scores@, config.students@)
        } else {
            0
        },
{
    let mut rows: Vec<TableRow> = Vec::new();
    let mut completed: usize = 0;
    let mut i: usize = 0;
    let n = config.students.len();
    while i < n
        invariant
            i <= n,
            n == config.students@.len(),
            percent_texts@.len() == n,
            rows@.len() == i,
            completed <= i,
            completed == if total_weight_positive {
                graded_count(config.questions@, config.scores@, config.students@.take(i as int))
            } else {
                0
            },
            forall|j: int|
                0 <= j < i ==> {
                    let row = #[trigger] rows@[j];
                    let st = config.students@[j];
                    &&& row.student_id@ == st.id@
                    &&& row.student_name@ == st.name@
                    &&& row.scores@.len() == config.questions@.len()
                    &&& forall|k: int|
                        0 <= k < row.scores@.len() ==> (#[trigger] row.scores@[k])@ == cell_text(
                            recorded(config.scores@, st.id@, config.questions@[k].id),
                        )
                    &&& row.final_display@ == if total_weight_positive && fully_graded(
                        config.questions@,
                        config.scores@,
                        st.id@,
                    ) {
                        percent_texts@[j]@
                    } else {
                        Seq::<char>::empty()
                    }
                },
        decreases n - i,
    {
        let st = &config.students[i];
        let cells = score_cells(config, &st.id);
        let filled = graded_answers(config, &st.id).is_some();
        assert(config.students@.take(i + 1).drop_last() =~= config.students@.take(i as int));
        assert(config.students@.take(i + 1).last() == config.students@[i as int]);
        let final_display = if filled && total_weight_positive {
            completed = completed + 1;
            percent_texts[i].clone()
        } else {
            String::new()
        };
        rows.push(
            TableRow {
                student_id: st.id.clone(),
                student_name: st.name.clone(),
                scores: cells,
                final_display,
            },
        );
        i = i + 1;
    }
    assert(config.students@.take(n as int) =~= config.students@);
    (rows, completed)
}

// ---------------------------------------------------------------------------
// Laws of score entry
// ---------------------------------------------------------------------------

proof fn lemma_first_entry_exists(s: Seq<Score>, sid: Seq<char>, qid: u32) -> (i: int)
    requires
        has_entry(s, sid, qid),
    ensures
        is_first_entry(s, sid, qid, i),
    decreases s.len(),
{
    if is_entry_for(s[0], sid, qid) {
        0
    } else {
        let t = s.drop_first();
        let k = choose|k: int| 0 <= k < s.len() && is_entry_for(#[trigger] s[k], sid, qid);
        assert(t[k - 1] == s[k]);
        let j = lemma_first_entry_exists(t, sid, qid);
        assert forall|m: int| 0 <= m < j + 1 implies !is_entry_for(#[trigger] s[m], sid, qid) by {
            if m > 0 {
                assert(s[m] == t[m - 1]);
            }
        }
        j + 1
    }
}

proof fn lemma_last_entry_at(s: Seq<Score>, sid: Seq<char>, qid: u32, i: int)
    requires
        0 <= i < s.len(),
        is_entry_for(s[i], sid, qid),
        forall|j: int| i < j < s.len() ==> !is_entry_for(#[trigger] s[j], sid, qid),
    ensures
        last_entry(s, sid, qid) == Some(s[i].score),
    decreases s.len(),
{
    if i < s.len() - 1 {
        let t = s.drop_last();
        assert forall|j: int| i < j < t.len() implies !is_entry_for(#[trigger] t[j], sid, qid) by {
            assert(t[j] == s[j]);
        }
        lemma_last_entry_at(t, sid, qid, i);
    }
}

proof fn lemma_last_entry_update_other(s: Seq<Score>, i: int, x: Score, sid: Seq<char>, qid: u32)
    requires
        0 <= i < s.len(),
        !is_entry_for(s[i], sid, qid),
        !is_entry_for(x, sid, qid),
    ensures
        last_entry(s.update(i, x), sid, qid) == last_entry(s, sid, qid),
    decreases s.len(),
{
    let u = s.update(i, x);
    if i < s.len() - 1 {
        assert(u.drop_last() =~= s.drop_last().update(i, x));
        lemma_last_entry_update_other(s.drop_last(), i, x, sid, qid);
    } else {
        assert(u.drop_last() =~= s.drop_last());
    }
}

/// Reading after writing: once a score is recorded for a student and a
/// question, looking it up gives that score, provided no two entries
/// shared a key before.
pub proof fn lemma_recorded_after_record(
    old_scores: Seq<Score>,
    new_scores: Seq<Score>,
    sid: Seq<char>,
    qid: u32,
    score: Option<u32>,
)
    requires
        unique_keys(old_scores),
        records_score(old_scores, new_scores, sid, qid, score),
    ensures
        recorded(new_scores, sid, qid) == score,
{
    if has_entry(old_scores, sid, qid) {
        let i = lemma_first_entry_exists(old_scores, sid, qid);
        assert forall|j: int| i < j < new_scores.len() implies !is_entry_for(
            #[trigger] new_scores[j],
            sid,
            qid,
        ) by {
            assert(new_scores[j] == old_scores[j]);
            assert(!is_entry_for(old_scores[j], old_scores[i].student_id@, old_scores[i].question_id));
        }
        lemma_last_entry_at(new_scores, sid, qid, i);
    } else {
        assert(new_scores.drop_last() =~= new_scores.take(old_scores.len() as int));
    }
}

/// Recording a score for one student and question leaves the score of
/// every other student and question as it was.
pub proof fn lemma_record_keeps_others(
    old_scores: Seq<Score>,
    new_scores: Seq<Score>,
    sid: Seq<char>,
    qid: u32,
    score: Option<u32>,
    other_sid: Seq<char>,
    other_qid: u32,
)
    requires
        records_score(old_scores, new_scores, sid, qid, score),
        !(other_sid == sid && other_qid == qid),
    ensures
        recorded(new_scores, other_sid, other_qid) == recorded(old_scores, other_sid, other_qid),
{
    if has_entry(old_scores, sid, qid) {
        let i = lemma_first_entry_exists(old_scores, sid, qid);
        let x = Score {
            student_id: old_scores[i].student_id,
            question_id: old_scores[i].question_id,
            score,
        };
        lemma_last_entry_update_other(old_scores, i, x, other_sid, other_qid);
    } else {
        assert(new_scores.drop_last() =~= new_scores.take(old_scores.len() as int));
    }
}

/// Recording a score never creates two entries for the same student and
/// question.
pub proof fn lemma_record_keeps_keys_unique(
    old_scores: Seq<Score>,
    new_scores: Seq<Score>,
    sid: Seq<char>,
    qid: u32,
    score: Option<u32>,
)
    requires
        unique_keys(old_scores),
        records_score(old_scores, new_scores, sid, qid, score),
    ensures
        unique_keys(new_scores),
{
    if has_entry(old_scores, sid, qid) {
        let i = lemma_first_entry_exists(old_scores, sid, qid);
        assert forall|a: int, b: int|
            #![trigger new_scores[a], new_scores[b]]
            0 <= a < b < new_scores.len() implies !is_entry_for(
                new_scores[b],
                new_scores[a].student_id@,
                new_scores[a].question_id,
            ) by {
            assert(!is_entry_for(old_scores[b], old_scores[a].student_id@, old_scores[a].question_id));
        }
    } else {
        let n = old_scores.len() as int;
        assert forall|a: int, b: int|
            #![trigger new_scores[a], new_scores[b]]
            0 <= a < b < new_scores.len() implies !is_entry_for(
                new_scores[b],
                new_scores[a].student_id@,
                new_scores[a].question_id,
            ) by {
            assert(new_scores[a] == new_scores.take(n)[a]);
            if b < n {
                assert(new_scores[b] == new_scores.take(n)[b]);
                assert(!is_entry_for(old_scores[b], old_scores[a].student_id@, old_scores[a].question_id));
            } else {
                assert(!is_entry_for(old_scores[a], sid, qid));
            }
        }
    }
}

/// After a score is recorded, the first entry for the student and the
/// question holds it: the score field shows what was just entered.
pub proof fn lemma_field_shows_recorded(
    old_scores: Seq<Score>,
    new_scores: Seq<Score>,
    sid: Seq<char>,
    qid: u32,
    score: Option<u32>,
)
    requires
        records_score(old_scores, new_scores, sid, qid, score),
    ensures
        exists|i: int| #[trigger] is_first_entry(new_scores, sid, qid, i) && new_scores[i].score == score,
{
    if has_entry(old_scores, sid, qid) {
        let i = lemma_first_entry_exists(old_scores, sid, qid);
        assert forall|j: int| 0 <= j < i implies !is_entry_for(#[trigger] new_scores[j], sid, qid) by {
            assert(new_scores[j] == old_scores[j]);
        }
        assert(is_first_entry(new_scores, sid, qid, i));
    } else {
        let n = old_scores.len() as int;
        assert forall|j: int| 0 <= j < n implies !is_entry_for(#[trigger] new_scores[j], sid, qid) by {
            assert(new_scores[j] == new_scores.take(n)[j]);
        }
        assert(is_first_entry(new_scores, sid, qid, n));
    }
}

/// The entries of `scores` that belong to the student, in order.
pub open spec fn own_entries(scores: Seq<Score>, sid: Seq<char>) -> Seq<Score>
    decreases scores.len(),
{
    if scores.len() == 0 {
        scores
    } else {
        let rest = own_entries(scores.drop_last(), sid);
        if scores.last().student_id@ == sid {
            rest.push(scores.last())
        } else {
            rest
        }
    }
}

proof fn lemma_last_entry_own_entries(scores: Seq<Score>, sid: Seq<char>, qid: u32)
    ensures
        last_entry(scores, sid, qid) == last_entry(own_entries(scores, sid), sid, qid),
    decreases scores.len(),
{
    if scores.len() > 0 {
        let rest = own_entries(scores.drop_last(), sid);
        lemma_last_entry_own_entries(scores.drop_last(), sid, qid);
        if scores.last().student_id@ == sid {
            let own = rest.push(scores.last());
            assert(own.drop_last() =~= rest);
            assert(own.last() == scores.last());
        }
    }
}

/// What a student's final percentage rests on is the questions and that
/// student's own score entries alone: with the same questions and the same
/// own entries in the same order, the student is fully graded in both or in
/// neither, and every question contributes the same answer. Other
/// students' entries make no difference.
pub proof fn lemma_graded_answers_own_entries(
    questions: Seq<Question>,
    scores1: Seq<Score>,
    scores2: Seq<Score>,
    sid: Seq<char>,
)
    requires
        own_entries(scores1, sid) == own_entries(scores2, sid),
    ensures
        fully_graded(questions, scores1, sid) == fully_graded(questions, scores2, sid),
        forall|i: int|
            0 <= i < questions.len() ==> answer_for(#[trigger] questions[i], scores1, sid)
                == answer_for(questions[i], scores2, sid),
{
    assert forall|qid: u32| #[trigger] recorded(scores1, sid, qid) == recorded(scores2, sid, qid) by {
        lemma_last_entry_own_entries(scores1, sid, qid);
        lemma_last_entry_own_entries(scores2, sid, qid);
    }
}

/// A student is fully graded exactly when every question has a score
/// recorded for the student, whatever its value (zero included), and a
/// positive full score.
pub proof fn lemma_fully_graded_iff_all_recorded(
    questions: Seq<Question>,
    scores: Seq<Score>,
    sid: Seq<char>,
)
    ensures
        fully_graded(questions, scores, sid) <==> forall|i: int|
            0 <= i < questions.len() ==> (recorded(scores, sid, (#[trigger] questions[i]).id) is Some
                && questions[i].full_score > 0),
{
}

/// Whether a student is fully graded depends on which questions have a
/// score recorded, not on the scores' values: with scores recorded for the
/// same questions, the student is fully graded in both or in neither.
pub proof fn lemma_fully_graded_ignores_values(
    questions: Seq<Question>,
    scores1: Seq<Score>,
    scores2: Seq<Score>,
    sid: Seq<char>,
)
    requires
        forall|qid: u32|
            #[trigger] recorded(scores1, sid, qid) is Some <==> recorded(scores2, sid, qid) is Some,
    ensures
        fully_graded(questions, scores1, sid) == fully_graded(questions, scores2, sid),
{
    lemma_fully_graded_iff_all_recorded(questions, scores1, sid);
    lemma_fully_graded_iff_all_recorded(questions, scores2, sid);
    assert forall|i: int| 0 <= i < questions.len() implies (recorded(
        scores1,
        sid,
        (#[trigger] questions[i]).id,
    ) is Some <==> recorded(scores2, sid, questions[i].id) is Some) by {
        assert(recorded(scores1, sid, questions[i].id) is Some <==> recorded(scores2, sid, questions[i].id) is Some);
    }
}

/// No more students are counted as completed than there are students.
pub proof fn lemma_graded_count_bounded(questions: Seq<Question>, scores: Seq<Score>, students: Seq<Student>)
    ensures
        graded_count(questions, scores, students) <= students.len(),
    decreases students.len(),
{
    if students.len() > 0 {
        lemma_graded_count_bounded(questions, scores, students.drop_last());
    }
}

} // verus!
