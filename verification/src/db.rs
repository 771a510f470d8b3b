//! The rows that the question and student tables hold, the checks a row
//! must pass before it is stored, and the pieces of the queries that the
//! library builds.

use vstd::prelude::*;

use crate::text::{is_blank, parse_u32, trim_text, trimmed, u32_from_text};

verus! {

/// A row of the question table. `weight_bits` is the IEEE-754
/// single-precision bit pattern of the weight.
#[derive(Clone, Debug, PartialEq)]
pub struct QuestionRow {
    pub id: u32,
    pub name: String,
    pub full_score: u32,
    pub weight_bits: u32,
    pub comment: String,
}

/// A row of the student table.
#[derive(Clone, Debug, PartialEq)]
pub struct StudentRow {
    pub id: String,
    pub name: String,
}

impl QuestionRow {
    /// A copy of the row.
    pub fn duplicate(&self) -> (r: QuestionRow)
        ensures
            r == *self,
    {
        QuestionRow {
            id: self.id,
            name: self.name.clone(),
            full_score: self.full_score,
            weight_bits: self.weight_bits,
            comment: self.comment.clone(),
        }
    }
}

impl StudentRow {
    /// A copy of the row.
    pub fn duplicate(&self) -> (r: StudentRow)
        ensures
            r == *self,
    {
        StudentRow { id: self.id.clone(), name: self.name.clone() }
    }
}

/// Whether the single-precision bit pattern stands for a number below
/// zero: the sign bit is set, and it is neither −0 nor a NaN
/// (`f32::from_bits(bits) < 0.0`).
pub open spec fn f32_bits_negative(bits: u32) -> bool {
    0x8000_0000u32 < bits && bits <= 0xff80_0000u32
}

/// Why a question row is refused.
#[derive(Clone, Copy, Debug, PartialEq, Eq)]
pub enum QuestionProblem {
    NameEmpty,
    WeightNegative,
}

impl QuestionProblem {
    /// The text of the refusal.
    pub fn message(&self) -> (r: String)
        ensures
            r@ == match *self {
                QuestionProblem::NameEmpty => "question.name is empty"@,
                QuestionProblem::WeightNegative => "question.weight < 0"@,
            },
    {
        match self {
            QuestionProblem::NameEmpty => "question.name is empty".to_owned(),
            QuestionProblem::WeightNegative => "question.weight < 0".to_owned(),
        }
    }
}

/// Why a student row is refused.
#[derive(Clone, Copy, Debug, PartialEq, Eq)]
pub enum StudentProblem {
    IdEmpty,
    NameEmpty,
}

impl StudentProblem {
    /// The text of the refusal.
    pub fn message(&self) -> (r: String)
        ensures
            r@ == match *self {
                StudentProblem::IdEmpty => "student.id is empty"@,
                StudentProblem::NameEmpty => "student.name is empty"@,
            },
    {
        match self {
            StudentProblem::IdEmpty => "student.id is empty".to_owned(),
            StudentProblem::NameEmpty => "student.name is empty".to_owned(),
        }
    }
}

/// The check a question row passes before it is stored: a blank name is
/// refused first, then a negative weight. (A full score below zero, which
/// the table's checks also name, cannot occur in a `u32`.)
pub fn validate_question(q: &QuestionRow) -> (r: Result<(), QuestionProblem>)
    ensures
        r == if trimmed(q.name@).len() == 0 {
            Err(QuestionProblem::NameEmpty)
        } else if f32_bits_negative(q.weight_bits) {
            Err(QuestionProblem::WeightNegative)
        } else {
            Ok(())
        },
{
    if is_blank(q.name.as_str()) {
        return Err(QuestionProblem::NameEmpty);
    }
    if 0x8000_0000u32 < q.weight_bits && q.weight_bits <= 0xff80_0000u32 {
        return Err(QuestionProblem::WeightNegative);
    }
    Ok(())
}

/// The check a student row passes before it is stored: a blank id is
/// refused first, then a blank name.
pub fn validate_student(s: &StudentRow) -> (r: Result<(), StudentProblem>)
    ensures
        r == if trimmed(s.id@).len() == 0 {
            Err(StudentProblem::IdEmpty)
        } else if trimmed(s.name@).len() == 0 {
            Err(StudentProblem::NameEmpty)
        } else {
            Ok(())
        },
{
    if is_blank(s.id.as_str()) {
        return Err(StudentProblem::IdEmpty);
    }
    if is_blank(s.name.as_str()) {
        return Err(StudentProblem::NameEmpty);
    }
    Ok(())
}

/// The `LIKE` pattern of the student search query: the query between two
/// `%` wildcards.
pub fn like_pattern(query: &str) -> (r: String)
    ensures
        r@ == "%"@ + query@ + "%"@,
{
    let mut s = "%".to_owned();
    s.append(query);
    s.append("%");
    s
}

/// Why the question form is refused.
#[derive(Clone, Copy, Debug, PartialEq, Eq)]
pub enum FormProblem {
    FullScoreNotInteger,
    WeightNotNumber,
    IdNotInteger,
}

impl FormProblem {
    /// The text of the refusal.
    pub fn message(&self) -> (r: String)
        ensures
            r@ == match *self {
                FormProblem::FullScoreNotInteger => "full_score は整数で入力してください"@,
                FormProblem::WeightNotNumber => "weight は数値で入力してください"@,
                FormProblem::IdNotInteger => "id は整数で入力してください"@,
            },
    {
        match self {
            FormProblem::FullScoreNotInteger => "full_score は整数で入力してください".to_owned(),
            FormProblem::WeightNotNumber => "weight は数値で入力してください".to_owned(),
            FormProblem::IdNotInteger => "id は整数で入力してください".to_owned(),
        }
    }
}

/// The question row that the "add" form describes. Every field is trimmed;
/// the full score must read as a `u32`, then the weight must have read as a
/// number (`weight_bits`, the bit pattern of the trimmed weight text read as
/// a float, or `None` when it did not read), then the id must read as a
/// `u32`.
pub fn question_from_form(
    id: &str,
    name: &str,
    full_score: &str,
    weight_bits: Option<u32>,
    comment: &str,
) -> (r: Result<QuestionRow, FormProblem>)
    ensures
        match r {
            Ok(row) => {
                &&& u32_from_text(trimmed(full_score@)) == Some(row.full_score)
                &&& weight_bits == Some(row.weight_bits)
                &&& u32_from_text(trimmed(id@)) == Some(row.id)
                &&& row.name@ == trimmed(name@)
                &&& row.comment@ == trimmed(comment@)
            },
            Err(p) => p == if u32_from_text(trimmed(full_score@)) is None {
                FormProblem::FullScoreNotInteger
            } else if weight_bits is None {
                FormProblem::WeightNotNumber
            } else {
                FormProblem::IdNotInteger
            } && (u32_from_text(trimmed(full_score@)) is None || weight_bits is None
                || u32_from_text(trimmed(id@)) is None),
        },
{
    let id_text = trim_text(id);
    let name_text = trim_text(name);
    let full_text = trim_text(full_score);
    let full = match parse_u32(full_text.as_str()) {
        Some(v) => v,
        None => {
            return Err(FormProblem::FullScoreNotInteger);
        },
    };
    let weight = match weight_bits {
        Some(w) => w,
        None => {
            return Err(FormProblem::WeightNotNumber);
        },
    };
    let comment_text = trim_text(comment);
    let id_value = match parse_u32(id_text.as_str()) {
        Some(v) => v,
        None => {
            return Err(FormProblem::IdNotInteger);
        },
    };
    Ok(
        QuestionRow {
            id: id_value,
            name: name_text,
            full_score: full,
            weight_bits: weight,
            comment: comment_text,
        },
    )
}

} // verus!
