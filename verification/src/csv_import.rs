//! Importing the question and student tables from CSV: the records come
//! from the `csv` crate (a header row, every field trimmed); this module
//! turns records into table rows and says which record fails and why.

use vstd::prelude::*;

use crate::db::{QuestionRow, StudentRow};
use crate::students::first_n;
use crate::text::{
    decimal, int_problem_text, parse_u32_detailed, u32_from_text, u32_parse_problem, usize_to_text,
};

verus! {

/// One CSV record: its fields, or the reader's description of why the
/// record could not be read.
pub type CsvRecord = Result<Vec<String>, String>;

/// The plain value of a record: its fields' texts, or the error text.
pub open spec fn record_view(r: CsvRecord) -> Result<Seq<Seq<char>>, Seq<char>> {
    match r {
        Ok(fields) => Ok(fields@.map_values(|f: String| f@)),
        Err(e) => Err(e@),
    }
}

/// The plain values of a list of records.
pub open spec fn records_view(rs: Seq<CsvRecord>) -> Seq<Result<Seq<Seq<char>>, Seq<char>>> {
    rs.map_values(|r: CsvRecord| record_view(r))
}

/// What the `csv` crate reads from `bytes` with a header row and every
/// field trimmed: the data records after the header, in order, each as its
/// fields or as the text of the error that reading it gave.
pub uninterp spec fn csv_records_of(bytes: Seq<u8>) -> Seq<Result<Seq<Seq<char>>, Seq<char>>>;

/// Reads CSV text with the `csv` crate: `ReaderBuilder` with
/// `has_headers(true)` and `trim(Trim::All)` over the bytes, then every item
/// of `records()`, each converted to its field texts or to the error's
/// text. The result is named (`csv_records_of`), not stated: the CSV
/// grammar and the error texts are the crate's.
#[verifier::external_body]
fn parse_csv(bytes: &[u8]) -> (r: Vec<CsvRecord>)
    ensures
        records_view(r@) == csv_records_of(bytes@),
{
    let mut reader = csv::ReaderBuilder::new().has_headers(true).trim(csv::Trim::All).from_reader(
        bytes,
    );
    reader.records().map(
        |rec| rec.map(|fields| fields.iter().map(|f| f.to_string()).collect()).map_err(|e| e.to_string()),
    ).collect()
}

/// The data records of CSV text (after its header row), fields trimmed.
pub fn read_csv_records(bytes: &[u8]) -> (r: Vec<CsvRecord>)
    ensures
        records_view(r@) == csv_records_of(bytes@),
{
    parse_csv(bytes)
}

/// A column of the import files.
#[derive(Clone, Copy, Debug, PartialEq, Eq)]
pub enum CsvField {
    Id,
    Name,
    FullScore,
    Weight,
    Comment,
}

/// What is wrong with a record.
#[derive(Clone, Copy, Debug, PartialEq, Eq)]
pub enum RecordProblem {
    /// The reader could not read the record.
    Unreadable,
    /// The record has no such field.
    Missing(CsvField),
    /// The field does not hold a valid number.
    Invalid(CsvField),
}

/// Why an import failed: the problem, the file line of the failing record
/// (data record `i` stands on line `i + 2`, after the header), and the
/// cause's own text: the reader's error for an unreadable record, the
/// number parser's error for an invalid field (empty otherwise).
#[derive(Clone, Debug, PartialEq)]
pub struct CsvImportError {
    pub problem: RecordProblem,
    pub line: usize,
    pub detail: String,
}

/// The file line of data record `i`, saturating at `usize::MAX`.
pub open spec fn line_of(i: int) -> int {
    if i + 2 <= usize::MAX {
        i + 2
    } else {
        usize::MAX as int
    }
}

/// The name of a column in messages.
pub open spec fn field_name(f: CsvField) -> Seq<char> {
    match f {
        CsvField::Id => "id"@,
        CsvField::Name => "name"@,
        CsvField::FullScore => "full_score"@,
        CsvField::Weight => "weight"@,
        CsvField::Comment => "comment"@,
    }
}

fn field_text(f: CsvField) -> (r: String)
    ensures
        r@ == field_name(f),
{
    match f {
        CsvField::Id => "id".to_owned(),
        CsvField::Name => "name".to_owned(),
        CsvField::FullScore => "full_score".to_owned(),
        CsvField::Weight => "weight".to_owned(),
        CsvField::Comment => "comment".to_owned(),
    }
}

impl CsvImportError {
    /// The text of the error: "csv read error at line N: DETAIL" for an
    /// unreadable record, "missing FIELD" for a missing field (the empty
    /// text for a missing comment), "invalid FIELD at line N: DETAIL" for a
    /// bad number.
    pub fn message(&self) -> (r: String)
        ensures
            r@ == match self.problem {
                RecordProblem::Unreadable => "csv read error at line "@ + decimal(self.line as nat)
                    + ": "@ + self.detail@,
                RecordProblem::Missing(f) => if f == CsvField::Comment {
                    Seq::<char>::empty()
                } else {
                    "missing "@ + field_name(f)
                },
                RecordProblem::Invalid(f) => "invalid "@ + field_name(f) + " at line "@ + decimal(
                    self.line as nat,
                ) + ": "@ + self.detail@,
            },
    {
        match self.problem {
            RecordProblem::Unreadable => {
                let mut s = "csv read error at line ".to_owned();
                let n = usize_to_text(self.line);
                s.append(n.as_str());
                s.append(": ");
                s.append(self.detail.as_str());
                s
            },
            RecordProblem::Missing(f) => match f {
                CsvField::Comment => String::new(),
                _ => {
                    let mut s = "missing ".to_owned();
                    let name = field_text(f);
                    s.append(name.as_str());
                    s
                },
            },
            RecordProblem::Invalid(f) => {
                let mut s = "invalid ".to_owned();
                let name = field_text(f);
                s.append(name.as_str());
                s.append(" at line ");
                let n = usize_to_text(self.line);
                s.append(n.as_str());
                s.append(": ");
                s.append(self.detail.as_str());
                s
            },
        }
    }
}

/// What is wrong with a student record: a student has an id and a name.
pub open spec fn student_problem(rec: Result<Seq<Seq<char>>, Seq<char>>) -> Option<RecordProblem> {
    match rec {
        Err(_) => Some(RecordProblem::Unreadable),
        Ok(f) => if f.len() < 1 {
            Some(RecordProblem::Missing(CsvField::Id))
        } else if f.len() < 2 {
            Some(RecordProblem::Missing(CsvField::Name))
        } else {
            None
        },
    }
}

/// The plain value of a weight field read as a number: its bit pattern, or
/// the number parser's error text.
pub open spec fn weight_view(w: Result<u32, String>) -> Result<u32, Seq<char>> {
    match w {
        Ok(b) => Ok(b),
        Err(t) => Err(t@),
    }
}

/// What is wrong with a question record, checked field by field: the id
/// (a `u32`), the name, the full score (a `u32`), the weight (`weight`, the
/// weight field read as a number, `Err` when it does not read), the
/// comment.
pub open spec fn question_problem(
    rec: Result<Seq<Seq<char>>, Seq<char>>,
    weight: Result<u32, Seq<char>>,
) -> Option<RecordProblem> {
    match rec {
        Err(_) => Some(RecordProblem::Unreadable),
        Ok(f) => if f.len() < 1 {
            Some(RecordProblem::Missing(CsvField::Id))
        } else if u32_from_text(f[0]) is None {
            Some(RecordProblem::Invalid(CsvField::Id))
        } else if f.len() < 2 {
            Some(RecordProblem::Missing(CsvField::Name))
        } else if f.len() < 3 {
            Some(RecordProblem::Missing(CsvField::FullScore))
        } else if u32_from_text(f[2]) is None {
            Some(RecordProblem::Invalid(CsvField::FullScore))
        } else if f.len() < 4 {
            Some(RecordProblem::Missing(CsvField::Weight))
        } else if weight is Err {
            Some(RecordProblem::Invalid(CsvField::Weight))
        } else if f.len() < 5 {
            Some(RecordProblem::Missing(CsvField::Comment))
        } else {
            None
        },
    }
}

/// The cause's text of a record's problem that is not about a number: the
/// reader's error for an unreadable record, else empty.
pub open spec fn record_detail(rec: Result<Seq<Seq<char>>, Seq<char>>) -> Seq<char> {
    match rec {
        Err(t) => t,
        Ok(_) => Seq::<char>::empty(),
    }
}

/// The number parser's error text for a field that is not a `u32`.
pub open spec fn invalid_u32_detail(s: Seq<char>) -> Seq<char> {
    match u32_parse_problem(s) {
        Some(p) => int_problem_text(p),
        None => Seq::<char>::empty(),
    }
}

/// The cause's text of problem `p` of a question record with the weight
/// reading `weight`: the reader's error, or the number parser's error for
/// an invalid id, full score or weight; else empty.
pub open spec fn question_detail(
    rec: Result<Seq<Seq<char>>, Seq<char>>,
    weight: Result<u32, Seq<char>>,
    p: RecordProblem,
) -> Seq<char> {
    match rec {
        Err(t) => t,
        Ok(f) => match p {
            RecordProblem::Invalid(CsvField::Id) => invalid_u32_detail(f[0]),
            RecordProblem::Invalid(CsvField::FullScore) => invalid_u32_detail(f[2]),
            RecordProblem::Invalid(CsvField::Weight) => match weight {
                Err(t) => t,
                Ok(_) => Seq::<char>::empty(),
            },
            _ => Seq::<char>::empty(),
        },
    }
}

/// Whether `e` reports problem `p` of data record `i`, with the cause's
/// text `detail`.
pub open spec fn reports(e: CsvImportError, p: RecordProblem, i: int, detail: Seq<char>) -> bool {
    &&& e.problem == p
    &&& e.line == line_of(i)
    &&& e.detail@ == detail
}

/// Every readable student record with at least two fields is accepted,
/// whatever follows them: a student is its first two fields.
pub proof fn lemma_student_record_accepted(f: Seq<Seq<char>>)
    requires
        f.len() >= 2,
    ensures
        student_problem(Ok(f)) is None,
{
}

/// A readable question record with five fields whose id and full score
/// read as `u32` and whose weight reads as a number is accepted, whatever
/// the number.
pub proof fn lemma_question_record_accepted(f: Seq<Seq<char>>, weight: u32)
    requires
        f.len() >= 5,
        u32_from_text(f[0]) is Some,
        u32_from_text(f[2]) is Some,
    ensures
        question_problem(Ok(f), Ok(weight)) is None,
{
}

/// The value that a weight field reads as never decides a question
/// record's problem: two readings give the same verdict.
pub proof fn lemma_question_weight_value_irrelevant(
    rec: Result<Seq<Seq<char>>, Seq<char>>,
    a: u32,
    b: u32,
)
    ensures
        question_problem(rec, Ok(a)) == question_problem(rec, Ok(b)),
{
}

fn line_number(i: usize) -> (r: usize)
    ensures
        r == line_of(i as int),
{
    i.saturating_add(2)
}

/// The student rows of the data records, in order; the first record that
/// is unreadable or lacks a field fails the import.
pub fn students_from_records(records: &Vec<CsvRecord>) -> (r: Result<Vec<StudentRow>, CsvImportError>)
    ensures
        (forall|i: int|
            0 <= i < records@.len() ==> {
                &&& (#[trigger] record_view(records@[i])) matches Ok(f)
                &&& f.len() >= 2
            }) ==> r is Ok,
        match r {
            Ok(rows) => {
                &&& rows@.len() == records@.len()
                &&& forall|i: int|
                    0 <= i < records@.len() ==> student_problem(record_view(#[trigger] records@[i]))
                        is None
                &&& forall|i: int|
                    0 <= i < rows@.len() ==> {
                        let f = record_view(records@[i])->Ok_0;
                        &&& (#[trigger] rows@[i]).id@ == f[0]
                        &&& rows@[i].name@ == f[1]
                    }
            },
            Err(e) => exists|i: int|
                0 <= i < records@.len() && (forall|j: int|
                    0 <= j < i ==> student_problem(record_view(#[trigger] records@[j])) is None)
                    && student_problem(record_view(records@[i])) == Some(e.problem) && reports(
                    e,
                    e.problem,
                    i,
                    record_detail(record_view(records@[i])),
                ),
        },
{
    let mut rows: Vec<StudentRow> = Vec::new();
    let mut i: usize = 0;
    while i < records.len()
        invariant
            i <= records@.len(),
            rows@.len() == i,
            forall|j: int| 0 <= j < i ==> student_problem(record_view(#[trigger] records@[j])) is None,
            forall|j: int|
                0 <= j < i ==> {
                    let f = record_view(records@[j])->Ok_0;
                    &&& (#[trigger] rows@[j]).id@ == f[0]
                    &&& rows@[j].name@ == f[1]
                },
        decreases records@.len() - i,
    {
        match &records[i] {
            Err(e) => {
                let err = CsvImportError {
                    problem: RecordProblem::Unreadable,
                    line: line_number(i),
                    detail: e.clone(),
                };
                return Err(err);
            },
            Ok(fields) => {
                assert(record_view(records@[i as int])->Ok_0.len() == fields@.len());
                if fields.len() < 1 {
                    return Err(
                        CsvImportError {
                            problem: RecordProblem::Missing(CsvField::Id),
                            line: line_number(i),
                            detail: String::new(),
                        },
                    );
                }
                if fields.len() < 2 {
                    return Err(
                        CsvImportError {
                            problem: RecordProblem::Missing(CsvField::Name),
                            line: line_number(i),
                            detail: String::new(),
                        },
                    );
                }
                rows.push(StudentRow { id: fields[0].clone(), name: fields[1].clone() });
            },
        }
        i = i + 1;
    }
    Ok(rows)
}

/// Reads the student table from CSV text: a header row, then one student
/// per record (id, name).
pub fn read_students_csv_bytes(bytes: &[u8]) -> (r: Result<Vec<StudentRow>, CsvImportError>)
    ensures
        (forall|i: int|
            0 <= i < csv_records_of(bytes@).len() ==> {
                &&& (#[trigger] csv_records_of(bytes@)[i]) matches Ok(f)
                &&& f.len() >= 2
            }) ==> r is Ok,
        match r {
            Ok(rows) => {
                &&& rows@.len() == csv_records_of(bytes@).len()
                &&& forall|i: int|
                    0 <= i < rows@.len() ==> student_problem(#[trigger] csv_records_of(bytes@)[i])
                        is None
                &&& forall|i: int|
                    0 <= i < rows@.len() ==> (#[trigger] rows@[i]).id@ == csv_records_of(bytes@)[i]->Ok_0[0]
                        && rows@[i].name@ == csv_records_of(bytes@)[i]->Ok_0[1]
            },
            Err(e) => exists|i: int|
                0 <= i < csv_records_of(bytes@).len() && (forall|j: int|
                    0 <= j < i ==> student_problem(#[trigger] csv_records_of(bytes@)[j]) is None)
                    && student_problem(csv_records_of(bytes@)[i]) == Some(e.problem) && reports(
                    e,
                    e.problem,
                    i,
                    record_detail(csv_records_of(bytes@)[i]),
                ),
        },
{
    let records = parse_csv(bytes);
    let ghost recs = csv_records_of(bytes@);
    assert(recs.len() == records@.len());
    assert forall|i: int| 0 <= i < records@.len() implies #[trigger] recs[i] == record_view(
        records@[i],
    ) by {
        assert(records_view(records@)[i] == record_view(records@[i]));
    }
    let r = students_from_records(&records);
    match r {
        Ok(rows) => {
            assert forall|i: int| 0 <= i < rows@.len() implies student_problem(#[trigger] recs[i])
                is None by {
                assert(recs[i] == record_view(records@[i]));
            }
            assert forall|i: int| 0 <= i < rows@.len() implies (#[trigger] rows@[i]).id@ == recs[i]->Ok_0[0]
                && rows@[i].name@ == recs[i]->Ok_0[1] by {
                assert(rows@[i].id@ == record_view(records@[i])->Ok_0[0]);
                assert(recs[i] == record_view(records@[i]));
            }
            Ok(rows)
        },
        Err(e) => {
            proof {
                let i = choose|i: int|
                    0 <= i < records@.len() && (forall|j: int|
                        0 <= j < i ==> student_problem(record_view(#[trigger] records@[j])) is None)
                        && student_problem(record_view(records@[i])) == Some(e.problem) && reports(
                        e,
                        e.problem,
                        i,
                        record_detail(record_view(records@[i])),
                    );
                assert(recs[i] == record_view(records@[i]));
                assert forall|j: int| 0 <= j < i implies student_problem(#[trigger] recs[j]) is None by {
                    assert(recs[j] == record_view(records@[j]));
                }
            }
            Err(e)
        },
    }
}

/// The question rows of the data records, in order; the first record with
/// a problem (see `question_problem`) fails the import. `weights[i]` is
/// record `i`'s weight field read as a number: the bit pattern of its value,
/// or the number parser's error text (any text where the record has no
/// such field).
pub fn questions_from_records(
    records: &Vec<CsvRecord>,
    weights: &Vec<Result<u32, String>>,
) -> (r: Result<Vec<QuestionRow>, CsvImportError>)
    requires
        weights@.len() == records@.len(),
    ensures
        (forall|i: int|
            0 <= i < records@.len() ==> {
                &&& (#[trigger] record_view(records@[i])) matches Ok(f)
                &&& f.len() >= 5
                &&& u32_from_text(f[0]) is Some
                &&& u32_from_text(f[2]) is Some
                &&& weights@[i] is Ok
            }) ==> r is Ok,
        match r {
            Ok(rows) => {
                &&& rows@.len() == records@.len()
                &&& forall|i: int|
                    0 <= i < rows@.len() ==> {
                        let f = record_view(records@[i])->Ok_0;
                        &&& question_problem(record_view(records@[i]), weight_view(weights@[i]))
                            is None
                        &&& Some((#[trigger] rows@[i]).id) == u32_from_text(f[0])
                        &&& rows@[i].name@ == f[1]
                        &&& Some(rows@[i].full_score) == u32_from_text(f[2])
                        &&& Ok::<u32, Seq<char>>(rows@[i].weight_bits) == weight_view(weights@[i])
                        &&& rows@[i].comment@ == f[4]
                    }
            },
            Err(e) => exists|i: int|
                0 <= i < records@.len() && (forall|j: int|
                    0 <= j < i ==> question_problem(
                        record_view(#[trigger] records@[j]),
                        weight_view(weights@[j]),
                    ) is None) && question_problem(
                    record_view(records@[i]),
                    weight_view(weights@[i]),
                ) == Some(e.problem) && reports(
                    e,
                    e.problem,
                    i,
                    question_detail(record_view(records@[i]), weight_view(weights@[i]), e.problem),
                ),
        },
{
    let mut rows: Vec<QuestionRow> = Vec::new();
    let mut i: usize = 0;
    while i < records.len()
        invariant
            i <= records@.len(),
            weights@.len() == records@.len(),
            rows@.len() == i,
            forall|j: int|
                0 <= j < i ==> question_problem(
                    record_view(#[trigger] records@[j]),
                    weight_view(weights@[j]),
                ) is None,
            forall|j: int|
                0 <= j < i ==> {
                    let f = record_view(records@[j])->Ok_0;
                    &&& Some((#[trigger] rows@[j]).id) == u32_from_text(f[0])
                    &&& rows@[j].name@ == f[1]
                    &&& Some(rows@[j].full_score) == u32_from_text(f[2])
                    &&& Ok::<u32, Seq<char>>(rows@[j].weight_bits) == weight_view(weights@[j])
                    &&& rows@[j].comment@ == f[4]
                },
        decreases records@.len() - i,
    {
        let line = line_number(i);
        match &records[i] {
            Err(e) => {
                return Err(
                    CsvImportError { problem: RecordProblem::Unreadable, line, detail: e.clone() },
                );
            },
            Ok(fields) => {
                let ghost f = record_view(records@[i as int])->Ok_0;
                assert(f.len() == fields@.len());
                if fields.len() < 1 {
                    return Err(
                        CsvImportError {
                            problem: RecordProblem::Missing(CsvField::Id),
                            line,
                            detail: String::new(),
                        },
                    );
                }
                assert(f[0] == fields@[0]@);
                let id = match parse_u32_detailed(fields[0].as_str()) {
                    Ok(v) => v,
                    Err(p) => {
                        return Err(
                            CsvImportError {
                                problem: RecordProblem::Invalid(CsvField::Id),
                                line,
                                detail: p.message(),
                            },
                        );
                    },
                };
                if fields.len() < 2 {
                    return Err(
                        CsvImportError {
                            problem: RecordProblem::Missing(CsvField::Name),
                            line,
                            detail: String::new(),
                        },
                    );
                }
                if fields.len() < 3 {
                    return Err(
                        CsvImportError {
                            problem: RecordProblem::Missing(CsvField::FullScore),
                            line,
                            detail: String::new(),
                        },
                    );
                }
                assert(f[2] == fields@[2]@);
                let full_score = match parse_u32_detailed(fields[2].as_str()) {
                    Ok(v) => v,
                    Err(p) => {
                        return Err(
                            CsvImportError {
                                problem: RecordProblem::Invalid(CsvField::FullScore),
                                line,
                                detail: p.message(),
                            },
                        );
                    },
                };
                if fields.len() < 4 {
                    return Err(
                        CsvImportError {
                            problem: RecordProblem::Missing(CsvField::Weight),
                            line,
                            detail: String::new(),
                        },
                    );
                }
                let weight_bits = match &weights[i] {
                    Ok(w) => *w,
                    Err(t) => {
                        return Err(
                            CsvImportError {
                                problem: RecordProblem::Invalid(CsvField::Weight),
                                line,
                                detail: t.clone(),
                            },
                        );
                    },
                };
                if fields.len() < 5 {
                    return Err(
                        CsvImportError {
                            problem: RecordProblem::Missing(CsvField::Comment),
                            line,
                            detail: String::new(),
                        },
                    );
                }
                assert(f[1] == fields@[1]@ && f[4] == fields@[4]@);
                rows.push(
                    QuestionRow {
                        id,
                        name: fields[1].clone(),
                        full_score,
                        weight_bits,
                        comment: fields[4].clone(),
                    },
                );
            },
        }
        i = i + 1;
    }
    Ok(rows)
}

/// The first `n` question rows, for a preview.
pub fn preview_questions(rows: &[QuestionRow], n: usize) -> (r: Vec<QuestionRow>)
    ensures
        r@ == first_n(rows@, n as nat),
{
    let mut out: Vec<QuestionRow> = Vec::new();
    let mut i: usize = 0;
    while i < rows.len() && i < n
        invariant
            i <= rows@.len(),
            i <= n,
            out@ == rows@.take(i as int),
        decreases rows@.len() - i,
    {
        out.push(rows[i].duplicate());
        i = i + 1;
        assert(out@ =~= rows@.take(i as int));
    }
    assert(out@ =~= first_n(rows@, n as nat));
    out
}

/// The first `n` student rows, for a preview.
pub fn preview_students(rows: &[StudentRow], n: usize) -> (r: Vec<StudentRow>)
    ensures
        r@ == first_n(rows@, n as nat),
{
    let mut out: Vec<StudentRow> = Vec::new();
    let mut i: usize = 0;
    while i < rows.len() && i < n
        invariant
            i <= rows@.len(),
            i <= n,
            out@ == rows@.take(i as int),
        decreases rows@.len() - i,
    {
        out.push(rows[i].duplicate());
        i = i + 1;
        assert(out@ =~= rows@.take(i as int));
    }
    assert(out@ =~= first_n(rows@, n as nat));
    out
}

} // verus!
