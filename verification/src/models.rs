//! The grading session's data model.

use vstd::prelude::*;

verus! {

/// One question of the exam.
///
/// `weight_bits` holds the IEEE-754 single-precision bit pattern of the
/// question's weight (the application converts with `f32::to_bits` and
/// `f32::from_bits`), so the weight travels unchanged through the library.
#[derive(Clone, Debug, PartialEq)]
pub struct Question {
    pub id: u32,
    pub name: String,
    pub full_score: u32,
    pub weight_bits: u32,
    pub comment: String,
}

/// One examinee.
#[derive(Clone, Debug, PartialEq)]
pub struct Student {
    pub id: String,
    pub name: String,
}

/// The score entered for one student on one question; `None` while the
/// field is empty or holds an out-of-range value.
#[derive(Clone, Debug, PartialEq)]
pub struct Score {
    pub student_id: String,
    pub question_id: u32,
    pub score: Option<u32>,
}

/// A grade band: a final percentage of at least `min_score` earns `label`.
#[derive(Clone, Debug, PartialEq)]
pub struct Rating {
    pub label: String,
    pub min_score: u32,
}

/// The whole grading session, as it is saved to and loaded from disk.
#[derive(Clone, Debug, PartialEq)]
pub struct Config {
    pub save_path: Option<String>,
    pub questions: Vec<Question>,
    pub students: Vec<Student>,
    pub scores: Vec<Score>,
    pub ratings: Vec<Rating>,
}

/// One row of the score matrix as the grading page shows it.
#[derive(Clone, Debug, PartialEq)]
pub struct TableRow {
    pub student_id: String,
    pub student_name: String,
    pub scores: Vec<String>,
    pub final_display: String,
}

/// The pages reachable from the navigation bar.
#[derive(Clone, Copy, Debug, PartialEq, Eq)]
pub enum Page {
    MasterQuestions,
    MasterStudents,
    Grading,
    Rating,
}

impl Question {
    /// A copy of the question.
    pub fn duplicate(&self) -> (r: Question)
        ensures
            r == *self,
    {
        Question {
            id: self.id,
            name: self.name.clone(),
            full_score: self.full_score,
            weight_bits: self.weight_bits,
            comment: self.comment.clone(),
        }
    }
}

impl Student {
    /// A copy of the student.
    pub fn duplicate(&self) -> (r: Student)
        ensures
            r == *self,
    {
        Student { id: self.id.clone(), name: self.name.clone() }
    }
}

impl Rating {
    /// A copy of the rating.
    pub fn duplicate(&self) -> (r: Rating)
        ensures
            r == *self,
    {
        Rating { label: self.label.clone(), min_score: self.min_score }
    }
}

impl Config {
    /// An empty session: no save path, no questions, students, scores or
    /// ratings.
    pub fn new() -> (c: Config)
        ensures
            c.save_path is None,
            c.questions@.len() == 0,
            c.students@.len() == 0,
            c.scores@.len() == 0,
            c.ratings@.len() == 0,
    {
        Config {
            save_path: None,
            questions: Vec::new(),
            students: Vec::new(),
            scores: Vec::new(),
            ratings: Vec::new(),
        }
    }
}

/// Where "Save" writes the session: to the file it was last saved to or
/// loaded from, or, without one, to a file the user chooses.
#[derive(Clone, Debug, PartialEq)]
pub enum SaveTarget {
    ChooseFile,
    Path(String),
}

impl Config {
    /// Where "Save" writes the session.
    pub fn save_target(&self) -> (r: SaveTarget)
        ensures
            match self.save_path {
                None => r == SaveTarget::ChooseFile,
                Some(p) => r == SaveTarget::Path(p),
            },
    {
        match &self.save_path {
            None => SaveTarget::ChooseFile,
            Some(p) => SaveTarget::Path(p.clone()),
        }
    }

    /// Remembers the file that the session was saved to or loaded from.
    pub fn set_save_path(&mut self, path: String)
        ensures
            final(self).save_path == Some(path),
            final(self).questions == old(self).questions,
            final(self).students == old(self).students,
            final(self).scores == old(self).scores,
            final(self).ratings == old(self).ratings,
    {
        self.save_path = Some(path);
    }
}

} // verus!
