//! Decisions of the grading page's panels: moving between students and
//! score fields, the search list's selection, hotkeys, the student label
//! and the comment panel.

use vstd::prelude::*;

use crate::grading::find_question;
use crate::grading::find_question_index;
use crate::models::{Config, Question};
use crate::text::chars_of;

verus! {

/// The student shown after "previous": one back, staying at the first.
pub fn prev_student_index(current: usize) -> (r: usize)
    ensures
        r == if current > 0 {
            current - 1
        } else {
            0
        },
{
    current.saturating_sub(1)
}

/// The student shown after "next": one on, staying at the last of `count`
/// students (and at 0 when there are none).
pub fn next_student_index(current: usize, count: usize) -> (r: usize)
    requires
        current < usize::MAX,
    ensures
        r == if current + 1 < (if count > 0 {
            count - 1
        } else {
            0
        }) {
            current + 1
        } else {
            if count > 0 {
                count - 1
            } else {
                0
            }
        },
{
    let max_idx = count.saturating_sub(1);
    if current + 1 < max_idx {
        current + 1
    } else {
        max_idx
    }
}

/// The score field focused after moving down from field `idx`: the next
/// one, at most `count` (one past the last field).
pub fn next_focus(idx: usize, count: usize) -> (r: usize)
    requires
        idx < usize::MAX,
    ensures
        r == if idx + 1 < count {
            idx + 1
        } else {
            count as int
        },
{
    if idx + 1 < count {
        idx + 1
    } else {
        count
    }
}

/// The score field focused after moving up from field `idx`.
pub fn prev_focus(idx: usize) -> (r: usize)
    ensures
        r == if idx > 0 {
            idx - 1
        } else {
            0
        },
{
    idx.saturating_sub(1)
}

/// The search list's selection after "down" among `count` results: one
/// on, staying at the last; unchanged when the list is empty.
pub fn selection_down(selected: usize, count: usize) -> (r: usize)
    requires
        selected < usize::MAX,
    ensures
        r == if count == 0 {
            selected as int
        } else if selected + 1 < count {
            selected + 1
        } else {
            count - 1
        },
{
    if count == 0 {
        selected
    } else if selected + 1 < count {
        selected + 1
    } else {
        count - 1
    }
}

/// The search list's selection after "up": one back, staying at the first.
pub fn selection_up(selected: usize) -> (r: usize)
    ensures
        r == if selected > 0 {
            selected - 1
        } else {
            0
        },
{
    selected.saturating_sub(1)
}

/// The result that "enter" picks: the selected one, or the last when the
/// selection lies past the end; none when the list is empty.
pub fn selection_enter(selected: usize, count: usize) -> (r: Option<usize>)
    ensures
        r == if count == 0 {
            None
        } else if selected < count {
            Some(selected)
        } else {
            Some((count - 1) as usize)
        },
{
    if count == 0 {
        None
    } else if selected < count {
        Some(selected)
    } else {
        Some(count - 1)
    }
}

/// An action of the grading page's character hotkeys.
#[derive(Clone, Copy, Debug, PartialEq, Eq)]
pub enum GradingHotkey {
    OpenSearch,
    PreviousStudent,
    NextStudent,
}

/// The hotkey that a typed character key stands for: "f" or "F" opens the
/// search, "j" or "J" goes to the previous student, "l" or "L" to the next.
pub fn character_hotkey(key: &str) -> (r: Option<GradingHotkey>)
    ensures
        r == if key@ == "f"@ || key@ == "F"@ {
            Some(GradingHotkey::OpenSearch)
        } else if key@ == "j"@ || key@ == "J"@ {
            Some(GradingHotkey::PreviousStudent)
        } else if key@ == "l"@ || key@ == "L"@ {
            Some(GradingHotkey::NextStudent)
        } else {
            None
        },
{
    proof {
        reveal_strlit("f");
        reveal_strlit("F");
        reveal_strlit("j");
        reveal_strlit("J");
        reveal_strlit("l");
        reveal_strlit("L");
    }
    assert("f"@ =~= seq!['f'] && "F"@ =~= seq!['F']);
    assert("j"@ =~= seq!['j'] && "J"@ =~= seq!['J']);
    assert("l"@ =~= seq!['l'] && "L"@ =~= seq!['L']);
    let v = chars_of(key);
    if v.len() != 1 {
        return None;
    }
    let c = v[0];
    assert(key@ =~= seq![c]);
    if c == 'f' || c == 'F' {
        Some(GradingHotkey::OpenSearch)
    } else if c == 'j' || c == 'J' {
        Some(GradingHotkey::PreviousStudent)
    } else if c == 'l' || c == 'L' {
        Some(GradingHotkey::NextStudent)
    } else {
        None
    }
}

/// The heading of the score rows: the current student's id and name
/// separated by a space, or "No student" past the end of the roster.
pub fn student_label(config: &Config, idx: usize) -> (r: String)
    ensures
        r@ == if idx < config.students@.len() {
            config.students@[idx as int].id@ + " "@ + config.students@[idx as int].name@
        } else {
            "No student"@
        },
{
    if idx < config.students.len() {
        let mut s = config.students[idx].id.clone();
        s.append(" ");
        s.append(config.students[idx].name.as_str());
        s
    } else {
        "No student".to_owned()
    }
}

/// What the comment panel shows for the focused question: its comment and
/// its name, or an empty comment under "（問題未選択）" when no question is
/// focused or the id names none.
pub fn comment_panel_texts(config: &Config, focused: Option<u32>) -> (r: (String, String))
    ensures
        match focused {
            Some(id) => match find_question(config.questions@, id) {
                Some(q) => r.0@ == q.comment@ && r.1@ == q.name@,
                None => r.0@ == ""@ && r.1@ == "（問題未選択）"@,
            },
            None => r.0@ == ""@ && r.1@ == "（問題未選択）"@,
        },
{
    match focused {
        Some(id) => match find_question_index(&config.questions, id) {
            Some(i) => (config.questions[i].comment.clone(), config.questions[i].name.clone()),
            None => ("".to_owned(), "（問題未選択）".to_owned()),
        },
        None => ("".to_owned(), "（問題未選択）".to_owned()),
    }
}

impl Config {
    /// What editing the comment panel does: the first question with the
    /// focused id gets the new comment; without a focused question, or
    /// without such a question, nothing changes.
    pub fn set_question_comment(&mut self, focused: Option<u32>, comment: String)
        ensures
            match focused {
                Some(id) => match find_question(old(self).questions@, id) {
                    Some(q) => exists|i: int|
                        0 <= i < old(self).questions@.len() && old(self).questions@[i] == q
                            && final(self).questions@ == old(self).questions@.update(
                            i,
                            Question {
                                id: q.id,
                                name: q.name,
                                full_score: q.full_score,
                                weight_bits: q.weight_bits,
                                comment,
                            },
                        ) && (forall|j: int| 0 <= j < i ==> (#[trigger] old(self).questions@[j]).id != id),
                    None => final(self).questions == old(self).questions,
                },
                None => final(self).questions == old(self).questions,
            },
            final(self).save_path == old(self).save_path,
            final(self).students == old(self).students,
            final(self).scores == old(self).scores,
            final(self).ratings == old(self).ratings,
    {
        match focused {
            Some(id) => match find_question_index(&self.questions, id) {
                Some(i) => {
                    let q = Question {
                        id: self.questions[i].id,
                        name: self.questions[i].name.clone(),
                        full_score: self.questions[i].full_score,
                        weight_bits: self.questions[i].weight_bits,
                        comment,
                    };
                    self.questions.set(i, q);
                },
                None => {},
            },
            None => {},
        }
    }
}

} // verus!
