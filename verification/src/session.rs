//! Loading a saved session: what the picked file's text leads to, and how
//! the parsed session, or the parser's error, is taken in.

use vstd::prelude::*;

use crate::json_error::{describes_json_error, format_json_error};
use crate::models::Config;
use crate::text::{is_blank, trimmed};

verus! {

/// The message that stops a load before parsing, for the file's text as
/// decoded (`Err` holds the decoder's error text): a decoding error, or a
/// file that holds nothing but whitespace. `None` when the text goes on to
/// the parser.
pub open spec fn load_stop_message(decoded: Result<Seq<char>, Seq<char>>) -> Option<Seq<char>> {
    match decoded {
        Err(t) => Some("Invalid UTF-8: "@ + t),
        Ok(s) => if trimmed(s).len() == 0 {
            Some("Empty file."@)
        } else {
            None
        },
    }
}

/// A decoded text, or the decoder's error text, by their views.
pub open spec fn decoded_view(decoded: Result<String, String>) -> Result<Seq<char>, Seq<char>> {
    match decoded {
        Ok(s) => Ok(s@),
        Err(t) => Err(t@),
    }
}

/// The first checks on a picked session file: the message to show when
/// its bytes are not UTF-8 (`Err` holds the decoder's error text) or its
/// text is blank; `None` when the text is to be parsed.
pub fn screen_loaded_text(decoded: &Result<String, String>) -> (r: Option<String>)
    ensures
        match r {
            Some(m) => load_stop_message(decoded_view(*decoded)) == Some(m@),
            None => load_stop_message(decoded_view(*decoded)) is None,
        },
{
    match decoded {
        Err(t) => {
            let mut m = "Invalid UTF-8: ".to_owned();
            m.append(t.as_str());
            Some(m)
        },
        Ok(s) => {
            if is_blank(s.as_str()) {
                Some("Empty file.".to_owned())
            } else {
                None
            }
        },
    }
}

impl Config {
    /// Takes in the outcome of parsing `text`, the file at `path`: a parsed
    /// session replaces this one and remembers `path` ("Loaded."); a parse
    /// error leaves the session as it was and gives the error's message.
    pub fn finish_load(
        &mut self,
        text: &str,
        parsed: Result<Config, serde_json::Error>,
        path: String,
    ) -> (r: String)
        ensures
            match parsed {
                Ok(c) => {
                    &&& final(self).save_path == Some(path)
                    &&& final(self).questions == c.questions
                    &&& final(self).students == c.students
                    &&& final(self).scores == c.scores
                    &&& final(self).ratings == c.ratings
                    &&& r@ == "Loaded."@
                },
                Err(e) => {
                    &&& *final(self) == *old(self)
                    &&& describes_json_error(text@, e, r@)
                },
            },
    {
        match parsed {
            Ok(c) => {
                *self = c;
                self.set_save_path(path);
                "Loaded.".to_owned()
            },
            Err(e) => format_json_error(text, &e),
        }
    }
}

} // verus!
