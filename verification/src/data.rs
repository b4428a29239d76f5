//! Plain data carriers: the reference dictionary, the tokenized document,
//! and the spelling-error record the pipeline emits.
//!
//! Loading these from files, and tokenizing, is the caller's business; the
//! library only consumes already-validated in-memory word lists.

use vstd::prelude::*;
use vstd::string::StringExecFns;

verus! {

/// An ordered list of dictionary words. The order is significant upstream
/// (the first word becomes the tree root); duplicates are tolerated and
/// collapse during tree construction.
pub struct WordDict {
    frequency_data: Vec<String>,
}

impl View for WordDict {
    type V = Seq<Seq<char>>;

    closed spec fn view(&self) -> Seq<Seq<char>> {
        self.frequency_data@.map_values(|s: String| s@)
    }
}

impl WordDict {
    pub fn new(frequency_data: Vec<String>) -> (r: Self)
        ensures
            r@ == frequency_data@.map_values(|s: String| s@),
    {
        WordDict { frequency_data }
    }

    /// Whether `word` occurs in the dictionary, by plain linear search.
    pub fn word_in_data(&self, word: String) -> (r: bool)
        ensures
            r == self@.contains(word@),
    {
        let n = self.frequency_data.len();
        let mut i: usize = 0;
        while i < n
            invariant
                n == self.frequency_data@.len(),
                i <= n,
                self@ == self.frequency_data@.map_values(|s: String| s@),
                forall|k: int| 0 <= k < i ==> self@[k] != word@,
            decreases n - i,
        {
            if self.frequency_data[i].eq(&word) {
                proof {
                    assert(self@[i as int] == word@);
                }
                return true;
            }
            i += 1;
        }
        false
    }

    pub fn get_data(&self) -> (r: &Vec<String>)
        ensures
            r@.map_values(|s: String| s@) == self@,
    {
        &self.frequency_data
    }
}

/// A document as a sequence of lowercased, already-tokenized words.
pub struct Text {
    words: Vec<String>,
}

impl View for Text {
    type V = Seq<Seq<char>>;

    closed spec fn view(&self) -> Seq<Seq<char>> {
        self.words@.map_values(|s: String| s@)
    }
}

impl Text {
    pub fn new(words: Vec<String>) -> (r: Self)
        ensures
            r@ == words@.map_values(|s: String| s@),
    {
        Text { words }
    }

    pub fn get_text(&self) -> (r: &Vec<String>)
        ensures
            r@.map_values(|s: String| s@) == self@,
    {
        &self.words
    }
}

/// The error the tree and filter builders report on structurally invalid
/// input: a dictionary with no words at all.
#[derive(Debug, PartialEq, Eq, Structural)]
pub enum BuildError {
    EmptyDictionary,
}

/// One flagged word together with the proposed correction, if any. A `None`
/// suggestion means the tree was empty or nothing beat the initial search
/// bound, not that the word is correct.
pub struct SpellingError<'a> {
    original_word: &'a str,
    recommended_correction: Option<String>,
}

/// The canonical report line for a flagged word.
pub open spec fn line_view(w: Seq<char>, c: Option<Seq<char>>) -> Seq<char> {
    match c {
        Some(s) => "Incorrect Word: "@ + w + ", Suggested correction: "@ + s,
        None => "Found no correction for word: "@ + w,
    }
}

impl<'a> SpellingError<'a> {
    /// The flagged word, as a sequence of code points.
    pub closed spec fn word(&self) -> Seq<char> {
        self.original_word@
    }

    /// The proposed correction, as a sequence of code points.
    pub closed spec fn correction(&self) -> Option<Seq<char>> {
        match self.recommended_correction {
            Some(s) => Some(s@),
            None => None,
        }
    }

    pub fn new(original_word: &'a str, recommended_correction: Option<String>) -> (r: Self)
        ensures
            r.word() == original_word@,
            r.correction() == (match recommended_correction {
                Some(s) => Some(s@),
                None => None::<Seq<char>>,
            }),
    {
        SpellingError { original_word, recommended_correction }
    }

    /// Renders the record as its canonical human-readable line.
    pub fn to_line(&self) -> (r: String)
        ensures
            r@ == line_view(self.word(), self.correction()),
    {
        match &self.recommended_correction {
            Some(word) => {
                let mut s = String::from_str("Incorrect Word: ");
                s.append(self.original_word);
                s.append(", Suggested correction: ");
                s.append(word.as_str());
                proof {
                    assert(s@ =~= line_view(self.word(), self.correction()));
                }
                s
            },
            None => {
                let mut s = String::from_str("Found no correction for word: ");
                s.append(self.original_word);
                proof {
                    assert(s@ =~= line_view(self.word(), self.correction()));
                }
                s
            },
        }
    }
}

} // verus!
