use vstd::prelude::*;

verus! {

/// A piece of the input text, with its reading if one is known and, once
/// annotated, the Yale rendering of each syllable of that reading.
#[derive(Debug, Clone)]
pub struct Token {
    pub word: String,
    pub reading: Option<String>,
    pub yale: Option<Vec<String>>,
}

pub open spec fn opt_view(o: Option<String>) -> Option<Seq<char>> {
    match o {
        Some(s) => Some(s@),
        None => None,
    }
}

pub open spec fn opt_strings(o: Option<Vec<String>>) -> Option<Seq<Seq<char>>> {
    match o {
        Some(v) => Some(v@.map_values(|s: String| s@)),
        None => None,
    }
}

impl Token {
    /// The word, the reading and the Yale syllables of a token.
    pub open spec fn full(&self) -> (Seq<char>, Option<Seq<char>>, Option<Seq<Seq<char>>>) {
        (self.word@, opt_view(self.reading), opt_strings(self.yale))
    }

    /// The word and the reading of a token.
    pub open spec fn piece(&self) -> (Seq<char>, Option<Seq<char>>) {
        (self.word@, opt_view(self.reading))
    }
}

} // verus!
