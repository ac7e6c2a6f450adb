pub mod load;
pub mod segment;
pub mod text;
pub mod token;
pub mod trie;
pub mod utils;
pub mod yale;

use vstd::prelude::*;
use crate::segment::{Dict, segmentation};
use crate::token::{Token, opt_strings};
use crate::trie::Trie;
use crate::yale::{jyutping_to_yale, jyutping_to_yale_vec, reading_yale, reading_yale_syllables};

verus! {

/// The Yale syllables that annotation attaches to a reading.
pub open spec fn yale_of(reading: Option<Seq<char>>) -> Option<Seq<Seq<char>>> {
    match reading {
        Some(r) => reading_yale_syllables(r),
        None => None,
    }
}

/// The annotated tokens of `text`: its segmentation, with the Yale
/// syllables of each reading.
pub open spec fn annotation(m: Dict, text: Seq<char>) -> Seq<
    (Seq<char>, Option<Seq<char>>, Option<Seq<Seq<char>>>),
> {
    segmentation(m, text).map_values(
        |p: (Seq<char>, Option<Seq<char>>)| (p.0, p.1, yale_of(p.1)),
    )
}

/// Segments `text` against the dictionary and gives each token that has a
/// reading the diacritic Yale form of each of its syllables.
pub fn annotate(trie: &Trie, text: &str) -> (r: Vec<Token>)
    requires
        trie.wf(),
    ensures
        r@.len() == annotation(trie@, text@).len(),
        forall|k: int| 0 <= k < r@.len() ==> #[trigger] r@[k].full() == annotation(trie@, text@)[k],
{
    let tokens = trie.segment(text);
    let ghost seg = segmentation(trie@, text@);
    let mut out: Vec<Token> = Vec::new();
    let mut k: usize = 0;
    while k < tokens.len()
        invariant
            k <= tokens@.len(),
            tokens@.len() == seg.len(),
            seg == segmentation(trie@, text@),
            forall|q: int| 0 <= q < tokens@.len() ==> #[trigger] tokens@[q].piece() == seg[q],
            out@.len() == k,
            forall|q: int| 0 <= q < k ==> #[trigger] out@[q].full() == annotation(trie@, text@)[q],
        decreases tokens@.len() - k,
    {
        let t = &tokens[k];
        let yale = match &t.reading {
            Some(rd) => jyutping_to_yale_vec(rd.as_str()),
            None => None,
        };
        let reading = match &t.reading {
            Some(rd) => Some(rd.clone()),
            None => None,
        };
        let tok = Token { word: t.word.clone(), reading, yale };
        proof {
            assert(tokens@[k as int].piece() == seg[k as int]);
            assert(opt_strings(tok.yale) == yale_of(seg[k as int].1));
        }
        out.push(tok);
        k = k + 1;
    }
    out
}

/// Two annotations of the same text against the same dictionary agree token
/// for token: the result depends on the dictionary's contents and the text
/// alone.
pub proof fn lemma_annotate_repeatable(trie: &Trie, text: &str, first: Seq<Token>, second: Seq<Token>)
    requires
        first.len() == annotation(trie@, text@).len(),
        forall|k: int| 0 <= k < first.len() ==> #[trigger] first[k].full() == annotation(trie@, text@)[k],
        second.len() == annotation(trie@, text@).len(),
        forall|k: int| 0 <= k < second.len() ==> #[trigger] second[k].full() == annotation(trie@, text@)[k],
    ensures
        first.len() == second.len(),
        forall|k: int| 0 <= k < first.len() ==> #[trigger] first[k].full() == second[k].full(),
{
    assert forall|k: int| 0 <= k < first.len() implies #[trigger] first[k].full() == second[k].full() by {
        assert(first[k].full() == annotation(trie@, text@)[k]);
        assert(second[k].full() == annotation(trie@, text@)[k]);
    }
}

/// The Yale form of a Jyutping reading with tone digits; empty when no
/// syllable converts.
pub fn to_yale_numeric(jyutping: &str) -> (r: String)
    ensures
        r@ == match reading_yale(jyutping@, false) {
            Some(y) => y,
            None => Seq::empty(),
        },
{
    match jyutping_to_yale(jyutping, false) {
        Some(s) => s,
        None => String::new(),
    }
}

/// The Yale form of a Jyutping reading with diacritics; empty when no
/// syllable converts.
pub fn to_yale_diacritics(jyutping: &str) -> (r: String)
    ensures
        r@ == match reading_yale(jyutping@, true) {
            Some(y) => y,
            None => Seq::empty(),
        },
{
    match jyutping_to_yale(jyutping, true) {
        Some(s) => s,
        None => String::new(),
    }
}

} // verus!
