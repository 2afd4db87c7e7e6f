//! Output unit of the segmentation engine, and the single model error.

use vstd::prelude::*;

verus! {

/// Reserved symbol marking the start of a word inside the trie and the
/// scan. It never appears in an emitted token and its coordinate shift is
/// subtracted out before offsets are reported.
pub const WORD_START: char = '\u{2581}';

/// The single configuration-integrity error: the algorithm needed the
/// unknown-token (to emit a fallback or to look up its id) and that token
/// is absent from the vocabulary.
#[derive(Debug, Clone, Copy, PartialEq, Eq, Structural)]
pub enum Error {
    MissingUnkToken,
}

impl Error {
    /// A human-readable description of the error.
    pub fn message(&self) -> (r: String)
        ensures
            r@ == "WordPiece error: Missing [UNK] token from the vocabulary"@,
    {
        String::from_str("WordPiece error: Missing [UNK] token from the vocabulary")
    }
}

/// Mathematical image of a `Token`: the piece text as a character
/// sequence, the vocabulary id, and the half-open character-offset
/// interval into the original word.
#[verifier::ext_equal]
pub ghost struct SpecToken {
    pub value: Seq<char>,
    pub id: u32,
    pub offsets: (int, int),
}

/// One piece of a segmented word: its text, its vocabulary id, and the
/// half-open character-offset interval it covers in the original word.
#[derive(Debug)]
pub struct Token {
    pub id: u32,
    pub value: String,
    pub offsets: (usize, usize),
}

impl View for Token {
    type V = SpecToken;

    open spec fn view(&self) -> SpecToken {
        SpecToken { value: self.value@, id: self.id, offsets: (self.offsets.0 as int, self.offsets.1 as int) }
    }
}

impl PartialEq for Token {
    fn eq(&self, other: &Self) -> (r: bool) {
        self.id == other.id && self.value == other.value && self.offsets.0 == other.offsets.0
            && self.offsets.1 == other.offsets.1
    }
}

impl vstd::std_specs::cmp::PartialEqSpecImpl for Token {
    open spec fn obeys_eq_spec() -> bool {
        true
    }

    open spec fn eq_spec(&self, other: &Self) -> bool {
        self.id == other.id && self.value@ == other.value@ && self.offsets == other.offsets
    }
}

} // verus!
