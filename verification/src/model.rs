//! The immutable WordPiece model and its segmentation engine.
//!
//! `spec_tokenize` is the exact segmentation policy: sentinel handling,
//! length guard, fast path, greedy trie-driven piece assembly, offset
//! correction and the all-or-nothing unknown-token fallback. `tokenize`
//! returns precisely what the policy says, for every input.

use crate::token::{Error, SpecToken, Token, WORD_START};
use crate::trie;
use crate::trie::Trie;
use crate::vocab::Vocab;
use vstd::prelude::*;
use vstd::string::StrSliceExecFns;
use vstd::string::StringExecFns;

verus! {

broadcast use vstd::std_specs::vec::group_vec_axioms;

/// Mathematical image of a model: the vocabulary map, the language of the
/// trie, the two convention strings and the length bound.
pub ghost struct ModelView {
    pub vocab: Map<Seq<char>, u32>,
    pub lang: Set<Seq<char>>,
    pub unk_token: Seq<char>,
    pub continuing_subword_prefix: Seq<char>,
    pub max_input_chars_per_word: nat,
}

/// The word with the word-start sentinel prepended.
pub open spec fn sentinel_word(word: Seq<char>) -> Seq<char> {
    seq![WORD_START] + word
}

/// The whole-word fallback: one unknown-token covering the word, or
/// `MissingUnkToken` when the vocabulary lacks the unknown-token.
pub open spec fn spec_fallback(m: ModelView, word_len: int) -> Result<Seq<SpecToken>, Error> {
    if m.vocab.contains_key(m.unk_token) {
        Ok(
            seq![
                SpecToken { value: m.unk_token, id: m.vocab[m.unk_token], offsets: (0, word_len) },
            ],
        )
    } else {
        Err(Error::MissingUnkToken)
    }
}

/// Start of a scanned interval with the sentinel position normalized
/// away: the sentinel occupies position 0 and is never part of a piece.
pub open spec fn spec_norm_start(start0: int) -> int {
    if start0 == 0 {
        1
    } else {
        start0
    }
}

/// Candidate piece text for the interval `[start0, stop)` of the sentinel
/// word: the covered characters, with the continuing-subword-prefix
/// re-applied to pieces that do not start the word.
pub open spec fn spec_piece(m: ModelView, word: Seq<char>, start0: int, stop: int) -> Seq<char> {
    let start = spec_norm_start(start0);
    let raw = sentinel_word(word).subrange(start, stop);
    if start > 1 {
        m.continuing_subword_prefix + raw
    } else {
        raw
    }
}

/// Piece assembly over the scanned intervals, from interval `k` with the
/// scan cursor at `cursor` and the pieces emitted so far in `acc`: a gap
/// before the next interval, a candidate piece missing from the
/// vocabulary, or a trailing unmatched remainder each abort into the
/// whole-word fallback.
pub open spec fn spec_assemble(
    m: ModelView,
    word: Seq<char>,
    ivs: Seq<(int, int)>,
    k: int,
    cursor: int,
    acc: Seq<SpecToken>,
) -> Result<Seq<SpecToken>, Error>
    decreases ivs.len() - k,
{
    if k < 0 || k >= ivs.len() {
        if cursor != word.len() + 1 {
            spec_fallback(m, word.len() as int)
        } else {
            Ok(acc)
        }
    } else if cursor < ivs[k].0 {
        spec_fallback(m, word.len() as int)
    } else {
        let start = spec_norm_start(ivs[k].0);
        let stop = ivs[k].1;
        let piece = spec_piece(m, word, ivs[k].0, stop);
        if m.vocab.contains_key(piece) {
            spec_assemble(
                m,
                word,
                ivs,
                k + 1,
                stop,
                acc.push(
                    SpecToken { value: piece, id: m.vocab[piece], offsets: (start - 1, stop - 1) },
                ),
            )
        } else {
            spec_fallback(m, word.len() as int)
        }
    }
}

/// The exact tokenize policy: length guard, fast path for words that are
/// themselves vocabulary entries, then greedy piece assembly.
pub open spec fn spec_tokenize(m: ModelView, word: Seq<char>) -> Result<Seq<SpecToken>, Error> {
    if word.len() + 1 > m.max_input_chars_per_word + 1 {
        spec_fallback(m, word.len() as int)
    } else if m.vocab.contains_key(word) {
        Ok(seq![SpecToken { value: word, id: m.vocab[word], offsets: (0, word.len() as int) }])
    } else {
        spec_assemble(
            m,
            word,
            trie::greedy_from(m.lang, sentinel_word(word), 0),
            0,
            0,
            Seq::empty(),
        )
    }
}

/// Image of an exec tokenize result.
pub open spec fn result_view(r: Result<Vec<Token>, Error>) -> Result<Seq<SpecToken>, Error> {
    match r {
        Ok(v) => Ok(v@.map_values(|t: Token| t@)),
        Err(e) => Err(e),
    }
}

/// Immutable aggregate of vocabulary, trie, unknown-token,
/// continuing-subword-prefix and the per-word length bound.
#[derive(Debug)]
pub struct WordPiece {
    vocab: Vocab,
    trie: Trie,
    unk_token: String,
    continuing_subword_prefix: String,
    max_input_chars_per_word: usize,
}

impl View for WordPiece {
    type V = ModelView;

    closed spec fn view(&self) -> ModelView {
        ModelView {
            vocab: self.vocab@,
            lang: self.trie.lang(),
            unk_token: self.unk_token@,
            continuing_subword_prefix: self.continuing_subword_prefix@,
            max_input_chars_per_word: self.max_input_chars_per_word as nat,
        }
    }
}

impl Default for WordPiece {
    /// The default model: an empty vocabulary and trie, the
    /// unknown-token `[UNK]`, the prefix `##` and a bound of 100
    /// characters per word.
    fn default() -> (r: Self)
        ensures
            r.wf(),
            r@.vocab == Map::<Seq<char>, u32>::empty(),
            r@.lang =~= Set::<Seq<char>>::empty(),
            r@.unk_token == "[UNK]"@,
            r@.continuing_subword_prefix == "##"@,
            r@.max_input_chars_per_word == 100,
    {
        let vocab = Vocab::new();
        let trie = Trie::new();
        proof {
            assert(trie.lang() =~= Set::<Seq<char>>::empty());
        }
        WordPiece {
            vocab,
            trie,
            unk_token: String::from_str("[UNK]"),
            continuing_subword_prefix: String::from_str("##"),
            max_input_chars_per_word: 100,
        }
    }
}

impl PartialEq for WordPiece {
    /// Two models are equal when their vocabularies denote the same
    /// mapping and their conventions agree; the trie is derived from the
    /// vocabulary and is not compared.
    fn eq(&self, other: &Self) -> (r: bool) {
        self.vocab.same_mapping(&other.vocab) && self.unk_token == other.unk_token
            && self.continuing_subword_prefix == other.continuing_subword_prefix
            && self.max_input_chars_per_word == other.max_input_chars_per_word
    }
}

impl vstd::std_specs::cmp::PartialEqSpecImpl for WordPiece {
    open spec fn obeys_eq_spec() -> bool {
        true
    }

    open spec fn eq_spec(&self, other: &Self) -> bool {
        self@.vocab =~= other@.vocab && self@.unk_token == other@.unk_token
            && self@.continuing_subword_prefix == other@.continuing_subword_prefix
            && self@.max_input_chars_per_word == other@.max_input_chars_per_word
    }
}

impl WordPiece {
    pub closed spec fn wf(&self) -> bool {
        self.vocab.wf() && self.trie.wf()
    }

    /// Assembles a model from its parts.
    pub(crate) fn from_parts(
        vocab: Vocab,
        trie: Trie,
        unk_token: String,
        continuing_subword_prefix: String,
        max_input_chars_per_word: usize,
    ) -> (r: WordPiece)
        requires
            vocab.wf(),
            trie.wf(),
        ensures
            r.wf(),
            r@.vocab == vocab@,
            r@.lang == trie.lang(),
            r@.unk_token == unk_token@,
            r@.continuing_subword_prefix == continuing_subword_prefix@,
            r@.max_input_chars_per_word == max_input_chars_per_word as nat,
    {
        WordPiece { vocab, trie, unk_token, continuing_subword_prefix, max_input_chars_per_word }
    }

    /// The unknown-token string.
    pub fn unk_token(&self) -> (r: &String)
        ensures
            r@ == self@.unk_token,
    {
        &self.unk_token
    }

    /// The continuing-subword-prefix string.
    pub fn continuing_subword_prefix(&self) -> (r: &String)
        ensures
            r@ == self@.continuing_subword_prefix,
    {
        &self.continuing_subword_prefix
    }

    /// The per-word character-count bound.
    pub fn max_input_chars_per_word(&self) -> (r: usize)
        ensures
            r as nat == self@.max_input_chars_per_word,
    {
        self.max_input_chars_per_word
    }

    /// A copy of the vocabulary mapping.
    pub fn get_vocab(&self) -> (r: Vocab)
        requires
            self.wf(),
        ensures
            r.wf(),
            r@ == self@.vocab,
    {
        self.vocab.duplicate()
    }

    /// Shared read-only access to the vocabulary mapping.
    pub fn vocabulary(&self) -> (r: &Vocab)
        ensures
            r@ == self@.vocab,
            self.wf() ==> r.wf(),
    {
        &self.vocab
    }

    /// Number of vocabulary entries.
    pub fn get_vocab_size(&self) -> (r: usize)
        requires
            self.wf(),
        ensures
            r == self@.vocab.dom().len(),
    {
        self.vocab.len()
    }

    /// The id of a token text, when the text is in the vocabulary.
    pub fn token_to_id(&self, token: &str) -> (r: Option<u32>)
        requires
            self.wf(),
        ensures
            match r {
                Some(id) => self@.vocab.contains_key(token@) && self@.vocab[token@] == id,
                None => !self@.vocab.contains_key(token@),
            },
    {
        self.vocab.get(token)
    }

    /// A token text carrying the id, when some entry has it. With
    /// duplicate ids the earliest entry wins.
    pub fn id_to_token(&self, id: u32) -> (r: Option<String>)
        requires
            self.wf(),
        ensures
            match r {
                Some(t) => self@.vocab.contains_key(t@) && self@.vocab[t@] == id,
                None => forall|k: Seq<char>|
                    #[trigger] self@.vocab.contains_key(k) ==> self@.vocab[k] != id,
            },
    {
        let n = self.vocab.num_entries();
        let mut i: usize = 0;
        while i < n
            invariant
                self.wf(),
                n == self.vocab.seq_view().len(),
                i <= n,
                forall|m: int| 0 <= m < i ==> (#[trigger] self.vocab.seq_view()[m]).1 != id,
            decreases n - i,
        {
            if self.vocab.entry_id(i) == id {
                let t = self.vocab.entry_token(i).clone();
                proof {
                    self.vocab.lemma_entry_in_view(i as int);
                }
                return Some(t);
            }
            i += 1;
        }
        proof {
            assert forall|k: Seq<char>| #[trigger] self@.vocab.contains_key(k) implies self@.vocab[k]
                != id by {
                self.vocab.lemma_view_covered(k);
                let j = choose|j: int|
                    0 <= j < self.vocab.seq_view().len() && (#[trigger] self.vocab.seq_view()[j]).0
                        == k && self.vocab.seq_view()[j].1 == self@.vocab[k];
            }
        }
        None
    }

    /// The sentinel-prefixed character sequence of a word.
    fn sentinel_chars(sequence: &str) -> (r: Vec<char>)
        ensures
            r@ == sentinel_word(sequence@),
    {
        let n = sequence.unicode_len();
        let mut chars: Vec<char> = Vec::new();
        chars.push(WORD_START);
        let mut i: usize = 0;
        while i < n
            invariant
                n == sequence@.len(),
                i <= n,
                chars@ == seq![WORD_START] + sequence@.take(i as int),
            decreases n - i,
        {
            let c = sequence.get_char(i);
            chars.push(c);
            proof {
                assert(chars@ =~= seq![WORD_START] + sequence@.take(i + 1));
            }
            i += 1;
        }
        proof {
            assert(sequence@.take(n as int) =~= sequence@);
        }
        chars
    }

    /// The whole-word fallback result for a word of `word_char_len`
    /// characters.
    fn fallback_result(&self, word_char_len: usize) -> (r: Result<Vec<Token>, Error>)
        requires
            self.wf(),
        ensures
            result_view(r) == spec_fallback(self@, word_char_len as int),
    {
        match self.vocab.get(self.unk_token.as_str()) {
            Some(id) => {
                let t = Token { id, value: self.unk_token.clone(), offsets: (0, word_char_len) };
                let mut v: Vec<Token> = Vec::new();
                v.push(t);
                proof {
                    assert(v@.map_values(|t: Token| t@) =~~= seq![
                        SpecToken {
                            value: self@.unk_token,
                            id: self@.vocab[self@.unk_token],
                            offsets: (0, word_char_len as int),
                        },
                    ]);
                }
                Ok(v)
            }
            None => Err(Error::MissingUnkToken),
        }
    }

    /// Segments a word into the greedy longest-match-first sequence of
    /// vocabulary pieces, exactly as `spec_tokenize` says.
    #[verifier::rlimit(60)]
    pub fn tokenize(&self, sequence: &str) -> (r: Result<Vec<Token>, Error>)
        requires
            self.wf(),
        ensures
            result_view(r) == spec_tokenize(self@, sequence@),
    {
        let ghost m = self@;
        let ghost word = sequence@;
        let chars = Self::sentinel_chars(sequence);
        let n = chars.len() - 1;

        if n > self.max_input_chars_per_word {
            return self.fallback_result(n);
        }
        match self.vocab.get(sequence) {
            Some(id) => {
                let t = Token { id, value: sequence.to_owned(), offsets: (0, n) };
                let mut v: Vec<Token> = Vec::new();
                v.push(t);
                proof {
                    assert(v@.map_values(|t: Token| t@) =~~= seq![
                        SpecToken { value: word, id: m.vocab[word], offsets: (0, word.len() as int) },
                    ]);
                }
                return Ok(v);
            }
            None => {}
        }
        let ghost lang = m.lang;
        let ghost s = sentinel_word(word);
        let intervals = self.trie.scan(&chars);
        let ghost g = trie::greedy_from(lang, s, 0);
        let mut cursor: usize = 0;
        let mut sub_tokens: Vec<Token> = Vec::new();
        let mut k: usize = 0;
        proof {
            assert(sub_tokens@.map_values(|t: Token| t@) =~= Seq::<SpecToken>::empty());
        }
        while k < intervals.len()
            invariant
                self.wf(),
                m == self@,
                word == sequence@,
                s == sentinel_word(word),
                s.len() == word.len() + 1,
                n as int == word.len(),
                chars@ == s,
                word.len() + 1 <= m.max_input_chars_per_word + 1,
                !m.vocab.contains_key(word),
                lang == m.lang,
                g == trie::greedy_from(lang, s, 0),
                intervals@.len() == g.len(),
                forall|i: int|
                    0 <= i < g.len() ==> (#[trigger] intervals@[i]).0 as int == g[i].0
                        && intervals@[i].1 as int == g[i].1,
                k <= g.len(),
                if k == 0 {
                    cursor == 0
                } else {
                    cursor as int == g[k - 1].1
                },
                cursor <= s.len(),
                spec_assemble(m, word, g, 0, 0, Seq::empty()) == spec_assemble(
                    m,
                    word,
                    g,
                    k as int,
                    cursor as int,
                    sub_tokens@.map_values(|t: Token| t@),
                ),
            decreases g.len() - k,
        {
            proof {
                trie::lemma_greedy_from_wf(lang, s, 0);
            }
            let pair = intervals[k];
            let start0 = pair.0;
            let stop = pair.1;
            proof {
                assert(start0 as int == g[k as int].0 && stop as int == g[k as int].1);
                assert(g[k as int].0 < g[k as int].1 <= s.len());
                if k > 0 {
                    assert(g[k as int - 1].1 == g[k as int].0);
                } else {
                    assert(g[0].0 == 0);
                }
                assert(cursor == start0);
            }
            let ghost acc0 = sub_tokens@.map_values(|t: Token| t@);
            if cursor < start0 {
                return self.fallback_result(n);
            }
            let start = if start0 == 0 {
                1
            } else {
                start0
            };
            let raw = sequence.substring_char(start - 1, stop - 1);
            let piece: String = if start > 1 {
                self.continuing_subword_prefix.clone().concat(raw)
            } else {
                raw.to_owned()
            };
            proof {
                assert(sentinel_word(word).subrange(start as int, stop as int) =~= word.subrange(
                    start - 1,
                    stop - 1,
                ));
                assert(piece@ == spec_piece(m, word, start0 as int, stop as int));
            }
            match self.vocab.get(piece.as_str()) {
                Some(id) => {
                    let t = Token { id, value: piece, offsets: (start - 1, stop - 1) };
                    sub_tokens.push(t);
                    proof {
                        assert(sub_tokens@.map_values(|t: Token| t@) =~~= acc0.push(
                            SpecToken {
                                value: spec_piece(m, word, start0 as int, stop as int),
                                id: m.vocab[spec_piece(m, word, start0 as int, stop as int)],
                                offsets: (start as int - 1, stop as int - 1),
                            },
                        ));
                    }
                    cursor = stop;
                    k += 1;
                }
                None => {
                    proof {
                        assert(spec_assemble(m, word, g, k as int, cursor as int, acc0)
                            == spec_fallback(m, word.len() as int));
                        assert(spec_tokenize(m, word) == spec_fallback(m, word.len() as int));
                    }
                    return self.fallback_result(n);
                }
            }
        }
        if cursor != chars.len() {
            self.fallback_result(n)
        } else {
            proof {
                assert(spec_assemble(m, word, g, k as int, cursor as int, sub_tokens@.map_values(|t: Token| t@))
                    == Ok::<Seq<SpecToken>, Error>(sub_tokens@.map_values(|t: Token| t@)));
            }
            Ok(sub_tokens)
        }
    }
}

} // verus!
