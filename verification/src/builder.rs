//! Configuration and construction of WordPiece models.
//!
//! The builder holds a transient configuration; `build` compiles the
//! vocabulary into the prefix trie and assembles the immutable model.
//! Reading a configured vocabulary file is I/O and is left to the
//! embedding program, which hands the parsed vocabulary in through
//! `vocab`.

use crate::model::WordPiece;
use crate::token::{Error, WORD_START};
use crate::trie::Trie;
use crate::vocab::Vocab;
use vstd::prelude::*;
use vstd::string::StrSliceExecFns;
use vstd::string::StringExecFns;

verus! {

broadcast use vstd::std_specs::vec::group_vec_axioms;

/// The form under which a vocabulary key is inserted into the trie: a key
/// that textually begins with the continuing-subword-prefix is stripped
/// of it; every other key gets the word-start sentinel prepended.
pub open spec fn spec_insert_form(k: Seq<char>, prefix: Seq<char>) -> Seq<char> {
    if k.len() >= prefix.len() && k.subrange(0, prefix.len() as int) == prefix {
        k.skip(prefix.len() as int)
    } else {
        seq![WORD_START] + k
    }
}

/// The trie language a vocabulary compiles to: the insert forms of all
/// its keys.
pub open spec fn spec_trie_lang(vocab: Map<Seq<char>, u32>, prefix: Seq<char>) -> Set<Seq<char>> {
    Set::new(
        |s: Seq<char>|
            exists|k: Seq<char>| #[trigger]
                vocab.contains_key(k) && s == spec_insert_form(k, prefix),
    )
}

/// Insert forms of the first `upto` entries of an entry sequence.
pub open spec fn lang_of_entries(
    entries: Seq<(Seq<char>, u32)>,
    prefix: Seq<char>,
    upto: int,
) -> Set<Seq<char>> {
    Set::new(
        |s: Seq<char>|
            exists|j: int|
                0 <= j < upto && s == spec_insert_form((#[trigger] entries[j]).0, prefix),
    )
}

/// Whether `key` textually begins with `prefix`.
fn starts_with(key: &String, prefix: &String) -> (r: bool)
    ensures
        r == (key@.len() >= prefix@.len() && key@.subrange(0, prefix@.len() as int) == prefix@),
{
    let klen = key.as_str().unicode_len();
    let plen = prefix.as_str().unicode_len();
    if klen < plen {
        return false;
    }
    let mut i: usize = 0;
    while i < plen
        invariant
            plen == prefix@.len(),
            klen == key@.len(),
            plen <= klen,
            i <= plen,
            forall|j: int| 0 <= j < i ==> key@[j] == prefix@[j],
        decreases plen - i,
    {
        if key.as_str().get_char(i) != prefix.as_str().get_char(i) {
            proof {
                if key@.subrange(0, plen as int) == prefix@ {
                    assert(key@.subrange(0, plen as int)[i as int] == key@[i as int]);
                }
            }
            return false;
        }
        i += 1;
    }
    proof {
        assert(key@.subrange(0, plen as int) =~= prefix@);
    }
    true
}

/// The character sequence under which `key` goes into the trie.
fn insert_form_chars(key: &String, prefix: &String) -> (r: Vec<char>)
    ensures
        r@ == spec_insert_form(key@, prefix@),
{
    let klen = key.as_str().unicode_len();
    let plen = prefix.as_str().unicode_len();
    let mut chars: Vec<char> = Vec::new();
    if starts_with(key, prefix) {
        let mut i: usize = plen;
        while i < klen
            invariant
                klen == key@.len(),
                plen <= i <= klen,
                chars@ == key@.subrange(plen as int, i as int),
            decreases klen - i,
        {
            chars.push(key.as_str().get_char(i));
            proof {
                assert(chars@ =~= key@.subrange(plen as int, i + 1));
            }
            i += 1;
        }
        proof {
            assert(chars@ =~= key@.skip(plen as int));
        }
    } else {
        chars.push(WORD_START);
        let mut i: usize = 0;
        while i < klen
            invariant
                klen == key@.len(),
                i <= klen,
                chars@ == seq![WORD_START] + key@.take(i as int),
            decreases klen - i,
        {
            chars.push(key.as_str().get_char(i));
            proof {
                assert(chars@ =~= seq![WORD_START] + key@.take(i + 1));
            }
            i += 1;
        }
        proof {
            assert(key@.take(klen as int) =~= key@);
        }
    }
    chars
}

/// Compiles a vocabulary into a prefix trie under the insert-form rule.
fn trie_for(vocab: &Vocab, prefix: &String) -> (r: Trie)
    requires
        vocab.wf(),
    ensures
        r.wf(),
        r.lang() =~= spec_trie_lang(vocab@, prefix@),
{
    let mut t = Trie::new();
    let n = vocab.num_entries();
    let mut i: usize = 0;
    proof {
        assert(t.lang() =~= lang_of_entries(vocab.seq_view(), prefix@, 0));
    }
    while i < n
        invariant
            vocab.wf(),
            n == vocab.seq_view().len(),
            i <= n,
            t.wf(),
            t.lang() =~= lang_of_entries(vocab.seq_view(), prefix@, i as int),
        decreases n - i,
    {
        let ghost entries = vocab.seq_view();
        let ghost before = t.lang();
        let key = vocab.entry_token(i);
        let chars = insert_form_chars(key, prefix);
        t.push(&chars);
        proof {
            let ii = i as int;
            assert forall|s: Seq<char>| #[trigger] t.lang().contains(s) implies lang_of_entries(
                entries,
                prefix@,
                ii + 1,
            ).contains(s) by {
                if before.contains(s) {
                    let j = choose|j: int|
                        0 <= j < ii && s == spec_insert_form((#[trigger] entries[j]).0, prefix@);
                    assert(s == spec_insert_form(entries[j].0, prefix@));
                } else {
                    assert(s == spec_insert_form(entries[ii].0, prefix@));
                }
            }
            assert forall|s: Seq<char>| #[trigger]
                lang_of_entries(entries, prefix@, ii + 1).contains(s) implies t.lang().contains(
                s,
            ) by {
                let j = choose|j: int|
                    0 <= j < ii + 1 && s == spec_insert_form((#[trigger] entries[j]).0, prefix@);
                if j < ii {
                    assert(before.contains(s));
                }
            }
            assert(t.lang() =~= lang_of_entries(entries, prefix@, ii + 1));
        }
        i += 1;
    }
    proof {
        assert forall|s: Seq<char>| #[trigger] t.lang().contains(s) implies spec_trie_lang(
            vocab@,
            prefix@,
        ).contains(s) by {
            let j = choose|j: int|
                0 <= j < vocab.seq_view().len() && s == spec_insert_form(
                    (#[trigger] vocab.seq_view()[j]).0,
                    prefix@,
                );
            vocab.lemma_entry_in_view(j);
            assert(vocab@.contains_key(vocab.seq_view()[j].0));
        }
        assert forall|s: Seq<char>| #[trigger]
            spec_trie_lang(vocab@, prefix@).contains(s) implies t.lang().contains(s) by {
            let k = choose|k: Seq<char>| #[trigger]
                vocab@.contains_key(k) && s == spec_insert_form(k, prefix@);
            vocab.lemma_view_covered(k);
            let j = choose|j: int|
                0 <= j < vocab.seq_view().len() && (#[trigger] vocab.seq_view()[j]).0 == k
                    && vocab.seq_view()[j].1 == vocab@[k];
            assert(s == spec_insert_form(vocab.seq_view()[j].0, prefix@));
        }
        assert(t.lang() =~= spec_trie_lang(vocab@, prefix@));
    }
    t
}

/// Transient configuration of a model under construction.
struct Config {
    files: Option<String>,
    vocab: Vocab,
    unk_token: String,
    continuing_subword_prefix: String,
    max_input_chars_per_word: usize,
}

/// Mathematical image of a builder configuration.
pub ghost struct BuilderView {
    pub files: Option<Seq<char>>,
    pub vocab: Map<Seq<char>, u32>,
    pub unk_token: Seq<char>,
    pub continuing_subword_prefix: Seq<char>,
    pub max_input_chars_per_word: nat,
}

/// A `WordPieceBuilder` gathers a configuration and assembles a
/// `WordPiece` model from it.
pub struct WordPieceBuilder {
    config: Config,
}

impl View for WordPieceBuilder {
    type V = BuilderView;

    closed spec fn view(&self) -> BuilderView {
        BuilderView {
            files: match self.config.files {
                Some(f) => Some(f@),
                None => None,
            },
            vocab: self.config.vocab@,
            unk_token: self.config.unk_token@,
            continuing_subword_prefix: self.config.continuing_subword_prefix@,
            max_input_chars_per_word: self.config.max_input_chars_per_word as nat,
        }
    }
}

impl Default for WordPieceBuilder {
    /// The default configuration: no file, an empty vocabulary, the
    /// unknown-token `[UNK]`, the prefix `##` and a bound of 100
    /// characters per word.
    fn default() -> (r: Self)
        ensures
            r.wf(),
            r@.files is None,
            r@.vocab == Map::<Seq<char>, u32>::empty(),
            r@.unk_token == "[UNK]"@,
            r@.continuing_subword_prefix == "##"@,
            r@.max_input_chars_per_word == 100,
    {
        let r = WordPieceBuilder {
            config: Config {
                files: None,
                vocab: Vocab::new(),
                unk_token: String::from_str("[UNK]"),
                continuing_subword_prefix: String::from_str("##"),
                max_input_chars_per_word: 100,
            },
        };
        r
    }
}

impl WordPieceBuilder {
    /// The vocabulary keys are pairwise distinct.
    pub closed spec fn wf(&self) -> bool {
        self.config.vocab.wf()
    }

    /// Constructs a new `WordPieceBuilder` with the default
    /// configuration.
    pub fn new() -> (r: Self)
        ensures
            r.wf(),
            r@.files is None,
            r@.vocab == Map::<Seq<char>, u32>::empty(),
            r@.unk_token == "[UNK]"@,
            r@.continuing_subword_prefix == "##"@,
            r@.max_input_chars_per_word == 100,
    {
        Self::default()
    }

    /// Sets the vocabulary file path.
    pub fn files(self, vocab: String) -> (r: Self)
        ensures
            r@.files == Some(vocab@),
            r@.vocab == self@.vocab,
            r@.unk_token == self@.unk_token,
            r@.continuing_subword_prefix == self@.continuing_subword_prefix,
            r@.max_input_chars_per_word == self@.max_input_chars_per_word,
            r.wf() <==> self.wf(),
    {
        let mut c = self.config;
        c.files = Some(vocab);
        WordPieceBuilder { config: c }
    }

    /// Sets the vocabulary (token -> id) mapping.
    pub fn vocab(self, vocab: Vocab) -> (r: Self)
        ensures
            r@.files == self@.files,
            r@.vocab == vocab@,
            r@.unk_token == self@.unk_token,
            r@.continuing_subword_prefix == self@.continuing_subword_prefix,
            r@.max_input_chars_per_word == self@.max_input_chars_per_word,
            r.wf() <==> vocab.wf(),
    {
        let mut c = self.config;
        c.vocab = vocab;
        WordPieceBuilder { config: c }
    }

    /// Sets the unknown-token for the vocabulary.
    pub fn unk_token(self, unk_token: String) -> (r: Self)
        ensures
            r@.files == self@.files,
            r@.vocab == self@.vocab,
            r@.unk_token == unk_token@,
            r@.continuing_subword_prefix == self@.continuing_subword_prefix,
            r@.max_input_chars_per_word == self@.max_input_chars_per_word,
            r.wf() <==> self.wf(),
    {
        let mut c = self.config;
        c.unk_token = unk_token;
        WordPieceBuilder { config: c }
    }

    /// Sets the prefix for continuing subwords.
    pub fn continuing_subword_prefix(self, continuing_subword_prefix: String) -> (r: Self)
        ensures
            r@.files == self@.files,
            r@.vocab == self@.vocab,
            r@.unk_token == self@.unk_token,
            r@.continuing_subword_prefix == continuing_subword_prefix@,
            r@.max_input_chars_per_word == self@.max_input_chars_per_word,
            r.wf() <==> self.wf(),
    {
        let mut c = self.config;
        c.continuing_subword_prefix = continuing_subword_prefix;
        WordPieceBuilder { config: c }
    }

    /// Sets the maximum number of input characters per word.
    pub fn max_input_chars_per_word(self, max_input_chars_per_word: usize) -> (r: Self)
        ensures
            r@.files == self@.files,
            r@.vocab == self@.vocab,
            r@.unk_token == self@.unk_token,
            r@.continuing_subword_prefix == self@.continuing_subword_prefix,
            r@.max_input_chars_per_word == max_input_chars_per_word as nat,
            r.wf() <==> self.wf(),
    {
        let mut c = self.config;
        c.max_input_chars_per_word = max_input_chars_per_word;
        WordPieceBuilder { config: c }
    }

    /// The configured vocabulary file path, for the embedding program to
    /// read before it supplies the parsed vocabulary through `vocab`.
    pub fn configured_files(&self) -> (r: &Option<String>)
        ensures
            match r {
                Some(f) => self@.files == Some(f@),
                None => self@.files is None,
            },
    {
        &self.config.files
    }

    /// Assembles the model from the in-memory vocabulary.
    pub(crate) fn build_model(self) -> (r: WordPiece)
        requires
            self.wf(),
        ensures
            r.wf(),
            r@.vocab == self@.vocab,
            r@.lang =~= spec_trie_lang(self@.vocab, self@.continuing_subword_prefix),
            r@.unk_token == self@.unk_token,
            r@.continuing_subword_prefix == self@.continuing_subword_prefix,
            r@.max_input_chars_per_word == self@.max_input_chars_per_word,
    {
        let trie = trie_for(&self.config.vocab, &self.config.continuing_subword_prefix);
        WordPiece::from_parts(
            self.config.vocab,
            trie,
            self.config.unk_token,
            self.config.continuing_subword_prefix,
            self.config.max_input_chars_per_word,
        )
    }

    /// Constructs a `WordPiece` model from the builder's configuration:
    /// the reverse mapping is derived and every vocabulary key is
    /// inserted into the trie under the prefix/sentinel rule. The
    /// in-memory vocabulary is used; a configured file path is read by
    /// the embedding program beforehand (see `configured_files`).
    pub fn build(self) -> (r: Result<WordPiece, Error>)
        requires
            self.wf(),
        ensures
            r matches Ok(model) && model.wf() && model@.vocab == self@.vocab && model@.lang
                =~= spec_trie_lang(self@.vocab, self@.continuing_subword_prefix)
                && model@.unk_token == self@.unk_token && model@.continuing_subword_prefix
                == self@.continuing_subword_prefix && model@.max_input_chars_per_word
                == self@.max_input_chars_per_word,
    {
        Ok(self.build_model())
    }
}

impl WordPiece {
    /// A `WordPieceBuilder` with the default configuration.
    pub fn builder() -> (r: WordPieceBuilder)
        ensures
            r.wf(),
            r@.files is None,
            r@.vocab == Map::<Seq<char>, u32>::empty(),
            r@.unk_token == "[UNK]"@,
            r@.continuing_subword_prefix == "##"@,
            r@.max_input_chars_per_word == 100,
    {
        WordPieceBuilder::new()
    }

    /// A builder configured to read its vocabulary from a file path.
    pub fn from_file(vocab: &str) -> (r: WordPieceBuilder)
        ensures
            r.wf(),
            r@.files == Some(vocab@),
            r@.vocab == Map::<Seq<char>, u32>::empty(),
            r@.unk_token == "[UNK]"@,
            r@.continuing_subword_prefix == "##"@,
            r@.max_input_chars_per_word == 100,
    {
        WordPiece::builder().files(vocab.to_owned())
    }

    /// Derives a model from what an alternative subword model exposes:
    /// its vocabulary verbatim, and, where it exposes an unknown-token or
    /// a continuing-subword-prefix, those values in place of the
    /// defaults. The trie is compiled under the prefix the derived model
    /// actually uses, so its language agrees with the model's own
    /// reconstruction rule.
    pub fn from_bpe(
        vocab: Vocab,
        unk_token: Option<String>,
        continuing_subword_prefix: Option<String>,
    ) -> (r: WordPiece)
        requires
            vocab.wf(),
        ensures
            r.wf(),
            r@.vocab == vocab@,
            r@.unk_token == (match unk_token {
                Some(u) => u@,
                None => "[UNK]"@,
            }),
            r@.continuing_subword_prefix == (match continuing_subword_prefix {
                Some(p) => p@,
                None => "##"@,
            }),
            r@.lang =~= spec_trie_lang(
                vocab@,
                (match continuing_subword_prefix {
                    Some(p) => p@,
                    None => "##"@,
                }),
            ),
            r@.max_input_chars_per_word == 100,
    {
        let unk = match unk_token {
            Some(u) => u,
            None => String::from_str("[UNK]"),
        };
        let prefix = match continuing_subword_prefix {
            Some(p) => p,
            None => String::from_str("##"),
        };
        let trie = trie_for(&vocab, &prefix);
        WordPiece::from_parts(vocab, trie, unk, prefix, 100)
    }
}

} // verus!
