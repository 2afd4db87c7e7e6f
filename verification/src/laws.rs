//! Laws of the segmentation engine and the persistence format, each
//! proved from the specifications the public contracts use.

use crate::model::{
    sentinel_word, spec_assemble, spec_fallback, spec_piece, spec_tokenize, ModelView,
};
use crate::persist::{spec_is_whitespace, spec_lines_vocab, spec_trim_end};
use crate::token::{Error, SpecToken};
use crate::trie;
use vstd::prelude::*;

verus! {

/// A word that is itself a vocabulary entry, and within the length
/// bound, tokenizes to exactly that entry, with offsets covering the
/// whole word.
pub proof fn lemma_fast_path(m: ModelView, word: Seq<char>)
    requires
        m.vocab.contains_key(word),
        word.len() <= m.max_input_chars_per_word,
    ensures
        spec_tokenize(m, word) == Ok::<Seq<SpecToken>, Error>(
            seq![SpecToken { value: word, id: m.vocab[word], offsets: (0, word.len() as int) }],
        ),
{
}

/// A word whose character count, plus the sentinel, exceeds the length
/// bound plus one tokenizes to the single whole-word fallback token, or
/// fails with `MissingUnkToken` when the vocabulary lacks the
/// unknown-token.
pub proof fn lemma_length_guard(m: ModelView, word: Seq<char>)
    requires
        word.len() > m.max_input_chars_per_word,
    ensures
        m.vocab.contains_key(m.unk_token) ==> spec_tokenize(m, word) == Ok::<Seq<SpecToken>, Error>(
            seq![
                SpecToken {
                    value: m.unk_token,
                    id: m.vocab[m.unk_token],
                    offsets: (0, word.len() as int),
                },
            ],
        ),
        !m.vocab.contains_key(m.unk_token) ==> spec_tokenize(m, word) == Err::<
            Seq<SpecToken>,
            Error,
        >(Error::MissingUnkToken),
{
}

/// Assembly aborts into the whole-word fallback as soon as any scanned
/// interval at or after `k` yields a piece that is missing from the
/// vocabulary.
proof fn lemma_assemble_falls_back(
    m: ModelView,
    word: Seq<char>,
    ivs: Seq<(int, int)>,
    k: int,
    cursor: int,
    acc: Seq<SpecToken>,
    bad: int,
)
    requires
        0 <= k <= bad < ivs.len(),
        !m.vocab.contains_key(spec_piece(m, word, ivs[bad].0, ivs[bad].1)),
    ensures
        spec_assemble(m, word, ivs, k, cursor, acc) == spec_fallback(m, word.len() as int),
    decreases bad - k,
{
    if cursor < ivs[k].0 {
    } else if !m.vocab.contains_key(spec_piece(m, word, ivs[k].0, ivs[k].1)) {
    } else {
        assert(k < bad);
        lemma_assemble_falls_back(
            m,
            word,
            ivs,
            k + 1,
            ivs[k].1,
            acc.push(
                SpecToken {
                    value: spec_piece(m, word, ivs[k].0, ivs[k].1),
                    id: m.vocab[spec_piece(m, word, ivs[k].0, ivs[k].1)],
                    offsets: (
                        crate::model::spec_norm_start(ivs[k].0) - 1,
                        ivs[k].1 - 1,
                    ),
                },
            ),
            bad,
        );
    }
}

/// If any scanned piece, after prefix reinsertion, is missing from the
/// vocabulary, the entire call returns the whole-word fallback covering
/// the word: valid and fallback pieces are never mixed.
pub proof fn lemma_piece_missing_falls_back(m: ModelView, word: Seq<char>)
    requires
        word.len() <= m.max_input_chars_per_word,
        !m.vocab.contains_key(word),
        ({
            let g = trie::greedy_from(m.lang, sentinel_word(word), 0);
            exists|k: int|
                0 <= k < g.len() && !m.vocab.contains_key(
                    spec_piece(m, word, (#[trigger] g[k]).0, g[k].1),
                )
        }),
    ensures
        spec_tokenize(m, word) == spec_fallback(m, word.len() as int),
{
    let g = trie::greedy_from(m.lang, sentinel_word(word), 0);
    let bad = choose|k: int|
        0 <= k < g.len() && !m.vocab.contains_key(
            spec_piece(m, word, (#[trigger] g[k]).0, g[k].1),
        );
    lemma_assemble_falls_back(m, word, g, 0, 0, Seq::empty(), bad);
}

/// A piece text with the continuing prefix stripped when the piece does
/// not start the word (its start offset is positive).
pub open spec fn spec_strip(m: ModelView, t: SpecToken) -> Seq<char> {
    if t.offsets.0 > 0 {
        t.value.skip(m.continuing_subword_prefix.len() as int)
    } else {
        t.value
    }
}

/// Concatenation of the stripped piece texts, in order.
pub open spec fn concat_stripped(m: ModelView, toks: Seq<SpecToken>) -> Seq<char>
    decreases toks.len(),
{
    if toks.len() == 0 {
        Seq::empty()
    } else {
        concat_stripped(m, toks.drop_last()) + spec_strip(m, toks.last())
    }
}

/// Assembly either aborts into the fallback or emits pieces whose
/// stripped texts extend the covered part of the word, piece by piece.
proof fn lemma_assemble_concat(
    m: ModelView,
    word: Seq<char>,
    ivs: Seq<(int, int)>,
    k: int,
    cursor: int,
    acc: Seq<SpecToken>,
)
    requires
        0 <= k <= ivs.len(),
        forall|i: int| 0 <= i < ivs.len() ==> 0 <= (#[trigger] ivs[i]).0 < ivs[i].1 <= word.len() + 1,
        ivs.len() > 0 ==> ivs[0].0 == 0,
        forall|i: int| 0 <= i < ivs.len() - 1 ==> (#[trigger] ivs[i]).1 == ivs[i + 1].0,
        if k == 0 {
            cursor == 0
        } else {
            cursor == ivs[k - 1].1
        },
        concat_stripped(m, acc) == sentinel_word(word).subrange(
            1,
            if cursor < 1 {
                1
            } else {
                cursor
            },
        ),
    ensures
        match spec_assemble(m, word, ivs, k, cursor, acc) {
            Ok(toks) => spec_assemble(m, word, ivs, k, cursor, acc) == spec_fallback(
                m,
                word.len() as int,
            ) || concat_stripped(m, toks) == word,
            Err(e) => true,
        },
    decreases ivs.len() - k,
{
    let s = sentinel_word(word);
    if k >= ivs.len() {
        if cursor != word.len() + 1 {
        } else {
            assert(concat_stripped(m, acc) == s.subrange(1, cursor));
            assert(s.subrange(1, word.len() as int + 1) =~= word);
        }
    } else {
        let start0 = ivs[k].0;
        let stop = ivs[k].1;
        if cursor < start0 {
        } else {
            assert(cursor == start0);
            let start = crate::model::spec_norm_start(start0);
            let piece = spec_piece(m, word, start0, stop);
            if m.vocab.contains_key(piece) {
                let tok = SpecToken {
                    value: piece,
                    id: m.vocab[piece],
                    offsets: (start - 1, stop - 1),
                };
                let acc2 = acc.push(tok);
                let raw = s.subrange(start, stop);
                assert(acc2.drop_last() =~= acc);
                assert(acc2.last() == tok);
                assert(spec_strip(m, tok) == raw) by {
                    if start > 1 {
                        assert(tok.offsets.0 > 0);
                        assert((m.continuing_subword_prefix + raw).skip(
                            m.continuing_subword_prefix.len() as int,
                        ) =~= raw);
                    }
                }
                assert(concat_stripped(m, acc2) == s.subrange(1, stop)) by {
                    if cursor < 1 {
                        assert(start == 1);
                        assert(s.subrange(1, 1) + raw =~= s.subrange(1, stop));
                    } else {
                        assert(start == cursor);
                        assert(s.subrange(1, cursor) + s.subrange(cursor, stop) =~= s.subrange(
                            1,
                            stop,
                        ));
                    }
                }
                assert(stop >= 1);
                lemma_assemble_concat(m, word, ivs, k + 1, stop, acc2);
            }
        }
    }
}

/// Every successful call returns either the single whole-word fallback
/// token, or a sequence of pieces whose texts, after stripping the
/// continuing prefix from every piece that does not start the word,
/// concatenate back to the original word exactly.
pub proof fn lemma_concat_reconstructs(m: ModelView, word: Seq<char>)
    ensures
        match spec_tokenize(m, word) {
            Ok(toks) => spec_tokenize(m, word) == spec_fallback(m, word.len() as int)
                || concat_stripped(m, toks) == word,
            Err(e) => true,
        },
{
    let s = sentinel_word(word);
    if word.len() + 1 > m.max_input_chars_per_word + 1 {
    } else if m.vocab.contains_key(word) {
        let tok = SpecToken { value: word, id: m.vocab[word], offsets: (0, word.len() as int) };
        let toks = seq![tok];
        let e: Seq<SpecToken> = Seq::empty();
        assert(toks.len() == 1);
        assert(toks.last() == tok);
        assert(toks.drop_last() =~= e);
        assert(concat_stripped(m, e) == Seq::<char>::empty());
        assert(spec_strip(m, tok) == word);
        assert(concat_stripped(m, toks) == Seq::<char>::empty() + word);
        assert(Seq::<char>::empty() + word =~= word);
    } else {
        let g = trie::greedy_from(m.lang, s, 0);
        trie::lemma_greedy_from_wf(m.lang, s, 0);
        assert(concat_stripped(m, Seq::<SpecToken>::empty()) =~= s.subrange(1, 1));
        lemma_assemble_concat(m, word, g, 0, 0, Seq::empty());
    }
}

/// Sorted save lines have ids at least their index.
proof fn lemma_line_ids_lower(m: Map<Seq<char>, u32>, lines: Seq<Seq<char>>, i: int)
    requires
        forall|i2: int| 0 <= i2 < lines.len() ==> m.contains_key(#[trigger] lines[i2]),
        forall|i2: int, j2: int|
            0 <= i2 < j2 < lines.len() ==> m[#[trigger] lines[i2]] <= m[#[trigger] lines[j2]],
        forall|i2: int, j2: int|
            0 <= i2 < j2 < lines.len() ==> (#[trigger] lines[i2]) != (#[trigger] lines[j2]),
        forall|k1: Seq<char>, k2: Seq<char>|
            m.contains_key(k1) && m.contains_key(k2) && k1 != k2 ==> m[k1] != m[k2],
        0 <= i < lines.len(),
    ensures
        m[lines[i]] as int >= i,
    decreases i,
{
    if i > 0 {
        lemma_line_ids_lower(m, lines, i - 1);
        assert(m[lines[i - 1]] != m[lines[i]]);
    }
}

/// Sorted save lines of a dense vocabulary have ids at most their index.
proof fn lemma_line_ids_upper(m: Map<Seq<char>, u32>, lines: Seq<Seq<char>>, i: int)
    requires
        forall|i2: int| 0 <= i2 < lines.len() ==> m.contains_key(#[trigger] lines[i2]),
        forall|i2: int, j2: int|
            0 <= i2 < j2 < lines.len() ==> m[#[trigger] lines[i2]] <= m[#[trigger] lines[j2]],
        forall|i2: int, j2: int|
            0 <= i2 < j2 < lines.len() ==> (#[trigger] lines[i2]) != (#[trigger] lines[j2]),
        forall|k1: Seq<char>, k2: Seq<char>|
            m.contains_key(k1) && m.contains_key(k2) && k1 != k2 ==> m[k1] != m[k2],
        forall|k: Seq<char>| #[trigger] m.contains_key(k) ==> (m[k] as int) < lines.len(),
        0 <= i < lines.len(),
    ensures
        m[lines[i]] as int <= i,
    decreases lines.len() - i,
{
    if i < lines.len() - 1 {
        lemma_line_ids_upper(m, lines, i + 1);
        assert(m[lines[i]] != m[lines[i + 1]]);
    }
}

/// Loading a prefix of the save lines yields the vocabulary restricted
/// to ids below the prefix length.
proof fn lemma_lines_prefix(m: Map<Seq<char>, u32>, lines: Seq<Seq<char>>, j: int)
    requires
        forall|i: int| 0 <= i < lines.len() ==> m.contains_key(#[trigger] lines[i]),
        forall|i: int| 0 <= i < lines.len() ==> m[#[trigger] lines[i]] as int == i,
        forall|i: int| 0 <= i < lines.len() ==> spec_trim_end(#[trigger] lines[i]) == lines[i],
        forall|k: Seq<char>| #[trigger]
            m.contains_key(k) ==> exists|i: int| 0 <= i < lines.len() && lines[i] == k,
        0 <= j <= lines.len(),
    ensures
        spec_lines_vocab(lines.take(j)) =~= Map::new(
            |k: Seq<char>| m.contains_key(k) && (m[k] as int) < j,
            |k: Seq<char>| m[k],
        ),
    decreases j,
{
    let goal = Map::new(|k: Seq<char>| m.contains_key(k) && (m[k] as int) < j, |k: Seq<char>| m[k]);
    if j == 0 {
        assert(lines.take(0) =~= Seq::<Seq<char>>::empty());
        assert(spec_lines_vocab(lines.take(0)) =~= goal);
    } else {
        lemma_lines_prefix(m, lines, j - 1);
        let prev = Map::new(
            |k: Seq<char>| m.contains_key(k) && (m[k] as int) < j - 1,
            |k: Seq<char>| m[k],
        );
        assert(lines.take(j).drop_last() =~= lines.take(j - 1));
        assert(lines.take(j).last() == lines[j - 1]);
        let built = prev.insert(spec_trim_end(lines[j - 1]), (j - 1) as u32);
        assert(spec_lines_vocab(lines.take(j)) == built);
        assert forall|k: Seq<char>| #[trigger] built.contains_key(k) implies goal.contains_key(k)
            && goal[k] == built[k] by {
            if k == lines[j - 1] {
                assert(m[k] as int == j - 1);
            }
        }
        assert forall|k: Seq<char>| #[trigger] goal.contains_key(k) implies built.contains_key(
            k,
        ) by {
            if m[k] as int == j - 1 {
                let i = choose|i: int| 0 <= i < lines.len() && #[trigger] lines[i] == k;
                assert(m[lines[i]] as int == i);
                assert(i == j - 1);
            }
        }
        assert(built =~= goal);
    }
}

/// Round trip of the persistence format: saving a vocabulary whose ids
/// are dense and zero-based and whose tokens carry no trailing
/// whitespace, then loading the saved lines, reproduces the vocabulary
/// exactly. `lines` is any sequence meeting the save contract: the
/// tokens sorted ascending by id, each exactly once.
pub proof fn lemma_save_load_round_trip(m: Map<Seq<char>, u32>, lines: Seq<Seq<char>>)
    requires
        m.dom().finite(),
        forall|k: Seq<char>| #[trigger] m.contains_key(k) ==> (m[k] as int) < m.dom().len(),
        forall|k1: Seq<char>, k2: Seq<char>|
            m.contains_key(k1) && m.contains_key(k2) && k1 != k2 ==> m[k1] != m[k2],
        forall|k: Seq<char>| #[trigger]
            m.contains_key(k) && k.len() > 0 ==> !spec_is_whitespace(k.last()),
        lines.len() == m.dom().len(),
        forall|i: int| 0 <= i < lines.len() ==> m.contains_key(#[trigger] lines[i]),
        forall|i: int, j: int|
            0 <= i < j < lines.len() ==> m[#[trigger] lines[i]] <= m[#[trigger] lines[j]],
        forall|i: int, j: int|
            0 <= i < j < lines.len() ==> (#[trigger] lines[i]) != (#[trigger] lines[j]),
        forall|k: Seq<char>| #[trigger]
            m.contains_key(k) ==> exists|i: int| 0 <= i < lines.len() && lines[i] == k,
    ensures
        spec_lines_vocab(lines) == m,
{
    assert forall|i: int| 0 <= i < lines.len() implies m[#[trigger] lines[i]] as int == i by {
        lemma_line_ids_lower(m, lines, i);
        lemma_line_ids_upper(m, lines, i);
    }
    assert forall|i: int| 0 <= i < lines.len() implies spec_trim_end(#[trigger] lines[i])
        == lines[i] by {
        assert(m.contains_key(lines[i]));
    }
    lemma_lines_prefix(m, lines, lines.len() as int);
    assert(lines.take(lines.len() as int) =~= lines);
    let goal = Map::new(
        |k: Seq<char>| m.contains_key(k) && (m[k] as int) < lines.len() as int,
        |k: Seq<char>| m[k],
    );
    assert(goal =~= m);
    assert(spec_lines_vocab(lines) =~= m);
}

} // verus!
