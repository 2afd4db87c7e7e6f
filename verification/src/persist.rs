//! Deterministic save/load of a vocabulary as a line-oriented text body.
//!
//! Saving lists the tokens sorted ascending by id, one per line: the line
//! index on disk is the id. Loading trims trailing whitespace from each
//! line and assigns the zero-based line index as the id. Writing the
//! lines to a file and reading them back is I/O and is left to the
//! embedding program.

use crate::model::WordPiece;
use crate::vocab::Vocab;
use vstd::prelude::*;
use vstd::string::StrSliceExecFns;
use vstd::string::StringExecFns;

verus! {

broadcast use vstd::std_specs::vec::group_vec_axioms;

/// The Unicode White_Space property, the set of characters that
/// `str::trim_end` removes.
pub open spec fn spec_is_whitespace(c: char) -> bool {
    let n = c as u32;
    n == 0x0009 || n == 0x000A || n == 0x000B || n == 0x000C || n == 0x000D || n == 0x0020 || n
        == 0x0085 || n == 0x00A0 || n == 0x1680 || (0x2000 <= n && n <= 0x200A) || n == 0x2028 || n
        == 0x2029 || n == 0x202F || n == 0x205F || n == 0x3000
}

fn is_whitespace_char(c: char) -> (r: bool)
    ensures
        r == spec_is_whitespace(c),
{
    let n = c as u32;
    n == 0x0009 || n == 0x000A || n == 0x000B || n == 0x000C || n == 0x000D || n == 0x0020 || n
        == 0x0085 || n == 0x00A0 || n == 0x1680 || (0x2000 <= n && n <= 0x200A) || n == 0x2028 || n
        == 0x2029 || n == 0x202F || n == 0x205F || n == 0x3000
}

/// A text with its trailing whitespace removed.
pub open spec fn spec_trim_end(s: Seq<char>) -> Seq<char>
    decreases s.len(),
{
    if s.len() == 0 {
        s
    } else if spec_is_whitespace(s.last()) {
        spec_trim_end(s.drop_last())
    } else {
        s
    }
}

/// Removes trailing whitespace, as a vocabulary file line is read.
fn trim_end_str(line: &str) -> (r: String)
    ensures
        r@ == spec_trim_end(line@),
{
    let len = line.unicode_len();
    let mut j: usize = len;
    proof {
        assert(line@.take(len as int) =~= line@);
    }
    while j > 0 && is_whitespace_char(line.get_char(j - 1))
        invariant
            j <= len,
            len == line@.len(),
            spec_trim_end(line@) == spec_trim_end(line@.take(j as int)),
        decreases j,
    {
        proof {
            assert(line@.take(j as int).drop_last() =~= line@.take(j - 1));
            assert(line@.take(j as int).last() == line@[j - 1]);
        }
        j -= 1;
    }
    proof {
        if j == 0 {
            assert(line@.take(0) =~= Seq::<char>::empty());
        }
        assert(spec_trim_end(line@.take(j as int)) == line@.take(j as int));
        assert(line@.subrange(0, j as int) =~= line@.take(j as int));
    }
    line.substring_char(0, j).to_owned()
}

/// The vocabulary a sequence of lines denotes: each line, trailing
/// whitespace trimmed, maps to its zero-based index.
pub open spec fn spec_lines_vocab(lines: Seq<Seq<char>>) -> Map<Seq<char>, u32>
    decreases lines.len(),
{
    if lines.len() == 0 {
        Map::empty()
    } else {
        spec_lines_vocab(lines.drop_last()).insert(
            spec_trim_end(lines.last()),
            (lines.len() - 1) as u32,
        )
    }
}

/// Reads a vocabulary out of its lines: trailing whitespace trimmed, id
/// equal to the zero-based line index.
pub fn vocab_from_lines(lines: &Vec<String>) -> (r: Vocab)
    requires
        lines@.len() <= u32::MAX,
    ensures
        r.wf(),
        r@ == spec_lines_vocab(lines@.map_values(|l: String| l@)),
{
    let ghost lv = lines@.map_values(|l: String| l@);
    let mut r = Vocab::new();
    let mut i: usize = 0;
    proof {
        assert(lv.take(0) =~= Seq::<Seq<char>>::empty());
    }
    while i < lines.len()
        invariant
            lv == lines@.map_values(|l: String| l@),
            lines@.len() <= u32::MAX,
            i <= lines@.len(),
            r.wf(),
            r@ == spec_lines_vocab(lv.take(i as int)),
        decreases lines@.len() - i,
    {
        let t = trim_end_str(lines[i].as_str());
        r.insert(t, i as u32);
        proof {
            assert(lv.take(i + 1).drop_last() =~= lv.take(i as int));
            assert(lv.take(i + 1).last() == lv[i as int]);
            assert(r@ =~= spec_lines_vocab(lv.take(i + 1)));
        }
        i += 1;
    }
    proof {
        assert(lv.take(lines@.len() as int) =~= lv);
    }
    r
}

/// `<name>-vocab.txt`, or `vocab.txt` when no name is given.
pub fn vocab_file_name(name: Option<&str>) -> (r: String)
    ensures
        r@ == (match name {
            Some(n) => n@ + "-vocab.txt"@,
            None => "vocab.txt"@,
        }),
{
    match name {
        Some(n) => n.to_owned().concat("-vocab.txt"),
        None => String::from_str("vocab.txt"),
    }
}

impl Vocab {
    /// The tokens sorted ascending by id: the save lines of this
    /// vocabulary. Every token appears exactly once; the order of tokens
    /// sharing an id is not specified.
    pub fn sorted_tokens(&self) -> (r: Vec<String>)
        requires
            self.wf(),
        ensures
            r@.len() == self@.dom().len(),
            forall|i: int| 0 <= i < r@.len() ==> self@.contains_key((#[trigger] r@[i])@),
            forall|i: int, j: int|
                0 <= i < j < r@.len() ==> self@[(#[trigger] r@[i])@] <= self@[(#[trigger] r@[j])@],
            forall|i: int, j: int| 0 <= i < j < r@.len() ==> (#[trigger] r@[i])@ != (#[trigger] r@[j])@,
            forall|k: Seq<char>|
                #[trigger] self@.contains_key(k) ==> exists|i: int|
                    0 <= i < r@.len() && (#[trigger] r@[i])@ == k,
    {
        let ghost entries = self.seq_view();
        let n = self.num_entries();
        let mut rest: Vec<(String, u32)> = Vec::new();
        let mut i: usize = 0;
        while i < n
            invariant
                self.wf(),
                n == self.seq_view().len(),
                entries == self.seq_view(),
                i <= n,
                rest@.len() == i,
                forall|j: int|
                    0 <= j < i ==> ((#[trigger] rest@[j]).0@, rest@[j].1) == entries[j],
            decreases n - i,
        {
            rest.push((self.entry_token(i).clone(), self.entry_id(i)));
            i += 1;
        }
        proof {
            self.lemma_len();
            assert forall|j: int| 0 <= j < rest@.len() implies self@.contains_key(
                (#[trigger] rest@[j]).0@,
            ) && self@[rest@[j].0@] == rest@[j].1 by {
                self.lemma_entry_in_view(j);
            }
            assert forall|j1: int, j2: int| 0 <= j1 < j2 < rest@.len() implies (
            #[trigger] rest@[j1]).0@ != (#[trigger] rest@[j2]).0@ by {
                self.lemma_entry_in_view(j1);
                self.lemma_entry_in_view(j2);
                assert(entries[j1].0 != entries[j2].0) by {
                    self.lemma_distinct(j1, j2);
                }
            }
            assert forall|k: Seq<char>| #[trigger] self@.contains_key(k) implies exists|j: int|
                0 <= j < rest@.len() && (#[trigger] rest@[j]).0@ == k by {
                self.lemma_view_covered(k);
                let j = choose|j: int|
                    0 <= j < self.seq_view().len() && (#[trigger] self.seq_view()[j]).0 == k
                        && self.seq_view()[j].1 == self@[k];
                assert(rest@[j].0@ == k);
            }
        }
        let mut out: Vec<String> = Vec::new();
        while rest.len() > 0
            invariant
                self.wf(),
                out@.len() + rest@.len() == self@.dom().len(),
                // every remaining pair is a vocabulary entry
                forall|j: int|
                    0 <= j < rest@.len() ==> self@.contains_key((#[trigger] rest@[j]).0@)
                        && self@[rest@[j].0@] == rest@[j].1,
                // emitted tokens are vocabulary keys
                forall|i: int| 0 <= i < out@.len() ==> self@.contains_key((#[trigger] out@[i])@),
                // emitted tokens are pairwise distinct
                forall|i1: int, i2: int|
                    0 <= i1 < i2 < out@.len() ==> (#[trigger] out@[i1])@ != (#[trigger] out@[i2])@,
                // emitted ids are sorted
                forall|i: int, j: int|
                    0 <= i < j < out@.len() ==> self@[(#[trigger] out@[i])@] <= self@[(
                    #[trigger] out@[j])@],
                // emitted ids do not exceed any remaining id
                forall|i: int, j: int|
                    0 <= i < out@.len() && 0 <= j < rest@.len() ==> self@[(#[trigger] out@[i])@]
                        <= (#[trigger] rest@[j]).1,
                // remaining keys are pairwise distinct
                forall|j1: int, j2: int|
                    0 <= j1 < j2 < rest@.len() ==> (#[trigger] rest@[j1]).0@ != (
                    #[trigger] rest@[j2]).0@,
                // emitted and remaining keys are disjoint
                forall|i: int, j: int|
                    0 <= i < out@.len() && 0 <= j < rest@.len() ==> (#[trigger] out@[i])@ != (
                    #[trigger] rest@[j]).0@,
                // every vocabulary key is emitted or remaining
                forall|k: Seq<char>|
                    #[trigger] self@.contains_key(k) ==> (exists|i: int|
                        0 <= i < out@.len() && (#[trigger] out@[i])@ == k) || (exists|j: int|
                        0 <= j < rest@.len() && (#[trigger] rest@[j]).0@ == k),
            decreases rest@.len(),
        {
            let mut minidx: usize = 0;
            let mut mi: usize = 1;
            while mi < rest.len()
                invariant
                    rest@.len() > 0,
                    minidx < mi <= rest@.len(),
                    forall|j: int| 0 <= j < mi ==> rest@[minidx as int].1 <= (#[trigger] rest@[j]).1,
                decreases rest@.len() - mi,
            {
                if rest[mi].1 < rest[minidx].1 {
                    minidx = mi;
                }
                mi += 1;
            }
            let ghost oldrest = rest@;
            let ghost oldout = out@;
            let p = rest.remove(minidx);
            out.push(p.0);
            proof {
                assert(p == oldrest[minidx as int]);
                assert(rest@ == oldrest.remove(minidx as int));
                assert forall|j: int| 0 <= j < rest@.len() implies (exists|j0: int|
                    0 <= j0 < oldrest.len() && j0 != minidx && (#[trigger] rest@[j]) == oldrest[j0])
                    by {
                    if j < minidx {
                        assert(rest@[j] == oldrest[j]);
                    } else {
                        assert(rest@[j] == oldrest[j + 1]);
                    }
                }
                assert forall|k: Seq<char>| #[trigger] self@.contains_key(k) implies (exists|i: int|
                    0 <= i < out@.len() && (#[trigger] out@[i])@ == k) || (exists|j: int|
                    0 <= j < rest@.len() && (#[trigger] rest@[j]).0@ == k) by {
                    if exists|j: int| 0 <= j < oldrest.len() && (#[trigger] oldrest[j]).0@ == k {
                        let j = choose|j: int|
                            0 <= j < oldrest.len() && (#[trigger] oldrest[j]).0@ == k;
                        if j == minidx {
                            assert(out@[out@.len() - 1]@ == k);
                        } else if j < minidx {
                            assert(rest@[j].0@ == k);
                        } else {
                            assert(rest@[j - 1].0@ == k);
                        }
                    } else {
                        let i = choose|i: int| 0 <= i < oldout.len() && (#[trigger] oldout[i])@ == k;
                        assert(out@[i]@ == k);
                    }
                }
            }
        }
        out
    }
}

impl WordPiece {
    /// The vocabulary as save lines: tokens sorted ascending by id, so
    /// that the line index on disk is the id.
    pub fn save_lines(&self) -> (r: Vec<String>)
        requires
            self.wf(),
        ensures
            r@.len() == self@.vocab.dom().len(),
            forall|i: int| 0 <= i < r@.len() ==> self@.vocab.contains_key((#[trigger] r@[i])@),
            forall|i: int, j: int|
                0 <= i < j < r@.len() ==> self@.vocab[(#[trigger] r@[i])@] <= self@.vocab[(
                #[trigger] r@[j])@],
            forall|i: int, j: int| 0 <= i < j < r@.len() ==> (#[trigger] r@[i])@ != (#[trigger] r@[j])@,
            forall|k: Seq<char>|
                #[trigger] self@.vocab.contains_key(k) ==> exists|i: int|
                    0 <= i < r@.len() && (#[trigger] r@[i])@ == k,
    {
        self.vocabulary().sorted_tokens()
    }
}

} // verus!
