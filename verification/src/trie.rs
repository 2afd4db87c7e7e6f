//! Character-keyed prefix trie with a greedy longest-match-first scan.
//!
//! Each node owns a mapping from character to child node and a flag
//! marking the node as the end of an inserted sequence. The language of
//! the trie is the set of inserted character sequences; `scan` yields the
//! greedy longest-match decomposition of an input over that language.

use vstd::prelude::*;

verus! {

broadcast use vstd::std_specs::vec::group_vec_axioms;

/// One trie node: a completeness flag and the labelled edges to the
/// children.
#[derive(Debug)]
pub struct TrieNode {
    pub complete: bool,
    pub children: Vec<(char, TrieNode)>,
}

impl TrieNode {
    /// Edge labels are distinct at every node, so a walk is deterministic.
    pub open spec fn wf(self) -> bool
        decreases self,
    {
        &&& (forall|k1: int, k2: int|
            0 <= k1 < k2 < self.children@.len() ==> (#[trigger] self.children@[k1]).0 != (
            #[trigger] self.children@[k2]).0)
        &&& (forall|k: int|
            0 <= k < self.children@.len() ==> (#[trigger] self.children@[k]).1.wf())
    }

    /// The sequence `s` was inserted below this node: following its
    /// characters edge by edge ends on a node marked complete.
    pub open spec fn accepts(self, s: Seq<char>) -> bool
        decreases self, s.len(),
    {
        if s.len() == 0 {
            self.complete
        } else {
            exists|k: int|
                0 <= k < self.children@.len() && (#[trigger] self.children@[k]).0 == s[0]
                    && self.children@[k].1.accepts(s.drop_first())
        }
    }
}

/// A sequence with head `w[j]` equals `w[j..]` exactly when its tail
/// equals `w[j+1..]`.
proof fn lemma_cons_skip(w: Seq<char>, j: int, s: Seq<char>)
    requires
        0 <= j < w.len(),
        s.len() > 0,
        s[0] == w[j],
    ensures
        (s.drop_first() =~= w.skip(j + 1)) == (s =~= w.skip(j)),
{
    assert(s =~= seq![s[0]] + s.drop_first());
    if s.drop_first() == w.skip(j + 1) {
        assert forall|i: int| 0 <= i < s.len() implies s[i] == w.skip(j)[i] by {
            if i > 0 {
                assert(s[i] == s.drop_first()[i - 1]);
                assert(w.skip(j + 1)[i - 1] == w[j + i]);
            }
        }
        assert(s =~= w.skip(j));
    }
    if s == w.skip(j) {
        assert forall|i: int| 0 <= i < s.drop_first().len() implies s.drop_first()[i] == w.skip(
            j + 1,
        )[i] by {
            assert(s.drop_first()[i] == s[i + 1]);
            assert(w.skip(j)[i + 1] == w[j + i + 1]);
        }
        assert(s.drop_first() =~= w.skip(j + 1));
    }
}

impl TrieNode {
    /// With distinct edge labels, a first step along `s` is deterministic:
    /// acceptance goes through the one edge labelled `s[0]`.
    proof fn lemma_step(self, k: int, s: Seq<char>)
        requires
            self.wf(),
            s.len() > 0,
            0 <= k < self.children@.len(),
            self.children@[k].0 == s[0],
        ensures
            self.accepts(s) <==> self.children@[k].1.accepts(s.drop_first()),
    {
        if self.accepts(s) {
            let i = choose|i: int|
                0 <= i < self.children@.len() && (#[trigger] self.children@[i]).0 == s[0]
                    && self.children@[i].1.accepts(s.drop_first());
            assert(i == k);
        }
    }

    /// No edge is labelled `s[0]`: nothing starting with `s[0]` is accepted.
    proof fn lemma_dead_end(self, s: Seq<char>)
        requires
            s.len() > 0,
            forall|k: int| 0 <= k < self.children@.len() ==> (#[trigger] self.children@[k]).0 != s[0],
        ensures
            !self.accepts(s),
    {
    }

    /// Replacing the subtree under an edge whose label is not `s[0]`
    /// leaves acceptance of `s` unchanged.
    proof fn lemma_accepts_other_key(n1: TrieNode, n2: TrieNode, k: int, s: Seq<char>)
        requires
            s.len() > 0,
            n1.complete == n2.complete,
            n1.children@.len() == n2.children@.len(),
            0 <= k < n1.children@.len(),
            forall|i: int|
                0 <= i < n1.children@.len() ==> (#[trigger] n1.children@[i]).0 == (
                #[trigger] n2.children@[i]).0,
            forall|i: int|
                0 <= i < n1.children@.len() && i != k ==> (#[trigger] n1.children@[i]) == (
                #[trigger] n2.children@[i]),
            n1.children@[k].0 != s[0],
        ensures
            n1.accepts(s) == n2.accepts(s),
    {
        if n1.accepts(s) {
            let i = choose|i: int|
                0 <= i < n1.children@.len() && (#[trigger] n1.children@[i]).0 == s[0]
                    && n1.children@[i].1.accepts(s.drop_first());
            assert(i != k);
            assert(n2.children@[i].0 == s[0] && n2.children@[i].1.accepts(s.drop_first()));
        }
        if n2.accepts(s) {
            let i = choose|i: int|
                0 <= i < n2.children@.len() && (#[trigger] n2.children@[i]).0 == s[0]
                    && n2.children@[i].1.accepts(s.drop_first());
            assert(i != k);
            assert(n1.children@[i].0 == s[0] && n1.children@[i].1.accepts(s.drop_first()));
        }
    }

    /// Index of the child edge labelled `c`, if there is one.
    fn find_child(&self, c: char) -> (r: Option<usize>)
        ensures
            match r {
                Some(k) => k < self.children@.len() && self.children@[k as int].0 == c,
                None => forall|k: int|
                    0 <= k < self.children@.len() ==> (#[trigger] self.children@[k]).0 != c,
            },
    {
        let mut i: usize = 0;
        while i < self.children.len()
            invariant
                i <= self.children@.len(),
                forall|k: int| 0 <= k < i ==> (#[trigger] self.children@[k]).0 != c,
            decreases self.children@.len() - i,
        {
            if self.children[i].0 == c {
                return Some(i);
            }
            i += 1;
        }
        None
    }

    /// Inserts `word[j..]` below this node. Exactly that one sequence is
    /// added to what the subtree accepts.
    fn push_from(&mut self, word: &Vec<char>, j: usize)
        requires
            old(self).wf(),
            j <= word@.len(),
        ensures
            final(self).wf(),
            final(self).complete == (old(self).complete || j == word@.len()),
            forall|s: Seq<char>|
                #[trigger] final(self).accepts(s) <==> (old(self).accepts(s) || s =~= word@.skip(
                    j as int,
                )),
        decreases word@.len() - j,
    {
        if j == word.len() {
            self.complete = true;
            proof {
                assert(word@.skip(j as int) =~= Seq::<char>::empty());
                assert forall|s: Seq<char>|
                    #[trigger] self.accepts(s) <==> (old(self).accepts(s) || s =~= word@.skip(
                        j as int,
                    )) by {
                    if s.len() == 0 {
                        assert(s =~= Seq::<char>::empty());
                    } else {
                        assert(self.children == old(self).children);
                    }
                }
            }
        } else {
            let c = word[j];
            let ghost jj = j as int;
            let ghost w = word@;
            match self.find_child(c) {
                Some(k) => {
                    let ghost oc = old(self).children@;
                    let ghost oldpair = oc[k as int];
                    let mut pair = self.children.remove(k);
                    proof {
                        assert(pair == oldpair);
                        assert(oldpair.1.wf());
                    }
                    pair.1.push_from(word, j + 1);
                    let ghost np = pair.1;
                    self.children.insert(k, pair);
                    proof {
                        assert(self.children@ =~= oc.update(k as int, (c, np)));
                        assert(self.complete == old(self).complete);
                        // well-formedness: labels unchanged, one subtree replaced
                        assert forall|i: int|
                            0 <= i < self.children@.len() implies (#[trigger] self.children@[i]).0
                            == oc[i].0 && (i != k ==> self.children@[i] == oc[i]) by {}
                        assert(self.wf());
                        assert(w.skip(jj).len() > 0);
                        assert(w.skip(jj)[0] == c);
                        assert forall|s: Seq<char>|
                            #[trigger] self.accepts(s) <==> (old(self).accepts(s) || s =~= w.skip(
                                jj,
                            )) by {
                            if s.len() == 0 {
                                assert(!(s =~= w.skip(jj)));
                            } else if s[0] == c {
                                self.lemma_step(k as int, s);
                                old(self).lemma_step(k as int, s);
                                // subtree change on the matching edge
                                assert(np.accepts(s.drop_first()) <==> (oldpair.1.accepts(
                                    s.drop_first(),
                                ) || s.drop_first() =~= w.skip(jj + 1)));
                                assert(w.skip(jj).drop_first() =~= w.skip(jj + 1));
                                lemma_cons_skip(w, jj, s);
                            } else {
                                TrieNode::lemma_accepts_other_key(*old(self), *self, k as int, s);
                                assert(!(s =~= w.skip(jj)));
                            }
                        }
                    }
                }
                None => {
                    // grow a fresh chain for word[j..]
                    let mut sub = TrieNode { complete: true, children: Vec::new() };
                    let mut idx: usize = word.len();
                    proof {
                        assert forall|s: Seq<char>|
                            #[trigger] sub.accepts(s) <==> s =~= w.skip(idx as int) by {
                            assert(w.skip(idx as int) =~= Seq::<char>::empty());
                            if s.len() == 0 {
                                assert(s =~= Seq::<char>::empty());
                            }
                        }
                    }
                    while idx > j + 1
                        invariant
                            j + 1 <= idx <= w.len(),
                            w == word@,
                            j < w.len(),
                            sub.wf(),
                            forall|s: Seq<char>|
                                #[trigger] sub.accepts(s) <==> s =~= w.skip(idx as int),
                        decreases idx,
                    {
                        idx = idx - 1;
                        let mut v: Vec<(char, TrieNode)> = Vec::new();
                        v.push((word[idx], sub));
                        sub = TrieNode { complete: false, children: v };
                        proof {
                            let ii = idx as int;
                            assert(w.skip(ii).len() > 0);
                            assert(w.skip(ii)[0] == w[ii]);
                            assert forall|s: Seq<char>|
                                #[trigger] sub.accepts(s) <==> s =~= w.skip(ii) by {
                                if s.len() == 0 {
                                } else if s[0] == w[ii] {
                                    sub.lemma_step(0, s);
                                    assert(w.skip(ii).drop_first() =~= w.skip(ii + 1));
                                    lemma_cons_skip(w, ii, s);
                                } else {
                                    sub.lemma_dead_end(s);
                                }
                            }
                        }
                    }
                    let ghost oc = old(self).children@;
                    let ghost chain = sub;
                    self.children.push((c, sub));
                    proof {
                        assert(self.children@ =~= oc.push((c, chain)));
                        assert(self.complete == old(self).complete);
                        assert(self.wf());
                        assert(w.skip(jj).len() > 0);
                        assert(w.skip(jj)[0] == c);
                        let last = oc.len() as int;
                        assert forall|s: Seq<char>|
                            #[trigger] self.accepts(s) <==> (old(self).accepts(s) || s =~= w.skip(
                                jj,
                            )) by {
                            if s.len() == 0 {
                                assert(!(s =~= w.skip(jj)));
                            } else if s[0] == c {
                                old(self).lemma_dead_end(s);
                                self.lemma_step(last, s);
                                assert(w.skip(jj).drop_first() =~= w.skip(jj + 1));
                                lemma_cons_skip(w, jj, s);
                            } else {
                                // the new edge is labelled c != s[0]; acceptance is unchanged
                                if self.accepts(s) {
                                    let i = choose|i: int|
                                        0 <= i < self.children@.len() && (
                                        #[trigger] self.children@[i]).0 == s[0]
                                            && self.children@[i].1.accepts(s.drop_first());
                                    assert(i != last);
                                    assert(oc[i].0 == s[0] && oc[i].1.accepts(s.drop_first()));
                                }
                                if old(self).accepts(s) {
                                    let i = choose|i: int|
                                        0 <= i < oc.len() && (#[trigger] oc[i]).0 == s[0]
                                            && oc[i].1.accepts(s.drop_first());
                                    assert(self.children@[i].0 == s[0]
                                        && self.children@[i].1.accepts(s.drop_first()));
                                }
                                assert(!(s =~= w.skip(jj)));
                            }
                        }
                    }
                }
            }
        }
    }
}

/// The prefix trie itself: a root node.
#[derive(Debug)]
pub struct Trie {
    pub root: TrieNode,
}

impl Trie {
    pub open spec fn wf(self) -> bool {
        self.root.wf()
    }

    /// The language of the trie: every sequence inserted so far.
    pub open spec fn lang(self) -> Set<Seq<char>> {
        Set::new(|s: Seq<char>| self.root.accepts(s))
    }

    /// Inserts a character sequence: exactly that sequence is added to the
    /// language. Idempotent for repeated insertion of the same sequence.
    pub fn push(&mut self, word: &Vec<char>)
        requires
            old(self).wf(),
        ensures
            final(self).wf(),
            final(self).lang() =~= old(self).lang().insert(word@),
    {
        self.root.push_from(word, 0);
        proof {
            assert(word@.skip(0) =~= word@);
            assert forall|s: Seq<char>|
                self.lang().contains(s) == old(self).lang().insert(word@).contains(s) by {
                assert(self.root.accepts(s) <==> (old(self).root.accepts(s) || s =~= word@.skip(
                    0,
                )));
                if s =~= word@ {
                }
            }
            assert(self.lang() =~= old(self).lang().insert(word@));
        }
    }

    /// An empty trie: accepts nothing.
    pub fn new() -> (r: Trie)
        ensures
            r.wf(),
            forall|s: Seq<char>| !r.lang().contains(s),
    {
        let r = Trie { root: TrieNode { complete: false, children: Vec::new() } };
        proof {
            assert forall|s: Seq<char>| !r.root.accepts(s) by {
                if s.len() == 0 {
                } else {
                }
            }
        }
        r
    }
}

/// The interval `[c, e)` of `s` is a piece of the language. Zero-length
/// intervals never count, so a scan always advances.
pub open spec fn has_piece(lang: Set<Seq<char>>, s: Seq<char>, c: int, e: int) -> bool {
    c < e <= s.len() && lang.contains(s.subrange(c, e))
}

/// End of the longest piece of the language starting at `c` and ending at
/// or before `e`; `c` itself when there is none.
pub open spec fn longest_end_upto(lang: Set<Seq<char>>, s: Seq<char>, c: int, e: int) -> int
    decreases e - c,
{
    if e <= c {
        c
    } else if has_piece(lang, s, c, e) {
        e
    } else {
        longest_end_upto(lang, s, c, e - 1)
    }
}

/// End of the longest piece of the language starting at `c`; `c` itself
/// when there is none.
pub open spec fn longest_end(lang: Set<Seq<char>>, s: Seq<char>, c: int) -> int {
    longest_end_upto(lang, s, c, s.len() as int)
}

pub proof fn lemma_longest_end_upto(lang: Set<Seq<char>>, s: Seq<char>, c: int, e: int)
    requires
        c <= e,
    ensures
        c <= longest_end_upto(lang, s, c, e) <= e,
        longest_end_upto(lang, s, c, e) > c ==> has_piece(lang, s, c, longest_end_upto(lang, s, c, e)),
        forall|e2: int| c < e2 <= e && #[trigger] has_piece(lang, s, c, e2) ==> e2 <= longest_end_upto(lang, s, c, e),
    decreases e - c,
{
    if e <= c {
    } else if has_piece(lang, s, c, e) {
    } else {
        lemma_longest_end_upto(lang, s, c, e - 1);
    }
}

/// The longest end is pinned down by being a piece that no longer piece
/// exceeds.
pub proof fn lemma_longest_end_agrees(lang: Set<Seq<char>>, s: Seq<char>, c: int, b: int)
    requires
        0 <= c <= b <= s.len(),
        b > c ==> has_piece(lang, s, c, b),
        forall|e: int| c < e <= s.len() && #[trigger] has_piece(lang, s, c, e) ==> e <= b,
    ensures
        longest_end(lang, s, c) == b,
{
    lemma_upto_no_piece_above(lang, s, c, b, s.len() as int);
}

proof fn lemma_upto_no_piece_above(lang: Set<Seq<char>>, s: Seq<char>, c: int, b: int, e: int)
    requires
        c <= b <= e,
        b > c ==> has_piece(lang, s, c, b),
        forall|e2: int| b < e2 <= e ==> !#[trigger] has_piece(lang, s, c, e2),
    ensures
        longest_end_upto(lang, s, c, e) == b,
    decreases e - b,
{
    if e == b {
        if b > c {
        }
    } else {
        lemma_upto_no_piece_above(lang, s, c, b, e - 1);
    }
}

/// The greedy longest-match-first decomposition of `s` over `lang`,
/// scanning from position `c`: at each cursor the longest piece starting
/// there is taken; the scan stops at the first cursor with no piece.
pub open spec fn greedy_from(lang: Set<Seq<char>>, s: Seq<char>, c: int) -> Seq<(int, int)>
    decreases s.len() - c
        when 0 <= c <= s.len()
        via greedy_from_dec
{
    if c >= s.len() {
        Seq::empty()
    } else {
        let e = longest_end(lang, s, c);
        if e <= c {
            Seq::empty()
        } else {
            seq![(c, e)] + greedy_from(lang, s, e)
        }
    }
}

#[via_fn]
proof fn greedy_from_dec(lang: Set<Seq<char>>, s: Seq<char>, c: int) {
    if 0 <= c < s.len() {
        lemma_longest_end_upto(lang, s, c, s.len() as int);
    }
}

/// Shape of a greedy decomposition: the intervals are non-empty, within
/// bounds, contiguous starting at `c`, and each is a piece of the
/// language.
pub proof fn lemma_greedy_from_wf(lang: Set<Seq<char>>, s: Seq<char>, c: int)
    requires
        0 <= c <= s.len(),
    ensures
        ({
            let g = greedy_from(lang, s, c);
            &&& forall|i: int|
                0 <= i < g.len() ==> c <= (#[trigger] g[i]).0 < g[i].1 <= s.len()
            &&& forall|i: int|
                0 <= i < g.len() ==> has_piece(lang, s, (#[trigger] g[i]).0, g[i].1)
            &&& (g.len() > 0 ==> g[0].0 == c)
            &&& forall|i: int| 0 <= i < g.len() - 1 ==> (#[trigger] g[i]).1 == g[i + 1].0
        }),
    decreases s.len() - c,
{
    if c >= s.len() {
    } else {
        let e = longest_end(lang, s, c);
        lemma_longest_end_upto(lang, s, c, s.len() as int);
        if e <= c {
        } else {
            lemma_greedy_from_wf(lang, s, e);
        }
    }
}

impl Trie {
    /// Longest end of a language piece of `input` starting at `cursor`;
    /// `cursor` itself when no piece starts there.
    fn longest_match(&self, input: &Vec<char>, cursor: usize) -> (r: usize)
        requires
            self.wf(),
            cursor <= input@.len(),
        ensures
            cursor <= r <= input@.len(),
            r as int == longest_end(self.lang(), input@, cursor as int),
    {
        let ghost lang = self.lang();
        let ghost s = input@;
        let ghost cc = cursor as int;
        let mut node: &TrieNode = &self.root;
        let mut pos: usize = cursor;
        let mut best: usize = cursor;
        proof {
            assert forall|t: Seq<char>| #[trigger] node.accepts(t) implies self.root.accepts(
                s.subrange(cc, pos as int) + t,
            ) by {
                assert(s.subrange(cc, pos as int) + t =~= t);
            }
            assert forall|t: Seq<char>| self.root.accepts(
                s.subrange(cc, pos as int) + t,
            ) implies #[trigger] node.accepts(t) by {
                assert(s.subrange(cc, pos as int) + t =~= t);
            }
        }
        while pos < input.len()
            invariant
                self.wf(),
                s == input@,
                lang == self.lang(),
                cc == cursor as int,
                cursor <= pos <= input@.len(),
                cursor <= best <= pos,
                node.wf(),
                forall|t: Seq<char>|
                    #[trigger] node.accepts(t) <==> self.root.accepts(
                        s.subrange(cc, pos as int) + t,
                    ),
                best > cursor ==> has_piece(lang, s, cc, best as int),
                forall|e: int|
                    cc < e <= pos as int && #[trigger] has_piece(lang, s, cc, e) ==> e <= best,
            decreases input@.len() - pos,
        {
            let ch = input[pos];
            let ghost prefix = s.subrange(cc, pos as int);
            match node.find_child(ch) {
                None => {
                    proof {
                        assert forall|e: int|
                            cc < e <= s.len() && #[trigger] has_piece(lang, s, cc, e) implies e
                            <= best by {
                            if e > pos as int {
                                let t = s.subrange(pos as int, e);
                                assert(s.subrange(cc, e) =~= prefix + t);
                                assert(self.root.accepts(prefix + t));
                                assert(node.accepts(t));
                                assert(t[0] == ch);
                                node.lemma_dead_end(t);
                            }
                        }
                        lemma_longest_end_agrees(lang, s, cc, best as int);
                    }
                    return best;
                }
                Some(k) => {
                    let ghost oldnode = *node;
                    let pairref = &node.children[k];
                    node = &pairref.1;
                    pos = pos + 1;
                    proof {
                        assert(oldnode.children@[k as int].1 == *node);
                        assert(s.subrange(cc, pos as int) =~= prefix + seq![ch]);
                        assert forall|t: Seq<char>|
                            #[trigger] node.accepts(t) <==> self.root.accepts(
                                s.subrange(cc, pos as int) + t,
                            ) by {
                            let ct = seq![ch] + t;
                            oldnode.lemma_step(k as int, ct);
                            assert(ct.drop_first() =~= t);
                            assert(s.subrange(cc, pos as int) + t =~= prefix + ct);
                        }
                    }
                    if node.complete {
                        best = pos;
                        proof {
                            assert(node.accepts(Seq::<char>::empty()));
                            assert(s.subrange(cc, pos as int) + Seq::<char>::empty() =~= s.subrange(
                                cc,
                                pos as int,
                            ));
                            assert(lang.contains(s.subrange(cc, pos as int)));
                            assert(has_piece(lang, s, cc, pos as int));
                        }
                    } else {
                        proof {
                            if has_piece(lang, s, cc, pos as int) {
                                assert(s.subrange(cc, pos as int) + Seq::<char>::empty()
                                    =~= s.subrange(cc, pos as int));
                                assert(node.accepts(Seq::<char>::empty()));
                            }
                        }
                    }
                }
            }
        }
        proof {
            lemma_longest_end_agrees(lang, s, cc, best as int);
        }
        best
    }

    /// Greedy longest-match-first scan: the sequence of half-open
    /// intervals of `input` that the greedy decomposition takes. The scan
    /// stops at the first position where no piece of the language starts.
    pub fn scan(&self, input: &Vec<char>) -> (r: Vec<(usize, usize)>)
        requires
            self.wf(),
        ensures
            ({
                let g = greedy_from(self.lang(), input@, 0);
                &&& r@.len() == g.len()
                &&& forall|i: int|
                    0 <= i < g.len() ==> (#[trigger] r@[i]).0 as int == g[i].0 && r@[i].1 as int
                        == g[i].1
            }),
    {
        let ghost lang = self.lang();
        let ghost s = input@;
        let mut r: Vec<(usize, usize)> = Vec::new();
        let mut cursor: usize = 0;
        loop
            invariant
                self.wf(),
                s == input@,
                lang == self.lang(),
                cursor <= s.len(),
                greedy_from(lang, s, 0) =~= r@.map_values(|p: (usize, usize)| (p.0 as int, p.1 as int))
                    + greedy_from(lang, s, cursor as int),
            ensures
                greedy_from(lang, s, 0) =~= r@.map_values(
                    |p: (usize, usize)| (p.0 as int, p.1 as int),
                ),
            decreases s.len() - cursor,
        {
            let ghost ints = r@.map_values(|p: (usize, usize)| (p.0 as int, p.1 as int));
            if cursor >= input.len() {
                proof {
                    assert(greedy_from(lang, s, cursor as int) =~= Seq::<(int, int)>::empty());
                }
                break;
            }
            let e = self.longest_match(input, cursor);
            if e == cursor {
                proof {
                    assert(greedy_from(lang, s, cursor as int) =~= Seq::<(int, int)>::empty());
                }
                break;
            }
            r.push((cursor, e));
            proof {
                assert(greedy_from(lang, s, cursor as int) =~= seq![(cursor as int, e as int)]
                    + greedy_from(lang, s, e as int));
                assert(r@.map_values(|p: (usize, usize)| (p.0 as int, p.1 as int)) =~= ints.push(
                    (cursor as int, e as int),
                ));
                assert(greedy_from(lang, s, 0) =~= r@.map_values(
                    |p: (usize, usize)| (p.0 as int, p.1 as int),
                ) + greedy_from(lang, s, e as int));
            }
            cursor = e;
        }
        r
    }
}

} // verus!
