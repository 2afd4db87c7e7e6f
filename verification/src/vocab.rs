//! Vocabulary store: a mapping from token text to a non-negative id.
//!
//! The store is a sequence of (token, id) entries with pairwise-distinct
//! token texts; its mathematical image is the finite map from token text
//! to id. Uniqueness of ids is assumed by callers, not enforced here.

use vstd::prelude::*;

verus! {

broadcast use vstd::std_specs::vec::group_vec_axioms;

/// Whether some entry of `s` has token text `k`.
pub open spec fn entries_have_key(s: Seq<(String, u32)>, k: Seq<char>) -> bool {
    exists|i: int| 0 <= i < s.len() && (#[trigger] s[i]).0@ == k
}

/// Entry token texts are pairwise distinct.
pub open spec fn distinct_keys(s: Seq<(String, u32)>) -> bool {
    forall|i: int, j: int|
        0 <= i < j < s.len() ==> (#[trigger] s[i]).0@ != (#[trigger] s[j]).0@
}

/// The map an entry sequence denotes.
pub open spec fn entries_map(s: Seq<(String, u32)>) -> Map<Seq<char>, u32> {
    Map::new(
        |k: Seq<char>| entries_have_key(s, k),
        |k: Seq<char>|
            {
                let i = choose|i: int| 0 <= i < s.len() && (#[trigger] s[i]).0@ == k;
                s[i].1
            },
    )
}

/// With distinct keys, the entry at `i` is what the map says.
proof fn lemma_entries_map_at(s: Seq<(String, u32)>, i: int)
    requires
        distinct_keys(s),
        0 <= i < s.len(),
    ensures
        entries_map(s).contains_key(s[i].0@),
        entries_map(s)[s[i].0@] == s[i].1,
{
    assert(entries_have_key(s, s[i].0@));
    let j = choose|j: int| 0 <= j < s.len() && (#[trigger] s[j]).0@ == s[i].0@;
    assert(j == i);
}

/// The token-to-id mapping.
#[derive(Debug)]
pub struct Vocab {
    entries: Vec<(String, u32)>,
}

impl Vocab {
    /// Every value of the type keeps its token texts pairwise distinct.
    #[verifier::type_invariant]
    closed spec fn type_inv(&self) -> bool {
        distinct_keys(self.entries@)
    }
}

impl View for Vocab {
    type V = Map<Seq<char>, u32>;

    closed spec fn view(&self) -> Map<Seq<char>, u32> {
        entries_map(self.entries@)
    }
}

impl Vocab {
    /// Each token text appears in at most one entry.
    pub closed spec fn wf(&self) -> bool {
        distinct_keys(self.entries@)
    }

    /// The entries in insertion order, as (token text, id) pairs.
    pub closed spec fn seq_view(&self) -> Seq<(Seq<char>, u32)> {
        self.entries@.map_values(|e: (String, u32)| (e.0@, e.1))
    }

    /// Every entry is in the map with its own id.
    pub proof fn lemma_entry_in_view(&self, i: int)
        requires
            self.wf(),
            0 <= i < self.seq_view().len(),
        ensures
            self@.contains_key(self.seq_view()[i].0),
            self@[self.seq_view()[i].0] == self.seq_view()[i].1,
    {
        lemma_entries_map_at(self.entries@, i);
    }

    /// Distinct entries carry distinct token texts.
    pub proof fn lemma_distinct(&self, i: int, j: int)
        requires
            self.wf(),
            0 <= i < j < self.seq_view().len(),
        ensures
            self.seq_view()[i].0 != self.seq_view()[j].0,
    {
    }

    /// Every key of the map comes from some entry.
    pub proof fn lemma_view_covered(&self, k: Seq<char>)
        requires
            self.wf(),
            self@.contains_key(k),
        ensures
            exists|i: int|
                0 <= i < self.seq_view().len() && (#[trigger] self.seq_view()[i]).0 == k
                    && self.seq_view()[i].1 == self@[k],
    {
        let i = choose|i: int| 0 <= i < self.entries@.len() && (#[trigger] self.entries@[i]).0@ == k;
        lemma_entries_map_at(self.entries@, i);
        assert(self.seq_view()[i].0 == k && self.seq_view()[i].1 == self@[k]);
    }

    /// The map is finite, with one key per entry.
    pub proof fn lemma_len(&self)
        requires
            self.wf(),
        ensures
            self@.dom().finite(),
            self@.dom().len() == self.seq_view().len(),
    {
        lemma_keys_finite(self.entries@);
        assert(self@.dom() =~= Set::new(|k: Seq<char>| entries_have_key(self.entries@, k)));
    }

    /// An empty vocabulary.
    pub fn new() -> (r: Vocab)
        ensures
            r.wf(),
            r@ =~= Map::<Seq<char>, u32>::empty(),
            r.seq_view() =~= Seq::<(Seq<char>, u32)>::empty(),
    {
        let r = Vocab { entries: Vec::new() };
        proof {
            assert forall|k: Seq<char>| !r@.contains_key(k) by {}
        }
        r
    }

    /// Index of the entry whose token text equals `token`, if any.
    fn index_of(&self, token: &String) -> (r: Option<usize>)
        ensures
            match r {
                Some(i) => i < self.entries@.len() && self.entries@[i as int].0@ == token@,
                None => forall|m: int|
                    0 <= m < self.entries@.len() ==> (#[trigger] self.entries@[m]).0@ != token@,
            },
    {
        let mut i: usize = 0;
        while i < self.entries.len()
            invariant
                i <= self.entries@.len(),
                forall|m: int| 0 <= m < i ==> (#[trigger] self.entries@[m]).0@ != token@,
            decreases self.entries@.len() - i,
        {
            if self.entries[i].0 == *token {
                return Some(i);
            }
            i += 1;
        }
        None
    }

    /// Maps `token` to `id`, replacing the id of an existing entry with
    /// the same text.
    pub fn insert(&mut self, token: String, id: u32)
        requires
            old(self).wf(),
        ensures
            final(self).wf(),
            final(self)@ =~= old(self)@.insert(token@, id),
    {
        let ghost oe = old(self).entries@;
        let ghost tv = token@;
        match self.index_of(&token) {
            Some(i) => {
                let mut entries: Vec<(String, u32)> = Vec::new();
                core::mem::swap(&mut self.entries, &mut entries);
                entries[i] = (token, id);
                proof {
                    assert forall|m1: int, m2: int|
                        0 <= m1 < m2 < entries@.len() implies (#[trigger] entries@[m1]).0@ != (
                        #[trigger] entries@[m2]).0@ by {
                        assert(oe[m1].0@ != oe[m2].0@);
                    }
                }
                core::mem::swap(&mut self.entries, &mut entries);
                proof {
                    let ne = self.entries@;
                    let newpair = ne[i as int];
                    assert(ne =~= oe.update(i as int, newpair));
                    assert(newpair.0@ == tv && newpair.1 == id);
                    assert forall|m: int| 0 <= m < ne.len() implies (#[trigger] ne[m]).0@
                        == oe[m].0@ by {}
                    assert(self.wf());
                    assert forall|k: Seq<char>| #[trigger]
                        old(self)@.insert(tv, id).contains_key(k) implies self@.contains_key(k)
                        && self@[k] == old(self)@.insert(tv, id)[k] by {
                        if k == tv {
                            lemma_entries_map_at(ne, i as int);
                        } else {
                            let m = choose|m: int| 0 <= m < oe.len() && (#[trigger] oe[m]).0@ == k;
                            assert(m != i);
                            lemma_entries_map_at(oe, m);
                            lemma_entries_map_at(ne, m);
                        }
                    }
                    assert forall|k: Seq<char>| #[trigger] self@.contains_key(k) implies old(
                        self,
                    )@.insert(tv, id).contains_key(k) by {
                        let m = choose|m: int| 0 <= m < ne.len() && (#[trigger] ne[m]).0@ == k;
                        if m != i {
                            lemma_entries_map_at(oe, m);
                        }
                    }
                    assert(self@ =~= old(self)@.insert(tv, id));
                }
            }
            None => {
                let mut entries: Vec<(String, u32)> = Vec::new();
                core::mem::swap(&mut self.entries, &mut entries);
                entries.push((token, id));
                core::mem::swap(&mut self.entries, &mut entries);
                proof {
                    let ne = self.entries@;
                    let newpair = ne[oe.len() as int];
                    assert(ne =~= oe.push(newpair));
                    assert(newpair.0@ == tv && newpair.1 == id);
                    assert(self.wf());
                    assert forall|k: Seq<char>| #[trigger]
                        old(self)@.insert(tv, id).contains_key(k) implies self@.contains_key(k)
                        && self@[k] == old(self)@.insert(tv, id)[k] by {
                        if k == tv {
                            lemma_entries_map_at(ne, oe.len() as int);
                        } else {
                            let m = choose|m: int| 0 <= m < oe.len() && (#[trigger] oe[m]).0@ == k;
                            lemma_entries_map_at(oe, m);
                            lemma_entries_map_at(ne, m);
                        }
                    }
                    assert forall|k: Seq<char>| #[trigger] self@.contains_key(k) implies old(
                        self,
                    )@.insert(tv, id).contains_key(k) by {
                        let m = choose|m: int| 0 <= m < ne.len() && (#[trigger] ne[m]).0@ == k;
                        if m < oe.len() {
                            lemma_entries_map_at(oe, m);
                        }
                    }
                    assert(self@ =~= old(self)@.insert(tv, id));
                }
            }
        }
    }

    /// The id of `token`, if the text is known.
    pub fn get(&self, token: &str) -> (r: Option<u32>)
        requires
            self.wf(),
        ensures
            match r {
                Some(id) => self@.contains_key(token@) && self@[token@] == id,
                None => !self@.contains_key(token@),
            },
    {
        let t = token.to_owned();
        match self.index_of(&t) {
            Some(i) => {
                proof {
                    lemma_entries_map_at(self.entries@, i as int);
                }
                Some(self.entries[i].1)
            }
            None => None,
        }
    }

    /// Whether `token` is a known text.
    pub fn contains(&self, token: &str) -> (r: bool)
        requires
            self.wf(),
        ensures
            r == self@.contains_key(token@),
    {
        self.get(token).is_some()
    }

    /// Number of entries, which equals the number of keys of the map.
    pub fn len(&self) -> (r: usize)
        requires
            self.wf(),
        ensures
            r == self@.dom().len(),
            r == self.seq_view().len(),
    {
        proof {
            self.lemma_len();
        }
        self.entries.len()
    }

    /// Number of entries.
    pub fn num_entries(&self) -> (r: usize)
        ensures
            r == self.seq_view().len(),
    {
        self.entries.len()
    }

    /// Token text of the entry at `i`.
    pub fn entry_token(&self, i: usize) -> (r: &String)
        requires
            i < self.seq_view().len(),
        ensures
            r@ == self.seq_view()[i as int].0,
    {
        &self.entries[i].0
    }

    /// Id of the entry at `i`.
    pub fn entry_id(&self, i: usize) -> (r: u32)
        requires
            i < self.seq_view().len(),
        ensures
            r == self.seq_view()[i as int].1,
    {
        self.entries[i].1
    }

    /// Whether two vocabularies denote the same token-to-id mapping.
    pub fn same_mapping(&self, other: &Vocab) -> (r: bool)
        ensures
            r == (self@ =~= other@),
    {
        proof {
            use_type_invariant(self);
            use_type_invariant(other);
        }
        let n1 = self.num_entries();
        let mut i: usize = 0;
        while i < n1
            invariant
                self.wf(),
                other.wf(),
                n1 == self.seq_view().len(),
                i <= n1,
                forall|j: int|
                    0 <= j < i ==> other@.contains_key((#[trigger] self.seq_view()[j]).0)
                        && other@[self.seq_view()[j].0] == self.seq_view()[j].1,
            decreases n1 - i,
        {
            let ghost k = self.seq_view()[i as int].0;
            let id = self.entry_id(i);
            proof {
                self.lemma_entry_in_view(i as int);
            }
            match other.get(self.entry_token(i).as_str()) {
                Some(oid) => {
                    if oid != id {
                        proof {
                            if self@ =~= other@ {
                                assert(other@[k] == self@[k]);
                            }
                        }
                        return false;
                    }
                }
                None => {
                    proof {
                        if self@ =~= other@ {
                            assert(other@.contains_key(k));
                        }
                    }
                    return false;
                }
            }
            i += 1;
        }
        let n2 = other.num_entries();
        let mut j: usize = 0;
        while j < n2
            invariant
                self.wf(),
                other.wf(),
                n2 == other.seq_view().len(),
                j <= n2,
                forall|j2: int|
                    0 <= j2 < self.seq_view().len() ==> other@.contains_key(
                        (#[trigger] self.seq_view()[j2]).0,
                    ) && other@[self.seq_view()[j2].0] == self.seq_view()[j2].1,
                forall|j2: int|
                    0 <= j2 < j ==> self@.contains_key((#[trigger] other.seq_view()[j2]).0),
            decreases n2 - j,
        {
            let ghost k = other.seq_view()[j as int].0;
            proof {
                other.lemma_entry_in_view(j as int);
            }
            match self.get(other.entry_token(j).as_str()) {
                Some(_) => {}
                None => {
                    proof {
                        if self@ =~= other@ {
                            assert(self@.contains_key(k));
                        }
                    }
                    return false;
                }
            }
            j += 1;
        }
        proof {
            assert forall|k: Seq<char>| #[trigger] self@.contains_key(k) implies other@.contains_key(
                k,
            ) && other@[k] == self@[k] by {
                self.lemma_view_covered(k);
                let i2 = choose|i2: int|
                    0 <= i2 < self.seq_view().len() && (#[trigger] self.seq_view()[i2]).0 == k
                        && self.seq_view()[i2].1 == self@[k];
            }
            assert forall|k: Seq<char>| #[trigger] other@.contains_key(k) implies self@.contains_key(
                k,
            ) by {
                other.lemma_view_covered(k);
                let j2 = choose|j2: int|
                    0 <= j2 < other.seq_view().len() && (#[trigger] other.seq_view()[j2]).0 == k
                        && other.seq_view()[j2].1 == other@[k];
            }
            assert(self@ =~= other@);
        }
        true
    }

    /// An independent copy with the same entries.
    pub fn duplicate(&self) -> (r: Vocab)
        ensures
            r@ == self@,
            r.seq_view() == self.seq_view(),
            r.wf() <==> self.wf(),
    {
        proof {
            use_type_invariant(self);
        }
        let mut entries: Vec<(String, u32)> = Vec::new();
        let mut i: usize = 0;
        while i < self.entries.len()
            invariant
                i <= self.entries@.len(),
                entries@ =~= self.entries@.take(i as int),
            decreases self.entries@.len() - i,
        {
            entries.push((self.entries[i].0.clone(), self.entries[i].1));
            proof {
                assert(entries@ =~= self.entries@.take(i + 1));
            }
            i += 1;
        }
        proof {
            assert(entries@ =~= self.entries@);
        }
        let r = Vocab { entries };
        r
    }
}

/// The key set of an entry sequence is finite; with distinct keys it has
/// one key per entry.
proof fn lemma_keys_finite(s: Seq<(String, u32)>)
    ensures
        Set::new(|k: Seq<char>| entries_have_key(s, k)).finite(),
        distinct_keys(s) ==> Set::new(|k: Seq<char>| entries_have_key(s, k)).len() == s.len(),
    decreases s.len(),
{
    let keys = Set::new(|k: Seq<char>| entries_have_key(s, k));
    if s.len() == 0 {
        assert(keys =~= Set::<Seq<char>>::empty());
    } else {
        let prefix = s.drop_last();
        lemma_keys_finite(prefix);
        let prev = Set::new(|k: Seq<char>| entries_have_key(prefix, k));
        assert forall|k: Seq<char>| #[trigger] keys.contains(k) implies prev.insert(
            s.last().0@,
        ).contains(k) by {
            let i = choose|i: int| 0 <= i < s.len() && (#[trigger] s[i]).0@ == k;
            if i < s.len() - 1 {
                assert(prefix[i].0@ == k);
            }
        }
        assert forall|k: Seq<char>| #[trigger] prev.insert(s.last().0@).contains(k) implies
            keys.contains(k) by {
            if prev.contains(k) {
                let i = choose|i: int| 0 <= i < prefix.len() && (#[trigger] prefix[i]).0@ == k;
                assert(s[i].0@ == k);
            } else {
                assert(s[s.len() - 1].0@ == k);
            }
        }
        assert(keys =~= prev.insert(s.last().0@));
        if distinct_keys(s) {
            assert(distinct_keys(prefix)) by {
                assert forall|i: int, j: int|
                    0 <= i < j < prefix.len() implies (#[trigger] prefix[i]).0@ != (
                    #[trigger] prefix[j]).0@ by {
                    assert(s[i].0@ != s[j].0@);
                }
            }
            assert(!prev.contains(s.last().0@)) by {
                if prev.contains(s.last().0@) {
                    let i = choose|i: int|
                        0 <= i < prefix.len() && (#[trigger] prefix[i]).0@ == s.last().0@;
                    assert(s[i].0@ == s[s.len() - 1].0@);
                }
            }
        }
    }
}

} // verus!
