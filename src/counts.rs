use vstd::prelude::*;
use crate::snapshot::{assoc, entries_view, keys_distinct, lemma_assoc_contains, lemma_assoc_value, total};

verus! {

/// How often `k` occurs according to `m` (zero where `m` has no entry).
pub open spec fn count_in(m: Map<Seq<char>, nat>, k: Seq<char>) -> nat {
    if m.contains_key(k) {
        m[k]
    } else {
        0
    }
}

/// The sum of a sequence of counts.
pub open spec fn seq_sum(s: Seq<usize>) -> nat
    decreases s.len(),
{
    if s.len() == 0 {
        0
    } else {
        seq_sum(s.drop_last()) + s.last() as nat
    }
}

/// Changing one count changes the sum by the difference.
pub proof fn lemma_seq_sum_update(s: Seq<usize>, i: int, v: usize)
    requires
        0 <= i < s.len(),
    ensures
        seq_sum(s.update(i, v)) + s[i] == seq_sum(s) + v,
    decreases s.len(),
{
    if i < s.len() - 1 {
        lemma_seq_sum_update(s.drop_last(), i, v);
        assert(s.update(i, v).drop_last() =~= s.drop_last().update(i, v));
    } else {
        assert(s.update(i, v).drop_last() =~= s.drop_last());
    }
}

/// The sum is at least each of its counts.
pub proof fn lemma_seq_sum_ge(s: Seq<usize>, i: int)
    requires
        0 <= i < s.len(),
    ensures
        seq_sum(s) >= s[i],
    decreases s.len(),
{
    if i < s.len() - 1 {
        lemma_seq_sum_ge(s.drop_last(), i);
    }
}

/// Pairing keys with counts keeps the sum of the counts.
pub proof fn lemma_total_listing(keys: Seq<Seq<char>>, vals: Seq<usize>)
    ensures
        total(Seq::new(vals.len(), |i: int| (keys[i], vals[i] as nat))) == seq_sum(vals),
    decreases vals.len(),
{
    if vals.len() > 0 {
        let e = Seq::new(vals.len(), |i: int| (keys[i], vals[i] as nat));
        let f = Seq::new(vals.drop_last().len(), |i: int| (keys[i], vals.drop_last()[i] as nat));
        lemma_total_listing(keys, vals.drop_last());
        assert(e.drop_last() =~= f);
    }
}

/// A table from terms to counts, with each term stored once.
pub struct TermCounts {
    keys: Vec<String>,
    vals: Vec<usize>,
    model: Ghost<Map<Seq<char>, nat>>,
}

impl View for TermCounts {
    type V = Map<Seq<char>, nat>;

    closed spec fn view(&self) -> Map<Seq<char>, nat> {
        self.model@
    }
}

impl TermCounts {
    /// The stored terms, in storage order.
    pub closed spec fn terms(&self) -> Seq<Seq<char>> {
        self.keys@.map_values(|k: String| k@)
    }

    /// The sum of the stored counts.
    pub closed spec fn sum(&self) -> nat {
        seq_sum(self.vals@)
    }

    /// Every stored count is positive.
    pub closed spec fn positive(&self) -> bool {
        forall|i: int| 0 <= i < self.vals.len() ==> #[trigger] self.vals[i] > 0
    }

    /// Keys and counts line up, each term is stored once, and the view
    /// holds exactly the stored entries.
    pub closed spec fn wf(&self) -> bool {
        &&& self.keys.len() == self.vals.len()
        &&& self.terms().no_duplicates()
        &&& forall|i: int|
            #![trigger self.terms()[i]]
            0 <= i < self.terms().len() ==> self.model@.contains_key(self.terms()[i])
                && self.model@[self.terms()[i]] == self.vals[i] as nat
        &&& forall|k: Seq<char>| #[trigger]
            self.model@.contains_key(k) ==> self.terms().contains(k)
        &&& self.model@.dom().finite()
    }

    /// An empty table.
    pub fn new() -> (r: TermCounts)
        ensures
            r.wf(),
            r@ == Map::<Seq<char>, nat>::empty(),
            r.sum() == 0,
            r.positive(),
    {
        let r = TermCounts { keys: Vec::new(), vals: Vec::new(), model: Ghost(Map::empty()) };
        assert(r.terms() =~= Seq::<Seq<char>>::empty());
        r
    }

    fn find(&self, k: &String) -> (r: Option<usize>)
        requires
            self.wf(),
        ensures
            match r {
                Some(i) => i < self.keys.len() && self.terms()[i as int] == k@,
                None => !self@.contains_key(k@),
            },
    {
        let n = self.keys.len();
        let mut i: usize = 0;
        while i < n
            invariant
                n == self.keys.len(),
                i <= n,
                forall|j: int| 0 <= j < i ==> self.terms()[j] != k@,
            decreases n - i,
        {
            if self.keys[i] == *k {
                return Some(i);
            }
            i = i + 1;
        }
        None
    }

    /// The count stored for `k`, zero if there is none.
    pub fn get(&self, k: &String) -> (r: usize)
        requires
            self.wf(),
        ensures
            r == count_in(self@, k@),
    {
        match self.find(k) {
            Some(i) => self.vals[i],
            None => 0,
        }
    }

    /// Adds one to the count of `k`, creating its entry where there is none.
    pub fn increment(&mut self, k: &String)
        requires
            old(self).wf(),
            count_in(old(self)@, k@) < usize::MAX,
        ensures
            final(self).wf(),
            final(self)@ == old(self)@.insert(k@, count_in(old(self)@, k@) + 1),
            final(self).sum() == old(self).sum() + 1,
            old(self).positive() ==> final(self).positive(),
    {
        match self.find(k) {
            Some(i) => {
                let v = self.vals[i];
                proof {
                    lemma_seq_sum_update(self.vals@, i as int, (v + 1) as usize);
                }
                self.vals.set(i, v + 1);
                self.model = Ghost(self.model@.insert(k@, (v + 1) as nat));
                assert(self.terms() =~= old(self).terms());
                assert forall|key: Seq<char>| #[trigger] self.model@.contains_key(key) implies self.terms().contains(key) by {
                    if key == k@ {
                        assert(self.terms()[i as int] == key);
                    } else {
                        assert(old(self).model@.contains_key(key));
                    }
                }
            },
            None => {
                self.keys.push(k.clone());
                self.vals.push(1);
                assert(self.vals@.drop_last() =~= old(self).vals@);
                self.model = Ghost(self.model@.insert(k@, 1));
                assert(self.terms() =~= old(self).terms().push(k@));
                assert forall|key: Seq<char>| #[trigger] self.model@.contains_key(key) implies self.terms().contains(key) by {
                    if key == k@ {
                        assert(self.terms()[old(self).terms().len() as int] == key);
                    } else {
                        assert(old(self).model@.contains_key(key));
                        let j = choose|j: int| 0 <= j < old(self).terms().len() && old(self).terms()[j] == key;
                        assert(self.terms()[j] == key);
                    }
                }
            },
        }
    }

    /// Whether `k` has an entry.
    pub fn contains(&self, k: &String) -> (r: bool)
        requires
            self.wf(),
        ensures
            r == self@.contains_key(k@),
    {
        self.find(k).is_some()
    }

    /// Sets the count of `k` to `v`, creating its entry where there is none.
    pub fn set(&mut self, k: &String, v: usize)
        requires
            old(self).wf(),
        ensures
            final(self).wf(),
            final(self)@ == old(self)@.insert(k@, v as nat),
            !old(self)@.contains_key(k@) ==> final(self).sum() == old(self).sum() + v,
            !old(self)@.contains_key(k@) && old(self).positive() && v > 0 ==> final(self).positive(),
    {
        match self.find(k) {
            Some(i) => {
                self.vals.set(i, v);
                self.model = Ghost(self.model@.insert(k@, v as nat));
                assert(self.terms() =~= old(self).terms());
                assert forall|key: Seq<char>| #[trigger] self.model@.contains_key(key) implies self.terms().contains(key) by {
                    if key == k@ {
                        assert(self.terms()[i as int] == key);
                    } else {
                        assert(old(self).model@.contains_key(key));
                    }
                }
            },
            None => {
                self.keys.push(k.clone());
                self.vals.push(v);
                assert(self.vals@.drop_last() =~= old(self).vals@);
                self.model = Ghost(self.model@.insert(k@, v as nat));
                assert(self.terms() =~= old(self).terms().push(k@));
                assert forall|key: Seq<char>| #[trigger] self.model@.contains_key(key) implies self.terms().contains(key) by {
                    if key == k@ {
                        assert(self.terms()[old(self).terms().len() as int] == key);
                    } else {
                        assert(old(self).model@.contains_key(key));
                        let j = choose|j: int| 0 <= j < old(self).terms().len() && old(self).terms()[j] == key;
                        assert(self.terms()[j] == key);
                    }
                }
            },
        }
    }

    /// The count stored at position `i`.
    pub fn value(&self, i: usize) -> (r: usize)
        requires
            self.wf(),
            i < self.terms().len(),
        ensures
            r == self@[self.terms()[i as int]],
    {
        self.vals[i]
    }

    /// The entries of the table, as (term, count) pairs in storage order.
    pub fn entries(&self) -> (r: Vec<(String, usize)>)
        requires
            self.wf(),
        ensures
            keys_distinct(entries_view(r@)),
            assoc(entries_view(r@)) == self@,
            total(entries_view(r@)) == self.sum(),
            self.positive() ==> forall|i: int|
                0 <= i < r@.len() ==> #[trigger] entries_view(r@)[i].1 > 0,
    {
        let n = self.keys.len();
        let mut out: Vec<(String, usize)> = Vec::new();
        let mut i: usize = 0;
        while i < n
            invariant
                self.wf(),
                n == self.keys.len(),
                i <= n,
                out@.len() == i,
                forall|j: int|
                    0 <= j < i ==> (#[trigger] out@[j]).0@ == self.terms()[j] && out@[j].1 == self.vals[j],
                total(entries_view(out@)) == seq_sum(self.vals@.take(i as int)),
            decreases n - i,
        {
            let ghost before = out@;
            out.push((self.keys[i].clone(), self.vals[i]));
            proof {
                assert(entries_view(out@).drop_last() =~= entries_view(before));
                assert(self.vals@.take(i + 1).drop_last() =~= self.vals@.take(i as int));
            }
            i = i + 1;
        }
        let ghost e = entries_view(out@);
        proof {
            assert(self.vals@.take(n as int) =~= self.vals@);
            assert forall|a: int, b: int| 0 <= a < b < e.len() implies e[a].0 != e[b].0 by {
                assert(e[a].0 == self.terms()[a] && e[b].0 == self.terms()[b]);
            }
            assert forall|k: Seq<char>| assoc(e).contains_key(k) <==> self@.contains_key(k) by {
                lemma_assoc_contains(e, k);
                if self@.contains_key(k) {
                    let j = choose|j: int| 0 <= j < self.terms().len() && self.terms()[j] == k;
                    assert(e[j].0 == k);
                }
                if assoc(e).contains_key(k) {
                    let j = choose|j: int| 0 <= j < e.len() && e[j].0 == k;
                    assert(self.terms()[j] == k);
                }
            }
            assert forall|k: Seq<char>| assoc(e).contains_key(k) implies assoc(e)[k] == self@[k] by {
                lemma_assoc_contains(e, k);
                let j = choose|j: int| 0 <= j < e.len() && e[j].0 == k;
                lemma_assoc_value(e, j);
                assert(self.terms()[j] == k);
            }
            assert(assoc(e) =~= self@);
            if self.positive() {
                assert forall|j: int| 0 <= j < out@.len() implies #[trigger] e[j].1 > 0 by {
                    assert(out@[j].1 == self.vals[j]);
                }
            }
        }
        out
    }

    /// Subtracts one from the count of `k` where it has an entry, stopping at zero.
    pub fn decrement(&mut self, k: &String)
        requires
            old(self).wf(),
        ensures
            final(self).wf(),
            final(self)@ == if old(self)@.contains_key(k@) {
                old(self)@.insert(k@, sub_floor(old(self)@[k@]))
            } else {
                old(self)@
            },
    {
        match self.find(k) {
            Some(i) => {
                let v = self.vals[i];
                let w = if v > 0 { v - 1 } else { 0 };
                self.vals.set(i, w);
                self.model = Ghost(self.model@.insert(k@, w as nat));
            },
            None => {},
        }
    }

    /// The number of stored terms.
    pub fn len(&self) -> (r: usize)
        ensures
            r == self.terms().len(),
    {
        self.keys.len()
    }

    /// The term stored at position `i`.
    pub fn term(&self, i: usize) -> (r: &String)
        requires
            i < self.terms().len(),
        ensures
            r@ == self.terms()[i as int],
    {
        &self.keys[i]
    }

    /// The entries as (term, count) pairs, in storage order.
    pub closed spec fn listing(&self) -> Seq<(Seq<char>, nat)> {
        Seq::new(self.vals@.len(), |i: int| (self.terms()[i], self.vals@[i] as nat))
    }

    /// The listing names each term once, describes the table, and sums to
    /// the table's sum; in a table of positive counts every entry is positive.
    pub proof fn lemma_listing(&self)
        requires
            self.wf(),
        ensures
            self@.dom().finite(),
            keys_distinct(self.listing()),
            assoc(self.listing()) == self@,
            total(self.listing()) == self.sum(),
            self.positive() ==> forall|k: Seq<char>| #[trigger] self@.contains_key(k) ==> self@[k] > 0,
    {
        let e = self.listing();
        assert forall|a: int, b: int| 0 <= a < b < e.len() implies e[a].0 != e[b].0 by {
            assert(e[a].0 == self.terms()[a] && e[b].0 == self.terms()[b]);
        }
        assert forall|k: Seq<char>| assoc(e).contains_key(k) <==> self@.contains_key(k) by {
            lemma_assoc_contains(e, k);
            if self@.contains_key(k) {
                let j = choose|j: int| 0 <= j < self.terms().len() && self.terms()[j] == k;
                assert(e[j].0 == k);
            }
            if assoc(e).contains_key(k) {
                let j = choose|j: int| 0 <= j < e.len() && e[j].0 == k;
                assert(self.terms()[j] == k);
            }
        }
        assert forall|k: Seq<char>| assoc(e).contains_key(k) implies assoc(e)[k] == self@[k] by {
            lemma_assoc_contains(e, k);
            let j = choose|j: int| 0 <= j < e.len() && e[j].0 == k;
            lemma_assoc_value(e, j);
            assert(self.terms()[j] == k);
        }
        assert(assoc(e) =~= self@);
        lemma_total_listing(self.terms(), self.vals@);
        assert(e =~= Seq::new(self.vals@.len(), |i: int| (self.terms()[i], self.vals@[i] as nat)));
        if self.positive() {
            assert forall|k: Seq<char>| #[trigger] self@.contains_key(k) implies self@[k] > 0 by {
                let j = choose|j: int| 0 <= j < self.terms().len() && self.terms()[j] == k;
                assert(self.vals[j] > 0);
            }
        }
    }

    /// A table of positive counts that sum to zero has no entries.
    pub proof fn lemma_zero_sum_empty(&self)
        requires
            self.wf(),
            self.positive(),
            self.sum() == 0,
        ensures
            forall|k: Seq<char>| !self@.contains_key(k),
    {
        assert forall|k: Seq<char>| !self@.contains_key(k) by {
            if self@.contains_key(k) {
                let j = choose|j: int| 0 <= j < self.terms().len() && self.terms()[j] == k;
                lemma_seq_sum_ge(self.vals@, j);
                assert(self.vals[j] > 0);
            }
        }
    }

    /// The stored terms are exactly the keys of the table, each once.
    pub proof fn lemma_terms(&self)
        requires
            self.wf(),
        ensures
            self.terms().no_duplicates(),
            self.terms().to_set() == self@.dom(),
            self@.dom().finite(),
    {
        assert(self.terms().to_set() =~= self@.dom());
    }
}

/// Subtraction of one that stops at zero.
pub open spec fn sub_floor(n: nat) -> nat {
    if n > 0 {
        (n - 1) as nat
    } else {
        0
    }
}

} // verus!
