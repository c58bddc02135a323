//! The incremental index of adjacent-pair counts for one evolving token
//! sequence. Entries are kept in a vector with unique keys; a zero count
//! stays tracked, exactly as a decrement leaves it.

use vstd::prelude::*;
use vstd::pervasive::VecAdditionalExecFns;

use crate::merges::{lemma_pair_count_bound, lemma_pair_count_concat, pair_count, Token};

verus! {

/// Strict lexicographic order on the composite selection key
/// (count, left token, right token).
pub open spec fn pair_key_lt(c1: nat, p1: (Token, Token), c2: nat, p2: (Token, Token)) -> bool {
    ||| c1 < c2
    ||| (c1 == c2 && p1.0 < p2.0)
    ||| (c1 == c2 && p1.0 == p2.0 && p1.1 < p2.1)
}

/// Exact multiset of adjacent-pair counts for one tokenized sequence,
/// maintained incrementally while the sequence is rewritten.
pub struct TokenPairCounter {
    /// Tracked pairs with their maintained counts; keys are unique.
    pub counts: Vec<((Token, Token), usize)>,
}

impl TokenPairCounter {
    /// Keys occur at most once.
    pub open spec fn wf(&self) -> bool {
        forall|i: int, j: int|
            0 <= i < j < self.counts@.len() ==> (#[trigger] self.counts@[i]).0 != (
            #[trigger] self.counts@[j]).0
    }

    /// Whether `p` has an entry (possibly with count zero).
    pub open spec fn tracked_pair(&self, p: (Token, Token)) -> bool {
        exists|i: int| 0 <= i < self.counts@.len() && (#[trigger] self.counts@[i]).0 == p
    }

    /// The stored count of a tracked pair.
    pub open spec fn stored(&self, p: (Token, Token)) -> usize {
        self.counts@[choose|i: int|
            0 <= i < self.counts@.len() && (#[trigger] self.counts@[i]).0 == p].1
    }

    /// The maintained count of `p`: the stored count, or zero when untracked.
    pub open spec fn total(&self, p: (Token, Token)) -> nat {
        if self.tracked_pair(p) {
            self.stored(p) as nat
        } else {
            0
        }
    }

    /// The index is exact for sequence `s`: every tracked count equals a
    /// from-scratch recount, and every pair that occurs is tracked.
    pub open spec fn counts_match(&self, s: Seq<Token>) -> bool {
        &&& forall|p: (Token, Token)|
            #[trigger] self.tracked_pair(p) ==> self.total(p) == pair_count(s, p)
        &&& forall|p: (Token, Token)| pair_count(s, p) > 0 ==> #[trigger] self.tracked_pair(p)
    }

    /// Under `wf`, any entry whose key is `p` holds the stored count of `p`.
    proof fn lemma_stored_at(&self, p: (Token, Token), i: int)
        requires
            self.wf(),
            0 <= i < self.counts@.len(),
            self.counts@[i].0 == p,
        ensures
            self.stored(p) == self.counts@[i].1,
            self.tracked_pair(p),
    {
        let j = choose|j: int| 0 <= j < self.counts@.len() && (#[trigger] self.counts@[j]).0 == p;
        if i != j {
            if i < j {
                assert(self.counts@[i].0 != self.counts@[j].0);
            } else {
                assert(self.counts@[j].0 != self.counts@[i].0);
            }
        }
    }

    /// Build the exact index of a sequence by one scan over its adjacent
    /// pairs. Sequences of fewer than two tokens have no pairs; callers
    /// special-case them before building.
    pub fn new(v: &Vec<Token>) -> (r: Self)
        requires
            v@.len() >= 2,
        ensures
            r.wf(),
            r.counts_match(v@),
    {
        let mut s = TokenPairCounter { counts: Vec::new() };
        let mut i: usize = 1;
        proof {
            assert(s.counts@.len() == 0);
            assert(forall|q: (Token, Token)| !(#[trigger] s.tracked_pair(q)));
            assert(v@.take(1).len() == 1);
        }
        while i < v.len()
            invariant
                1 <= i <= v@.len(),
                s.wf(),
                s.counts_match(v@.take(i as int)),
            decreases v@.len() - i,
        {
            let a = v[i - 1];
            let b = v[i];
            let ghost pre = s;
            proof {
                lemma_pair_count_bound(v@.take(i as int), (a, b));
                if s.tracked_pair((a, b)) {
                    assert(s.total((a, b)) == pair_count(v@.take(i as int), (a, b)));
                }
                assert(s.total((a, b)) < usize::MAX);
            }
            s.inc((a, b));
            proof {
                assert(v@.take(i as int + 1) =~= v@.take(i as int) + seq![v@[i as int]]);
                assert(v@.take(i as int).last() == a);
                assert forall|q: (Token, Token)| #[trigger] s.tracked_pair(q) implies s.total(q)
                    == pair_count(v@.take(i as int + 1), q) by {
                    lemma_pair_count_concat(v@.take(i as int), seq![v@[i as int]], q);
                    assert(pair_count(seq![v@[i as int]], q) == 0);
                    assert(q == (q.0, q.1));
                    if pre.tracked_pair(q) {
                        assert(pre.total(q) == pair_count(v@.take(i as int), q));
                    } else {
                        assert(pair_count(v@.take(i as int), q) == 0);
                        assert(pre.total(q) == 0);
                    }
                }
                assert forall|q: (Token, Token)|
                    pair_count(v@.take(i as int + 1), q) > 0 implies #[trigger] s.tracked_pair(
                    q,
                ) by {
                    lemma_pair_count_concat(v@.take(i as int), seq![v@[i as int]], q);
                    assert(pair_count(seq![v@[i as int]], q) == 0);
                    assert(q == (q.0, q.1));
                    if pair_count(v@.take(i as int), q) > 0 {
                        assert(pre.tracked_pair(q));
                    }
                }
                assert(s.counts_match(v@.take(i as int + 1)));
            }
            i = i + 1;
        }
        proof {
            assert(v@.take(v@.len() as int) =~= v@);
        }
        s
    }

    /// Index of the entry for `key`, when one exists.
    fn find(&self, key: (Token, Token)) -> (r: Option<usize>)
        ensures
            match r {
                Some(i) => i < self.counts@.len() && self.counts@[i as int].0 == key,
                None => !self.tracked_pair(key),
            },
    {
        let mut i: usize = 0;
        while i < self.counts.len()
            invariant
                i <= self.counts@.len(),
                forall|j: int| 0 <= j < i ==> (#[trigger] self.counts@[j]).0 != key,
            decreases self.counts@.len() - i,
        {
            let entry = self.counts[i];
            if entry.0.0 == key.0 && entry.0.1 == key.1 {
                return Some(i);
            }
            i = i + 1;
        }
        None
    }

    /// Raise the count of `key` by one, tracking it if it was not yet.
    pub fn inc(&mut self, key: (Token, Token))
        requires
            old(self).wf(),
            old(self).total(key) < usize::MAX,
        ensures
            final(self).wf(),
            final(self).tracked_pair(key),
            final(self).total(key) == old(self).total(key) + 1,
            forall|q: (Token, Token)|
                q != key ==> (#[trigger] final(self).tracked_pair(q) <==> old(self).tracked_pair(
                    q,
                )),
            forall|q: (Token, Token)|
                q != key ==> #[trigger] final(self).total(q) == old(self).total(q),
    {
        match self.find(key) {
            Some(i) => {
                proof {
                    self.lemma_stored_at(key, i as int);
                }
                let c = self.counts[i].1;
                self.counts.set(i, (key, c + 1));
                proof {
                    assert(self.wf()) by {
                        assert forall|a: int, b: int|
                            0 <= a < b < self.counts@.len() implies (#[trigger] self.counts@[a]).0
                            != (#[trigger] self.counts@[b]).0 by {
                            assert(old(self).counts@[a].0 != old(self).counts@[b].0);
                        }
                    }
                    self.lemma_stored_at(key, i as int);
                    assert forall|q: (Token, Token)| q != key implies (#[trigger] self.tracked_pair(
                        q,
                    ) <==> old(self).tracked_pair(q)) by {
                        if self.tracked_pair(q) {
                            let a = choose|a: int|
                                0 <= a < self.counts@.len() && (#[trigger] self.counts@[a]).0 == q;
                            assert(old(self).counts@[a].0 == q);
                        }
                        if old(self).tracked_pair(q) {
                            let a = choose|a: int|
                                0 <= a < old(self).counts@.len() && (#[trigger] old(
                                    self,
                                ).counts@[a]).0 == q;
                            assert(self.counts@[a].0 == q);
                        }
                    }
                    assert forall|q: (Token, Token)| q != key implies #[trigger] self.total(q)
                        == old(self).total(q) by {
                        if self.tracked_pair(q) {
                            let a = choose|a: int|
                                0 <= a < self.counts@.len() && (#[trigger] self.counts@[a]).0 == q;
                            self.lemma_stored_at(q, a);
                            old(self).lemma_stored_at(q, a);
                        }
                    }
                }
            },
            None => {
                self.counts.push((key, 1));
                proof {
                    let n = old(self).counts@.len() as int;
                    assert(self.counts@ == old(self).counts@.push((key, 1usize)));
                    assert(self.wf()) by {
                        assert forall|a: int, b: int|
                            0 <= a < b < self.counts@.len() implies (#[trigger] self.counts@[a]).0
                            != (#[trigger] self.counts@[b]).0 by {
                            if b < n {
                                assert(old(self).counts@[a].0 != old(self).counts@[b].0);
                            } else {
                                assert(self.counts@[b] == (key, 1usize));
                                assert(old(self).counts@[a].0 == self.counts@[a].0);
                                assert(!old(self).tracked_pair(key));
                            }
                        }
                    }
                    self.lemma_stored_at(key, n);
                    assert forall|q: (Token, Token)| q != key implies (#[trigger] self.tracked_pair(
                        q,
                    ) <==> old(self).tracked_pair(q)) by {
                        if self.tracked_pair(q) {
                            let a = choose|a: int|
                                0 <= a < self.counts@.len() && (#[trigger] self.counts@[a]).0 == q;
                            assert(a < n);
                            assert(old(self).counts@[a].0 == q);
                        }
                        if old(self).tracked_pair(q) {
                            let a = choose|a: int|
                                0 <= a < old(self).counts@.len() && (#[trigger] old(
                                    self,
                                ).counts@[a]).0 == q;
                            assert(self.counts@[a].0 == q);
                        }
                    }
                    assert forall|q: (Token, Token)| q != key implies #[trigger] self.total(q)
                        == old(self).total(q) by {
                        if self.tracked_pair(q) {
                            let a = choose|a: int|
                                0 <= a < self.counts@.len() && (#[trigger] self.counts@[a]).0 == q;
                            assert(a < n);
                            self.lemma_stored_at(q, a);
                            old(self).lemma_stored_at(q, a);
                        }
                    }
                }
            },
        }
    }

    /// Lower the count of `key` by one. Calling this on a pair whose count is
    /// zero or that is untracked is a precondition violation, not a clamp.
    pub fn dec_unsafe(&mut self, key: &(Token, Token))
        requires
            old(self).wf(),
            old(self).tracked_pair(*key),
            old(self).total(*key) >= 1,
        ensures
            final(self).wf(),
            final(self).tracked_pair(*key),
            final(self).total(*key) == old(self).total(*key) - 1,
            forall|q: (Token, Token)|
                q != *key ==> (#[trigger] final(self).tracked_pair(q) <==> old(self).tracked_pair(
                    q,
                )),
            forall|q: (Token, Token)|
                q != *key ==> #[trigger] final(self).total(q) == old(self).total(q),
    {
        let k = *key;
        match self.find(k) {
            Some(i) => {
                proof {
                    self.lemma_stored_at(k, i as int);
                }
                let c = self.counts[i].1;
                self.counts.set(i, (k, c - 1));
                proof {
                    assert(self.wf()) by {
                        assert forall|a: int, b: int|
                            0 <= a < b < self.counts@.len() implies (#[trigger] self.counts@[a]).0
                            != (#[trigger] self.counts@[b]).0 by {
                            assert(old(self).counts@[a].0 != old(self).counts@[b].0);
                        }
                    }
                    self.lemma_stored_at(k, i as int);
                    assert forall|q: (Token, Token)| q != k implies (#[trigger] self.tracked_pair(
                        q,
                    ) <==> old(self).tracked_pair(q)) by {
                        if self.tracked_pair(q) {
                            let a = choose|a: int|
                                0 <= a < self.counts@.len() && (#[trigger] self.counts@[a]).0 == q;
                            assert(old(self).counts@[a].0 == q);
                        }
                        if old(self).tracked_pair(q) {
                            let a = choose|a: int|
                                0 <= a < old(self).counts@.len() && (#[trigger] old(
                                    self,
                                ).counts@[a]).0 == q;
                            assert(self.counts@[a].0 == q);
                        }
                    }
                    assert forall|q: (Token, Token)| q != k implies #[trigger] self.total(q) == old(
                        self,
                    ).total(q) by {
                        if self.tracked_pair(q) {
                            let a = choose|a: int|
                                0 <= a < self.counts@.len() && (#[trigger] self.counts@[a]).0 == q;
                            self.lemma_stored_at(q, a);
                            old(self).lemma_stored_at(q, a);
                        }
                    }
                }
            },
            None => {
                proof {
                    assert(false);
                }
            },
        }
    }

    /// The exact count of a pair known to be tracked.
    pub fn get_pair_count_unsafe(&self, key: &(Token, Token)) -> (c: usize)
        requires
            self.wf(),
            self.tracked_pair(*key),
        ensures
            c == self.total(*key),
    {
        match self.find(*key) {
            Some(i) => {
                proof {
                    self.lemma_stored_at(*key, i as int);
                }
                self.counts[i].1
            },
            None => {
                proof {
                    assert(false);
                }
                0
            },
        }
    }

    /// The tracked pair with the greatest composite key
    /// (count, left token, right token), or `None` when nothing is tracked.
    /// The composite key makes the winner unique, so selection never depends
    /// on iteration order.
    pub fn get_most_common_pair(&self) -> (r: Option<((Token, Token), usize)>)
        requires
            self.wf(),
        ensures
            match r {
                None => self.counts@.len() == 0,
                Some((p, c)) => {
                    &&& self.tracked_pair(p)
                    &&& c == self.total(p)
                    &&& forall|q: (Token, Token)|
                        #[trigger] self.tracked_pair(q) && q != p ==> pair_key_lt(
                            self.total(q),
                            q,
                            c as nat,
                            p,
                        )
                },
            },
    {
        if self.counts.len() == 0 {
            return None;
        }
        let first = self.counts[0];
        let mut best_p = first.0;
        let mut best_c = first.1;
        let mut i: usize = 1;
        while i < self.counts.len()
            invariant
                self.wf(),
                1 <= i <= self.counts@.len(),
                exists|j: int|
                    0 <= j < i && (#[trigger] self.counts@[j]) == ((best_p.0, best_p.1), best_c),
                forall|j: int|
                    0 <= j < i && (#[trigger] self.counts@[j]).0 != best_p ==> pair_key_lt(
                        self.counts@[j].1 as nat,
                        self.counts@[j].0,
                        best_c as nat,
                        best_p,
                    ),
            decreases self.counts@.len() - i,
        {
            let entry = self.counts[i];
            let (p, c) = entry;
            if c > best_c || (c == best_c && (p.0 > best_p.0 || (p.0 == best_p.0 && p.1
                > best_p.1))) {
                proof {
                    let jb = choose|j: int|
                        0 <= j < i && (#[trigger] self.counts@[j]) == ((best_p.0, best_p.1), best_c);
                    assert(self.counts@[jb].0 != p);
                    assert forall|j: int|
                        0 <= j < i + 1 && (#[trigger] self.counts@[j]).0 != p implies pair_key_lt(
                        self.counts@[j].1 as nat,
                        self.counts@[j].0,
                        c as nat,
                        p,
                    ) by {
                        if j < i && self.counts@[j].0 != best_p {
                            assert(pair_key_lt(
                                self.counts@[j].1 as nat,
                                self.counts@[j].0,
                                best_c as nat,
                                best_p,
                            ));
                        } else if j < i {
                            assert(self.counts@[j] == ((best_p.0, best_p.1), best_c)) by {
                                if jb < j {
                                    assert(self.counts@[jb].0 != self.counts@[j].0);
                                } else if j < jb {
                                    assert(self.counts@[j].0 != self.counts@[jb].0);
                                }
                            }
                        }
                    }
                }
                best_p = p;
                best_c = c;
            } else {
                proof {
                    if self.counts@[i as int].0 == best_p {
                        let jb = choose|j: int|
                            0 <= j < i && (#[trigger] self.counts@[j]) == (
                                (best_p.0, best_p.1),
                                best_c,
                            );
                        assert(self.counts@[jb].0 != self.counts@[i as int].0);
                        assert(false);
                    }
                    assert((best_p.0, best_p.1) == best_p);
                }
            }
            i = i + 1;
        }
        proof {
            let jb = choose|j: int|
                0 <= j < self.counts@.len() && (#[trigger] self.counts@[j]) == (
                    (best_p.0, best_p.1),
                    best_c,
                );
            self.lemma_stored_at(best_p, jb);
            assert forall|q: (Token, Token)| #[trigger] self.tracked_pair(q) && q
                != best_p implies pair_key_lt(self.total(q), q, best_c as nat, best_p) by {
                let a = choose|a: int|
                    0 <= a < self.counts@.len() && (#[trigger] self.counts@[a]).0 == q;
                self.lemma_stored_at(q, a);
            }
        }
        Some((best_p, best_c))
    }
}

} // verus!
