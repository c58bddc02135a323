//! The vocabulary store: the decoding table from token ids to byte
//! expansions and the ordered list of learned merge rules.

use vstd::prelude::*;

use crate::error::TokenizerError;
use crate::merges::{MergeRule, Token};

verus! {

/// The decoding table every store starts from: entry `i` is the single byte
/// `i`, for `i` in `0..=255`.
pub open spec fn seed_table() -> Seq<Seq<u8>> {
    Seq::new(256, |i: int| seq![i as u8])
}

/// Well-formedness of a store model: the table opens with the 256 single-byte
/// seed entries, and rule `i` maps a pair of already-existing tokens to the
/// token `256 + i`, whose entry is the concatenation of its operands' entries.
pub open spec fn store_wf(dt: Seq<Seq<u8>>, rules: Seq<MergeRule>) -> bool {
    &&& dt.len() == 256 + rules.len()
    &&& forall|i: int| 0 <= i < 256 ==> dt[i] == seq![i as u8]
    &&& forall|i: int|
        0 <= i < rules.len() ==> {
            &&& (#[trigger] rules[i]).1 as int == 256 + i
            &&& (rules[i].0.0 as int) < 256 + i
            &&& (rules[i].0.1 as int) < 256 + i
            &&& dt[256 + i] == dt[rules[i].0.0 as int] + dt[rules[i].0.1 as int]
        }
}

/// A trained (or training) byte pair encoding vocabulary: the decoding table
/// and the merge rules in the order they were learned.
#[derive(Debug, PartialEq, Eq)]
pub struct BytePairEncodingTokenizer {
    /// Byte expansion of each token, indexed by token id.
    pub decoding_table: Vec<Vec<u8>>,
    /// Learned rules, in discovery order.
    pub encoding_table: Vec<MergeRule>,
}

impl BytePairEncodingTokenizer {
    /// The decoding table as a sequence of byte sequences.
    pub open spec fn dt(&self) -> Seq<Seq<u8>> {
        Seq::new(self.decoding_table@.len(), |i: int| self.decoding_table@[i]@)
    }

    /// The rule list as a sequence.
    pub open spec fn rules(&self) -> Seq<MergeRule> {
        self.encoding_table@
    }

    /// The store's internal invariant.
    pub open spec fn wf(&self) -> bool {
        store_wf(self.dt(), self.rules())
    }

    /// A fresh store: the 256 single-byte seed entries and no rules.
    pub fn new() -> (r: Self)
        ensures
            r.wf(),
            r.dt() == seed_table(),
            r.rules() == Seq::<MergeRule>::empty(),
    {
        let mut decoding_table: Vec<Vec<u8>> = Vec::new();
        let mut i: usize = 0;
        while i < 256
            invariant
                i <= 256,
                decoding_table@.len() == i,
                forall|j: int| 0 <= j < i ==> decoding_table@[j]@ == seq![j as u8],
            decreases 256 - i,
        {
            let mut entry: Vec<u8> = Vec::new();
            entry.push(i as u8);
            assert(entry@ =~= seq![i as u8]);
            decoding_table.push(entry);
            i = i + 1;
        }
        let r = BytePairEncodingTokenizer { decoding_table, encoding_table: Vec::new() };
        assert(r.dt() =~= seed_table());
        r
    }

    /// The number of tokens currently in the vocabulary.
    pub fn vocab_size(&self) -> (n: usize)
        ensures
            n == self.dt().len(),
    {
        self.decoding_table.len()
    }

    /// The byte expansion of `token`; `OutOfRange` when the id has not been
    /// assigned. Internal callers never trigger the error.
    pub fn decode_token(&self, token: Token) -> (r: Result<&Vec<u8>, TokenizerError>)
        ensures
            match r {
                Ok(bytes) => (token as int) < self.dt().len() && bytes@ == self.dt()[token as int],
                Err(e) => (token as int) >= self.dt().len() && e == TokenizerError::OutOfRange,
            },
    {
        if (token as usize) < self.decoding_table.len() {
            Ok(&self.decoding_table[token as usize])
        } else {
            Err(TokenizerError::OutOfRange)
        }
    }

    /// Mint a new token for `pair`: its entry is the concatenation of the
    /// operands' entries, and the rule is appended. `Configuration` when the
    /// new id would not be representable; the store is then unchanged.
    pub fn add_pair_rule(&mut self, pair: (Token, Token)) -> (r: Result<
        Token,
        TokenizerError,
    >)
        requires
            old(self).wf(),
            (pair.0 as int) < old(self).dt().len(),
            (pair.1 as int) < old(self).dt().len(),
        ensures
            match r {
                Ok(t) => {
                    &&& old(self).dt().len() < u32::MAX as int
                    &&& t as int == old(self).dt().len()
                    &&& final(self).dt() == old(self).dt().push(
                        old(self).dt()[pair.0 as int] + old(self).dt()[pair.1 as int],
                    )
                    &&& final(self).rules() == old(self).rules().push((pair, t))
                    &&& final(self).wf()
                },
                Err(e) => {
                    &&& e == TokenizerError::Configuration
                    &&& old(self).dt().len() >= u32::MAX as int
                    &&& final(self).dt() == old(self).dt()
                    &&& final(self).rules() == old(self).rules()
                },
            },
    {
        if self.decoding_table.len() >= u32::MAX as usize {
            return Err(TokenizerError::Configuration);
        }
        let mut entry = clone_bytes(&self.decoding_table[pair.0 as usize]);
        let second = clone_bytes(&self.decoding_table[pair.1 as usize]);
        let mut k: usize = 0;
        while k < second.len()
            invariant
                k <= second@.len(),
                entry@ == old(self).dt()[pair.0 as int] + second@.take(k as int),
                second@ == old(self).dt()[pair.1 as int],
            decreases second@.len() - k,
        {
            entry.push(second[k]);
            assert(old(self).dt()[pair.0 as int] + second@.take(k as int) + seq![second@[k as int]]
                =~= old(self).dt()[pair.0 as int] + second@.take(k as int + 1));
            k = k + 1;
        }
        assert(entry@ == old(self).dt()[pair.0 as int] + old(self).dt()[pair.1 as int]) by {
            assert(second@.take(second@.len() as int) =~= second@);
        }
        let new_token_num = self.decoding_table.len() as Token;
        self.decoding_table.push(entry);
        self.encoding_table.push((pair, new_token_num));
        assert(self.dt() =~= old(self).dt().push(
            old(self).dt()[pair.0 as int] + old(self).dt()[pair.1 as int],
        ));
        assert(self.wf()) by {
            assert forall|i: int| 0 <= i < 256 implies self.dt()[i] == seq![i as u8] by {
                assert(self.dt()[i] == old(self).dt()[i]);
            }
            assert forall|i: int| 0 <= i < self.rules().len() implies {
                &&& (#[trigger] self.rules()[i]).1 as int == 256 + i
                &&& (self.rules()[i].0.0 as int) < 256 + i
                &&& (self.rules()[i].0.1 as int) < 256 + i
                &&& self.dt()[256 + i] == self.dt()[self.rules()[i].0.0 as int]
                    + self.dt()[self.rules()[i].0.1 as int]
            } by {
                if i < old(self).rules().len() {
                    assert(old(self).rules()[i] == self.rules()[i]);
                }
            }
        }
        Ok(new_token_num)
    }
}

impl Default for BytePairEncodingTokenizer {
    /// Same as [`BytePairEncodingTokenizer::new`].
    fn default() -> (r: Self)
        ensures
            r.wf(),
            r.dt() == seed_table(),
            r.rules() == Seq::<MergeRule>::empty(),
    {
        Self::new()
    }
}

/// An element-wise copy of a byte vector.
pub(crate) fn clone_bytes(v: &Vec<u8>) -> (r: Vec<u8>)
    ensures
        r@ == v@,
{
    let mut r: Vec<u8> = Vec::new();
    let mut i: usize = 0;
    while i < v.len()
        invariant
            i <= v@.len(),
            r@ == v@.take(i as int),
        decreases v@.len() - i,
    {
        r.push(v[i]);
        assert(v@.take(i as int) + seq![v@[i as int]] =~= v@.take(i as int + 1));
        i = i + 1;
    }
    assert(v@.take(v@.len() as int) =~= v@);
    r
}

} // verus!
