//! Encoding: expand input bytes to one token each, then replay the learned
//! rules strictly in order, one greedy non-overlapping pass per rule.

use vstd::prelude::*;
use vstd::utf8::encode_utf8;

use crate::merges::{apply_rules, lemma_apply_rules_snoc, merge_pass, seed_tokens, Token};
use crate::vocab::BytePairEncodingTokenizer;

verus! {

/// The input expanded to one token per byte.
pub(crate) fn byte_tokens(v: &str) -> (r: Vec<Token>)
    ensures
        r@ == seed_tokens(encode_utf8(v@)),
{
    let bytes = v.as_bytes();
    let mut toks: Vec<Token> = Vec::new();
    let mut i: usize = 0;
    while i < bytes.len()
        invariant
            i <= bytes@.len(),
            toks@.len() == i,
            forall|j: int| 0 <= j < i ==> toks@[j] == bytes@[j] as Token,
        decreases bytes@.len() - i,
    {
        toks.push(bytes[i] as Token);
        i = i + 1;
    }
    assert(toks@ =~= seed_tokens(bytes@));
    toks
}

/// One greedy left-to-right pass replacing `(fst, snd)` with `t`.
pub(crate) fn merge_pass_exec(s: &Vec<Token>, fst: Token, snd: Token, t: Token) -> (r: Vec<
    Token,
>)
    ensures
        r@ == merge_pass(s@, (fst, snd), t),
{
    let ghost p = (fst, snd);
    let mut out: Vec<Token> = Vec::new();
    let mut i: usize = 0;
    proof {
        assert(s@.skip(0) =~= s@);
        assert(Seq::<Token>::empty() + merge_pass(s@, p, t) =~= merge_pass(s@, p, t));
    }
    while i < s.len()
        invariant
            i <= s@.len(),
            out@ + merge_pass(s@.skip(i as int), p, t) == merge_pass(s@, p, t),
            p == (fst, snd),
        decreases s@.len() - i,
    {
        let ghost pre = out@;
        let ghost rest = s@.skip(i as int);
        if i + 1 < s.len() && s[i] == fst && s[i + 1] == snd {
            out.push(t);
            proof {
                assert(rest[0] == fst && rest[1] == snd);
                assert(rest.skip(2) =~= s@.skip(i as int + 2));
                assert(merge_pass(rest, p, t) == seq![t] + merge_pass(rest.skip(2), p, t));
                assert(out@ =~= pre + seq![t]);
                assert((pre + seq![t]) + merge_pass(s@.skip(i as int + 2), p, t) =~= pre + (
                seq![t] + merge_pass(s@.skip(i as int + 2), p, t)));
            }
            i = i + 2;
        } else {
            out.push(s[i]);
            proof {
                assert(rest[0] == s@[i as int]);
                assert(rest.drop_first() =~= s@.skip(i as int + 1));
                if rest.len() >= 2 {
                    assert(!(rest[0] == p.0 && rest[1] == p.1));
                    assert(merge_pass(rest, p, t) == seq![rest[0]] + merge_pass(
                        rest.drop_first(),
                        p,
                        t,
                    ));
                } else {
                    assert(rest.len() == 1);
                    assert(merge_pass(rest, p, t) == rest);
                    assert(s@.skip(i as int + 1).len() == 0);
                    assert(merge_pass(s@.skip(i as int + 1), p, t) == s@.skip(i as int + 1));
                    assert(rest =~= seq![rest[0]] + s@.skip(i as int + 1));
                }
                assert(out@ =~= pre + seq![rest[0]]);
                assert((pre + seq![rest[0]]) + merge_pass(s@.skip(i as int + 1), p, t) =~= pre + (
                seq![rest[0]] + merge_pass(s@.skip(i as int + 1), p, t)));
            }
            i = i + 1;
        }
    }
    proof {
        assert(s@.skip(s@.len() as int).len() == 0);
        assert(merge_pass(s@.skip(s@.len() as int), p, t) =~= Seq::<Token>::empty());
        assert(out@ + Seq::<Token>::empty() =~= out@);
    }
    out
}

impl BytePairEncodingTokenizer {
    /// Encode text into tokens: one token per input byte, then every learned
    /// rule replayed in order with the same greedy non-overlapping pass that
    /// training used. Rule order is load-bearing: a later rule's operands may
    /// exist only after an earlier rule created them.
    pub fn encode(&self, v: &str) -> (r: Vec<Token>)
        ensures
            r@ == apply_rules(self.rules(), seed_tokens(encode_utf8(v@))),
    {
        let mut current = byte_tokens(v);
        let ghost seeds = seed_tokens(encode_utf8(v@));
        let mut i: usize = 0;
        while i < self.encoding_table.len()
            invariant
                i <= self.rules().len(),
                current@ == apply_rules(self.rules().take(i as int), seeds),
            decreases self.rules().len() - i,
        {
            let ((fst, snd), tkn) = self.encoding_table[i];
            let next = merge_pass_exec(&current, fst, snd, tkn);
            proof {
                lemma_apply_rules_snoc(self.rules(), i as int, seeds);
                assert(self.rules()[i as int] == ((fst, snd), tkn));
            }
            current = next;
            i = i + 1;
        }
        proof {
            assert(self.rules().take(self.rules().len() as int) =~= self.rules());
        }
        current
    }
}

} // verus!
