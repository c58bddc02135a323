//! The mathematical model of tokenized sequences: pair occurrence counts,
//! the greedy non-overlapping merge pass, ordered rule application, and the
//! byte expansion of a token sequence.

use vstd::prelude::*;

verus! {

/// A token id: 0..=255 name single bytes, later ids name learned merges.
pub type Token = u32;

/// One learned rule: the ordered pair that is replaced and the token that
/// replaces it.
pub type MergeRule = ((Token, Token), Token);

/// The token sequence that seeds training and encoding: one token per byte.
pub open spec fn seed_tokens(bytes: Seq<u8>) -> Seq<Token> {
    Seq::new(bytes.len(), |i: int| bytes[i] as Token)
}

/// Number of positions at which the ordered pair `p` occurs in `s`.
pub open spec fn pair_count(s: Seq<Token>, p: (Token, Token)) -> nat
    decreases s.len(),
{
    if s.len() < 2 {
        0
    } else {
        (if s[0] == p.0 && s[1] == p.1 {
            1nat
        } else {
            0nat
        }) + pair_count(s.drop_first(), p)
    }
}

/// One greedy, non-overlapping, left-to-right replacement pass: wherever two
/// adjacent tokens match `p` they become `t`, and the scan skips both.
pub open spec fn merge_pass(s: Seq<Token>, p: (Token, Token), t: Token) -> Seq<Token>
    decreases s.len(),
{
    if s.len() < 2 {
        s
    } else if s[0] == p.0 && s[1] == p.1 {
        seq![t] + merge_pass(s.skip(2), p, t)
    } else {
        seq![s[0]] + merge_pass(s.drop_first(), p, t)
    }
}

/// Apply the rules in learned order, one full greedy pass each.
pub open spec fn apply_rules(rules: Seq<MergeRule>, s: Seq<Token>) -> Seq<Token>
    decreases rules.len(),
{
    if rules.len() == 0 {
        s
    } else {
        apply_rules(rules.drop_first(), merge_pass(s, rules[0].0, rules[0].1))
    }
}

/// Every token of `s` is a valid index below `bound`.
pub open spec fn tokens_below(s: Seq<Token>, bound: int) -> bool {
    forall|i: int| 0 <= i < s.len() ==> (s[i] as int) < bound
}

/// The bytes that a token sequence expands to under decoding table `dt`.
pub open spec fn expand_tokens(dt: Seq<Seq<u8>>, s: Seq<Token>) -> Seq<u8>
    decreases s.len(),
{
    if s.len() == 0 {
        Seq::empty()
    } else {
        dt[s[0] as int] + expand_tokens(dt, s.drop_first())
    }
}

/// Splitting a sequence splits its pair count into the two parts' counts plus
/// one for the pair that straddles the boundary, if it matches `p`.
pub proof fn lemma_pair_count_concat(a: Seq<Token>, b: Seq<Token>, p: (Token, Token))
    ensures
        pair_count(a + b, p) == pair_count(a, p) + pair_count(b, p) + (if a.len() > 0 && b.len()
            > 0 && a.last() == p.0 && b[0] == p.1 {
            1nat
        } else {
            0nat
        }),
    decreases a.len(),
{
    if a.len() == 0 {
        assert(a + b =~= b);
    } else if a.len() == 1 {
        if b.len() == 0 {
            assert(a + b =~= a);
        } else {
            assert((a + b).drop_first() =~= b);
            assert((a + b)[0] == a[0] && (a + b)[1] == b[0]);
        }
    } else {
        assert((a + b).drop_first() =~= a.drop_first() + b);
        lemma_pair_count_concat(a.drop_first(), b, p);
        assert(a.drop_first().last() == a.last());
    }
}

/// The ordered pair `p` stands at position `i` of `s`.
pub open spec fn pair_at(s: Seq<Token>, p: (Token, Token), i: int) -> bool {
    0 <= i < s.len() - 1 && s[i] == p.0 && s[i + 1] == p.1
}

/// A pair has a positive count exactly when it occurs at some position.
pub proof fn lemma_pair_count_positive(s: Seq<Token>, p: (Token, Token))
    ensures
        pair_count(s, p) > 0 <==> exists|i: int| #[trigger] pair_at(s, p, i),
    decreases s.len(),
{
    if s.len() < 2 {
        assert forall|i: int| !(#[trigger] pair_at(s, p, i)) by {}
    } else {
        lemma_pair_count_positive(s.drop_first(), p);
        if s[0] == p.0 && s[1] == p.1 {
            let z: int = 0;
            assert(pair_at(s, p, z));
        } else if pair_count(s, p) > 0 {
            let j = choose|j: int| #[trigger] pair_at(s.drop_first(), p, j);
            assert(s[j + 1] == p.0 && s[j + 2] == p.1);
            assert(pair_at(s, p, j + 1));
        } else {
            assert forall|i: int| !(#[trigger] pair_at(s, p, i)) by {
                if i > 0 && i < s.len() - 1 {
                    assert(s.drop_first()[i - 1] == s[i] && s.drop_first()[i] == s[i + 1]);
                    assert(!pair_at(s.drop_first(), p, i - 1));
                }
            }
        }
    }
}

/// A pair occurs strictly fewer times than the sequence is long.
pub proof fn lemma_pair_count_bound(s: Seq<Token>, p: (Token, Token))
    ensures
        s.len() >= 1 ==> pair_count(s, p) < s.len(),
    decreases s.len(),
{
    if s.len() >= 2 {
        lemma_pair_count_bound(s.drop_first(), p);
    }
}

/// A merge pass never lengthens the sequence, and shortens it whenever the
/// pair occurs at all.
pub proof fn lemma_merge_pass_len(s: Seq<Token>, p: (Token, Token), t: Token)
    ensures
        merge_pass(s, p, t).len() <= s.len(),
        pair_count(s, p) > 0 ==> merge_pass(s, p, t).len() < s.len(),
        s.len() > 0 ==> merge_pass(s, p, t).len() > 0,
    decreases s.len(),
{
    if s.len() < 2 {
        lemma_pair_count_positive(s, p);
    } else if s[0] == p.0 && s[1] == p.1 {
        lemma_merge_pass_len(s.skip(2), p, t);
    } else {
        lemma_merge_pass_len(s.drop_first(), p, t);
        if pair_count(s, p) > 0 {
        }
    }
}

/// A merge pass introduces no token other than `t`.
pub proof fn lemma_merge_pass_tokens_below(s: Seq<Token>, p: (Token, Token), t: Token, bound: int)
    requires
        tokens_below(s, bound),
        (t as int) < bound,
    ensures
        tokens_below(merge_pass(s, p, t), bound),
    decreases s.len(),
{
    if s.len() < 2 {
    } else if s[0] == p.0 && s[1] == p.1 {
        assert(tokens_below(s.skip(2), bound));
        lemma_merge_pass_tokens_below(s.skip(2), p, t, bound);
        assert forall|i: int| 0 <= i < merge_pass(s, p, t).len() implies (merge_pass(s, p, t)[i]
            as int) < bound by {
            if i > 0 {
                assert(merge_pass(s, p, t)[i] == merge_pass(s.skip(2), p, t)[i - 1]);
            }
        }
    } else {
        assert(tokens_below(s.drop_first(), bound));
        lemma_merge_pass_tokens_below(s.drop_first(), p, t, bound);
        assert forall|i: int| 0 <= i < merge_pass(s, p, t).len() implies (merge_pass(s, p, t)[i]
            as int) < bound by {
            if i > 0 {
                assert(merge_pass(s, p, t)[i] == merge_pass(s.drop_first(), p, t)[i - 1]);
            }
        }
    }
}

/// Expansion distributes over concatenation.
pub proof fn lemma_expand_concat(dt: Seq<Seq<u8>>, a: Seq<Token>, b: Seq<Token>)
    ensures
        expand_tokens(dt, a + b) == expand_tokens(dt, a) + expand_tokens(dt, b),
    decreases a.len(),
{
    if a.len() == 0 {
        assert(a + b =~= b);
        assert(expand_tokens(dt, a) + expand_tokens(dt, b) =~= expand_tokens(dt, b));
    } else {
        assert((a + b).drop_first() =~= a.drop_first() + b);
        lemma_expand_concat(dt, a.drop_first(), b);
        assert((a + b)[0] == a[0]);
        assert(expand_tokens(dt, a) + expand_tokens(dt, b) =~= dt[a[0] as int] + (expand_tokens(
            dt,
            a.drop_first(),
        ) + expand_tokens(dt, b)));
    }
}

/// Rule application chains: applying a concatenation of rule lists applies
/// the first list, then the second.
pub proof fn lemma_apply_rules_concat(a: Seq<MergeRule>, b: Seq<MergeRule>, s: Seq<Token>)
    ensures
        apply_rules(a + b, s) == apply_rules(b, apply_rules(a, s)),
    decreases a.len(),
{
    if a.len() == 0 {
        assert(a + b =~= b);
    } else {
        assert((a + b).drop_first() =~= a.drop_first() + b);
        assert((a + b)[0] == a[0]);
        lemma_apply_rules_concat(a.drop_first(), b, merge_pass(s, a[0].0, a[0].1));
    }
}

/// Applying one more rule is one more merge pass.
pub proof fn lemma_apply_rules_snoc(rules: Seq<MergeRule>, i: int, s: Seq<Token>)
    requires
        0 <= i < rules.len(),
    ensures
        apply_rules(rules.take(i + 1), s) == merge_pass(
            apply_rules(rules.take(i), s),
            rules[i].0,
            rules[i].1,
        ),
{
    assert(rules.take(i + 1) =~= rules.take(i) + seq![rules[i]]);
    lemma_apply_rules_concat(rules.take(i), seq![rules[i]], s);
    let mid = apply_rules(rules.take(i), s);
    assert(seq![rules[i]].drop_first() =~= Seq::<MergeRule>::empty());
    assert(apply_rules(Seq::<MergeRule>::empty(), merge_pass(mid, rules[i].0, rules[i].1))
        == merge_pass(mid, rules[i].0, rules[i].1));
}

/// A single token expands to its table entry.
pub proof fn lemma_expand_singleton(dt: Seq<Seq<u8>>, x: Token)
    ensures
        expand_tokens(dt, seq![x]) == dt[x as int],
{
    assert(seq![x].drop_first() =~= Seq::<Token>::empty());
    assert(expand_tokens(dt, Seq::<Token>::empty()) == Seq::<u8>::empty());
    assert(expand_tokens(dt, seq![x]) == dt[x as int] + expand_tokens(
        dt,
        seq![x].drop_first(),
    ));
    assert(dt[x as int] + Seq::<u8>::empty() =~= dt[x as int]);
}

/// A merge pass leaves the byte expansion unchanged when the new token
/// expands to the concatenation of the pair's expansions.
pub proof fn lemma_merge_pass_expand(dt: Seq<Seq<u8>>, s: Seq<Token>, p: (Token, Token), t: Token)
    requires
        dt[t as int] == dt[p.0 as int] + dt[p.1 as int],
    ensures
        expand_tokens(dt, merge_pass(s, p, t)) == expand_tokens(dt, s),
    decreases s.len(),
{
    if s.len() < 2 {
    } else if s[0] == p.0 && s[1] == p.1 {
        lemma_merge_pass_expand(dt, s.skip(2), p, t);
        lemma_expand_concat(dt, seq![t], merge_pass(s.skip(2), p, t));
        lemma_expand_singleton(dt, t);
        assert(s.drop_first().drop_first() =~= s.skip(2));
        assert(s.drop_first()[0] == p.1);
        assert(expand_tokens(dt, s.drop_first()) == dt[p.1 as int] + expand_tokens(
            dt,
            s.skip(2),
        ));
        assert(expand_tokens(dt, s) == dt[p.0 as int] + (dt[p.1 as int] + expand_tokens(
            dt,
            s.skip(2),
        )));
        assert((dt[p.0 as int] + dt[p.1 as int]) + expand_tokens(dt, s.skip(2)) =~= dt[p.0 as int]
            + (dt[p.1 as int] + expand_tokens(dt, s.skip(2))));
    } else {
        lemma_merge_pass_expand(dt, s.drop_first(), p, t);
        lemma_expand_concat(dt, seq![s[0]], merge_pass(s.drop_first(), p, t));
        lemma_expand_singleton(dt, s[0]);
    }
}

} // verus!
