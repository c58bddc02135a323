//! Training: repeatedly select the most frequent adjacent pair (ties broken
//! by the composite key: count, then left token id, then right token id,
//! higher wins), mint a token for it, and rewrite the working sequence in one
//! greedy pass while keeping the pair index exact — never rescanning.

use vstd::prelude::*;
use vstd::utf8::encode_utf8;

use crate::codec::byte_tokens;
use crate::counter::{pair_key_lt, TokenPairCounter};
use crate::merges::{
    lemma_merge_pass_len, lemma_pair_count_bound, lemma_pair_count_concat,
    lemma_pair_count_positive, merge_pass, pair_at, pair_count, seed_tokens, tokens_below,
    MergeRule, Token,
};
use crate::vocab::{seed_table, BytePairEncodingTokenizer};

verus! {

/// The best adjacent pair among positions `i..`, by the composite key.
spec fn best_from(v: Seq<Token>, i: int) -> (Token, Token)
    recommends
        0 <= i <= v.len() - 2,
    decreases v.len() - i,
{
    if i >= v.len() - 2 {
        (v[i], v[i + 1])
    } else {
        let cand = (v[i], v[i + 1]);
        let rest = best_from(v, i + 1);
        if pair_key_lt(pair_count(v, cand), cand, pair_count(v, rest), rest) {
            rest
        } else {
            cand
        }
    }
}

/// `p` occurs in `v` and every other occurring pair has a strictly smaller
/// composite key.
pub open spec fn is_best_pair(v: Seq<Token>, p: (Token, Token)) -> bool {
    &&& pair_count(v, p) > 0
    &&& forall|q: (Token, Token)|
        #[trigger] pair_count(v, q) > 0 && q != p ==> pair_key_lt(
            pair_count(v, q),
            q,
            pair_count(v, p),
            p,
        )
}

/// The winning pair of one training round: the unique occurring pair with
/// the greatest composite key.
pub open spec fn best_pair(v: Seq<Token>) -> (Token, Token) {
    choose|p: (Token, Token)| is_best_pair(v, p)
}

/// `best_from` returns an occurring pair that no later-or-equal position
/// beats.
proof fn lemma_best_from(v: Seq<Token>, i: int)
    requires
        0 <= i <= v.len() - 2,
    ensures
        ({
            let b = best_from(v, i);
            &&& exists|jj: int| i <= jj && #[trigger] pair_at(v, b, jj)
            &&& forall|q: (Token, Token), jj: int|
                i <= jj && #[trigger] pair_at(v, q, jj) ==> q == b || pair_key_lt(
                    pair_count(v, q),
                    q,
                    pair_count(v, b),
                    b,
                )
        }),
    decreases v.len() - i,
{
    let b = best_from(v, i);
    let cand = (v[i], v[i + 1]);
    assert(pair_at(v, cand, i));
    if i >= v.len() - 2 {
        assert forall|q: (Token, Token), jj: int|
            i <= jj && #[trigger] pair_at(v, q, jj) implies q == b || pair_key_lt(
            pair_count(v, q),
            q,
            pair_count(v, b),
            b,
        ) by {
            assert(jj == i);
            assert(q == cand);
        }
    } else {
        lemma_best_from(v, i + 1);
        let rest = best_from(v, i + 1);
        assert forall|q: (Token, Token), jj: int|
            i <= jj && #[trigger] pair_at(v, q, jj) implies q == b || pair_key_lt(
            pair_count(v, q),
            q,
            pair_count(v, b),
            b,
        ) by {
            if jj == i {
                assert(q == cand);
            }
        }
    }
}

/// Every sequence with at least one adjacent pair has a best pair, and the
/// selection `best_pair` names it.
pub proof fn lemma_best_pair(v: Seq<Token>)
    requires
        v.len() >= 2,
    ensures
        is_best_pair(v, best_pair(v)),
{
    let b = best_from(v, 0);
    lemma_best_from(v, 0);
    lemma_pair_count_positive(v, b);
    assert forall|q: (Token, Token)|
        #[trigger] pair_count(v, q) > 0 && q != b implies pair_key_lt(
        pair_count(v, q),
        q,
        pair_count(v, b),
        b,
    ) by {
        lemma_pair_count_positive(v, q);
        let jj = choose|jj: int| #[trigger] pair_at(v, q, jj);
        assert(0 <= jj && pair_at(v, q, jj));
    }
    assert(is_best_pair(v, b));
}

/// Two best pairs are the same pair: the composite key is a strict total
/// order over occurring pairs.
pub proof fn lemma_best_pair_unique(v: Seq<Token>, p1: (Token, Token), p2: (Token, Token))
    requires
        is_best_pair(v, p1),
        is_best_pair(v, p2),
    ensures
        p1 == p2,
{
    if p1 != p2 {
        assert(pair_key_lt(pair_count(v, p1), p1, pair_count(v, p2), p2));
        assert(pair_key_lt(pair_count(v, p2), p2, pair_count(v, p1), p1));
    }
}

/// The training recursion. While the previous round's winning count exceeds
/// the floor and the sequence still has a pair, one round runs: the best
/// pair is minted as a new token and one greedy pass rewrites the sequence;
/// the round's count is checked by the next iteration. `prev` starts above
/// every reachable count, so the first round always runs.
pub open spec fn train_loop(
    dt: Seq<Seq<u8>>,
    rules: Seq<MergeRule>,
    v: Seq<Token>,
    min_usage: int,
    prev: int,
) -> (Seq<Seq<u8>>, Seq<MergeRule>, Seq<Token>)
    decreases v.len(),
    when true
    via train_loop_decreases
{
    if prev <= min_usage || v.len() <= 1 {
        (dt, rules, v)
    } else {
        let p = best_pair(v);
        let c = pair_count(v, p);
        let t = dt.len() as Token;
        let dt2 = dt.push(dt[p.0 as int] + dt[p.1 as int]);
        let rules2 = rules.push((p, t));
        let v2 = merge_pass(v, p, t);
        train_loop(dt2, rules2, v2, min_usage, c as int)
    }
}

#[via_fn]
proof fn train_loop_decreases(
    dt: Seq<Seq<u8>>,
    rules: Seq<MergeRule>,
    v: Seq<Token>,
    min_usage: int,
    prev: int,
) {
    if !(prev <= min_usage || v.len() <= 1) {
        lemma_best_pair(v);
        lemma_merge_pass_len(v, best_pair(v), dt.len() as Token);
    }
}

/// How every pair's count decomposes around one merge site: before the
/// merge the working sequence is `X + [a, b] + R`, after it `X + [t] + R`.
/// The difference is exactly the site pair, the boundary pair into it, and
/// the boundary pair out of it.
proof fn lemma_merge_site_counts(
    bigx: Seq<Token>,
    a: Token,
    b: Token,
    t: Token,
    r: Seq<Token>,
    q: (Token, Token),
)
    ensures
        pair_count(bigx + seq![a, b] + r, q) == pair_count(bigx, q) + pair_count(r, q) + (if q
            == (a, b) {
            1int
        } else {
            0int
        }) + (if bigx.len() > 0 && q == (bigx.last(), a) {
            1int
        } else {
            0int
        }) + (if r.len() > 0 && q == (b, r[0]) {
            1int
        } else {
            0int
        }),
        pair_count(bigx + seq![t] + r, q) == pair_count(bigx, q) + pair_count(r, q) + (if bigx.len()
            > 0 && q == (bigx.last(), t) {
            1int
        } else {
            0int
        }) + (if r.len() > 0 && q == (t, r[0]) {
            1int
        } else {
            0int
        }),
{
    assert(q == (q.0, q.1));
    lemma_pair_count_concat(bigx, seq![a, b], q);
    lemma_pair_count_concat(bigx + seq![a, b], r, q);
    assert(seq![a, b].drop_first() =~= seq![b]);
    assert(pair_count(seq![b], q) == 0);
    assert(pair_count(seq![a, b], q) == (if q == (a, b) {
        1nat
    } else {
        0nat
    }));
    assert((bigx + seq![a, b]).last() == b);
    assert((bigx + seq![a, b])[0] == if bigx.len() > 0 {
        bigx[0]
    } else {
        a
    });
    lemma_pair_count_concat(bigx, seq![t], q);
    lemma_pair_count_concat(bigx + seq![t], r, q);
    assert(pair_count(seq![t], q) == 0);
    assert((bigx + seq![t]).last() == t);
}

/// An element-wise copy of a token vector.
fn copy_tokens(v: &Vec<Token>) -> (r: Vec<Token>)
    ensures
        r@ == v@,
{
    let mut r: Vec<Token> = Vec::new();
    let mut i: usize = 0;
    while i < v.len()
        invariant
            i <= v@.len(),
            r@ == v@.take(i as int),
        decreases v@.len() - i,
    {
        r.push(v[i]);
        assert(v@.take(i as int) + seq![v@[i as int]] =~= v@.take(i as int + 1));
        i = i + 1;
    }
    assert(v@.take(v@.len() as int) =~= v@);
    r
}

/// One training round. With two or more tokens: select the pair with the
/// greatest composite key, mint a token for it, and rewrite the sequence in
/// one greedy left-to-right pass, updating the index incrementally at every
/// merge site so that afterwards it equals a from-scratch recount of the
/// rewritten sequence. With a single token: nothing changes and the reported
/// count is zero. Returns the rewritten sequence and the winning pair's
/// count in the input sequence.
#[verifier::rlimit(80)]
pub fn train_step(
    tkn_str: &Vec<Token>,
    tokenizer: &mut BytePairEncodingTokenizer,
    tpc: &mut TokenPairCounter,
) -> (r: (Vec<Token>, usize))
    requires
        old(tokenizer).wf(),
        old(tokenizer).dt().len() < u32::MAX,
        tkn_str@.len() >= 1,
        tokens_below(tkn_str@, old(tokenizer).dt().len() as int),
        old(tpc).wf(),
        old(tpc).counts_match(tkn_str@),
    ensures
        final(tokenizer).wf(),
        final(tpc).wf(),
        final(tpc).counts_match(r.0@),
        tokens_below(r.0@, final(tokenizer).dt().len() as int),
        r.0@.len() >= 1,
        tkn_str@.len() == 1 ==> {
            &&& r.0@ == tkn_str@
            &&& r.1 == 0
            &&& final(tokenizer).dt() == old(tokenizer).dt()
            &&& final(tokenizer).rules() == old(tokenizer).rules()
        },
        tkn_str@.len() >= 2 ==> {
            let p = best_pair(tkn_str@);
            let t = old(tokenizer).dt().len() as Token;
            &&& final(tokenizer).dt() == old(tokenizer).dt().push(
                old(tokenizer).dt()[p.0 as int] + old(tokenizer).dt()[p.1 as int],
            )
            &&& final(tokenizer).rules() == old(tokenizer).rules().push((p, t))
            &&& r.0@ == merge_pass(tkn_str@, p, t)
            &&& r.1 == pair_count(tkn_str@, p)
        },
{
    let n = tkn_str.len();
    if n == 1 {
        return (copy_tokens(tkn_str), 0);
    }
    proof {
        lemma_pair_count_positive(tkn_str@, (tkn_str@[0], tkn_str@[1]));
        assert(pair_at(tkn_str@, (tkn_str@[0], tkn_str@[1]), 0));
    }
    let (max_pair, count) = match tpc.get_most_common_pair() {
        Some(x) => x,
        None => {
            proof {
                assert(old(tpc).tracked_pair((tkn_str@[0], tkn_str@[1])));
                assert(false);
            }
            return (copy_tokens(tkn_str), 0);
        },
    };
    proof {
        let v = tkn_str@;
        let p0 = (v[0], v[1]);
        assert(old(tpc).tracked_pair(p0));
        assert(old(tpc).total(p0) == pair_count(v, p0));
        assert(old(tpc).total(max_pair) == count);
        assert(old(tpc).tracked_pair(max_pair));
        assert(pair_count(v, max_pair) == count);
        if max_pair != p0 {
            assert(pair_key_lt(old(tpc).total(p0), p0, count as nat, max_pair));
        }
        assert(count >= 1);
        assert forall|q: (Token, Token)|
            #[trigger] pair_count(v, q) > 0 && q != max_pair implies pair_key_lt(
            pair_count(v, q),
            q,
            pair_count(v, max_pair),
            max_pair,
        ) by {
            assert(old(tpc).tracked_pair(q));
            assert(old(tpc).total(q) == pair_count(v, q));
        }
        assert(is_best_pair(v, max_pair));
        assert(is_best_pair(v, best_pair(v)));
        lemma_best_pair_unique(v, best_pair(v), max_pair);
        lemma_pair_count_positive(v, max_pair);
        let jj = choose|jj: int| #[trigger] pair_at(v, max_pair, jj);
        assert(v[jj] == max_pair.0 && v[jj + 1] == max_pair.1);
        assert((max_pair.0 as int) < old(tokenizer).dt().len());
        assert((max_pair.1 as int) < old(tokenizer).dt().len());
    }
    let new_token = match tokenizer.add_pair_rule(max_pair) {
        Ok(t) => t,
        Err(_) => {
            proof {
                assert(false);
            }
            return (copy_tokens(tkn_str), 0);
        },
    };
    let ghost v = tkn_str@;
    let ghost p = max_pair;
    let ghost t = new_token;
    let mut out: Vec<Token> = Vec::new();
    let mut j: usize = 0;
    proof {
        assert(v.skip(0) =~= v);
        assert(Seq::<Token>::empty() + merge_pass(v, p, t) =~= merge_pass(v, p, t));
        assert(Seq::<Token>::empty() + v.skip(0) =~= v);
        assert(tpc.counts_match(out@ + v.skip(0)));
    }
    while j < n
        invariant
            n == v.len(),
            v == tkn_str@,
            p == max_pair,
            t == new_token,
            j <= n,
            out@.len() <= j,
            tokens_below(v, t as int),
            tokens_below(out@, t as int + 1),
            out@ + merge_pass(v.skip(j as int), p, t) == merge_pass(v, p, t),
            tpc.wf(),
            tpc.counts_match(out@ + v.skip(j as int)),
        decreases n - j,
    {
        let this_tkn = tkn_str[j];
        let ghost combined = out@ + v.skip(j as int);
        if j + 1 < n && this_tkn == max_pair.0 && tkn_str[j + 1] == max_pair.1 {
            let next_tkn = tkn_str[j + 1];
            let ghost bigx = out@;
            let ghost rr = v.skip(j as int + 2);
            let ghost tpc0 = *tpc;
            proof {
                assert(v.skip(j as int)[0] == this_tkn);
                assert(v.skip(j as int)[1] == next_tkn);
                assert(v.skip(j as int).skip(2) =~= rr);
                assert(combined =~= bigx + seq![this_tkn, next_tkn] + rr);
                assert(combined.len() <= n);
                assert(this_tkn != t && next_tkn != t);
                assert(rr.len() > 0 ==> rr[0] == v[j + 2] && rr[0] != t);
            }
            if out.len() > 0 {
                let pre_tkn = out[out.len() - 1];
                proof {
                    assert(bigx.last() == pre_tkn);
                    lemma_merge_site_counts(bigx, this_tkn, next_tkn, t, rr, (pre_tkn, this_tkn));
                    assert(pair_count(combined, (pre_tkn, this_tkn)) >= 1);
                    assert(tpc.tracked_pair((pre_tkn, this_tkn)));
                    assert(tpc.total((pre_tkn, this_tkn)) >= 1);
                }
                tpc.dec_unsafe(&(pre_tkn, this_tkn));
                proof {
                    lemma_merge_site_counts(bigx, this_tkn, next_tkn, t, rr, (pre_tkn, t));
                    lemma_pair_count_bound(combined, (pre_tkn, t));
                    assert((pre_tkn, this_tkn) != (pre_tkn, t));
                    if tpc.tracked_pair((pre_tkn, t)) {
                        assert(tpc0.total((pre_tkn, t)) == pair_count(combined, (pre_tkn, t)));
                    }
                    assert(tpc.total((pre_tkn, t)) < usize::MAX);
                }
                tpc.inc((pre_tkn, new_token));
            }
            let ghost tpc1 = *tpc;
            proof {
                assert(tpc1.wf());
                assert forall|q: (Token, Token)| #[trigger] tpc1.total(q) == tpc0.total(q) + (
                if bigx.len() > 0 && q == (bigx.last(), t) {
                    1int
                } else {
                    0int
                }) - (if bigx.len() > 0 && q == (bigx.last(), this_tkn) {
                    1int
                } else {
                    0int
                }) by {
                    if bigx.len() > 0 {
                        assert((bigx.last(), this_tkn) != (bigx.last(), t));
                    }
                }
                assert forall|q: (Token, Token)| #[trigger] tpc1.tracked_pair(q) <==> (
                tpc0.tracked_pair(q) || (bigx.len() > 0 && q == (bigx.last(), t))) by {}
            }
            if j + 2 < n {
                let post_tkn = tkn_str[j + 2];
                proof {
                    assert(rr[0] == post_tkn);
                    lemma_merge_site_counts(bigx, this_tkn, next_tkn, t, rr, (next_tkn, post_tkn));
                    assert(pair_count(combined, (next_tkn, post_tkn)) >= 1 + (if bigx.len() > 0
                        && (next_tkn, post_tkn) == (bigx.last(), this_tkn) {
                        1int
                    } else {
                        0int
                    }));
                    assert(tpc0.tracked_pair((next_tkn, post_tkn)));
                    assert((next_tkn, post_tkn) != (bigx.last(), t) || bigx.len() == 0);
                    assert(tpc1.total((next_tkn, post_tkn)) >= 1);
                    assert(tpc1.tracked_pair((next_tkn, post_tkn)));
                }
                tpc.dec_unsafe(&(next_tkn, post_tkn));
                proof {
                    lemma_merge_site_counts(bigx, this_tkn, next_tkn, t, rr, (t, post_tkn));
                    lemma_pair_count_bound(combined, (t, post_tkn));
                    if tpc0.tracked_pair((t, post_tkn)) {
                        assert(tpc0.total((t, post_tkn)) == pair_count(combined, (t, post_tkn)));
                    }
                    assert((t, post_tkn) != (bigx.last(), t) || bigx.len() == 0);
                    assert((t, post_tkn) != (next_tkn, post_tkn));
                    assert(tpc.total((t, post_tkn)) < usize::MAX);
                }
                tpc.inc((new_token, post_tkn));
            }
            let ghost tpc2 = *tpc;
            proof {
                assert(tpc2.wf());
                assert forall|q: (Token, Token)| #[trigger] tpc2.total(q) == tpc1.total(q) + (
                if rr.len() > 0 && q == (t, rr[0]) {
                    1int
                } else {
                    0int
                }) - (if rr.len() > 0 && q == (next_tkn, rr[0]) {
                    1int
                } else {
                    0int
                }) by {
                    if rr.len() > 0 {
                        assert((next_tkn, rr[0]) != (t, rr[0]));
                    }
                }
                assert forall|q: (Token, Token)| #[trigger] tpc2.tracked_pair(q) <==> (
                tpc1.tracked_pair(q) || (rr.len() > 0 && q == (t, rr[0]))) by {}
                // the consumed pair still has a positive maintained count
                lemma_merge_site_counts(bigx, this_tkn, next_tkn, t, rr, (this_tkn, next_tkn));
                assert((this_tkn, next_tkn) != (bigx.last(), t) || bigx.len() == 0);
                assert((this_tkn, next_tkn) != (t, rr[0]) || rr.len() == 0);
                assert(tpc0.tracked_pair((this_tkn, next_tkn)));
                assert(tpc2.total((this_tkn, next_tkn)) >= 1);
                assert(tpc2.tracked_pair((this_tkn, next_tkn)));
            }
            tpc.dec_unsafe(&(this_tkn, next_tkn));
            out.push(new_token);
            proof {
                let combined2 = out@ + v.skip(j as int + 2);
                assert(out@ =~= bigx + seq![t]);
                assert(combined2 =~= bigx + seq![t] + rr);
                assert(merge_pass(v.skip(j as int), p, t) == seq![t] + merge_pass(rr, p, t));
                assert((bigx + seq![t]) + merge_pass(rr, p, t) =~= bigx + (seq![t] + merge_pass(
                    rr,
                    p,
                    t,
                )));
                assert forall|q: (Token, Token)| #[trigger] tpc.tracked_pair(q) implies tpc.total(
                    q,
                ) == pair_count(combined2, q) by {
                    lemma_merge_site_counts(bigx, this_tkn, next_tkn, t, rr, q);
                    if tpc0.tracked_pair(q) {
                        assert(tpc0.total(q) == pair_count(combined, q));
                    } else {
                        assert(pair_count(combined, q) == 0);
                        assert(tpc0.total(q) == 0);
                    }
                }
                assert forall|q: (Token, Token)|
                    pair_count(combined2, q) > 0 implies #[trigger] tpc.tracked_pair(q) by {
                    lemma_merge_site_counts(bigx, this_tkn, next_tkn, t, rr, q);
                    if pair_count(combined, q) > 0 {
                        assert(tpc0.tracked_pair(q));
                    }
                }
                assert(tpc.counts_match(combined2));
            }
            j = j + 2;
        } else {
            let ghost pre_out = out@;
            out.push(this_tkn);
            proof {
                let rest = v.skip(j as int);
                let combined2 = out@ + v.skip(j as int + 1);
                assert(rest[0] == this_tkn);
                assert(rest.drop_first() =~= v.skip(j as int + 1));
                assert(out@ =~= pre_out + seq![this_tkn]);
                assert(combined2 =~= combined);
                if rest.len() >= 2 {
                    assert(!(rest[0] == p.0 && rest[1] == p.1));
                    assert(merge_pass(rest, p, t) == seq![rest[0]] + merge_pass(
                        rest.drop_first(),
                        p,
                        t,
                    ));
                } else {
                    assert(rest.len() == 1);
                    assert(merge_pass(rest, p, t) == rest);
                    assert(v.skip(j as int + 1).len() == 0);
                    assert(merge_pass(v.skip(j as int + 1), p, t) == v.skip(j as int + 1));
                    assert(rest =~= seq![rest[0]] + v.skip(j as int + 1));
                }
                assert((pre_out + seq![rest[0]]) + merge_pass(v.skip(j as int + 1), p, t)
                    =~= pre_out + (seq![rest[0]] + merge_pass(v.skip(j as int + 1), p, t)));
                assert(tpc.counts_match(combined2));
            }
            j = j + 1;
        }
    }
    proof {
        assert(v.skip(n as int).len() == 0);
        assert(merge_pass(v.skip(n as int), p, t) =~= Seq::<Token>::empty());
        assert(out@ + Seq::<Token>::empty() =~= out@);
        assert(out@ == merge_pass(v, p, t));
        lemma_merge_pass_len(v, p, t);
        assert(out@ + v.skip(n as int) =~= out@);
        assert(tpc.counts_match(out@));
    }
    (out, count)
}

impl BytePairEncodingTokenizer {
    /// Train a tokenizer on a corpus. The working sequence starts as one
    /// token per corpus byte; rounds run while the previous round's winning
    /// count exceeds `min_usage_count`. A corpus of one token or fewer
    /// performs zero rounds: the result is exactly the 256-token seed
    /// vocabulary and the untouched sequence. Returns the trained store and
    /// the fully merged sequence.
    pub fn from_corpus(corpus: &str, min_usage_count: usize) -> (r: (Self, Vec<Token>))
        requires
            encode_utf8(corpus@).len() + 256 <= u32::MAX,
        ensures
            ({
                let st = train_loop(
                    seed_table(),
                    Seq::<MergeRule>::empty(),
                    seed_tokens(encode_utf8(corpus@)),
                    min_usage_count as int,
                    usize::MAX as int,
                );
                &&& r.0.dt() == st.0
                &&& r.0.rules() == st.1
                &&& r.1@ == st.2
                &&& r.0.wf()
            }),
    {
        let mut v = byte_tokens(corpus);
        let ghost seeds = seed_tokens(encode_utf8(corpus@));
        let ghost n0 = seeds.len();
        let tokenizer = Self::new();
        if v.len() <= 1 {
            return (tokenizer, v);
        }
        let mut tokenizer = tokenizer;
        let mut times_used: usize = usize::MAX;
        let mut tpc = TokenPairCounter::new(&v);
        proof {
            assert(tokens_below(v@, tokenizer.dt().len() as int)) by {
                assert(forall|i: int| 0 <= i < v@.len() ==> (#[trigger] v@[i]) < 256);
            }
        }
        while times_used > min_usage_count
            invariant
                tokenizer.wf(),
                tpc.wf(),
                tpc.counts_match(v@),
                v@.len() >= 1,
                tokens_below(v@, tokenizer.dt().len() as int),
                tokenizer.dt().len() + v@.len() <= 256 + n0,
                n0 + 256 <= u32::MAX,
                train_loop(
                    tokenizer.dt(),
                    tokenizer.rules(),
                    v@,
                    min_usage_count as int,
                    times_used as int,
                ) == train_loop(
                    seed_table(),
                    Seq::<MergeRule>::empty(),
                    seeds,
                    min_usage_count as int,
                    usize::MAX as int,
                ),
            decreases v@.len(), times_used,
        {
            let ghost old_dt = tokenizer.dt();
            let ghost old_rules = tokenizer.rules();
            let ghost old_v = v@;
            let ghost old_times = times_used;
            proof {
                assert(tokenizer.dt().len() < u32::MAX);
            }
            let (v2, c) = train_step(&v, &mut tokenizer, &mut tpc);
            proof {
                let mi = min_usage_count as int;
                if old_v.len() == 1 {
                    assert(train_loop(old_dt, old_rules, old_v, mi, old_times as int) == (
                    old_dt,
                    old_rules,
                    old_v,
                    ));
                    assert(train_loop(tokenizer.dt(), tokenizer.rules(), v2@, mi, c as int) == (
                    old_dt,
                    old_rules,
                    old_v,
                    ));
                } else {
                    lemma_best_pair(old_v);
                    assert(train_loop(old_dt, old_rules, old_v, mi, old_times as int)
                        == train_loop(tokenizer.dt(), tokenizer.rules(), v2@, mi, c as int));
                    lemma_merge_pass_len(old_v, best_pair(old_v), old_dt.len() as Token);
                }
            }
            v = v2;
            times_used = c;
        }
        (tokenizer, v)
    }
}

} // verus!
