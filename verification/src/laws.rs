//! The library's general guarantees, stated and proved over the
//! specification model: training preserves well-formedness and the byte
//! expansion, the trained sequence equals a replay of the learned rules,
//! encoding then decoding is the identity on text, training under a cleared
//! usage floor compresses, the tie-break is pinned, and a one-token corpus
//! trains to the bare seed vocabulary.

use vstd::prelude::*;
use vstd::utf8::{decode_utf8, encode_utf8, encode_utf8_decode_utf8, encode_utf8_valid_utf8,
    valid_utf8};

use crate::merges::{
    apply_rules, expand_tokens, lemma_merge_pass_expand, lemma_merge_pass_len,
    lemma_merge_pass_tokens_below, lemma_pair_count_bound, merge_pass, pair_count, seed_tokens,
    tokens_below, MergeRule, Token,
};
use crate::counter::pair_key_lt;
use crate::train::{best_pair, lemma_best_pair, train_loop};
use crate::vocab::{seed_table, store_wf};

verus! {

/// Expansion only reads the entries below the tokens' bound, so a table
/// extension changes nothing.
proof fn lemma_expand_agree(dt1: Seq<Seq<u8>>, dt2: Seq<Seq<u8>>, s: Seq<Token>, m: int)
    requires
        tokens_below(s, m),
        m <= dt1.len(),
        m <= dt2.len(),
        forall|i: int| 0 <= i < m ==> dt1[i] == dt2[i],
    ensures
        expand_tokens(dt1, s) == expand_tokens(dt2, s),
    decreases s.len(),
{
    if s.len() > 0 {
        assert(tokens_below(s.drop_first(), m)) by {
            assert(forall|i: int|
                0 <= i < s.drop_first().len() ==> (#[trigger] s.drop_first()[i]) == s[i + 1]);
        }
        lemma_expand_agree(dt1, dt2, s.drop_first(), m);
        assert(dt1[s[0] as int] == dt2[s[0] as int]);
    }
}

/// The seed tokens of a byte sequence expand back to exactly those bytes,
/// under any table that opens with the single-byte seed entries.
proof fn lemma_expand_seed_tokens(dt: Seq<Seq<u8>>, bytes: Seq<u8>)
    requires
        dt.len() >= 256,
        forall|i: int| 0 <= i < 256 ==> dt[i] == seq![i as u8],
    ensures
        expand_tokens(dt, seed_tokens(bytes)) == bytes,
        tokens_below(seed_tokens(bytes), 256),
    decreases bytes.len(),
{
    if bytes.len() == 0 {
        assert(seed_tokens(bytes).len() == 0);
    } else {
        assert(seed_tokens(bytes).drop_first() =~= seed_tokens(bytes.drop_first()));
        lemma_expand_seed_tokens(dt, bytes.drop_first());
        assert(seed_tokens(bytes)[0] == bytes[0] as Token);
        assert(dt[bytes[0] as int] == seq![bytes[0]]);
        assert(seq![bytes[0]] + bytes.drop_first() =~= bytes);
    }
}

/// Replaying a well-formed store's rules from position `i` on a sequence of
/// tokens the first `256 + i` entries cover keeps the byte expansion and
/// lands every token inside the table.
proof fn lemma_apply_rules_props(dt: Seq<Seq<u8>>, rules: Seq<MergeRule>, i: int, s: Seq<Token>)
    requires
        store_wf(dt, rules),
        0 <= i <= rules.len(),
        tokens_below(s, 256 + i),
    ensures
        expand_tokens(dt, apply_rules(rules.skip(i), s)) == expand_tokens(dt, s),
        tokens_below(apply_rules(rules.skip(i), s), dt.len() as int),
    decreases rules.len() - i,
{
    if i == rules.len() {
        assert(rules.skip(i).len() == 0);
        assert(apply_rules(rules.skip(i), s) == s);
    } else {
        let rule = rules[i];
        let s2 = merge_pass(s, rule.0, rule.1);
        assert(rule.1 as int == 256 + i);
        assert(dt[rule.1 as int] == dt[rule.0.0 as int] + dt[rule.0.1 as int]);
        lemma_merge_pass_expand(dt, s, rule.0, rule.1);
        lemma_merge_pass_tokens_below(s, rule.0, rule.1, 256 + i + 1);
        lemma_apply_rules_props(dt, rules, i + 1, s2);
        assert(rules.skip(i)[0] == rule);
        assert(rules.skip(i).drop_first() =~= rules.skip(i + 1));
        assert(apply_rules(rules.skip(i), s) == apply_rules(rules.skip(i + 1), s2));
    }
}

/// What training preserves and produces, round after round: the store stays
/// well-formed and only grows, the working sequence's tokens stay inside the
/// table, its byte expansion never changes, it never lengthens, and the
/// final sequence equals a replay of the newly learned rules on the input
/// sequence — so encoding the corpus with the trained store reproduces the
/// sequence training returned.
pub proof fn lemma_train_loop_props(
    dt: Seq<Seq<u8>>,
    rules: Seq<MergeRule>,
    v: Seq<Token>,
    min_usage: int,
    prev: int,
)
    requires
        store_wf(dt, rules),
        tokens_below(v, dt.len() as int),
        dt.len() + v.len() <= u32::MAX,
    ensures
        ({
            let st = train_loop(dt, rules, v, min_usage, prev);
            &&& store_wf(st.0, st.1)
            &&& st.0.len() >= dt.len()
            &&& st.0.take(dt.len() as int) == dt
            &&& st.1.len() >= rules.len()
            &&& st.1.take(rules.len() as int) == rules
            &&& tokens_below(st.2, st.0.len() as int)
            &&& expand_tokens(st.0, st.2) == expand_tokens(dt, v)
            &&& st.2.len() <= v.len()
            &&& st.0.len() + st.2.len() <= dt.len() + v.len()
            &&& st.2 == apply_rules(st.1.skip(rules.len() as int), v)
        }),
    decreases v.len(),
{
    let st = train_loop(dt, rules, v, min_usage, prev);
    if prev <= min_usage || v.len() <= 1 {
        assert(st.0.take(dt.len() as int) =~= dt);
        assert(st.1.take(rules.len() as int) =~= rules);
        assert(st.1.skip(rules.len() as int).len() == 0);
        assert(apply_rules(st.1.skip(rules.len() as int), v) == v);
    } else {
        lemma_best_pair(v);
        let p = best_pair(v);
        let c = pair_count(v, p);
        let t = dt.len() as Token;
        let dt2 = dt.push(dt[p.0 as int] + dt[p.1 as int]);
        let rules2 = rules.push((p, t));
        let v2 = merge_pass(v, p, t);
        assert(t as int == dt.len());
        assert(store_wf(dt2, rules2)) by {
            assert forall|i: int| 0 <= i < 256 implies dt2[i] == seq![i as u8] by {
                assert(dt2[i] == dt[i]);
            }
            assert forall|i: int| 0 <= i < rules2.len() implies {
                &&& (#[trigger] rules2[i]).1 as int == 256 + i
                &&& (rules2[i].0.0 as int) < 256 + i
                &&& (rules2[i].0.1 as int) < 256 + i
                &&& dt2[256 + i] == dt2[rules2[i].0.0 as int] + dt2[rules2[i].0.1 as int]
            } by {
                if i < rules.len() {
                    assert(rules2[i] == rules[i]);
                    assert(dt2[256 + i] == dt[256 + i]);
                    assert(dt2[rules[i].0.0 as int] == dt[rules[i].0.0 as int]);
                    assert(dt2[rules[i].0.1 as int] == dt[rules[i].0.1 as int]);
                } else {
                    crate::merges::lemma_pair_count_positive(v, p);
                    let jj = choose|jj: int| #[trigger] crate::merges::pair_at(v, p, jj);
                    assert(v[jj] == p.0 && v[jj + 1] == p.1);
                    assert((p.0 as int) < dt.len() && (p.1 as int) < dt.len());
                    assert(dt2[256 + i] == dt[p.0 as int] + dt[p.1 as int]);
                    assert(dt2[rules2[i].0.0 as int] == dt[p.0 as int]);
                    assert(dt2[rules2[i].0.1 as int] == dt[p.1 as int]);
                }
            }
        }
        lemma_merge_pass_len(v, p, t);
        assert(tokens_below(v, dt2.len() as int));
        lemma_merge_pass_tokens_below(v, p, t, dt2.len() as int);
        lemma_train_loop_props(dt2, rules2, v2, min_usage, c as int);
        // the store only grows, so the input store survives as a prefix
        assert(st.0.take(dt.len() as int) =~= st.0.take(dt2.len() as int).take(dt.len() as int));
        assert(dt2.take(dt.len() as int) =~= dt);
        assert(st.1.take(rules.len() as int) =~= st.1.take(rules2.len() as int).take(
            rules.len() as int,
        ));
        assert(rules2.take(rules.len() as int) =~= rules);
        // the expansion is unchanged: the pass keeps it under dt2, and dt2
        // only extends dt beyond every token of v
        assert(dt2[t as int] == dt[p.0 as int] + dt[p.1 as int]);
        crate::merges::lemma_pair_count_positive(v, p);
        let jj = choose|jj: int| #[trigger] crate::merges::pair_at(v, p, jj);
        assert(v[jj] == p.0 && v[jj + 1] == p.1);
        assert(dt2[p.0 as int] == dt[p.0 as int] && dt2[p.1 as int] == dt[p.1 as int]);
        assert(dt2[t as int] == dt2[p.0 as int] + dt2[p.1 as int]);
        lemma_merge_pass_expand(dt2, v, p, t);
        lemma_expand_agree(dt, dt2, v, dt.len() as int);
        // the final sequence is a replay of the new rules
        assert(st.2 == apply_rules(st.1.skip(rules2.len() as int), v2));
        assert(st.1[rules.len() as int] == (p, t)) by {
            assert(st.1.take(rules2.len() as int)[rules.len() as int] == rules2[rules.len() as int]);
        }
        assert(st.1.skip(rules.len() as int)[0] == (p, t));
        assert(st.1.skip(rules.len() as int).drop_first() =~= st.1.skip(rules2.len() as int));
        assert(st.1.skip(rules.len() as int).len() > 0);
        assert(apply_rules(st.1.skip(rules.len() as int), v) == apply_rules(
            st.1.skip(rules2.len() as int),
            merge_pass(v, (p, t).0, (p, t).1),
        ));
    }
}

/// Round-trip: for any well-formed store, encoding any text and expanding
/// the resulting tokens gives back the text's UTF-8 bytes, which decode to
/// the text itself — through `encode`'s and `decode`'s contracts,
/// `decode(encode(s))` (markers off) returns exactly `s`.
pub proof fn lemma_round_trip(dt: Seq<Seq<u8>>, rules: Seq<MergeRule>, s: Seq<char>)
    requires
        store_wf(dt, rules),
    ensures
        ({
            let toks = apply_rules(rules, seed_tokens(encode_utf8(s)));
            &&& tokens_below(toks, dt.len() as int)
            &&& expand_tokens(dt, toks) == encode_utf8(s)
            &&& valid_utf8(encode_utf8(s))
            &&& decode_utf8(expand_tokens(dt, toks)) == s
        }),
{
    let bytes = encode_utf8(s);
    lemma_expand_seed_tokens(dt, bytes);
    lemma_apply_rules_props(dt, rules, 0, seed_tokens(bytes));
    assert(rules.skip(0) =~= rules);
    encode_utf8_valid_utf8(s);
    encode_utf8_decode_utf8(s);
}

/// Compression: when some adjacent pair of the seeded corpus occurs more
/// than once and the usage floor lies below that count, training returns
/// strictly fewer tokens than the corpus has bytes.
pub proof fn lemma_compression(bytes: Seq<u8>, min_usage: int, p: (Token, Token))
    requires
        0 <= min_usage,
        bytes.len() + 256 <= u32::MAX,
        pair_count(seed_tokens(bytes), p) >= 2,
        min_usage < pair_count(seed_tokens(bytes), p),
    ensures
        train_loop(
            seed_table(),
            Seq::<MergeRule>::empty(),
            seed_tokens(bytes),
            min_usage,
            usize::MAX as int,
        ).2.len() < bytes.len(),
{
    let seeds = seed_tokens(bytes);
    assert(seeds.len() == bytes.len());
    assert(seeds.len() >= 2);
    lemma_pair_count_bound(seeds, p);
    assert(min_usage < usize::MAX as int);
    lemma_best_pair(seeds);
    let b = best_pair(seeds);
    let t = seed_table().len() as Token;
    let v2 = merge_pass(seeds, b, t);
    lemma_merge_pass_len(seeds, b, t);
    assert(v2.len() < seeds.len());
    let dt2 = seed_table().push(seed_table()[b.0 as int] + seed_table()[b.1 as int]);
    let rules2 = Seq::<MergeRule>::empty().push((b, t));
    assert(train_loop(seed_table(), Seq::<MergeRule>::empty(), seeds, min_usage, usize::MAX as int)
        == train_loop(dt2, rules2, v2, min_usage, pair_count(seeds, b) as int));
    assert(store_wf(seed_table(), Seq::<MergeRule>::empty())) by {
        assert(forall|i: int| 0 <= i < 256 ==> seed_table()[i] == seq![i as u8]);
    }
    assert(store_wf(dt2, rules2)) by {
        crate::merges::lemma_pair_count_positive(seeds, b);
        let jj = choose|jj: int| #[trigger] crate::merges::pair_at(seeds, b, jj);
        assert(seeds[jj] == b.0 && seeds[jj + 1] == b.1);
        assert((b.0 as int) < 256 && (b.1 as int) < 256);
        lemma_seed_round_wf(b);
        assert(t == 256u32);
    }
    assert(tokens_below(v2, dt2.len() as int)) by {
        assert(tokens_below(seeds, 256)) by {
            assert(forall|i: int| 0 <= i < seeds.len() ==> (#[trigger] seeds[i]) < 256);
        }
        lemma_merge_pass_tokens_below(seeds, b, t, 257);
    }
    lemma_train_loop_props(dt2, rules2, v2, min_usage, pair_count(seeds, b) as int);
}

/// One round on the bare seed store yields a well-formed store.
proof fn lemma_seed_round_wf(b: (Token, Token))
    requires
        (b.0 as int) < 256,
        (b.1 as int) < 256,
    ensures
        store_wf(
            seed_table().push(seed_table()[b.0 as int] + seed_table()[b.1 as int]),
            Seq::<MergeRule>::empty().push((b, 256u32)),
        ),
{
    let dt2 = seed_table().push(seed_table()[b.0 as int] + seed_table()[b.1 as int]);
    let rules2 = Seq::<MergeRule>::empty().push((b, 256u32));
    assert forall|i: int| 0 <= i < 256 implies dt2[i] == seq![i as u8] by {
        assert(dt2[i] == seed_table()[i]);
    }
    assert(rules2[0] == (b, 256u32));
    assert(dt2[256] == dt2[b.0 as int] + dt2[b.1 as int]);
}

/// Deterministic tie-break: the selected pair beats every other occurring
/// pair on the composite key (count, then left id, then right id), so on
/// equal maximal counts the pair with the higher token ids wins — the same
/// one on every run, since the selection is a function of the sequence.
pub proof fn lemma_deterministic_tie_break(v: Seq<Token>, q: (Token, Token))
    requires
        v.len() >= 2,
        pair_count(v, q) > 0,
        q != best_pair(v),
    ensures
        pair_key_lt(pair_count(v, q), q, pair_count(v, best_pair(v)), best_pair(v)),
        pair_count(v, q) == pair_count(v, best_pair(v)) ==> (q.0 < best_pair(v).0 || (q.0
            == best_pair(v).0 && q.1 < best_pair(v).1)),
{
    lemma_best_pair(v);
}

/// Boundary: a corpus that seeds one token or none performs zero rounds —
/// training returns exactly the 256-entry seed table, no rules, and the
/// untouched sequence, whatever the usage floor.
pub proof fn lemma_boundary(bytes: Seq<u8>, min_usage: int)
    requires
        seed_tokens(bytes).len() <= 1,
    ensures
        train_loop(
            seed_table(),
            Seq::<MergeRule>::empty(),
            seed_tokens(bytes),
            min_usage,
            usize::MAX as int,
        ) == (seed_table(), Seq::<MergeRule>::empty(), seed_tokens(bytes)),
        seed_table().len() == 256,
{
}

} // verus!
