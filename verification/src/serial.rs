//! Exact binary persistence of a vocabulary store.
//!
//! Layout, all integers little-endian 4-byte: the entry count, then each
//! entry as its length followed by its bytes, then the rule count, then each
//! rule as three token ids. No checksum and no version tag: the buffer is a
//! private cache, not an interchange format.

use vstd::prelude::*;

use crate::error::TokenizerError;
use crate::merges::{MergeRule, Token};
use crate::vocab::BytePairEncodingTokenizer;

verus! {

/// The four little-endian bytes of `n`.
pub open spec fn le32(n: int) -> Seq<u8>
    recommends
        0 <= n < 0x1_0000_0000,
{
    seq![
        (n % 256) as u8,
        ((n / 256) % 256) as u8,
        ((n / 65536) % 256) as u8,
        ((n / 16777216) % 256) as u8,
    ]
}

/// The value of four little-endian bytes.
pub open spec fn le32_val(b0: u8, b1: u8, b2: u8, b3: u8) -> int {
    b0 + 256 * b1 + 65536 * b2 + 16777216 * b3
}

/// One serialized decoding-table entry: its length, then its bytes.
pub open spec fn ser_entry(e: Seq<u8>) -> Seq<u8> {
    le32(e.len() as int) + e
}

/// The serialized decoding table, entry by entry.
pub open spec fn ser_entries(dt: Seq<Seq<u8>>) -> Seq<u8>
    decreases dt.len(),
{
    if dt.len() == 0 {
        Seq::empty()
    } else {
        ser_entry(dt[0]) + ser_entries(dt.drop_first())
    }
}

/// One serialized rule: left operand, right operand, result token.
pub open spec fn ser_rule(r: MergeRule) -> Seq<u8> {
    le32(r.0.0 as int) + le32(r.0.1 as int) + le32(r.1 as int)
}

/// The serialized rule list, rule by rule.
pub open spec fn ser_rules(rules: Seq<MergeRule>) -> Seq<u8>
    decreases rules.len(),
{
    if rules.len() == 0 {
        Seq::empty()
    } else {
        ser_rule(rules[0]) + ser_rules(rules.drop_first())
    }
}

/// The full serialized store.
pub open spec fn ser_store(dt: Seq<Seq<u8>>, rules: Seq<MergeRule>) -> Seq<u8> {
    le32(dt.len() as int) + ser_entries(dt) + le32(rules.len() as int) + ser_rules(rules)
}

/// Read one little-endian u32 at `pos`, or nothing when fewer than four
/// bytes remain.
pub open spec fn parse_u32(b: Seq<u8>, pos: int) -> Option<u32> {
    if 0 <= pos && pos + 4 <= b.len() {
        Some(le32_val(b[pos], b[pos + 1], b[pos + 2], b[pos + 3]) as u32)
    } else {
        None
    }
}

/// Parse `n` length-prefixed entries starting at `pos`; on success, the
/// entries and the position after them.
pub open spec fn parse_entries(b: Seq<u8>, pos: int, n: int) -> Option<(Seq<Seq<u8>>, int)>
    decreases n,
{
    if n <= 0 {
        Some((Seq::empty(), pos))
    } else {
        match parse_u32(b, pos) {
            None => None,
            Some(len) => {
                if pos + 4 + len <= b.len() {
                    let e = b.subrange(pos + 4, pos + 4 + len);
                    match parse_entries(b, pos + 4 + len, n - 1) {
                        None => None,
                        Some((rest, end)) => Some((seq![e] + rest, end)),
                    }
                } else {
                    None
                }
            },
        }
    }
}

/// Parse `n` rules of three token ids each starting at `pos`.
pub open spec fn parse_rules(b: Seq<u8>, pos: int, n: int) -> Option<(Seq<MergeRule>, int)>
    decreases n,
{
    if n <= 0 {
        Some((Seq::empty(), pos))
    } else if 0 <= pos && pos + 12 <= b.len() {
        let fst = parse_u32(b, pos)->Some_0;
        let snd = parse_u32(b, pos + 4)->Some_0;
        let tkn = parse_u32(b, pos + 8)->Some_0;
        match parse_rules(b, pos + 12, n - 1) {
            None => None,
            Some((rest, end)) => Some((seq![((fst, snd), tkn)] + rest, end)),
        }
    } else {
        None
    }
}

/// Parse a whole store; bytes after the last rule are ignored.
pub open spec fn parse_store(b: Seq<u8>) -> Option<(Seq<Seq<u8>>, Seq<MergeRule>)> {
    match parse_u32(b, 0) {
        None => None,
        Some(n) => match parse_entries(b, 4, n as int) {
            None => None,
            Some((dt, pos)) => match parse_u32(b, pos) {
                None => None,
                Some(m) => match parse_rules(b, pos + 4, m as int) {
                    None => None,
                    Some((rules, _)) => Some((dt, rules)),
                },
            },
        },
    }
}

/// Reading back the four little-endian bytes of a u32 yields the same value.
pub proof fn lemma_le32_roundtrip(x: u32)
    ensures
        le32_val(
            le32(x as int)[0],
            le32(x as int)[1],
            le32(x as int)[2],
            le32(x as int)[3],
        ) == x,
{
    assert(x % 256 + 256 * ((x / 256) % 256) + 65536 * ((x / 65536) % 256) + 16777216 * ((x
        / 16777216) % 256) == x) by (bit_vector);
}

/// Append the four little-endian bytes of `x`.
fn push_u32_le(out: &mut Vec<u8>, x: u32)
    ensures
        final(out)@ == old(out)@ + le32(x as int),
{
    out.push((x % 256) as u8);
    out.push(((x / 256) % 256) as u8);
    out.push(((x / 65536) % 256) as u8);
    out.push(((x / 16777216) % 256) as u8);
    assert(out@ =~= old(out)@ + le32(x as int));
}

/// The next four bytes at `pos`, read as a little-endian u32. Callers must
/// have checked that four bytes remain.
pub fn take_u32_le(bs: &[u8], pos: usize) -> (r: u32)
    requires
        pos + 4 <= bs@.len(),
    ensures
        Some(r) == parse_u32(bs@, pos as int),
{
    let b0 = bs[pos] as u32;
    let b1 = bs[pos + 1] as u32;
    let b2 = bs[pos + 2] as u32;
    let b3 = bs[pos + 3] as u32;
    b0 + 256 * b1 + 65536 * b2 + 16777216 * b3
}

impl BytePairEncodingTokenizer {
    /// Serialize the store into the binary layout, exactly.
    pub fn to_bytes(&self) -> (r: Vec<u8>)
        requires
            self.dt().len() <= u32::MAX,
            self.rules().len() <= u32::MAX,
            forall|i: int| 0 <= i < self.dt().len() ==> (#[trigger] self.dt()[i]).len() <= u32::MAX,
        ensures
            r@ == ser_store(self.dt(), self.rules()),
    {
        let mut out: Vec<u8> = Vec::new();
        push_u32_le(&mut out, self.decoding_table.len() as u32);
        let mut i: usize = 0;
        while i < self.decoding_table.len()
            invariant
                i <= self.dt().len(),
                self.dt().len() <= u32::MAX,
                forall|j: int|
                    0 <= j < self.dt().len() ==> (#[trigger] self.dt()[j]).len() <= u32::MAX,
                out@ == le32(self.dt().len() as int) + ser_entries(self.dt().take(i as int)),
            decreases self.dt().len() - i,
        {
            let ghost pre = out@;
            let entry = &self.decoding_table[i];
            push_u32_le(&mut out, entry.len() as u32);
            let mut k: usize = 0;
            while k < entry.len()
                invariant
                    k <= entry@.len(),
                    out@ == pre + le32(entry@.len() as int) + entry@.take(k as int),
                decreases entry@.len() - k,
            {
                out.push(entry[k]);
                assert(pre + le32(entry@.len() as int) + entry@.take(k as int) + seq![entry@[k as int]]
                    =~= pre + le32(entry@.len() as int) + entry@.take(k as int + 1));
                k = k + 1;
            }
            proof {
                assert(entry@.take(entry@.len() as int) =~= entry@);
                assert(entry@ == self.dt()[i as int]);
                lemma_ser_entries_snoc(self.dt(), i as int);
                assert(out@ =~= le32(self.dt().len() as int) + ser_entries(
                    self.dt().take(i as int + 1),
                ));
            }
            i = i + 1;
        }
        proof {
            assert(self.dt().take(self.dt().len() as int) =~= self.dt());
        }
        let ghost mid = out@;
        push_u32_le(&mut out, self.encoding_table.len() as u32);
        let mut j: usize = 0;
        while j < self.encoding_table.len()
            invariant
                j <= self.rules().len(),
                out@ == mid + le32(self.rules().len() as int) + ser_rules(
                    self.rules().take(j as int),
                ),
            decreases self.rules().len() - j,
        {
            let ((fst, snd), tkn) = self.encoding_table[j];
            push_u32_le(&mut out, fst);
            push_u32_le(&mut out, snd);
            push_u32_le(&mut out, tkn);
            proof {
                lemma_ser_rules_snoc(self.rules(), j as int);
                assert(self.rules()[j as int] == ((fst, snd), tkn));
                assert(out@ =~= mid + le32(self.rules().len() as int) + ser_rules(
                    self.rules().take(j as int + 1),
                ));
            }
            j = j + 1;
        }
        proof {
            assert(self.rules().take(self.rules().len() as int) =~= self.rules());
            assert(out@ =~= ser_store(self.dt(), self.rules()));
        }
        out
    }

    /// Reconstruct a store from the binary layout. `Deserialization` exactly
    /// when the buffer is truncated or a length overruns it, carrying the
    /// byte count the failing read needed against what remained; bytes after
    /// the last rule are ignored.
    pub fn from_bytes(bs: &[u8]) -> (r: Result<Self, TokenizerError>)
        ensures
            match r {
                Ok(store) => parse_store(bs@) == Some((store.dt(), store.rules())),
                Err(e) => parse_store(bs@) is None && (e matches TokenizerError::Deserialization {
                    expected,
                    available,
                } && available < expected),
            },
    {
        let n = bs.len();
        if n < 4 {
            return Err(TokenizerError::Deserialization { expected: 4, available: n });
        }
        let num_tokens = take_u32_le(bs, 0);
        let mut pos: usize = 4;
        let mut decoding_table: Vec<Vec<u8>> = Vec::new();
        let mut i: u32 = 0;
        while i < num_tokens
            invariant
                bs@.len() == n,
                4 <= pos <= n,
                i <= num_tokens,
                decoding_table@.len() == i,
                parse_u32(bs@, 0) == Some(num_tokens),
                ({
                    let built = Seq::new(decoding_table@.len(), |q: int| decoding_table@[q]@);
                    parse_entries(bs@, 4, num_tokens as int) == (match parse_entries(
                        bs@,
                        pos as int,
                        num_tokens - i,
                    ) {
                        None => None::<(Seq<Seq<u8>>, int)>,
                        Some((rest, end)) => Some((built + rest, end)),
                    })
                }),
            decreases num_tokens - i,
        {
            if n - pos < 4 {
                return Err(
                    TokenizerError::Deserialization { expected: 4, available: n - pos },
                );
            }
            let token_len = take_u32_le(bs, pos);
            if n - pos - 4 < token_len as usize {
                return Err(
                    TokenizerError::Deserialization {
                        expected: token_len as usize,
                        available: n - pos - 4,
                    },
                );
            }
            let len = token_len as usize;
            let mut entry: Vec<u8> = Vec::new();
            let mut k: usize = 0;
            while k < len
                invariant
                    bs@.len() == n,
                    pos + 4 + len <= n,
                    k <= len,
                    entry@ == bs@.subrange(pos as int + 4, pos as int + 4 + k as int),
                decreases len - k,
            {
                entry.push(bs[pos + 4 + k]);
                assert(entry@ =~= bs@.subrange(pos as int + 4, pos as int + 4 + k as int + 1));
                k = k + 1;
            }
            let ghost old_built = Seq::new(decoding_table@.len(), |q: int| decoding_table@[q]@);
            decoding_table.push(entry);
            proof {
                let built = Seq::new(decoding_table@.len(), |q: int| decoding_table@[q]@);
                assert(built =~= old_built.push(
                    bs@.subrange(pos as int + 4, pos as int + 4 + len as int),
                ));
                let e = bs@.subrange(pos as int + 4, pos as int + 4 + len as int);
                match parse_entries(bs@, pos as int + 4 + len as int, num_tokens - i - 1) {
                    None => {},
                    Some((rest, end)) => {
                        assert(seq![e] + rest =~= (old_built.push(e) + rest).skip(
                            old_built.len() as int,
                        ));
                        assert(old_built + (seq![e] + rest) =~= old_built.push(e) + rest);
                    },
                }
            }
            pos = pos + 4 + len;
            i = i + 1;
        }
        if n - pos < 4 {
            return Err(TokenizerError::Deserialization { expected: 4, available: n - pos });
        }
        let num_pairs = take_u32_le(bs, pos);
        let ghost rules_start = pos as int + 4;
        let ghost built_dt = Seq::new(decoding_table@.len(), |q: int| decoding_table@[q]@);
        proof {
            assert(parse_entries(bs@, pos as int, 0) == Some((Seq::<Seq<u8>>::empty(), pos as int)));
            assert(built_dt + Seq::<Seq<u8>>::empty() =~= built_dt);
            assert(parse_entries(bs@, 4, num_tokens as int) == Some((built_dt, pos as int)));
        }
        let mut encoding_table: Vec<MergeRule> = Vec::new();
        pos = pos + 4;
        let mut j: u32 = 0;
        while j < num_pairs
            invariant
                bs@.len() == n,
                4 <= pos <= n,
                j <= num_pairs,
                rules_start == pos as int - 12 * j as int,
                parse_u32(bs@, 0) == Some(num_tokens),
                parse_entries(bs@, 4, num_tokens as int) == Some((built_dt, rules_start - 4)),
                parse_u32(bs@, rules_start - 4) == Some(num_pairs),
                built_dt == Seq::new(decoding_table@.len(), |q: int| decoding_table@[q]@),
                parse_rules(bs@, rules_start, num_pairs as int) == (match parse_rules(
                    bs@,
                    pos as int,
                    num_pairs - j,
                ) {
                    None => None::<(Seq<MergeRule>, int)>,
                    Some((rest, end)) => Some((encoding_table@ + rest, end)),
                }),
            decreases num_pairs - j,
        {
            if n - pos < 12 {
                return Err(
                    TokenizerError::Deserialization { expected: 12, available: n - pos },
                );
            }
            let fst = take_u32_le(bs, pos);
            let snd = take_u32_le(bs, pos + 4);
            let tkn = take_u32_le(bs, pos + 8);
            let ghost old_rules = encoding_table@;
            encoding_table.push(((fst, snd), tkn));
            proof {
                match parse_rules(bs@, pos as int + 12, num_pairs - j - 1) {
                    None => {},
                    Some((rest, end)) => {
                        assert(old_rules + (seq![((fst, snd), tkn)] + rest) =~= old_rules.push(
                            ((fst, snd), tkn),
                        ) + rest);
                    },
                }
            }
            pos = pos + 12;
            j = j + 1;
        }
        proof {
            assert(parse_rules(bs@, pos as int, 0) == Some((Seq::<MergeRule>::empty(), pos as int)));
            assert(encoding_table@ + Seq::<MergeRule>::empty() =~= encoding_table@);
        }
        let r = BytePairEncodingTokenizer { decoding_table, encoding_table };
        proof {
            assert(r.dt() =~= built_dt);
        }
        Ok(r)
    }
}

/// Parsing a buffer that holds exactly the serialized entries at `pos`
/// recovers them and ends just past them.
proof fn lemma_parse_entries_exact(b: Seq<u8>, pos: int, dt: Seq<Seq<u8>>)
    requires
        0 <= pos,
        pos + ser_entries(dt).len() <= b.len(),
        b.subrange(pos, pos + ser_entries(dt).len()) == ser_entries(dt),
        forall|i: int| 0 <= i < dt.len() ==> (#[trigger] dt[i]).len() <= u32::MAX,
    ensures
        parse_entries(b, pos, dt.len() as int) == Some((dt, pos + ser_entries(dt).len())),
    decreases dt.len(),
{
    if dt.len() == 0 {
    } else {
        let e0 = dt[0];
        let rest = dt.drop_first();
        let es = ser_entries(dt);
        let len0 = e0.len() as int;
        assert(es == ser_entry(e0) + ser_entries(rest));
        assert forall|k: int| 0 <= k < es.len() implies b[pos + k] == es[k] by {
            assert(b.subrange(pos, pos + es.len())[k] == b[pos + k]);
        }
        assert forall|k: int| 0 <= k < 4 implies b[pos + k] == le32(len0)[k] by {
            assert(es[k] == le32(len0)[k]);
        }
        lemma_le32_roundtrip(e0.len() as u32);
        assert(parse_u32(b, pos) == Some(e0.len() as u32));
        assert(b.subrange(pos + 4, pos + 4 + len0) =~= e0) by {
            assert forall|k: int| 0 <= k < len0 implies b[pos + 4 + k] == e0[k] by {
                assert(es[4 + k] == e0[k]);
            }
        }
        let pos2 = pos + 4 + len0;
        assert(b.subrange(pos2, pos2 + ser_entries(rest).len()) =~= ser_entries(rest)) by {
            assert forall|k: int| 0 <= k < ser_entries(rest).len() implies b[pos2 + k]
                == ser_entries(rest)[k] by {
                assert(es[4 + len0 + k] == ser_entries(rest)[k]);
            }
        }
        lemma_parse_entries_exact(b, pos2, rest);
        assert(seq![e0] + rest =~= dt);
    }
}

/// Parsing a buffer that holds exactly the serialized rules at `pos`
/// recovers them and ends just past them.
proof fn lemma_parse_rules_exact(b: Seq<u8>, pos: int, rules: Seq<MergeRule>)
    requires
        0 <= pos,
        pos + ser_rules(rules).len() <= b.len(),
        b.subrange(pos, pos + ser_rules(rules).len()) == ser_rules(rules),
    ensures
        parse_rules(b, pos, rules.len() as int) == Some((rules, pos + ser_rules(rules).len())),
    decreases rules.len(),
{
    if rules.len() == 0 {
    } else {
        let r0 = rules[0];
        let rest = rules.drop_first();
        let rs = ser_rules(rules);
        assert(rs == ser_rule(r0) + ser_rules(rest));
        assert forall|k: int| 0 <= k < rs.len() implies b[pos + k] == rs[k] by {
            assert(b.subrange(pos, pos + rs.len())[k] == b[pos + k]);
        }
        assert forall|k: int| 0 <= k < 4 implies {
            &&& b[pos + k] == le32(r0.0.0 as int)[k]
            &&& b[pos + 4 + k] == le32(r0.0.1 as int)[k]
            &&& b[pos + 8 + k] == le32(r0.1 as int)[k]
        } by {
            assert(rs[k] == le32(r0.0.0 as int)[k]);
            assert(rs[4 + k] == le32(r0.0.1 as int)[k]);
            assert(rs[8 + k] == le32(r0.1 as int)[k]);
        }
        lemma_le32_roundtrip(r0.0.0);
        lemma_le32_roundtrip(r0.0.1);
        lemma_le32_roundtrip(r0.1);
        assert(parse_u32(b, pos) == Some(r0.0.0));
        assert(parse_u32(b, pos + 4) == Some(r0.0.1));
        assert(parse_u32(b, pos + 8) == Some(r0.1));
        let pos2 = pos + 12;
        assert(b.subrange(pos2, pos2 + ser_rules(rest).len()) =~= ser_rules(rest)) by {
            assert forall|k: int| 0 <= k < ser_rules(rest).len() implies b[pos2 + k]
                == ser_rules(rest)[k] by {
                assert(rs[12 + k] == ser_rules(rest)[k]);
            }
        }
        lemma_parse_rules_exact(b, pos2, rest);
        assert(((r0.0.0, r0.0.1), r0.1) == r0);
        assert(seq![r0] + rest =~= rules);
    }
}

/// The bytes of the middle segment of a three-part concatenation.
proof fn lemma_subrange_concat3(front: Seq<u8>, seg: Seq<u8>, back: Seq<u8>)
    ensures
        (front + seg + back).subrange(
            front.len() as int,
            front.len() + seg.len() as int,
        ) == seg,
{
    assert((front + seg + back).subrange(front.len() as int, front.len() + seg.len() as int)
        =~= seg);
}

/// The bytes of the leading segment of a concatenation.
proof fn lemma_subrange_concat_front(seg: Seq<u8>, back: Seq<u8>)
    ensures
        (seg + back).subrange(0, seg.len() as int) == seg,
{
    assert((seg + back).subrange(0, seg.len() as int) =~= seg);
}

/// A four-byte count written in the buffer reads back as itself.
proof fn lemma_parse_u32_at(b: Seq<u8>, pos: int, x: u32)
    requires
        0 <= pos,
        pos + 4 <= b.len(),
        b.subrange(pos, pos + 4) == le32(x as int),
    ensures
        parse_u32(b, pos) == Some(x),
{
    assert forall|k: int| 0 <= k < 4 implies b[pos + k] == le32(x as int)[k] by {
        assert(b.subrange(pos, pos + 4)[k] == b[pos + k]);
    }
    lemma_le32_roundtrip(x);
}

/// Serialization idempotence: parsing a store's exact serialization yields
/// the same decoding table and the same rule list, for any store whose
/// counts fit the four-byte fields — the freshly seeded store and every
/// trained one included. Through the contracts of `to_bytes` and
/// `from_bytes`, deserializing a serialized store reproduces it.
pub proof fn lemma_serialization_round_trip(dt: Seq<Seq<u8>>, rules: Seq<MergeRule>)
    requires
        dt.len() <= u32::MAX,
        rules.len() <= u32::MAX,
        forall|i: int| 0 <= i < dt.len() ==> (#[trigger] dt[i]).len() <= u32::MAX,
    ensures
        parse_store(ser_store(dt, rules)) == Some((dt, rules)),
{
    let b = ser_store(dt, rules);
    let header = le32(dt.len() as int);
    let entries = ser_entries(dt);
    let mid = le32(rules.len() as int);
    let tail = ser_rules(rules);
    let p = 4 + entries.len() as int;
    assert(parse_u32(b, 0) == Some(dt.len() as u32)) by {
        vstd::seq_lib::lemma_concat_associative(header, entries, mid);
        vstd::seq_lib::lemma_concat_associative(header, entries + mid, tail);
        vstd::seq_lib::lemma_concat_associative(entries, mid, tail);
        assert(b == header + (entries + (mid + tail)));
        lemma_subrange_concat_front(header, entries + (mid + tail));
        lemma_parse_u32_at(b, 0, dt.len() as u32);
    }
    assert(parse_entries(b, 4, dt.len() as int) == Some((dt, p))) by {
        vstd::seq_lib::lemma_concat_associative(header + entries, mid, tail);
        assert(b == header + entries + (mid + tail));
        lemma_subrange_concat3(header, entries, mid + tail);
        lemma_parse_entries_exact(b, 4, dt);
    }
    assert(parse_u32(b, p) == Some(rules.len() as u32)) by {
        lemma_subrange_concat3(header + entries, mid, tail);
        lemma_parse_u32_at(b, p, rules.len() as u32);
    }
    assert(parse_rules(b, p + 4, rules.len() as int) == Some((rules, p + 4 + tail.len()))) by {
        Seq::<u8>::add_empty_right(b, Seq::empty());
        assert(b == (header + entries + mid) + tail + Seq::<u8>::empty());
        lemma_subrange_concat3(header + entries + mid, tail, Seq::empty());
        lemma_parse_rules_exact(b, p + 4, rules);
    }
}

/// Entry serialization distributes over concatenation.
pub proof fn lemma_ser_entries_concat(a: Seq<Seq<u8>>, b: Seq<Seq<u8>>)
    ensures
        ser_entries(a + b) == ser_entries(a) + ser_entries(b),
    decreases a.len(),
{
    if a.len() == 0 {
        assert(a + b =~= b);
        assert(ser_entries(a) + ser_entries(b) =~= ser_entries(b));
    } else {
        assert((a + b).drop_first() =~= a.drop_first() + b);
        lemma_ser_entries_concat(a.drop_first(), b);
        assert((a + b)[0] == a[0]);
        assert(ser_entry(a[0]) + (ser_entries(a.drop_first()) + ser_entries(b)) =~= (ser_entry(
            a[0],
        ) + ser_entries(a.drop_first())) + ser_entries(b));
    }
}

/// One entry on its own serializes to its encoding.
pub proof fn lemma_ser_entries_singleton(e: Seq<u8>)
    ensures
        ser_entries(seq![e]) == ser_entry(e),
{
    assert(seq![e].drop_first() =~= Seq::<Seq<u8>>::empty());
    assert(ser_entries(Seq::<Seq<u8>>::empty()) == Seq::<u8>::empty());
    assert(ser_entry(e) + Seq::<u8>::empty() =~= ser_entry(e));
}

/// Serializing one more entry appends its encoding.
pub proof fn lemma_ser_entries_snoc(dt: Seq<Seq<u8>>, i: int)
    requires
        0 <= i < dt.len(),
    ensures
        ser_entries(dt.take(i + 1)) == ser_entries(dt.take(i)) + ser_entry(dt[i]),
{
    assert(dt.take(i + 1) =~= dt.take(i) + seq![dt[i]]);
    lemma_ser_entries_concat(dt.take(i), seq![dt[i]]);
    lemma_ser_entries_singleton(dt[i]);
}

/// Rule serialization distributes over concatenation.
pub proof fn lemma_ser_rules_concat(a: Seq<MergeRule>, b: Seq<MergeRule>)
    ensures
        ser_rules(a + b) == ser_rules(a) + ser_rules(b),
    decreases a.len(),
{
    if a.len() == 0 {
        assert(a + b =~= b);
        assert(ser_rules(a) + ser_rules(b) =~= ser_rules(b));
    } else {
        assert((a + b).drop_first() =~= a.drop_first() + b);
        lemma_ser_rules_concat(a.drop_first(), b);
        assert((a + b)[0] == a[0]);
        assert(ser_rule(a[0]) + (ser_rules(a.drop_first()) + ser_rules(b)) =~= (ser_rule(a[0])
            + ser_rules(a.drop_first())) + ser_rules(b));
    }
}

/// One rule on its own serializes to its encoding.
pub proof fn lemma_ser_rules_singleton(r: MergeRule)
    ensures
        ser_rules(seq![r]) == ser_rule(r),
{
    assert(seq![r].drop_first() =~= Seq::<MergeRule>::empty());
    assert(ser_rules(Seq::<MergeRule>::empty()) == Seq::<u8>::empty());
    assert(ser_rule(r) + Seq::<u8>::empty() =~= ser_rule(r));
}

/// Serializing one more rule appends its encoding.
pub proof fn lemma_ser_rules_snoc(rules: Seq<MergeRule>, i: int)
    requires
        0 <= i < rules.len(),
    ensures
        ser_rules(rules.take(i + 1)) == ser_rules(rules.take(i)) + ser_rule(rules[i]),
{
    assert(rules.take(i + 1) =~= rules.take(i) + seq![rules[i]]);
    lemma_ser_rules_concat(rules.take(i), seq![rules[i]]);
    lemma_ser_rules_singleton(rules[i]);
}

} // verus!
