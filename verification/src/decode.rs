//! Decoding: expand each token's bytes and validate UTF-8, pulling in
//! further tokens whenever the accumulated bytes end inside a multi-byte
//! character (merges operate on raw bytes, so a token's expansion need not
//! end on a codepoint boundary). Optionally, each emitted chunk is preceded
//! by a visual marker: two markers alternate over single-token chunks and a
//! distinct marker flags chunks that needed stitching.

use vstd::prelude::*;
use vstd::string::StringExecFns;
use vstd::utf8::{
    decode_utf8, decode_utf8_split, is_char_boundary_iff_not_is_continuation_byte,
    is_continuation_byte, partial_valid_partial_invalid_utf8, valid_first_scalar, valid_utf8,
    valid_utf8_concat,
};

use crate::error::TokenizerError;
use crate::merges::{expand_tokens, lemma_expand_concat, tokens_below, Token};
use crate::vocab::{clone_bytes, BytePairEncodingTokenizer};

verus! {

/// The first `k` tokens form the first decoded chunk: their expansion is
/// valid UTF-8 and no shorter positive prefix's expansion is.
pub open spec fn chunk_boundary(dt: Seq<Seq<u8>>, toks: Seq<Token>, k: int) -> bool {
    &&& 1 <= k <= toks.len()
    &&& valid_utf8(expand_tokens(dt, toks.take(k)))
    &&& forall|j: int|
        1 <= j < k ==> !valid_utf8(#[trigger] expand_tokens(dt, toks.take(j)))
}

/// Some positive prefix of `toks` expands to valid UTF-8.
pub open spec fn has_chunk(dt: Seq<Seq<u8>>, toks: Seq<Token>) -> bool {
    exists|k: int| #[trigger] chunk_boundary(dt, toks, k)
}

/// The length of the first chunk, when one exists.
pub open spec fn first_chunk_len(dt: Seq<Seq<u8>>, toks: Seq<Token>) -> int {
    choose|k: int| chunk_boundary(dt, toks, k)
}

/// The marker that closes the output and precedes an unmarked chunk.
pub open spec fn reset_marker() -> Seq<char> {
    seq!['\u{1b}', '[', '0', 'm']
}

/// The marker that alternates with the reset marker over single-token chunks.
pub open spec fn yellow_marker() -> Seq<char> {
    seq!['\u{1b}', '[', '9', '3', 'm']
}

/// The marker that flags a chunk stitched from more than one token.
pub open spec fn red_marker() -> Seq<char> {
    seq!['\u{1b}', '[', '9', '1', 'm']
}

/// The marked-up decoding of `toks`: chunk by chunk, a marker then the
/// chunk's text, closed by a reset marker. A stitched chunk gets the red
/// marker; otherwise plain and yellow alternate, tracked by `yellow_next`.
/// Only used on sequences whose whole expansion is valid UTF-8.
pub open spec fn render_colored(dt: Seq<Seq<u8>>, toks: Seq<Token>, yellow_next: bool) -> Seq<
    char,
>
    decreases toks.len(),
{
    if toks.len() == 0 || !has_chunk(dt, toks) {
        reset_marker()
    } else {
        let k = first_chunk_len(dt, toks);
        let text = decode_utf8(expand_tokens(dt, toks.take(k)));
        let marker = if k > 1 {
            red_marker()
        } else if yellow_next {
            yellow_marker()
        } else {
            reset_marker()
        };
        marker + text + render_colored(dt, toks.skip(k), k <= 1 && !yellow_next)
    }
}

/// A chunk boundary is unique: both are least valid prefixes.
pub proof fn lemma_chunk_boundary_unique(dt: Seq<Seq<u8>>, toks: Seq<Token>, k1: int, k2: int)
    requires
        chunk_boundary(dt, toks, k1),
        chunk_boundary(dt, toks, k2),
    ensures
        k1 == k2,
{
    if k1 < k2 {
        assert(!valid_utf8(expand_tokens(dt, toks.take(k1))));
    } else if k2 < k1 {
        assert(!valid_utf8(expand_tokens(dt, toks.take(k2))));
    }
}

/// A valid UTF-8 prefix of a valid UTF-8 sequence leaves a valid remainder.
pub proof fn lemma_valid_utf8_suffix(a: Seq<u8>, c: Seq<u8>)
    requires
        valid_utf8(a),
        valid_utf8(a + c),
    ensures
        valid_utf8(c),
{
    if !valid_utf8(c) {
        let b = a + c;
        assert(b.subrange(0, a.len() as int) =~= a);
        assert(b.subrange(a.len() as int, b.len() as int) =~= c);
        partial_valid_partial_invalid_utf8(b, a.len() as int);
    }
}

/// Valid UTF-8 sequences concatenate, and decode piecewise.
pub proof fn lemma_decode_utf8_concat(a: Seq<u8>, c: Seq<u8>)
    requires
        valid_utf8(a),
        valid_utf8(c),
    ensures
        valid_utf8(a + c),
        decode_utf8(a + c) == decode_utf8(a) + decode_utf8(c),
{
    valid_utf8_concat(a, c);
    let b = a + c;
    if c.len() == 0 {
        assert(b =~= a);
        assert(decode_utf8(c) =~= Seq::<char>::empty());
        assert(decode_utf8(a) + Seq::<char>::empty() =~= decode_utf8(a));
    } else {
        assert(b[a.len() as int] == c[0]);
        assert(valid_first_scalar(c));
        assert(!is_continuation_byte(c[0]));
        is_char_boundary_iff_not_is_continuation_byte(b, a.len() as int);
        decode_utf8_split(b, a.len() as int);
        assert(b.subrange(0, a.len() as int) =~= a);
        assert(b.subrange(a.len() as int, b.len() as int) =~= c);
    }
}

/// Relies on std::str::from_utf8: it succeeds exactly on the byte sequences
/// that are valid UTF-8, and the returned str holds exactly the input bytes,
/// so its characters are their UTF-8 decoding.
#[verifier::external_body]
fn try_decode_utf8(bytes: &[u8]) -> (r: Option<String>)
    ensures
        match r {
            Some(s) => valid_utf8(bytes@) && s@ == decode_utf8(bytes@),
            None => !valid_utf8(bytes@),
        },
{
    match std::str::from_utf8(bytes) {
        Ok(s) => Some(s.to_owned()),
        Err(_) => None,
    }
}

/// Append a copy of `src` to `dst`.
fn append_bytes(dst: &mut Vec<u8>, src: &Vec<u8>)
    ensures
        final(dst)@ == old(dst)@ + src@,
{
    let mut k: usize = 0;
    while k < src.len()
        invariant
            k <= src@.len(),
            dst@ == old(dst)@ + src@.take(k as int),
        decreases src@.len() - k,
    {
        dst.push(src[k]);
        assert(old(dst)@ + src@.take(k as int) + seq![src@[k as int]] =~= old(dst)@ + src@.take(
            k as int + 1,
        ));
        k = k + 1;
    }
    assert(old(dst)@ + src@.take(src@.len() as int) =~= old(dst)@ + src@);
}

impl BytePairEncodingTokenizer {
    /// Find the first chunk starting at token `i`: the shortest positive run
    /// of tokens whose joint expansion is valid UTF-8, with its decoded text.
    /// `MalformedSequence` when the stream ends before a valid boundary.
    fn next_chunk(&self, v: &Vec<Token>, i: usize) -> (r: Result<
        (String, usize),
        TokenizerError,
    >)
        requires
            tokens_below(v@, self.dt().len() as int),
            i < v@.len(),
        ensures
            match r {
                Ok((s, j)) => {
                    &&& i < j <= v@.len()
                    &&& chunk_boundary(self.dt(), v@.skip(i as int), j - i)
                    &&& s@ == decode_utf8(
                        expand_tokens(self.dt(), v@.subrange(i as int, j as int)),
                    )
                },
                Err(e) => {
                    &&& !valid_utf8(expand_tokens(self.dt(), v@.skip(i as int)))
                    &&& e == TokenizerError::MalformedSequence
                },
            },
    {
        let ghost rest = v@.skip(i as int);
        let n = v.len();
        let first = match self.decode_token(v[i]) {
            Ok(b) => b,
            Err(_) => {
                proof {
                    assert(false);
                }
                return Err(TokenizerError::MalformedSequence);
            },
        };
        let mut decoded = clone_bytes(first);
        proof {
            assert(v@.subrange(i as int, i as int + 1) =~= seq![v@[i as int]]);
            crate::merges::lemma_expand_singleton(self.dt(), v@[i as int]);
            assert(decoded@ == expand_tokens(self.dt(), v@.subrange(i as int, i as int + 1)));
        }
        let mut j: usize = i + 1;
        loop
            invariant
                i < j <= v@.len(),
                tokens_below(v@, self.dt().len() as int),
                rest == v@.skip(i as int),
                decoded@ == expand_tokens(self.dt(), v@.subrange(i as int, j as int)),
                forall|q: int|
                    1 <= q < j - i ==> !valid_utf8(
                        #[trigger] expand_tokens(self.dt(), v@.subrange(i as int, i + q)),
                    ),
            decreases v@.len() - j,
        {
            match try_decode_utf8(decoded.as_slice()) {
                Some(text) => {
                    proof {
                        let k = j - i;
                        assert forall|q: int| 1 <= q <= k implies rest.take(q) =~= v@.subrange(
                            i as int,
                            i + q,
                        ) by {}
                        assert(valid_utf8(expand_tokens(self.dt(), rest.take(k))));
                        assert forall|q: int| 1 <= q < k implies !valid_utf8(
                            #[trigger] expand_tokens(self.dt(), rest.take(q)),
                        ) by {
                            assert(rest.take(q) == v@.subrange(i as int, i + q));
                        }
                        assert(chunk_boundary(self.dt(), rest, k));
                    }
                    return Ok((text, j));
                },
                None => {
                    if j == v.len() {
                        proof {
                            assert(rest =~= v@.subrange(i as int, v@.len() as int));
                        }
                        return Err(TokenizerError::MalformedSequence);
                    }
                    let more = match self.decode_token(v[j]) {
                        Ok(b) => b,
                        Err(_) => {
                            proof {
                                assert(false);
                            }
                            return Err(TokenizerError::MalformedSequence);
                        },
                    };
                    append_bytes(&mut decoded, more);
                    proof {
                        assert(v@.subrange(i as int, j as int + 1) =~= v@.subrange(
                            i as int,
                            j as int,
                        ) + seq![v@[j as int]]);
                        lemma_expand_concat(
                            self.dt(),
                            v@.subrange(i as int, j as int),
                            seq![v@[j as int]],
                        );
                        crate::merges::lemma_expand_singleton(self.dt(), v@[j as int]);
                    }
                    j = j + 1;
                },
            }
        }
    }

    /// Decode a token sequence back to text. The expansion of every chunk of
    /// tokens is validated as UTF-8; tokens are stitched together until a
    /// valid boundary is reached. `MalformedSequence` exactly when the whole
    /// expansion is not valid UTF-8 — which never happens for sequences this
    /// library's own training and encoding produce from text. With `COLOR`,
    /// each chunk is preceded by its marker and a reset marker closes the
    /// output; the markers never alter the decoded text between them.
    pub fn decode<const COLOR: bool>(&self, v: &Vec<Token>) -> (r: Result<
        String,
        TokenizerError,
    >)
        requires
            tokens_below(v@, self.dt().len() as int),
        ensures
            match r {
                Ok(s) => {
                    &&& valid_utf8(expand_tokens(self.dt(), v@))
                    &&& if COLOR {
                        s@ == render_colored(self.dt(), v@, false)
                    } else {
                        s@ == decode_utf8(expand_tokens(self.dt(), v@))
                    }
                },
                Err(e) => {
                    &&& !valid_utf8(expand_tokens(self.dt(), v@))
                    &&& e == TokenizerError::MalformedSequence
                },
            },
    {
        let mut out = String::new();
        let mut yellow_next = false;
        let mut i: usize = 0;
        proof {
            reveal_strlit("\x1b[0m");
            reveal_strlit("\x1b[93m");
            reveal_strlit("\x1b[91m");
            assert(("\x1b[0m")@ =~= reset_marker());
            assert(("\x1b[93m")@ =~= yellow_marker());
            assert(("\x1b[91m")@ =~= red_marker());
            assert(v@.take(0) =~= Seq::<Token>::empty());
            assert(expand_tokens(self.dt(), Seq::<Token>::empty()) == Seq::<u8>::empty());
            assert(valid_utf8(Seq::<u8>::empty()));
            assert(decode_utf8(Seq::<u8>::empty()) =~= Seq::<char>::empty());
            assert(v@.skip(0) =~= v@);
            assert(Seq::<char>::empty() + render_colored(self.dt(), v@, false) =~= render_colored(
                self.dt(),
                v@,
                false,
            ));
        }
        while i < v.len()
            invariant
                i <= v@.len(),
                tokens_below(v@, self.dt().len() as int),
                valid_utf8(expand_tokens(self.dt(), v@.take(i as int))),
                if COLOR {
                    out@ + render_colored(self.dt(), v@.skip(i as int), yellow_next)
                        == render_colored(self.dt(), v@, false)
                } else {
                    out@ == decode_utf8(expand_tokens(self.dt(), v@.take(i as int)))
                },
            decreases v@.len() - i,
        {
            let ghost pre = out@;
            let ghost prefix_bytes = expand_tokens(self.dt(), v@.take(i as int));
            match self.next_chunk(v, i) {
                Err(e) => {
                    proof {
                        assert(v@.take(i as int) + v@.skip(i as int) =~= v@);
                        lemma_expand_concat(self.dt(), v@.take(i as int), v@.skip(i as int));
                        if valid_utf8(expand_tokens(self.dt(), v@)) {
                            lemma_valid_utf8_suffix(
                                prefix_bytes,
                                expand_tokens(self.dt(), v@.skip(i as int)),
                            );
                        }
                    }
                    return Err(e);
                },
                Ok((text, j)) => {
                    let ghost k = j - i;
                    let ghost chunk_bytes = expand_tokens(
                        self.dt(),
                        v@.subrange(i as int, j as int),
                    );
                    let stitched = j > i + 1;
                    proof {
                        assert(v@.skip(i as int).take(k) =~= v@.subrange(i as int, j as int));
                        assert(valid_utf8(chunk_bytes));
                        assert(v@.take(j as int) =~= v@.take(i as int) + v@.subrange(
                            i as int,
                            j as int,
                        ));
                        lemma_expand_concat(
                            self.dt(),
                            v@.take(i as int),
                            v@.subrange(i as int, j as int),
                        );
                        lemma_decode_utf8_concat(prefix_bytes, chunk_bytes);
                    }
                    if COLOR {
                        if stitched {
                            out.append("\x1b[91m");
                        } else if yellow_next {
                            out.append("\x1b[93m");
                        } else {
                            out.append("\x1b[0m");
                        }
                        proof {
                            reveal_strlit("\x1b[0m");
                            reveal_strlit("\x1b[93m");
                            reveal_strlit("\x1b[91m");
                            assert(("\x1b[0m")@ =~= reset_marker());
                            assert(("\x1b[93m")@ =~= yellow_marker());
                            assert(("\x1b[91m")@ =~= red_marker());
                        }
                    }
                    out.append(text.as_str());
                    proof {
                        if COLOR {
                            let dt = self.dt();
                            let toks = v@.skip(i as int);
                            assert(has_chunk(dt, toks)) by {
                                assert(chunk_boundary(dt, toks, k));
                            }
                            let kc = first_chunk_len(dt, toks);
                            assert(chunk_boundary(dt, toks, kc));
                            lemma_chunk_boundary_unique(dt, toks, kc, k);
                            assert(toks.skip(k) =~= v@.skip(j as int));
                            let marker = if k > 1 {
                                red_marker()
                            } else if yellow_next {
                                yellow_marker()
                            } else {
                                reset_marker()
                            };
                            let text_spec = decode_utf8(expand_tokens(dt, toks.take(k)));
                            assert(render_colored(dt, toks, yellow_next) == marker + text_spec
                                + render_colored(dt, v@.skip(j as int), k <= 1 && !yellow_next));
                            assert(text_spec == text@);
                            assert(stitched == (k > 1));
                            assert(out@ =~= pre + marker + text@);
                            assert(out@ + render_colored(dt, v@.skip(j as int), k <= 1
                                && !yellow_next) =~= pre + render_colored(dt, toks, yellow_next));
                        }
                    }
                    yellow_next = !stitched && !yellow_next;
                    i = j;
                },
            }
        }
        proof {
            assert(v@.take(v@.len() as int) =~= v@);
        }
        if COLOR {
            out.append("\x1b[0m");
            proof {
                reveal_strlit("\x1b[0m");
                assert(("\x1b[0m")@ =~= reset_marker());
                assert(v@.skip(v@.len() as int).len() == 0);
                assert(render_colored(self.dt(), v@.skip(v@.len() as int), yellow_next)
                    == reset_marker());
            }
        }
        Ok(out)
    }
}

} // verus!
