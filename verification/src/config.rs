//! The device configuration: the initial keys (a JSON-like array of base64
//! strings), the device secret (base64), the device id and the challenge
//! size (decimal). The values are handed in as the build environment gave
//! them; `None` stands for an unset variable.
use vstd::prelude::*;
use vstd::string::StringSliceAdditionalSpecFns;
use crate::secure_store::key_views;

verus! {

/// ASCII whitespace as `u8::is_ascii_whitespace` defines it: space, tab,
/// line feed, form feed and carriage return.
pub open spec fn is_ascii_ws(b: u8) -> bool {
    b == 0x20u8 || b == 0x09u8 || b == 0x0Au8 || b == 0x0Cu8 || b == 0x0Du8
}

/// The 6-bit value of a character of the standard base64 alphabet.
pub open spec fn b64_value(b: u8) -> Option<u8> {
    if 0x41u8 <= b <= 0x5Au8 {
        Some((b - 0x41u8) as u8)
    } else if 0x61u8 <= b <= 0x7Au8 {
        Some((b - 0x61u8 + 26) as u8)
    } else if 0x30u8 <= b <= 0x39u8 {
        Some((b - 0x30u8 + 52) as u8)
    } else if b == 0x2Bu8 {
        Some(62u8)
    } else if b == 0x2Fu8 {
        Some(63u8)
    } else {
        None
    }
}

/// Whether the quartet that ends just before raw position `end` has `=` at
/// its third (`third == true`) or fourth position, counting raw positions.
pub open spec fn pad_at(s: Seq<u8>, end: int, third: bool) -> bool {
    let start = if end >= 4 { end - 4 } else { 0 };
    let at = if third { start + 2 } else { start + 3 };
    at < s.len() && s[at] == 0x3Du8
}

/// The bytes a complete quartet of 6-bit values gives: the first always,
/// the second unless the third position is `=`, the third unless the fourth
/// position is `=`.
pub open spec fn quartet_bytes(c: Seq<u8>, pad1: bool, pad2: bool) -> Seq<u8> {
    let b0 = (c[0] << 2u8) | (c[1] >> 4u8);
    let b1 = (c[1] << 4u8) | (c[2] >> 2u8);
    let b2 = (c[2] << 6u8) | c[3];
    seq![b0] + (if pad1 { Seq::empty() } else { seq![b1] }) + (if pad2 {
        Seq::empty()
    } else {
        seq![b2]
    })
}

/// Base64 decoding from raw position `i` on, with the values of the quartet
/// under way in `chunk` and the bytes decoded so far in `out`. Whitespace is
/// skipped, `=` counts as the value 0, and any other character outside the
/// alphabet fails the decoding. A quartet left incomplete at the end is
/// dropped.
pub open spec fn b64_decode_from(s: Seq<u8>, i: int, chunk: Seq<u8>, out: Seq<u8>) -> Option<
    Seq<u8>,
>
    decreases s.len() - i,
{
    if i < 0 || i >= s.len() {
        Some(out)
    } else {
        let b = s[i];
        if b != 0x3Du8 && is_ascii_ws(b) {
            b64_decode_from(s, i + 1, chunk, out)
        } else {
            let v = if b == 0x3Du8 {
                Some(0u8)
            } else {
                b64_value(b)
            };
            match v {
                None => None,
                Some(v) => {
                    let c = chunk.push(v);
                    if c.len() >= 4 {
                        b64_decode_from(
                            s,
                            i + 1,
                            Seq::empty(),
                            out + quartet_bytes(c, pad_at(s, i + 1, true), pad_at(s, i + 1, false)),
                        )
                    } else {
                        b64_decode_from(s, i + 1, c, out)
                    }
                },
            }
        }
    }
}

/// Base64 decoding of `s`.
pub open spec fn b64_decode(s: Seq<u8>) -> Option<Seq<u8>> {
    b64_decode_from(s, 0, Seq::empty(), Seq::empty())
}

/// The 6-bit value of a base64 character, or 255 for any other byte.
fn b64_lookup(b: u8) -> (v: u8)
    ensures
        match b64_value(b) {
            Some(x) => v == x,
            None => v == 255,
        },
{
    if b >= 0x41u8 && b <= 0x5Au8 {
        b - 0x41u8
    } else if b >= 0x61u8 && b <= 0x7Au8 {
        b - 0x61u8 + 26
    } else if b >= 0x30u8 && b <= 0x39u8 {
        b - 0x30u8 + 52
    } else if b == 0x2Bu8 {
        62
    } else if b == 0x2Fu8 {
        63
    } else {
        255
    }
}

/// Decodes standard base64 with `=` padding. Whitespace is skipped and `=`
/// counts as a zero value; a `=` in the third or fourth raw position of a
/// quartet drops the byte it would end. `None` where a character is neither
/// whitespace, `=` nor of the alphabet. An incomplete final quartet is dropped.
pub fn base64_decode(s: &[u8]) -> (r: Option<Vec<u8>>)
    ensures
        match b64_decode(s@) {
            Some(d) => r matches Some(v) && v@ == d,
            None => r is None,
        },
{
    let mut out: Vec<u8> = Vec::new();
    let mut chunk: [u8; 4] = [0; 4];
    let mut idx: usize = 0;
    let mut i: usize = 0;
    assert(chunk@.take(0) =~= Seq::<u8>::empty());
    assert(out@ =~= Seq::<u8>::empty());
    while i < s.len()
        invariant
            i <= s@.len(),
            idx < 4,
            b64_decode(s@) == b64_decode_from(s@, i as int, chunk@.take(idx as int), out@),
        decreases s@.len() - i,
    {
        let b = s[i];
        let ghost pending = chunk@.take(idx as int);
        let ghost here = b64_decode_from(s@, i as int, pending, out@);
        assert(b == s@[i as int]);
        if b == 0x3Du8 {
            chunk[idx] = 0;
            idx = idx + 1;
            i = i + 1;
        } else if b == 0x20u8 || b == 0x09 || b == 0x0A || b == 0x0C || b == 0x0D {
            assert(here == b64_decode_from(s@, i + 1, pending, out@));
            i = i + 1;
            continue;
        } else {
            let val = b64_lookup(b);
            if val == 255 {
                assert(b64_value(b) is None);
                assert(here is None);
                return None;
            }
            chunk[idx] = val;
            idx = idx + 1;
            i = i + 1;
        }
        assert(chunk@.take(idx as int) =~= pending.push(chunk@[idx - 1]));
        let ghost c = chunk@.take(idx as int);
        let ghost old_out = out@;
        assert(idx < 4 ==> here == b64_decode_from(s@, i as int, c, old_out));
        assert(idx == 4 ==> here == b64_decode_from(
            s@,
            i as int,
            Seq::empty(),
            old_out + quartet_bytes(c, pad_at(s@, i as int, true), pad_at(s@, i as int, false)),
        ));
        if idx == 4 {
            let b0 = (chunk[0] << 2u8) | (chunk[1] >> 4u8);
            let b1 = (chunk[1] << 4u8) | (chunk[2] >> 2u8);
            let b2 = (chunk[2] << 6u8) | chunk[3];
            out.push(b0);
            let start_q = if i >= 4 {
                i - 4
            } else {
                0
            };
            let pad1 = if start_q + 2 < s.len() && s[start_q + 2] == 0x3Du8 {
                true
            } else {
                false
            };
            let pad2 = if start_q + 3 < s.len() && s[start_q + 3] == 0x3Du8 {
                true
            } else {
                false
            };
            if !pad1 {
                out.push(b1);
            }
            if !pad2 {
                out.push(b2);
            }
            assert(c =~= chunk@);
            assert(out@ =~= old_out + quartet_bytes(c, pad1, pad2));
            assert(chunk@.take(0) =~= Seq::<u8>::empty());
            idx = 0;
        }
    }
    Some(out)
}


/// The base64 character of a 6-bit value.
pub open spec fn b64_char(v: u8) -> u8 {
    if v < 26 {
        (0x41u8 + v) as u8
    } else if v < 52 {
        (0x61u8 + v - 26) as u8
    } else if v < 62 {
        (0x30u8 + v - 52) as u8
    } else if v == 62 {
        0x2Bu8
    } else {
        0x2Fu8
    }
}

/// Standard base64 encoding with `=` padding.
pub open spec fn b64_encode(x: Seq<u8>) -> Seq<u8>
    decreases x.len(),
{
    if x.len() == 0 {
        Seq::empty()
    } else if x.len() == 1 {
        seq![b64_char(x[0] >> 2u8), b64_char((x[0] & 3u8) << 4u8), 0x3Du8, 0x3Du8]
    } else if x.len() == 2 {
        seq![
            b64_char(x[0] >> 2u8),
            b64_char(((x[0] & 3u8) << 4u8) | (x[1] >> 4u8)),
            b64_char((x[1] & 15u8) << 2u8),
            0x3Du8,
        ]
    } else {
        seq![
            b64_char(x[0] >> 2u8),
            b64_char(((x[0] & 3u8) << 4u8) | (x[1] >> 4u8)),
            b64_char(((x[1] & 15u8) << 2u8) | (x[2] >> 6u8)),
            b64_char(x[2] & 63u8),
        ] + b64_encode(x.skip(3))
    }
}

/// A base64 character reads back as its value, and is neither `=` nor
/// whitespace.
proof fn lemma_b64_char(v: u8)
    requires
        v < 64,
    ensures
        b64_value(b64_char(v)) == Some(v),
        b64_char(v) != 0x3Du8,
        !is_ascii_ws(b64_char(v)),
{
}

/// The value a quartet character stands for: 0 for `=`.
pub open spec fn quartet_value(b: u8) -> u8 {
    if b == 0x3Du8 {
        0u8
    } else {
        b64_value(b)->0
    }
}

/// Decoding over four characters that are each `=` or of the alphabet, at a
/// quartet boundary, adds the bytes of that quartet.
proof fn lemma_decode_quartet(s: Seq<u8>, i: int, out: Seq<u8>)
    requires
        0 <= i,
        i + 4 <= s.len(),
        forall|k: int| i <= k < i + 4 ==> (s[k] == 0x3Du8 || b64_value(#[trigger] s[k]) is Some),
    ensures
        b64_decode_from(s, i, Seq::empty(), out) == b64_decode_from(
            s,
            i + 4,
            Seq::empty(),
            out + quartet_bytes(
                seq![
                    quartet_value(s[i]),
                    quartet_value(s[i + 1]),
                    quartet_value(s[i + 2]),
                    quartet_value(s[i + 3]),
                ],
                s[i + 2] == 0x3Du8,
                s[i + 3] == 0x3Du8,
            ),
        ),
{
    assert(s[i] == 0x3Du8 || b64_value(s[i]) is Some);
    assert(s[i + 1] == 0x3Du8 || b64_value(s[i + 1]) is Some);
    assert(s[i + 2] == 0x3Du8 || b64_value(s[i + 2]) is Some);
    assert(s[i + 3] == 0x3Du8 || b64_value(s[i + 3]) is Some);
    let c1 = Seq::<u8>::empty().push(quartet_value(s[i]));
    let c2 = c1.push(quartet_value(s[i + 1]));
    let c3 = c2.push(quartet_value(s[i + 2]));
    let c4 = c3.push(quartet_value(s[i + 3]));
    assert(b64_decode_from(s, i, Seq::empty(), out) == b64_decode_from(s, i + 1, c1, out));
    assert(b64_decode_from(s, i + 1, c1, out) == b64_decode_from(s, i + 2, c2, out));
    assert(b64_decode_from(s, i + 2, c2, out) == b64_decode_from(s, i + 3, c3, out));
    assert(c4 =~= seq![
        quartet_value(s[i]),
        quartet_value(s[i + 1]),
        quartet_value(s[i + 2]),
        quartet_value(s[i + 3]),
    ]);
    assert(pad_at(s, i + 4, true) == (s[i + 2] == 0x3Du8));
    assert(pad_at(s, i + 4, false) == (s[i + 3] == 0x3Du8));
}

/// The bytes of a full quartet are the three bytes it encodes.
proof fn lemma_quartet_full(x0: u8, x1: u8, x2: u8)
    ensures
        quartet_bytes(
            seq![
                x0 >> 2u8,
                ((x0 & 3u8) << 4u8) | (x1 >> 4u8),
                ((x1 & 15u8) << 2u8) | (x2 >> 6u8),
                x2 & 63u8,
            ],
            false,
            false,
        ) == seq![x0, x1, x2],
{
    let c0 = x0 >> 2u8;
    let c1 = ((x0 & 3u8) << 4u8) | (x1 >> 4u8);
    let c2 = ((x1 & 15u8) << 2u8) | (x2 >> 6u8);
    let c3 = x2 & 63u8;
    assert(((c0 << 2u8) | (c1 >> 4u8)) == x0 && ((c1 << 4u8) | (c2 >> 2u8)) == x1 && ((c2 << 6u8)
        | c3) == x2) by (bit_vector)
        requires
            c0 == x0 >> 2u8,
            c1 == ((x0 & 3u8) << 4u8) | (x1 >> 4u8),
            c2 == ((x1 & 15u8) << 2u8) | (x2 >> 6u8),
            c3 == x2 & 63u8,
    ;
    assert(quartet_bytes(seq![c0, c1, c2, c3], false, false) =~= seq![x0, x1, x2]);
}

/// Decoding continues through an encoding that starts at a quartet
/// boundary, adding exactly the encoded bytes.
proof fn lemma_decode_encoded(p: Seq<u8>, x: Seq<u8>, out: Seq<u8>)
    ensures
        b64_decode_from(p + b64_encode(x), p.len() as int, Seq::empty(), out) == Some(out + x),
    decreases x.len(),
{
    let s = p + b64_encode(x);
    let i = p.len() as int;
    if x.len() == 0 {
        assert(s.len() == i);
        assert(out + x =~= out);
    } else {
        let x0 = x[0];
        let e0 = x0 >> 2u8;
        assert(e0 < 64) by (bit_vector)
            requires
                e0 == x0 >> 2u8,
        ;
        lemma_b64_char(e0);
        if x.len() == 1 {
            let e1 = (x0 & 3u8) << 4u8;
            assert(e1 < 64) by (bit_vector)
                requires
                    e1 == (x0 & 3u8) << 4u8,
            ;
            lemma_b64_char(e1);
            assert(s[i] == b64_char(e0) && s[i + 1] == b64_char(e1) && s[i + 2] == 0x3Du8 && s[i + 3]
                == 0x3Du8);
            lemma_decode_quartet(s, i, out);
            let b0 = (e0 << 2u8) | (e1 >> 4u8);
            assert(b0 == x0) by (bit_vector)
                requires
                    e0 == x0 >> 2u8,
                    e1 == (x0 & 3u8) << 4u8,
                    b0 == (e0 << 2u8) | (e1 >> 4u8),
            ;
            assert(quartet_bytes(seq![e0, e1, 0u8, 0u8], true, true) =~= seq![x0]);
            assert(seq![quartet_value(s[i]), quartet_value(s[i + 1]), quartet_value(s[i + 2]), quartet_value(s[i + 3])] =~= seq![e0, e1, 0u8, 0u8]);
            assert(out + x =~= out + seq![x0]);
        } else if x.len() == 2 {
            let x1 = x[1];
            let e1 = ((x0 & 3u8) << 4u8) | (x1 >> 4u8);
            let e2 = (x1 & 15u8) << 2u8;
            assert(e1 < 64 && e2 < 64) by (bit_vector)
                requires
                    e1 == ((x0 & 3u8) << 4u8) | (x1 >> 4u8),
                    e2 == (x1 & 15u8) << 2u8,
            ;
            lemma_b64_char(e1);
            lemma_b64_char(e2);
            assert(s[i] == b64_char(e0) && s[i + 1] == b64_char(e1) && s[i + 2] == b64_char(e2) && s[i
                + 3] == 0x3Du8);
            lemma_decode_quartet(s, i, out);
            let b0 = (e0 << 2u8) | (e1 >> 4u8);
            let b1 = (e1 << 4u8) | (e2 >> 2u8);
            assert(b0 == x0 && b1 == x1) by (bit_vector)
                requires
                    e0 == x0 >> 2u8,
                    e1 == ((x0 & 3u8) << 4u8) | (x1 >> 4u8),
                    e2 == (x1 & 15u8) << 2u8,
                    b0 == (e0 << 2u8) | (e1 >> 4u8),
                    b1 == (e1 << 4u8) | (e2 >> 2u8),
            ;
            assert(quartet_bytes(seq![e0, e1, e2, 0u8], false, true) =~= seq![x0, x1]);
            assert(seq![quartet_value(s[i]), quartet_value(s[i + 1]), quartet_value(s[i + 2]), quartet_value(s[i + 3])] =~= seq![e0, e1, e2, 0u8]);
            assert(out + x =~= out + seq![x0, x1]);
        } else {
            let x1 = x[1];
            let x2 = x[2];
            let e1 = ((x0 & 3u8) << 4u8) | (x1 >> 4u8);
            let e2 = ((x1 & 15u8) << 2u8) | (x2 >> 6u8);
            let e3 = x2 & 63u8;
            assert(e1 < 64 && e2 < 64 && e3 < 64) by (bit_vector)
                requires
                    e1 == ((x0 & 3u8) << 4u8) | (x1 >> 4u8),
                    e2 == ((x1 & 15u8) << 2u8) | (x2 >> 6u8),
                    e3 == x2 & 63u8,
            ;
            lemma_b64_char(e1);
            lemma_b64_char(e2);
            lemma_b64_char(e3);
            let g = seq![b64_char(e0), b64_char(e1), b64_char(e2), b64_char(e3)];
            assert(b64_encode(x) == g + b64_encode(x.skip(3)));
            assert(s =~= (p + g) + b64_encode(x.skip(3)));
            assert(s[i] == b64_char(e0) && s[i + 1] == b64_char(e1) && s[i + 2] == b64_char(e2) && s[i
                + 3] == b64_char(e3));
            lemma_decode_quartet(s, i, out);
            lemma_quartet_full(x0, x1, x2);
            assert(seq![quartet_value(s[i]), quartet_value(s[i + 1]), quartet_value(s[i + 2]), quartet_value(s[i + 3])] =~= seq![e0, e1, e2, e3]);
            lemma_decode_encoded(p + g, x.skip(3), out + seq![x0, x1, x2]);
            assert(out + seq![x0, x1, x2] + x.skip(3) =~= out + x);
        }
    }
}

/// Whitespace only, as the decoder skips it.
pub open spec fn is_ws_run(w: Seq<u8>) -> bool {
    forall|k: int| 0 <= k < w.len() ==> #[trigger] is_ascii_ws(w[k])
}

/// Four characters, each `=` or of the base64 alphabet.
pub open spec fn is_quartet(g: Seq<u8>) -> bool {
    g.len() == 4 && forall|k: int| 0 <= k < 4 ==> (g[k] == 0x3Du8 || b64_value(#[trigger] g[k]) is Some)
}

/// The quartets `groups` with the whitespace runs `gaps` around them:
/// `gaps[0] + groups[0] + gaps[1] + ... + groups[n - 1] + gaps[n]`.
pub open spec fn spaced_quartets(groups: Seq<Seq<u8>>, gaps: Seq<Seq<u8>>) -> Seq<u8>
    decreases groups.len(),
{
    if groups.len() == 0 {
        if gaps.len() > 0 {
            gaps[0]
        } else {
            Seq::empty()
        }
    } else {
        gaps[0] + groups[0] + spaced_quartets(groups.skip(1), gaps.skip(1))
    }
}

/// No whitespace anywhere: `n + 1` empty runs.
pub open spec fn no_gaps(n: nat) -> Seq<Seq<u8>> {
    Seq::new(n + 1, |i: int| Seq::<u8>::empty())
}

/// The bytes that quartets decode to, one after the other.
pub open spec fn quartets_bytes(groups: Seq<Seq<u8>>) -> Seq<u8>
    decreases groups.len(),
{
    if groups.len() == 0 {
        Seq::empty()
    } else {
        let g = groups[0];
        quartet_bytes(
            seq![quartet_value(g[0]), quartet_value(g[1]), quartet_value(g[2]), quartet_value(g[3])],
            g[2] == 0x3Du8,
            g[3] == 0x3Du8,
        ) + quartets_bytes(groups.skip(1))
    }
}

/// Decoding skips a run of whitespace between quartets.
proof fn lemma_skip_ws(s: Seq<u8>, i: int, n: int, out: Seq<u8>)
    requires
        0 <= i,
        0 <= n,
        i + n <= s.len(),
        is_ws_run(s.subrange(i, i + n)),
    ensures
        b64_decode_from(s, i, Seq::empty(), out) == b64_decode_from(s, i + n, Seq::empty(), out),
    decreases n,
{
    if n > 0 {
        assert(is_ascii_ws(s.subrange(i, i + n)[0]));
        assert(s[i] == s.subrange(i, i + n)[0]);
        assert(s.subrange(i + 1, i + n) =~= s.subrange(i, i + n).skip(1));
        lemma_skip_ws(s, i + 1, n - 1, out);
    }
}

/// Decoding from the front of spaced quartets, whatever precedes them, adds
/// the bytes of the quartets.
proof fn lemma_decode_spaced(p: Seq<u8>, groups: Seq<Seq<u8>>, gaps: Seq<Seq<u8>>, out: Seq<u8>)
    requires
        gaps.len() == groups.len() + 1,
        forall|q: int| 0 <= q < groups.len() ==> is_quartet(#[trigger] groups[q]),
        forall|q: int| 0 <= q < gaps.len() ==> is_ws_run(#[trigger] gaps[q]),
    ensures
        b64_decode_from(p + spaced_quartets(groups, gaps), p.len() as int, Seq::empty(), out) == Some(
            out + quartets_bytes(groups),
        ),
    decreases groups.len(),
{
    let s = p + spaced_quartets(groups, gaps);
    let i = p.len() as int;
    let w = gaps[0];
    assert(is_ws_run(gaps[0]));
    if groups.len() == 0 {
        assert(spaced_quartets(groups, gaps) == w);
        assert(s.subrange(i, i + w.len()) =~= w);
        lemma_skip_ws(s, i, w.len() as int, out);
        assert(out + quartets_bytes(groups) =~= out);
    } else {
        let g = groups[0];
        assert(is_quartet(g));
        let rest = spaced_quartets(groups.skip(1), gaps.skip(1));
        assert(s =~= (p + w + g) + rest);
        assert(s.subrange(i, i + w.len()) =~= w);
        lemma_skip_ws(s, i, w.len() as int, out);
        let j = i + w.len();
        assert forall|k: int| j <= k < j + 4 implies (s[k] == 0x3Du8 || b64_value(#[trigger] s[k]) is Some) by {
            assert(s[k] == g[k - j]);
        }
        lemma_decode_quartet(s, j, out);
        let qb = quartet_bytes(
            seq![quartet_value(g[0]), quartet_value(g[1]), quartet_value(g[2]), quartet_value(g[3])],
            g[2] == 0x3Du8,
            g[3] == 0x3Du8,
        );
        assert(s[j] == g[0] && s[j + 1] == g[1] && s[j + 2] == g[2] && s[j + 3] == g[3]);
        assert forall|q: int| 0 <= q < groups.skip(1).len() implies is_quartet(#[trigger] groups.skip(1)[q]) by {
            assert(groups.skip(1)[q] == groups[q + 1]);
        }
        assert forall|q: int| 0 <= q < gaps.skip(1).len() implies is_ws_run(#[trigger] gaps.skip(1)[q]) by {
            assert(gaps.skip(1)[q] == gaps[q + 1]);
        }
        lemma_decode_spaced(p + w + g, groups.skip(1), gaps.skip(1), out + qb);
        assert((p + w + g).len() == j + 4);
        assert(out + qb + quartets_bytes(groups.skip(1)) =~= out + quartets_bytes(groups));
    }
}

/// Whitespace between quartets changes nothing: base64 made of quartets
/// (each character `=` or of the alphabet) decodes to the same bytes with
/// runs of whitespace before, between and after the quartets as without.
pub proof fn lemma_whitespace_between_quartets(groups: Seq<Seq<u8>>, gaps: Seq<Seq<u8>>)
    requires
        gaps.len() == groups.len() + 1,
        forall|q: int| 0 <= q < groups.len() ==> is_quartet(#[trigger] groups[q]),
        forall|q: int| 0 <= q < gaps.len() ==> is_ws_run(#[trigger] gaps[q]),
    ensures
        b64_decode(spaced_quartets(groups, gaps)) == b64_decode(
            spaced_quartets(groups, no_gaps(groups.len())),
        ),
{
    let e = Seq::<u8>::empty();
    assert(e + spaced_quartets(groups, gaps) =~= spaced_quartets(groups, gaps));
    lemma_decode_spaced(e, groups, gaps, e);
    let ng = no_gaps(groups.len());
    assert forall|q: int| 0 <= q < ng.len() implies is_ws_run(#[trigger] ng[q]) by {}
    assert(e + spaced_quartets(groups, ng) =~= spaced_quartets(groups, ng));
    lemma_decode_spaced(e, groups, ng, e);
}

/// Decoding the standard base64 encoding of any bytes gives those bytes.
pub proof fn lemma_base64_roundtrip(x: Seq<u8>)
    ensures
        b64_decode(b64_encode(x)) == Some(x),
{
    let p = Seq::<u8>::empty();
    assert(p + b64_encode(x) =~= b64_encode(x));
    lemma_decode_encoded(p, x, Seq::empty());
    assert(Seq::<u8>::empty() + x =~= x);
}


/// The length of the UTF-8 encoding of a whitespace character (Unicode
/// `White_Space`, as `char::is_whitespace` defines it) at the front of `t`,
/// or 0 where `t` does not start with one.
pub open spec fn ws_prefix_len(t: Seq<u8>) -> nat {
    if t.len() >= 1 && ((0x09u8 <= t[0] <= 0x0Du8) || t[0] == 0x20u8) {
        1
    } else if t.len() >= 2 && t[0] == 0xC2u8 && (t[1] == 0x85u8 || t[1] == 0xA0u8) {
        2
    } else if t.len() >= 3 && ((t[0] == 0xE1u8 && t[1] == 0x9Au8 && t[2] == 0x80u8) || (t[0]
        == 0xE2u8 && t[1] == 0x80u8 && ((0x80u8 <= t[2] <= 0x8Au8) || t[2] == 0xA8u8 || t[2]
        == 0xA9u8 || t[2] == 0xAFu8)) || (t[0] == 0xE2u8 && t[1] == 0x81u8 && t[2] == 0x9Fu8) || (
    t[0] == 0xE3u8 && t[1] == 0x80u8 && t[2] == 0x80u8)) {
        3
    } else {
        0
    }
}

/// The length of the UTF-8 encoding of a whitespace character at the end of
/// `t`, or 0 where `t` does not end with one.
pub open spec fn ws_suffix_len(t: Seq<u8>) -> nat {
    let n = t.len() as int;
    if n >= 1 && ws_prefix_len(t.skip(n - 1)) == 1 {
        1
    } else if n >= 2 && ws_prefix_len(t.skip(n - 2)) == 2 {
        2
    } else if n >= 3 && ws_prefix_len(t.skip(n - 3)) == 3 {
        3
    } else {
        0
    }
}

/// `t` without its leading whitespace characters.
pub open spec fn trim_start(t: Seq<u8>) -> Seq<u8>
    decreases t.len(),
{
    let k = ws_prefix_len(t);
    if k == 0 || k > t.len() {
        t
    } else {
        trim_start(t.skip(k as int))
    }
}

/// `t` without its trailing whitespace characters.
pub open spec fn trim_end(t: Seq<u8>) -> Seq<u8>
    decreases t.len(),
{
    let k = ws_suffix_len(t);
    if k == 0 || k > t.len() {
        t
    } else {
        trim_end(t.take(t.len() - k))
    }
}

/// `t` without leading and trailing whitespace, as `str::trim` gives it.
pub open spec fn trim(t: Seq<u8>) -> Seq<u8> {
    trim_end(trim_start(t))
}

/// `t` without one pair of enclosing double or single quotes.
pub open spec fn strip_quotes(t: Seq<u8>) -> Seq<u8> {
    if t.len() >= 2 && ((t[0] == 0x22u8 && t.last() == 0x22u8) || (t[0] == 0x27u8 && t.last()
        == 0x27u8)) {
        t.subrange(1, t.len() - 1)
    } else {
        t
    }
}

/// The fields of `b` between commas (one more field than commas).
pub open spec fn split_commas(b: Seq<u8>) -> Seq<Seq<u8>>
    decreases b.len(),
{
    if b.len() == 0 {
        seq![Seq::empty()]
    } else {
        let r = split_commas(b.drop_last());
        if b.last() == 0x2Cu8 {
            r.push(Seq::empty())
        } else {
            r.update(r.len() - 1, r.last().push(b.last()))
        }
    }
}

/// The non-empty tokens among `ts`, in order.
pub open spec fn keep_nonempty(ts: Seq<Seq<u8>>) -> Seq<Seq<u8>>
    decreases ts.len(),
{
    if ts.len() == 0 {
        Seq::empty()
    } else {
        keep_nonempty(ts.drop_last()) + (if ts.last().len() > 0 {
            seq![ts.last()]
        } else {
            Seq::empty()
        })
    }
}

/// A field trimmed and unquoted.
pub open spec fn clean_token(t: Seq<u8>) -> Seq<u8> {
    strip_quotes(trim(t))
}

/// What lies between an opening `[` and a closing `]`, either of which may
/// be missing.
pub open spec fn json_inner(b: Seq<u8>) -> Seq<u8> {
    let start = if b.len() > 0 && b[0] == 0x5Bu8 {
        1int
    } else {
        0int
    };
    let end = if b.len() > 0 && b.last() == 0x5Du8 {
        b.len() - 1
    } else {
        b.len() as int
    };
    b.subrange(start, end)
}

/// The tokens of a JSON-like array: its fields between commas, trimmed and
/// unquoted, the empty ones left out.
pub open spec fn json_tokens(b: Seq<u8>) -> Seq<Seq<u8>> {
    if b.len() == 0 {
        Seq::empty()
    } else {
        keep_nonempty(split_commas(json_inner(b)).map_values(|t: Seq<u8>| clean_token(t)))
    }
}

/// The length of the whitespace character at `t[from..to]`'s front.
fn ws_prefix_len_at(t: &[u8], from: usize, to: usize) -> (k: usize)
    requires
        from <= to <= t@.len(),
    ensures
        k == ws_prefix_len(t@.subrange(from as int, to as int)),
{
    let n = to - from;
    let ghost u = t@.subrange(from as int, to as int);
    if n >= 1 && ((t[from] >= 0x09 && t[from] <= 0x0D) || t[from] == 0x20) {
        return 1;
    }
    if n >= 2 && t[from] == 0xC2 && (t[from + 1] == 0x85 || t[from + 1] == 0xA0) {
        return 2;
    }
    if n >= 3 {
        let (a, b, c) = (t[from], t[from + 1], t[from + 2]);
        assert(a == u[0] && b == u[1] && c == u[2]);
        if (a == 0xE1 && b == 0x9A && c == 0x80) || (a == 0xE2 && b == 0x80 && ((c >= 0x80 && c
            <= 0x8A) || c == 0xA8 || c == 0xA9 || c == 0xAF)) || (a == 0xE2 && b == 0x81 && c
            == 0x9F) || (a == 0xE3 && b == 0x80 && c == 0x80) {
            return 3;
        }
    }
    0
}

/// `t[from..to]` trimmed, as bounds into `t`.
fn trim_bounds(t: &[u8], from: usize, to: usize) -> (r: (usize, usize))
    requires
        from <= to <= t@.len(),
    ensures
        r.0 <= r.1 <= t@.len(),
        t@.subrange(r.0 as int, r.1 as int) == trim(t@.subrange(from as int, to as int)),
{
    let mut a = from;
    let mut stop = false;
    while !stop && a < to
        invariant
            from <= a <= to <= t@.len(),
            trim_start(t@.subrange(from as int, to as int)) == trim_start(t@.subrange(a as int, to as int)),
            stop ==> ws_prefix_len(t@.subrange(a as int, to as int)) == 0,
        decreases to - a, (if stop { 0int } else { 1int }),
    {
        let k = ws_prefix_len_at(t, a, to);
        if k == 0 {
            stop = true;
            continue;
        }
        proof {
            let u = t@.subrange(a as int, to as int);
            assert(u.skip(k as int) =~= t@.subrange(a + k, to as int));
        }
        a = a + k;
    }
    let ghost ts = t@.subrange(a as int, to as int);
    assert(trim_start(ts) == ts) by {
        if a < to {
            assert(ws_prefix_len(ts) == 0);
        }
    }
    let mut b = to;
    let mut stop = false;
    while !stop && b > a
        invariant
            a <= b <= to <= t@.len(),
            trim(t@.subrange(from as int, to as int)) == trim_end(t@.subrange(a as int, b as int)),
            stop ==> ws_suffix_len(t@.subrange(a as int, b as int)) == 0,
        decreases b - a, (if stop { 0int } else { 1int }),
    {
        let ghost u = t@.subrange(a as int, b as int);
        let mut k: usize = 0;
        if b - a >= 1 && ws_prefix_len_at(t, b - 1, b) == 1 {
            k = 1;
        } else if b - a >= 2 && ws_prefix_len_at(t, b - 2, b) == 2 {
            k = 2;
        } else if b - a >= 3 && ws_prefix_len_at(t, b - 3, b) == 3 {
            k = 3;
        }
        proof {
            assert(u.skip(u.len() - 1) =~= t@.subrange(b - 1, b as int));
            if b - a >= 2 {
                assert(u.skip(u.len() - 2) =~= t@.subrange(b - 2, b as int));
            }
            if b - a >= 3 {
                assert(u.skip(u.len() - 3) =~= t@.subrange(b - 3, b as int));
            }
            assert(k == ws_suffix_len(u));
        }
        if k == 0 {
            stop = true;
            continue;
        }
        assert(u.take(u.len() - k) =~= t@.subrange(a as int, b - k));
        b = b - k;
    }
    proof {
        let u = t@.subrange(a as int, b as int);
        if a < b {
            assert(trim_end(u) == u);
        } else {
            assert(u.len() == 0);
        }
    }
    (a, b)
}


/// Each byte vector as a byte sequence.
pub open spec fn byte_views(v: Seq<Vec<u8>>) -> Seq<Seq<u8>> {
    v.map_values(|x: Vec<u8>| x@)
}

/// `t[from..to]` cleaned (trimmed, then unquoted), as bounds into `t`.
fn clean_bounds(t: &[u8], from: usize, to: usize) -> (r: (usize, usize))
    requires
        from <= to <= t@.len(),
    ensures
        r.0 <= r.1 <= t@.len(),
        t@.subrange(r.0 as int, r.1 as int) == clean_token(t@.subrange(from as int, to as int)),
{
    let (a, b) = trim_bounds(t, from, to);
    let ghost u = t@.subrange(a as int, b as int);
    if b - a >= 2 && ((t[a] == 0x22 && t[b - 1] == 0x22) || (t[a] == 0x27 && t[b - 1] == 0x27)) {
        assert(u[0] == t@[a as int] && u.last() == t@[b - 1]);
        assert(u.subrange(1, u.len() - 1) =~= t@.subrange(a + 1, b - 1));
        (a + 1, b - 1)
    } else {
        proof {
            if u.len() >= 2 {
                assert(u[0] == t@[a as int] && u.last() == t@[b - 1]);
            }
        }
        (a, b)
    }
}

/// Splits a JSON-like array of strings into its tokens: the `[` and `]`
/// around it may be missing, fields are split at commas, trimmed of
/// whitespace and of one pair of enclosing quotes, and empty ones are left
/// out. (Quotes inside a field are not interpreted: a comma always splits.)
pub fn split_json_array(s: &str) -> (v: Vec<Vec<u8>>)
    ensures
        byte_views(v@) == json_tokens(s.spec_bytes()),
{
    let mut v: Vec<Vec<u8>> = Vec::new();
    let bytes = s.as_bytes();
    if bytes.len() == 0 {
        assert(byte_views(v@) =~= Seq::<Seq<u8>>::empty());
        return v;
    }
    let mut start: usize = 0;
    let mut end = bytes.len();
    if bytes[start] == 0x5B {
        start = start + 1;
    }
    if end > 0 && bytes[end - 1] == 0x5D {
        end = end - 1;
    }
    let ghost inner = bytes@.subrange(start as int, end as int);
    assert(inner == json_inner(bytes@));
    let mut i = start;
    let mut token_start = start;
    let ghost mut fields: Seq<Seq<u8>> = Seq::empty();
    assert(inner.take(0) =~= Seq::<u8>::empty());
    assert(split_commas(Seq::<u8>::empty()) == seq![Seq::<u8>::empty()]);
    assert(bytes@.subrange(token_start as int, i as int) =~= Seq::<u8>::empty());
    assert(fields.push(Seq::<u8>::empty()) =~= seq![Seq::<u8>::empty()]);
    assert(byte_views(v@) =~= keep_nonempty(fields.map_values(|t: Seq<u8>| clean_token(t))));
    while i < end
        invariant
            start <= token_start <= i <= end <= bytes@.len(),
            inner == bytes@.subrange(start as int, end as int),
            split_commas(inner.take(i - start)) == fields.push(bytes@.subrange(token_start as int, i as int)),
            byte_views(v@) == keep_nonempty(fields.map_values(|t: Seq<u8>| clean_token(t))),
        decreases end - i,
    {
        let ghost done = inner.take(i - start);
        let ghost cur = bytes@.subrange(token_start as int, i as int);
        assert(inner.take(i + 1 - start) =~= done.push(bytes@[i as int]));
        assert(inner.take(i + 1 - start).drop_last() =~= done);
        if bytes[i] == 0x2C {
            let (a, b) = clean_bounds(bytes, token_start, i);
            let ghost old_v = v@;
            if a < b {
                v.push(vstd::slice::slice_to_vec(&bytes[a..b]));
            }
            proof {
                let nf = fields.push(cur);
                let m = nf.map_values(|t: Seq<u8>| clean_token(t));
                assert(m.drop_last() =~= fields.map_values(|t: Seq<u8>| clean_token(t)));
                assert(m.last() == clean_token(cur));
                assert(byte_views(v@) =~= keep_nonempty(m));
                fields = nf;
            }
            token_start = i + 1;
            assert(bytes@.subrange(token_start as int, i + 1) =~= Seq::<u8>::empty());
        } else {
            assert(bytes@.subrange(token_start as int, i + 1) =~= cur.push(bytes@[i as int]));
            assert(fields.push(cur).update(fields.len() as int, cur.push(bytes@[i as int])) =~= fields.push(
                cur.push(bytes@[i as int]),
            ));
        }
        i = i + 1;
    }
    assert(inner.take(end - start) =~= inner);
    let (a, b) = clean_bounds(bytes, token_start, end);
    if a < b {
        v.push(vstd::slice::slice_to_vec(&bytes[a..b]));
    }
    proof {
        let cur = bytes@.subrange(token_start as int, end as int);
        let nf = fields.push(cur);
        let m = nf.map_values(|t: Seq<u8>| clean_token(t));
        assert(m.drop_last() =~= fields.map_values(|t: Seq<u8>| clean_token(t)));
        assert(m.last() == clean_token(cur));
        assert(byte_views(v@) =~= keep_nonempty(m));
    }
    v
}


/// A key made of the first 32 bytes, padded with zeros where fewer.
pub open spec fn fit_key(b: Seq<u8>) -> Seq<u8> {
    Seq::new(32, |i: int| if i < b.len() { b[i] } else { 0u8 })
}

/// The keys that tokens give: each non-empty token that decodes as base64,
/// cut or padded to 32 bytes; the others are skipped.
pub open spec fn keys_from_tokens(ts: Seq<Seq<u8>>) -> Seq<Seq<u8>>
    decreases ts.len(),
{
    if ts.len() == 0 {
        Seq::empty()
    } else {
        keys_from_tokens(ts.drop_last()) + (if ts.last().len() > 0 && b64_decode(ts.last()) is Some {
            seq![fit_key(b64_decode(ts.last())->0)]
        } else {
            Seq::empty()
        })
    }
}

/// The bytes of an environment value; an unset one reads as empty.
pub open spec fn env_bytes(value: Option<&str>) -> Seq<u8> {
    match value {
        Some(v) => v.spec_bytes(),
        None => Seq::empty(),
    }
}

/// `b` cut or padded with zeros to a 32-byte key.
fn fit_key_exec(b: &[u8]) -> (k: [u8; 32])
    ensures
        k@ == fit_key(b@),
{
    let mut arr = [0u8; 32];
    let n = if b.len() < 32 {
        b.len()
    } else {
        32
    };
    let mut i: usize = 0;
    while i < n
        invariant
            i <= n <= 32,
            n <= b@.len(),
            n == 32 || n == b@.len(),
            forall|m: int| 0 <= m < i ==> arr@[m] == b@[m],
            forall|m: int| i <= m < 32 ==> arr@[m] == 0u8,
        decreases n - i,
    {
        arr[i] = b[i];
        i = i + 1;
    }
    assert(arr@ =~= fit_key(b@));
    arr
}

/// Reads the keys of a JSON-like array of base64 strings. A string that is
/// not base64 is skipped; a decoded key is cut or padded with zeros to 32
/// bytes.
pub fn parse_keys_from_json_base64(s: &str) -> (keys: Vec<[u8; 32]>)
    ensures
        key_views(keys@) == keys_from_tokens(json_tokens(s.spec_bytes())),
{
    let parts = split_json_array(s);
    let ghost ts = byte_views(parts@);
    let mut res: Vec<[u8; 32]> = Vec::new();
    let mut i: usize = 0;
    assert(ts.take(0) =~= Seq::<Seq<u8>>::empty());
    assert(key_views(res@) =~= Seq::<Seq<u8>>::empty());
    while i < parts.len()
        invariant
            i <= parts@.len(),
            ts == byte_views(parts@),
            key_views(res@) == keys_from_tokens(ts.take(i as int)),
        decreases parts@.len() - i,
    {
        let p = &parts[i];
        assert(ts.take(i + 1).drop_last() =~= ts.take(i as int));
        assert(ts.take(i + 1).last() == p@);
        if p.len() == 0 {
            i = i + 1;
            continue;
        }
        if let Some(bytes) = base64_decode(p.as_slice()) {
            let arr = fit_key_exec(bytes.as_slice());
            let ghost before = res@;
            res.push(arr);
            assert(key_views(res@) =~= key_views(before).push(arr@));
        }
        i = i + 1;
    }
    assert(ts.take(parts@.len() as int) =~= ts);
    res
}


/// The decimal digits of `b` read left to right with saturating `u8`
/// arithmetic (`n * 10 + d`, each step capped at 255); other bytes are
/// skipped.
pub open spec fn decimal_saturating(b: Seq<u8>) -> u8
    decreases b.len(),
{
    if b.len() == 0 {
        0
    } else {
        let n = decimal_saturating(b.drop_last());
        let c = b.last();
        if 0x30u8 <= c <= 0x39u8 {
            let m = if n * 10 > 255 { 255int } else { n * 10 };
            if m + (c - 0x30u8) > 255 {
                255
            } else {
                (m + (c - 0x30u8)) as u8
            }
        } else {
            n
        }
    }
}

/// The decimal digits of `n`, most significant first, without leading zeros.
pub open spec fn decimal_digits(n: nat) -> Seq<u8>
    decreases n,
{
    if n < 10 {
        seq![(0x30 + n) as u8]
    } else {
        decimal_digits(n / 10).push((0x30 + n % 10) as u8)
    }
}

/// Reading the decimal digits of any number gives that number where it fits
/// a `u8`, and 255 exactly where it is larger: every value from 0 to 255
/// reads back as itself.
pub proof fn lemma_decimal_reads_back(n: nat)
    ensures
        decimal_saturating(decimal_digits(n)) == (if n > 255 { 255 } else { n }),
    decreases n,
{
    let d = decimal_digits(n);
    if n < 10 {
        assert(d.drop_last() =~= Seq::<u8>::empty());
        assert(d.last() == (0x30 + n) as u8);
        assert(decimal_saturating(d.drop_last()) == 0);
    } else {
        let q = n / 10;
        let r = n % 10;
        lemma_decimal_reads_back(q);
        assert(d.drop_last() == decimal_digits(q));
        let c = d.last();
        assert(c == (0x30 + r) as u8);
        assert(c - 0x30u8 == r);
        assert(n == q * 10 + r);
        let prev = decimal_saturating(decimal_digits(q));
        if q > 255 {
            assert(prev == 255);
            assert(prev * 10 > 255);
            assert(n > 255);
        } else {
            assert(prev == q);
            assert(prev * 10 == q * 10);
        }
    }
}

/// The digits of `s`, read as `decimal_saturating` says.
fn parse_decimal(s: &[u8]) -> (n: u8)
    ensures
        n == decimal_saturating(s@),
{
    let mut n: u8 = 0;
    let mut i: usize = 0;
    assert(s@.take(0) =~= Seq::<u8>::empty());
    while i < s.len()
        invariant
            i <= s@.len(),
            n == decimal_saturating(s@.take(i as int)),
        decreases s@.len() - i,
    {
        let b = s[i];
        assert(s@.take(i + 1).drop_last() =~= s@.take(i as int));
        assert(s@.take(i + 1).last() == b);
        if b >= 0x30 && b <= 0x39 {
            let m: u8 = if n > 25 {
                255
            } else {
                n * 10
            };
            n = m.saturating_add(b - 0x30);
        }
        i = i + 1;
    }
    assert(s@.take(s@.len() as int) =~= s@);
    n
}

/// The device id from the value of `IOT_UID`: its decimal digits, or 1
/// where the value is unset or reads as 0.
pub fn read_iot_uid(value: Option<&str>) -> (uid: u8)
    ensures
        uid == (match value {
            Some(v) => if decimal_saturating(v.spec_bytes()) == 0 {
                1
            } else {
                decimal_saturating(v.spec_bytes())
            },
            None => 1,
        }),
        forall|n: nat|
            #![trigger decimal_digits(n)]
            (value matches Some(v) && v.spec_bytes() == decimal_digits(n)) ==> uid == (if n == 0 {
                1
            } else if n > 255 {
                255
            } else {
                n
            }),
{
    assert forall|n: nat|
        #![trigger decimal_digits(n)]
        (value matches Some(v) && v.spec_bytes() == decimal_digits(n)) implies decimal_saturating(
            decimal_digits(n),
        ) == (if n > 255 { 255 } else { n }) by {
        lemma_decimal_reads_back(n);
    }
    match value {
        Some(v) => {
            let n = parse_decimal(v.as_bytes());
            if n == 0 {
                1
            } else {
                n
            }
        },
        None => 1,
    }
}

/// The challenge size from the value of `P`: its decimal digits, or 2 where
/// the value is unset or reads as 0.
pub fn read_p(value: Option<&str>) -> (p: u8)
    ensures
        p == (match value {
            Some(v) => if decimal_saturating(v.spec_bytes()) == 0 {
                2
            } else {
                decimal_saturating(v.spec_bytes())
            },
            None => 2,
        }),
        forall|n: nat|
            #![trigger decimal_digits(n)]
            (value matches Some(v) && v.spec_bytes() == decimal_digits(n)) ==> p == (if n == 0 {
                2
            } else if n > 255 {
                255
            } else {
                n
            }),
{
    assert forall|n: nat|
        #![trigger decimal_digits(n)]
        (value matches Some(v) && v.spec_bytes() == decimal_digits(n)) implies decimal_saturating(
            decimal_digits(n),
        ) == (if n > 255 { 255 } else { n }) by {
        lemma_decimal_reads_back(n);
    }
    match value {
        Some(v) => {
            let n = parse_decimal(v.as_bytes());
            if n == 0 {
                2
            } else {
                n
            }
        },
        None => 2,
    }
}

/// The initial keys from the value of `KEYS` (a JSON-like array of base64
/// strings); none where the value is unset.
pub fn read_initial_keys(value: Option<&str>) -> (keys: Vec<[u8; 32]>)
    ensures
        key_views(keys@) == keys_from_tokens(json_tokens(env_bytes(value))),
{
    let s = match value {
        Some(v) => v,
        None => "",
    };
    proof {
        reveal_strlit("");
        assert(json_tokens(Seq::<u8>::empty()) == Seq::<Seq<u8>>::empty());
    }
    let keys = parse_keys_from_json_base64(s);
    proof {
        if value is None {
            assert(s@ == Seq::<char>::empty());
            assert(s.spec_bytes() =~= Seq::<u8>::empty());
        }
    }
    keys
}

/// The device secret from the value of `SKEY` (base64): the decoded bytes
/// cut or padded with zeros to 32, or 32 zeros where the value is unset or
/// not base64.
pub fn read_skey(value: Option<&str>) -> (skey: [u8; 32])
    ensures
        skey@ == (match b64_decode(env_bytes(value)) {
            Some(b) => fit_key(b),
            None => Seq::new(32, |i: int| 0u8),
        }),
{
    let s: &[u8] = match value {
        Some(v) => v.as_bytes(),
        None => &[],
    };
    assert(s@ == env_bytes(value)) by {
        if value is None {
            assert(s@ =~= Seq::<u8>::empty());
        }
    }
    match base64_decode(s) {
        Some(bytes) => fit_key_exec(bytes.as_slice()),
        None => {
            let arr = [0u8; 32];
            assert(arr@ =~= Seq::new(32, |i: int| 0u8));
            arr
        },
    }
}

} // verus!
