//! The laws of the codec: the encoder's output always decodes back to its
//! input, both directions step through the same cache states, run tokens
//! split exactly at the 62-repeat cap, the small-diff boundaries sit at
//! channel deltas of -2, and a stream truncated before its end marker is
//! rejected.

use vstd::prelude::*;

use vstd::arithmetic::div_mod::lemma_div_denominator;
use vstd::arithmetic::div_mod::lemma_fundamental_div_mod;
use vstd::arithmetic::div_mod::lemma_fundamental_div_mod_converse;
use vstd::arithmetic::div_mod::lemma_small_mod;

use crate::model::CodecState;
use crate::model::Decoded;
use crate::model::be32;
use crate::model::be32_val;
use crate::model::body_of;
use crate::model::compose;
use crate::model::decode_body;
use crate::model::encode_body;
use crate::model::encode_token;
use crate::model::end_marker;
use crate::model::fill_to;
use crate::model::header_bytes;
use crate::model::height_of;
use crate::model::lemma_compose_assoc;
use crate::model::lemma_decode_lookback;
use crate::model::lemma_decode_luma;
use crate::model::lemma_decode_nil;
use crate::model::lemma_decode_rgb;
use crate::model::lemma_decode_rgba;
use crate::model::lemma_decode_run;
use crate::model::lemma_decode_small;
use crate::model::magic;
use crate::model::marker_ok;
use crate::model::run_token;
use crate::model::state_after;
use crate::model::state_init;
use crate::model::state_update;
use crate::model::stream_ok;
use crate::model::width_of;
use crate::model::wrap8;
use crate::pixel::Pixel;
use crate::pixel::hash_spec;

verus! {

/// Committing the same pixel twice in a row changes nothing the second time.
proof fn lemma_update_idem(s: CodecState, p: Pixel)
    requires
        s.wf(),
    ensures
        state_update(state_update(s, p), p) == state_update(s, p),
{
    assert(s.cache.update(hash_spec(p), p).update(hash_spec(p), p) =~= s.cache.update(
        hash_spec(p),
        p,
    ));
}

/// The state after a block of identical pixels is one single commit.
proof fn lemma_state_after_repeat(s: CodecState, n: nat)
    requires
        s.wf(),
    ensures
        state_after(Seq::new(n, |i: int| s.prev), s) == if n == 0 {
            s
        } else {
            state_update(s, s.prev)
        },
    decreases n,
{
    if n > 0 {
        let rep = Seq::new(n, |i: int| s.prev);
        let s2 = state_update(s, s.prev);
        assert(rep[0] == s.prev);
        assert(rep.skip(1) =~= Seq::new((n - 1) as nat, |i: int| s2.prev));
        lemma_state_after_repeat(s2, (n - 1) as nat);
        if n > 1 {
            lemma_update_idem(s, s.prev);
        }
    }
}

/// Committing two blocks of pixels one after the other.
proof fn lemma_state_after_add(a: Seq<Pixel>, b: Seq<Pixel>, s: CodecState)
    ensures
        state_after(a + b, s) == state_after(b, state_after(a, s)),
    decreases a.len(),
{
    if a.len() == 0 {
        assert(a + b =~= b);
    } else {
        assert((a + b)[0] == a[0]);
        assert((a + b).skip(1) =~= a.skip(1) + b);
        lemma_state_after_add(a.skip(1), b, state_update(s, a[0]));
    }
}

/// Whatever non-run token the encoder picks for a new pixel, the decoder
/// reads exactly that pixel back and commits it.
proof fn lemma_decode_one_token(p: Pixel, s: CodecState, tail: Seq<u8>)
    requires
        s.wf(),
    ensures
        decode_body(encode_token(p, s) + tail, s) == compose(
            seq![p],
            decode_body(tail, state_update(s, p)),
        ),
{
    let tb = encode_token(p, s);
    let bs = tb + tail;
    if s.cache[hash_spec(p)] == p {
        let t = hash_spec(p) as u8;
        assert(bs[0] == t);
        lemma_fundamental_div_mod_converse(t as int, 64, 0, t as int);
        lemma_decode_lookback(bs, s);
        assert(bs.skip(1) =~= tail);
        assert(s.cache[(bs[0] % 64) as int] == p);
    } else if p.a != s.prev.a {
        assert(bs[0] == 255);
        assert(bs[1] == p.r);
        assert(bs[2] == p.g);
        assert(bs[3] == p.b);
        assert(bs[4] == p.a);
        lemma_decode_rgba(bs, s);
        assert(bs.skip(5) =~= tail);
        assert(Pixel { r: bs[1], g: bs[2], b: bs[3], a: bs[4] } == p);
    } else if crate::model::rgb_differs(p, s.prev) && crate::model::small_fits(p, s.prev) {
        let dr = p.r - s.prev.r;
        let dg = p.g - s.prev.g;
        let db = p.b - s.prev.b;
        let f0 = (dr + 2) * 16 + (dg + 2) * 4 + (db + 2);
        let t = (64 + f0) as u8;
        assert(bs[0] == t);
        lemma_fundamental_div_mod_converse(t as int, 64, 1, f0);
        lemma_fundamental_div_mod_converse(f0, 16, dr + 2, (dg + 2) * 4 + (db + 2));
        lemma_fundamental_div_mod_converse(f0, 4, (dr + 2) * 4 + (dg + 2), db + 2);
        lemma_fundamental_div_mod_converse((dr + 2) * 4 + (dg + 2), 4, dr + 2, dg + 2);
        lemma_decode_small(bs, s);
        lemma_small_mod(p.r as nat, 256);
        lemma_small_mod(p.g as nat, 256);
        lemma_small_mod(p.b as nat, 256);
        assert(wrap8(s.prev.r + (t % 64) / 16 - 2) == p.r);
        assert(wrap8(s.prev.g + ((t % 64) / 4) % 4 - 2) == p.g);
        assert(wrap8(s.prev.b + (t % 64) % 4 - 2) == p.b);
        assert(bs.skip(1) =~= tail);
    } else if crate::model::rgb_differs(p, s.prev) && crate::model::luma_fits(p, s.prev) {
        let dr = p.r - s.prev.r;
        let dg = p.g - s.prev.g;
        let db = p.b - s.prev.b;
        let t = (128 + (dg + 32)) as u8;
        let f2 = ((dr - dg + 8) * 16 + (db - dg + 8)) as u8;
        assert(bs[0] == t);
        assert(bs[1] == f2);
        lemma_fundamental_div_mod_converse(t as int, 64, 2, dg + 32);
        lemma_fundamental_div_mod_converse(f2 as int, 16, dr - dg + 8, db - dg + 8);
        lemma_decode_luma(bs, s);
        lemma_small_mod(p.r as nat, 256);
        lemma_small_mod(p.g as nat, 256);
        lemma_small_mod(p.b as nat, 256);
        assert(wrap8(s.prev.r + (t % 64 - 32) + f2 / 16 - 8) == p.r);
        assert(wrap8(s.prev.g + (t % 64 - 32)) == p.g);
        assert(wrap8(s.prev.b + (t % 64 - 32) + f2 % 16 - 8) == p.b);
        assert(bs.skip(2) =~= tail);
    } else {
        assert(bs[0] == 254);
        assert(bs[1] == p.r);
        assert(bs[2] == p.g);
        assert(bs[3] == p.b);
        lemma_decode_rgb(bs, s);
        assert(bs.skip(4) =~= tail);
        assert(Pixel { r: bs[1], g: bs[2], b: bs[3], a: s.prev.a } == p);
    }
}

/// The heart of the round trip: decoding what the encoder emits for
/// `pixels`, from a state with an open run of `run` copies of the previous
/// pixel, yields those run pixels, then `pixels`, and lands in the state
/// the whole pixel sequence dictates.
pub proof fn lemma_encode_decode(pixels: Seq<Pixel>, s: CodecState, run: int)
    requires
        s.wf(),
        0 <= run <= 62,
    ensures
        decode_body(encode_body(pixels, s, run), s) == Some(
            Decoded {
                pixels: Seq::new(run as nat, |i: int| s.prev) + pixels,
                end: state_after(Seq::new(run as nat, |i: int| s.prev) + pixels, s),
            },
        ),
    decreases pixels.len(),
{
    let rep = Seq::new(run as nat, |i: int| s.prev);
    let eb = encode_body(pixels, s, run);
    if pixels.len() == 0 {
        if run > 0 {
            let t = run_token(run);
            lemma_fundamental_div_mod_converse(t as int, 64, 3, run - 1);
            lemma_decode_run(eb, s);
            assert(eb.skip(1) =~= Seq::<u8>::empty());
            lemma_decode_nil(state_update(s, s.prev));
            assert(Seq::new((eb[0] % 64 + 1) as nat, |i: int| s.prev) =~= rep);
            assert(rep + Seq::<Pixel>::empty() =~= rep + pixels);
            lemma_state_after_repeat(s, run as nat);
            lemma_state_after_add(rep, pixels, s);
            assert(rep + pixels =~= rep);
        } else {
            lemma_decode_nil(s);
            assert(eb =~= Seq::<u8>::empty());
            assert(rep + pixels =~= Seq::<Pixel>::empty());
        }
    } else {
        let p = pixels[0];
        let rest = pixels.skip(1);
        if p == s.prev && run < 62 {
            lemma_encode_decode(rest, s, run + 1);
            assert(Seq::new((run + 1) as nat, |i: int| s.prev) + rest =~= rep + pixels);
        } else if run > 0 {
            let s2 = state_update(s, s.prev);
            let t = run_token(run);
            lemma_fundamental_div_mod_converse(t as int, 64, 3, run - 1);
            lemma_state_after_repeat(s, run as nat);
            lemma_state_after_add(rep, pixels, s);
            if p == s.prev {
                let tail = encode_body(rest, s2, 1);
                assert(eb == seq![t] + tail);
                assert(eb[0] == t);
                lemma_decode_run(eb, s);
                assert(eb.skip(1) =~= tail);
                lemma_encode_decode(rest, s2, 1);
                assert(Seq::new((eb[0] % 64 + 1) as nat, |i: int| s.prev) =~= rep);
                assert(Seq::new(1nat, |i: int| s2.prev) + rest =~= pixels);
                lemma_compose_assoc(rep, pixels, decode_body(Seq::<u8>::empty(), s2));
                assert(rep + (Seq::new(1nat, |i: int| s2.prev) + rest) =~= rep + pixels);
            } else {
                let s3 = state_update(s2, p);
                let tb = encode_token(p, s2);
                let tail = encode_body(rest, s3, 0);
                assert(eb == seq![t] + tb + tail);
                assert(eb[0] == t);
                lemma_decode_run(eb, s);
                assert(eb.skip(1) =~= tb + tail);
                lemma_decode_one_token(p, s2, tail);
                lemma_encode_decode(rest, s3, 0);
                assert(Seq::new(0nat, |i: int| s3.prev) + rest =~= rest);
                assert(Seq::new((eb[0] % 64 + 1) as nat, |i: int| s.prev) =~= rep);
                lemma_compose_assoc(rep, seq![p], decode_body(tail, s3));
                assert((rep + seq![p]) + rest =~= rep + pixels);
                assert(pixels.skip(1) == rest);
                assert(state_after(pixels, s2) == state_after(rest, s3));
            }
        } else {
            let s1 = state_update(s, p);
            let tb = encode_token(p, s);
            let tail = encode_body(rest, s1, 0);
            assert(eb == tb + tail);
            lemma_decode_one_token(p, s, tail);
            lemma_encode_decode(rest, s1, 0);
            assert(Seq::new(0nat, |i: int| s1.prev) + rest =~= rest);
            assert(seq![p] + rest =~= rep + pixels);
            assert(rep + pixels =~= pixels);
            lemma_state_after_add(rep, pixels, s);
            assert(state_after(pixels, s) == state_after(rest, s1));
        }
    }
}

/// Round trip: the token body the encoder emits for any pixel sequence
/// decodes back to exactly that sequence.
///
/// The end state is pinned too: it is the fold of the shared per-pixel
/// commit over the pixel sequence, so encoder and decoder step through
/// identical previous-pixel and cache states — one statement covering both
/// the round-trip and the cache-determinism laws.
pub proof fn lemma_round_trip(pixels: Seq<Pixel>)
    ensures
        decode_body(encode_body(pixels, state_init(), 0), state_init()) == Some(
            Decoded { pixels: pixels, end: state_after(pixels, state_init()) },
        ),
{
    lemma_encode_decode(pixels, state_init(), 0);
    assert(Seq::new(0nat, |i: int| state_init().prev) + pixels =~= pixels);
}

/// Cache determinism: the state the decoder is left in after reading the
/// encoder's output is exactly the state the encoder folded up while
/// emitting it — for every pixel sequence, whichever tokens were chosen.
pub proof fn lemma_cache_determinism(pixels: Seq<Pixel>)
    ensures
        decode_body(encode_body(pixels, state_init(), 0), state_init()).unwrap().end
            == state_after(pixels, state_init()),
{
    lemma_round_trip(pixels);
}

/// A block of repeats of the previous pixel becomes one run token up to the
/// 62-repeat cap and splits as 62 + remainder beyond it.
pub proof fn lemma_runs_of_prev(s: CodecState, run: int, n: nat)
    requires
        0 <= run <= 62,
        run + n <= 124,
    ensures
        encode_body(Seq::new(n, |i: int| s.prev), s, run) == (if run + n == 0 {
            Seq::<u8>::empty()
        } else if run + n <= 62 {
            seq![run_token(run + n)]
        } else {
            seq![run_token(62), run_token(run + n - 62)]
        }),
    decreases n,
{
    let rep = Seq::new(n, |i: int| s.prev);
    if n == 0 {
    } else {
        assert(rep[0] == s.prev);
        if run < 62 {
            assert(rep.skip(1) =~= Seq::new((n - 1) as nat, |i: int| s.prev));
            lemma_runs_of_prev(s, run + 1, (n - 1) as nat);
        } else {
            let s2 = state_update(s, s.prev);
            assert(rep.skip(1) =~= Seq::new((n - 1) as nat, |i: int| s2.prev));
            lemma_runs_of_prev(s2, 1, (n - 1) as nat);
            assert(seq![run_token(62)] + seq![run_token(1 + (n - 1))] =~= seq![
                run_token(62),
                run_token(run + n - 62),
            ]);
        }
    }
}

/// Run boundary: an image whose pixels all equal the initial previous pixel
/// encodes as exactly one run token while it has at most 62 pixels, and as
/// exactly two run tokens (62 repeats, then the remainder) from 63 pixels
/// up to twice the cap.
pub proof fn lemma_run_boundary(n: nat)
    requires
        1 <= n <= 124,
    ensures
        n <= 62 ==> encode_body(Seq::new(n, |i: int| state_init().prev), state_init(), 0) == seq![
            run_token(n as int),
        ],
        n > 62 ==> encode_body(Seq::new(n, |i: int| state_init().prev), state_init(), 0) == seq![
            run_token(62),
            run_token(n - 62),
        ],
{
    lemma_runs_of_prev(state_init(), 0, n);
}

/// Small-diff boundary: channel deltas of exactly {-2, -2, -2} with alpha
/// unchanged and no cache hit encode as a small-diff token (with all three
/// biased fields zero).
pub proof fn lemma_small_diff_boundary(p: Pixel, s: CodecState)
    requires
        s.cache[hash_spec(p)] != p,
        p.a == s.prev.a,
        p.r - s.prev.r == -2,
        p.g - s.prev.g == -2,
        p.b - s.prev.b == -2,
    ensures
        encode_token(p, s) == seq![64u8],
{
}

/// Small-diff boundary, the far side: a red delta of exactly -3 with green
/// and blue unchanged does not fit a small-diff token and falls through to
/// a luma-diff token.
pub proof fn lemma_minus3_is_not_small(p: Pixel, s: CodecState)
    requires
        s.cache[hash_spec(p)] != p,
        p.a == s.prev.a,
        p.r - s.prev.r == -3,
        p.g - s.prev.g == 0,
        p.b - s.prev.b == 0,
    ensures
        encode_token(p, s) == seq![160u8, 88u8],
{
}

/// Corrupt stream rejection: a stream that closes with the end marker stops
/// being acceptable when truncated by one byte.
pub proof fn lemma_truncation_rejected(b: Seq<u8>)
    requires
        marker_ok(b),
    ensures
        !stream_ok(b.take(b.len() - 1)),
{
    let t = b.take(b.len() - 1);
    if marker_ok(t) {
        assert(t.subrange(t.len() - 4, t.len() as int)[1] == t[t.len() - 3]);
        assert(t[t.len() - 3] == b[b.len() - 4]);
        assert(b.subrange(b.len() - 4, b.len() as int)[0] == b[b.len() - 4]);
        assert(false);
    }
}

/// Reading back the four big-endian bytes of a 32-bit value gives the value.
pub proof fn lemma_be32_round(x: u32)
    ensures
        be32_val(be32(x)) == x,
{
    lemma_fundamental_div_mod(x as int, 256);
    lemma_fundamental_div_mod(x as int / 256, 256);
    lemma_div_denominator(x as int, 256, 256);
    lemma_fundamental_div_mod(x as int / 0x10000, 256);
    lemma_div_denominator(x as int, 0x10000, 256);
    lemma_fundamental_div_mod(x as int, 0x1000000);
    assert(x as int / 0x1000000 < 256);
}

/// The full-stream round trip: the stream the encoder builds for any image
/// is accepted by the decoder, declares that image's dimensions, and its
/// body decodes to exactly that image's pixels.
pub proof fn lemma_stream_round_trip(w: u32, h: u32, pixels: Seq<Pixel>)
    requires
        pixels.len() == w * h,
        pixels.len() <= usize::MAX,
    ensures
        ({
            let b = header_bytes(w, h) + encode_body(pixels, state_init(), 0) + end_marker();
            &&& stream_ok(b)
            &&& width_of(b) == w
            &&& height_of(b) == h
            &&& fill_to(
                decode_body(body_of(b), state_init()).unwrap().pixels,
                (width_of(b) * height_of(b)) as nat,
            ) == pixels
        }),
{
    let eb = encode_body(pixels, state_init(), 0);
    let b = header_bytes(w, h) + eb + end_marker();
    assert(b.len() == 18 + eb.len());
    assert(b.subrange(0, 4) =~= magic());
    assert(b.subrange(b.len() - 4, b.len() as int) =~= end_marker());
    assert(b.subrange(4, 8) =~= be32(w));
    assert(b.subrange(8, 12) =~= be32(h));
    lemma_be32_round(w);
    lemma_be32_round(h);
    assert(body_of(b) =~= eb);
    lemma_round_trip(pixels);
    assert(fill_to(pixels, (w * h) as nat) =~= pixels);
}

} // verus!
