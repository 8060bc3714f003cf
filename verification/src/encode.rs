//! The encoder: a raster image in, a token byte stream out.

use vstd::prelude::*;

use crate::model::CodecState;
use crate::model::TOKEN_RGB;
use crate::model::TOKEN_RGBA;
use crate::model::be32;
use crate::model::encode_body;
use crate::model::encode_token;
use crate::model::end_marker;
use crate::model::header_bytes;
use crate::model::state_init;
use crate::model::state_update;
use crate::pixel::Pixel;
use crate::pixel::color_hash;
use crate::pixel::hash_spec;
use crate::raster::Image;

verus! {

/// Append a 32-bit value as four big-endian bytes.
fn push_be32(out: &mut Vec<u8>, x: u32)
    ensures
        final(out)@ == old(out)@ + be32(x),
{
    proof {
        assert(x as int / 0x1000000 < 256) by (nonlinear_arith)
            requires
                x as int <= 0xFFFFFFFF,
        ;
    }
    out.push((x / 0x1000000) as u8);
    out.push(((x / 0x10000) % 256) as u8);
    out.push(((x / 256) % 256) as u8);
    out.push((x % 256) as u8);
    proof {
        assert(out@ =~= old(out)@ + be32(x));
    }
}

/// Append the one non-run token for a new pixel `p`, and commit `p` to its
/// cache slot.
fn emit_token(out: &mut Vec<u8>, cache: &mut Vec<Pixel>, prev: Pixel, p: Pixel)
    requires
        old(cache)@.len() == 64,
    ensures
        final(out)@ == old(out)@ + encode_token(p, CodecState { prev, cache: old(cache)@ }),
        final(cache)@ == old(cache)@.update(hash_spec(p), p),
{
    let ghost s = CodecState { prev, cache: cache@ };
    let h = color_hash(p.r, p.g, p.b, p.a);
    if cache[h] == p {
        out.push(h as u8);
    } else if p.a != prev.a {
        out.push(TOKEN_RGBA);
        out.push(p.r);
        out.push(p.g);
        out.push(p.b);
        out.push(p.a);
    } else {
        let dr = p.r as i16 - prev.r as i16;
        let dg = p.g as i16 - prev.g as i16;
        let db = p.b as i16 - prev.b as i16;
        let differs = dr != 0 || dg != 0 || db != 0;
        if differs && -2 <= dr && dr <= 1 && -2 <= dg && dg <= 1 && -2 <= db && db <= 1 {
            out.push(64 + ((dr + 2) as u8) * 16 + ((dg + 2) as u8) * 4 + ((db + 2) as u8));
        } else if differs && -32 <= dg && dg <= 31 && -8 <= dr - dg && dr - dg <= 7 && -8 <= db - dg
            && db - dg <= 7 {
            out.push(128 + ((dg + 32) as u8));
            out.push(((dr - dg + 8) as u8) * 16 + ((db - dg + 8) as u8));
        } else {
            out.push(TOKEN_RGB);
            out.push(p.r);
            out.push(p.g);
            out.push(p.b);
        }
    }
    cache.set(h, p);
    proof {
        assert(out@ =~= old(out)@ + encode_token(p, s));
    }
}

/// Encode a raster image as one byte stream: header, token body, end marker.
///
/// The output is pinned exactly: it is the header for the image's
/// dimensions, then the token body that the decision policy `encode_body`
/// prescribes for its pixels, then the end marker. The round-trip law
/// (`laws::lemma_round_trip`) proves that this body decodes back to the
/// image's pixels.
pub fn encode(img: &Image) -> (out: Vec<u8>)
    requires
        img.wf(),
    ensures
        out@ == header_bytes(img.width, img.height) + encode_body(img.pixels@, state_init(), 0)
            + end_marker(),
{
    let ghost all = img.pixels@;
    let mut out: Vec<u8> = Vec::new();
    out.push(113);
    out.push(111);
    out.push(105);
    out.push(102);
    push_be32(&mut out, img.width);
    push_be32(&mut out, img.height);
    out.push(4);
    out.push(0);
    let ghost header = out@;
    proof {
        assert(header =~= header_bytes(img.width, img.height));
    }

    let mut cache: Vec<Pixel> = Vec::new();
    let mut k: usize = 0;
    while k < 64
        invariant
            k <= 64,
            cache@.len() == k,
            forall|j: int| 0 <= j < k ==> cache@[j] == (Pixel { r: 0, g: 0, b: 0, a: 0 }),
        decreases 64 - k,
    {
        cache.push(Pixel { r: 0, g: 0, b: 0, a: 0 });
        k += 1;
    }
    proof {
        assert(cache@ =~= state_init().cache);
    }

    let mut last = Pixel { r: 0, g: 0, b: 0, a: 255 };
    let mut run: u8 = 0;
    let n = img.pixels.len();
    let mut i: usize = 0;
    proof {
        assert(all.skip(0) =~= all);
        assert(CodecState { prev: last, cache: cache@ } == state_init());
    }
    while i < n
        invariant
            i <= n,
            n == all.len(),
            all == img.pixels@,
            run <= 62,
            run as int <= i,
            cache@.len() == 64,
            header == header_bytes(img.width, img.height),
            header + encode_body(all, state_init(), 0) == out@ + encode_body(
                all.skip(i as int),
                CodecState { prev: last, cache: cache@ },
                run as int,
            ),
        decreases n - i,
    {
        let ghost out0 = out@;
        let ghost s0 = CodecState { prev: last, cache: cache@ };
        let ghost run0 = run as int;
        let ghost i0 = i as int;
        proof {
            assert(all.skip(i0)[0] == all[i0]);
            assert(all.skip(i0).skip(1) =~= all.skip(i0 + 1));
        }
        let p = img.pixels[i];
        let eq_prev = p == last;
        if eq_prev && run < 62 {
            run = run + 1;
            i = i + 1;
        } else if run > 0 {
            out.push(192 + (run - 1));
            let hl = color_hash(last.r, last.g, last.b, last.a);
            cache.set(hl, last);
            let ghost s2 = state_update(s0, last);
            proof {
                assert(cache@ =~= s2.cache);
                assert(out@ =~= out0 + seq![crate::model::run_token(run0)]);
            }
            if eq_prev {
                run = 1;
                i = i + 1;
                proof {
                    assert(out@ + encode_body(all.skip(i0 + 1), s2, 1) =~= out0 + encode_body(
                        all.skip(i0),
                        s0,
                        run0,
                    ));
                }
            } else {
                run = 0;
                emit_token(&mut out, &mut cache, last, p);
                last = p;
                i = i + 1;
                proof {
                    assert(cache@ =~= state_update(s2, p).cache);
                    assert(out@ + encode_body(all.skip(i0 + 1), state_update(s2, p), 0) =~= out0
                        + encode_body(all.skip(i0), s0, run0));
                }
            }
        } else {
            emit_token(&mut out, &mut cache, last, p);
            last = p;
            i = i + 1;
            proof {
                assert(cache@ =~= state_update(s0, p).cache);
                assert(out@ + encode_body(all.skip(i0 + 1), state_update(s0, p), 0) =~= out0
                    + encode_body(all.skip(i0), s0, run0));
            }
        }
    }
    proof {
        assert(all.skip(n as int) =~= Seq::<Pixel>::empty());
    }
    if run > 0 {
        out.push(192 + (run - 1));
    }
    proof {
        assert(out@ =~= header + encode_body(all, state_init(), 0));
    }
    let ghost with_body = out@;
    out.push(1);
    out.push(0);
    out.push(0);
    out.push(0);
    proof {
        assert(out@ =~= with_body + end_marker());
        assert(out@ =~= header_bytes(img.width, img.height) + encode_body(all, state_init(), 0)
            + end_marker());
    }
    out
}

} // verus!
