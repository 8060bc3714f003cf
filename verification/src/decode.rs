//! The decoder: a byte stream in, the reconstructed raster image out.

use vstd::prelude::*;

use crate::model::CodecState;
use crate::model::Decoded;
use crate::model::body_of;
use crate::model::compose;
use crate::model::decode_body;
use crate::model::dims_ok;
use crate::model::fill_to;
use crate::model::header_well_formed;
use crate::model::height_of;
use crate::model::lemma_decode_lookback;
use crate::model::lemma_decode_luma;
use crate::model::lemma_decode_luma_short;
use crate::model::lemma_decode_rgb;
use crate::model::lemma_decode_rgb_short;
use crate::model::lemma_decode_rgba;
use crate::model::lemma_decode_rgba_short;
use crate::model::lemma_decode_run;
use crate::model::lemma_decode_small;
use crate::model::lemma_step;
use crate::model::magic;
use crate::model::marker_ok;
use crate::model::state_init;
use crate::model::state_update;
use crate::model::stream_ok;
use crate::model::width_of;
use crate::model::wrap8;
use crate::pixel::Pixel;
use crate::pixel::color_hash;
use crate::raster::CodecError;
use crate::raster::Image;

verus! {

/// Add an offset to a channel value with wraparound modulo 256. The offset
/// carries a built-in bias of 256, so `off` below 256 reaches downward.
fn wrap_add(x: u8, off: u16) -> (y: u8)
    requires
        off < 512,
    ensures
        y == wrap8(x + off - 256),
{
    proof {
        vstd::arithmetic::div_mod::lemma_mod_multiples_vanish(1, x + off - 256, 256);
    }
    (((x as u16) + off) % 256) as u8
}

/// Decode a byte stream back into a raster image.
///
/// Succeeds exactly on the streams `stream_ok` accepts: the magic marker in
/// place, the end marker in place, addressable dimensions, and no token
/// truncated by the end of the body. The pixels are exactly what the token
/// body means under `decode_body`, with a shortfall against the declared
/// dimensions filled by repeating the last committed pixel.
#[verifier::rlimit(100)]
#[verifier::loop_isolation(false)]
pub fn decode(buf: &Vec<u8>) -> (r: Result<Image, CodecError>)
    ensures
        r is Ok <==> stream_ok(buf@),
        r == Err::<Image, CodecError>(CodecError::MalformedHeader) <==> !header_well_formed(buf@),
        r == Err::<Image, CodecError>(CodecError::TruncatedBody) <==> (header_well_formed(buf@)
            && (!marker_ok(buf@) || (dims_ok(buf@) && decode_body(body_of(buf@), state_init())
            is None))),
        r == Err::<Image, CodecError>(CodecError::DimensionOverflow) <==> (header_well_formed(buf@)
            && marker_ok(buf@) && !dims_ok(buf@)),
        r matches Ok(img) ==> {
            &&& img.wf()
            &&& img.width == width_of(buf@)
            &&& img.height == height_of(buf@)
            &&& img.pixels@ == fill_to(
                decode_body(body_of(buf@), state_init()).unwrap().pixels,
                (width_of(buf@) * height_of(buf@)) as nat,
            )
        },
{
    if buf.len() < 14 {
        return Err(CodecError::MalformedHeader);
    }
    proof {
        assert(buf@.subrange(0, 4)[0] == buf@[0]);
        assert(buf@.subrange(0, 4)[1] == buf@[1]);
        assert(buf@.subrange(0, 4)[2] == buf@[2]);
        assert(buf@.subrange(0, 4)[3] == buf@[3]);
    }
    if !(buf[0] == 113 && buf[1] == 111 && buf[2] == 105 && buf[3] == 102) {
        return Err(CodecError::MalformedHeader);
    }
    proof {
        assert(buf@.subrange(0, 4) =~= magic());
    }
    if buf.len() < 18 {
        return Err(CodecError::TruncatedBody);
    }
    let m = buf.len() - 4;
    proof {
        assert(buf@.subrange(m as int, buf@.len() as int)[0] == buf@[m as int]);
        assert(buf@.subrange(m as int, buf@.len() as int)[1] == buf@[m as int + 1]);
        assert(buf@.subrange(m as int, buf@.len() as int)[2] == buf@[m as int + 2]);
        assert(buf@.subrange(m as int, buf@.len() as int)[3] == buf@[m as int + 3]);
    }
    if !(buf[m] == 1 && buf[m + 1] == 0 && buf[m + 2] == 0 && buf[m + 3] == 0) {
        return Err(CodecError::TruncatedBody);
    }
    proof {
        assert(buf@.subrange(m as int, buf@.len() as int) =~= crate::model::end_marker());
    }

    let w = (buf[4] as u32) * 0x1000000 + (buf[5] as u32) * 0x10000 + (buf[6] as u32) * 256 + (
    buf[7] as u32);
    let h = (buf[8] as u32) * 0x1000000 + (buf[9] as u32) * 0x10000 + (buf[10] as u32) * 256 + (
    buf[11] as u32);
    proof {
        assert(buf@.subrange(4, 8)[0] == buf@[4]);
        assert(buf@.subrange(4, 8)[1] == buf@[5]);
        assert(buf@.subrange(4, 8)[2] == buf@[6]);
        assert(buf@.subrange(4, 8)[3] == buf@[7]);
        assert(buf@.subrange(8, 12)[0] == buf@[8]);
        assert(buf@.subrange(8, 12)[1] == buf@[9]);
        assert(buf@.subrange(8, 12)[2] == buf@[10]);
        assert(buf@.subrange(8, 12)[3] == buf@[11]);
        assert(w == width_of(buf@));
        assert(h == height_of(buf@));
        assert(w as int * h as int <= u64::MAX) by (nonlinear_arith)
            requires
                w as int <= 0xFFFFFFFF,
                h as int <= 0xFFFFFFFF,
        ;
    }
    let np64 = w as u64 * h as u64;
    if np64 > usize::MAX as u64 {
        return Err(CodecError::DimensionOverflow);
    }
    let npix = np64 as usize;

    let end = m;
    let ghost body = buf@.subrange(14, end as int);
    proof {
        assert(body == body_of(buf@));
    }

    let mut cache: Vec<Pixel> = Vec::new();
    let mut k: usize = 0;
    while k < 64
        invariant
            k <= 64,
            cache@.len() == k,
            forall|j: int| 0 <= j < k ==> cache@[j] == (Pixel { r: 0, g: 0, b: 0, a: 0 }),
        decreases 64 - k,
    {
        cache.push(Pixel { r: 0, g: 0, b: 0, a: 0 });
        k += 1;
    }
    let mut last = Pixel { r: 0, g: 0, b: 0, a: 255 };
    let mut pix: Vec<Pixel> = Vec::new();
    let mut idx: usize = 14;
    proof {
        assert(cache@ =~= state_init().cache);
        assert(CodecState { prev: last, cache: cache@ } == state_init());
        assert(body.skip(0) =~= body);
        if decode_body(body, state_init()) is Some {
            assert(pix@ + decode_body(body, state_init()).unwrap().pixels =~= decode_body(
                body,
                state_init(),
            ).unwrap().pixels);
        }
        assert(decode_body(body, state_init()) == compose(
            pix@,
            decode_body(body.skip(0), CodecState { prev: last, cache: cache@ }),
        ));
    }
    while idx < end
        invariant
            14 <= idx <= end,
            end + 4 == buf@.len(),
            body == buf@.subrange(14, end as int),
            cache@.len() == 64,
            pix@.len() == 0 ==> last == state_init().prev,
            pix@.len() > 0 ==> last == pix@.last(),
            decode_body(body, state_init()) == compose(
                pix@,
                decode_body(body.skip(idx - 14), CodecState { prev: last, cache: cache@ }),
            ),
        decreases end - idx,
    {
        let ghost rest0 = body.skip(idx - 14);
        let ghost cur0 = CodecState { prev: last, cache: cache@ };
        let ghost pix0 = pix@;
        let ghost idx0 = idx as int;
        proof {
            assert(rest0.len() == end - idx);
            assert(rest0[0] == buf@[idx0]);
        }
        let t = buf[idx];
        if t == 255 {
            if end - idx < 5 {
                proof {
                    lemma_decode_rgba_short(rest0, cur0);
                }
                return Err(CodecError::TruncatedBody);
            }
            proof {
                assert(rest0[1] == buf@[idx0 + 1]);
                assert(rest0[2] == buf@[idx0 + 2]);
                assert(rest0[3] == buf@[idx0 + 3]);
                assert(rest0[4] == buf@[idx0 + 4]);
            }
            let p = Pixel { r: buf[idx + 1], g: buf[idx + 2], b: buf[idx + 3], a: buf[idx + 4] };
            pix.push(p);
            let ch = color_hash(p.r, p.g, p.b, p.a);
            cache.set(ch, p);
            last = p;
            idx = idx + 5;
            proof {
                lemma_decode_rgba(rest0, cur0);
                assert(rest0.skip(5) =~= body.skip(idx - 14));
                lemma_step(
                    body,
                    state_init(),
                    pix0,
                    rest0,
                    cur0,
                    seq![p],
                    body.skip(idx - 14),
                    state_update(cur0, p),
                );
                assert(pix@ =~= pix0 + seq![p]);
                assert(CodecState { prev: last, cache: cache@ } == state_update(cur0, p));
            }
        } else if t == 254 {
            if end - idx < 4 {
                proof {
                    lemma_decode_rgb_short(rest0, cur0);
                }
                return Err(CodecError::TruncatedBody);
            }
            proof {
                assert(rest0[1] == buf@[idx0 + 1]);
                assert(rest0[2] == buf@[idx0 + 2]);
                assert(rest0[3] == buf@[idx0 + 3]);
            }
            let p = Pixel { r: buf[idx + 1], g: buf[idx + 2], b: buf[idx + 3], a: last.a };
            pix.push(p);
            let ch = color_hash(p.r, p.g, p.b, p.a);
            cache.set(ch, p);
            last = p;
            idx = idx + 4;
            proof {
                lemma_decode_rgb(rest0, cur0);
                assert(rest0.skip(4) =~= body.skip(idx - 14));
                lemma_step(
                    body,
                    state_init(),
                    pix0,
                    rest0,
                    cur0,
                    seq![p],
                    body.skip(idx - 14),
                    state_update(cur0, p),
                );
                assert(pix@ =~= pix0 + seq![p]);
                assert(CodecState { prev: last, cache: cache@ } == state_update(cur0, p));
            }
        } else if t / 64 == 3 {
            let cnt = (t % 64) + 1;
            let ghost written = Seq::new(cnt as nat, |q: int| cur0.prev);
            let mut j: u8 = 0;
            while j < cnt
                invariant
                    j <= cnt,
                    pix@ == pix0 + Seq::new(j as nat, |q: int| last),
                    written == Seq::new(cnt as nat, |q: int| last),
                decreases cnt - j,
            {
                pix.push(last);
                j += 1;
                proof {
                    assert(pix@ =~= pix0 + Seq::new(j as nat, |q: int| last));
                }
            }
            let ch = color_hash(last.r, last.g, last.b, last.a);
            cache.set(ch, last);
            idx = idx + 1;
            proof {
                lemma_decode_run(rest0, cur0);
                assert(written =~= Seq::new((rest0[0] % 64 + 1) as nat, |i: int| cur0.prev));
                assert(rest0.skip(1) =~= body.skip(idx - 14));
                lemma_step(
                    body,
                    state_init(),
                    pix0,
                    rest0,
                    cur0,
                    written,
                    body.skip(idx - 14),
                    state_update(cur0, cur0.prev),
                );
                assert(pix@ =~= pix0 + written);
                assert(pix@.len() > 0);
                assert(pix@.last() == last);
                assert(CodecState { prev: last, cache: cache@ } == state_update(cur0, cur0.prev));
            }
        } else if t / 64 == 0 {
            let ci = (t % 64) as usize;
            let p = cache[ci];
            pix.push(p);
            let ch = color_hash(p.r, p.g, p.b, p.a);
            cache.set(ch, p);
            last = p;
            idx = idx + 1;
            proof {
                lemma_decode_lookback(rest0, cur0);
                assert(p == cur0.cache[(rest0[0] % 64) as int]);
                assert(rest0.skip(1) =~= body.skip(idx - 14));
                lemma_step(
                    body,
                    state_init(),
                    pix0,
                    rest0,
                    cur0,
                    seq![p],
                    body.skip(idx - 14),
                    state_update(cur0, p),
                );
                assert(pix@ =~= pix0 + seq![p]);
                assert(CodecState { prev: last, cache: cache@ } == state_update(cur0, p));
            }
        } else if t / 64 == 1 {
            let f = t % 64;
            let p = Pixel {
                r: wrap_add(last.r, (f / 16) as u16 + 254),
                g: wrap_add(last.g, ((f / 4) % 4) as u16 + 254),
                b: wrap_add(last.b, (f % 4) as u16 + 254),
                a: last.a,
            };
            pix.push(p);
            let ch = color_hash(p.r, p.g, p.b, p.a);
            cache.set(ch, p);
            last = p;
            idx = idx + 1;
            proof {
                lemma_decode_small(rest0, cur0);
                assert(p == (Pixel {
                    r: wrap8(cur0.prev.r + (rest0[0] % 64) / 16 - 2),
                    g: wrap8(cur0.prev.g + ((rest0[0] % 64) / 4) % 4 - 2),
                    b: wrap8(cur0.prev.b + (rest0[0] % 64) % 4 - 2),
                    a: cur0.prev.a,
                }));
                assert(rest0.skip(1) =~= body.skip(idx - 14));
                lemma_step(
                    body,
                    state_init(),
                    pix0,
                    rest0,
                    cur0,
                    seq![p],
                    body.skip(idx - 14),
                    state_update(cur0, p),
                );
                assert(pix@ =~= pix0 + seq![p]);
                assert(CodecState { prev: last, cache: cache@ } == state_update(cur0, p));
            }
        } else {
            if end - idx < 2 {
                proof {
                    lemma_decode_luma_short(rest0, cur0);
                }
                return Err(CodecError::TruncatedBody);
            }
            proof {
                assert(rest0[1] == buf@[idx0 + 1]);
            }
            let f = buf[idx + 1];
            let dgf = t % 64;
            let p = Pixel {
                r: wrap_add(last.r, dgf as u16 + (f / 16) as u16 + 216),
                g: wrap_add(last.g, dgf as u16 + 224),
                b: wrap_add(last.b, dgf as u16 + (f % 16) as u16 + 216),
                a: last.a,
            };
            pix.push(p);
            let ch = color_hash(p.r, p.g, p.b, p.a);
            cache.set(ch, p);
            last = p;
            idx = idx + 2;
            proof {
                lemma_decode_luma(rest0, cur0);
                assert(p == (Pixel {
                    r: wrap8(cur0.prev.r + (rest0[0] % 64 - 32) + rest0[1] / 16 - 8),
                    g: wrap8(cur0.prev.g + (rest0[0] % 64 - 32)),
                    b: wrap8(cur0.prev.b + (rest0[0] % 64 - 32) + rest0[1] % 16 - 8),
                    a: cur0.prev.a,
                }));
                assert(rest0.skip(2) =~= body.skip(idx - 14));
                lemma_step(
                    body,
                    state_init(),
                    pix0,
                    rest0,
                    cur0,
                    seq![p],
                    body.skip(idx - 14),
                    state_update(cur0, p),
                );
                assert(pix@ =~= pix0 + seq![p]);
                assert(CodecState { prev: last, cache: cache@ } == state_update(cur0, p));
            }
        }
    }
    proof {
        assert(body.skip(end - 14) =~= Seq::<u8>::empty());
        crate::model::lemma_decode_nil(CodecState { prev: last, cache: cache@ });
        assert(pix@ + Seq::<Pixel>::empty() =~= pix@);
        assert(decode_body(body, state_init()) == Some(
            Decoded { pixels: pix@, end: CodecState { prev: last, cache: cache@ } },
        ));
    }
    let ghost dp = pix@;
    let ghost filled = fill_to(dp, npix as nat);
    if pix.len() > npix {
        pix.truncate(npix);
        proof {
            assert(pix@ =~= filled);
        }
    }
    proof {
        assert(pix@ =~= filled.subrange(0, pix@.len() as int));
    }
    while pix.len() < npix
        invariant
            pix@.len() <= npix,
            pix@.len() >= dp.len() || pix@.len() == npix,
            filled == fill_to(dp, npix as nat),
            dp.len() == 0 ==> last == state_init().prev,
            dp.len() > 0 ==> last == dp.last(),
            pix@ == filled.subrange(0, pix@.len() as int),
        decreases npix - pix.len(),
    {
        proof {
            assert(filled[pix@.len() as int] == last);
        }
        pix.push(last);
        proof {
            assert(pix@ =~= filled.subrange(0, pix@.len() as int));
        }
    }
    proof {
        assert(pix@ =~= filled);
        assert(stream_ok(buf@));
    }
    let img = Image { width: w, height: h, pixels: pix };
    proof {
        assert(img.wf());
    }
    Ok(img)
}

} // verus!
