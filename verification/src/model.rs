//! The mathematical model of the wire format: the codec state, the meaning
//! of each token, and the byte stream that the encoder's decision policy
//! produces for a pixel sequence.
//!
//! `decode_body` is the ground truth for what a token body means;
//! `encode_body` is the ground truth for the bytes the encoder must emit.
//! The executable encoder and decoder are verified against these, and the
//! round-trip laws in `laws` relate the two.

use vstd::prelude::*;

use crate::pixel::Pixel;
use crate::pixel::hash_spec;

verus! {

/// Tag byte of a full RGBA literal token.
pub const TOKEN_RGBA: u8 = 255;

/// Tag byte of an RGB literal token (alpha kept from the previous pixel).
pub const TOKEN_RGB: u8 = 254;

/// The running state shared by the encoder and the decoder: the previous
/// committed pixel and the 64-slot color cache.
pub ghost struct CodecState {
    pub prev: Pixel,
    pub cache: Seq<Pixel>,
}

impl CodecState {
    /// The cache always has exactly 64 slots.
    pub open spec fn wf(self) -> bool {
        self.cache.len() == 64
    }
}

/// The state both directions start from: previous pixel is opaque black and
/// every cache slot holds transparent black.
pub open spec fn state_init() -> CodecState {
    CodecState {
        prev: Pixel { r: 0, g: 0, b: 0, a: 255 },
        cache: Seq::new(64, |i: int| Pixel { r: 0, g: 0, b: 0, a: 0 }),
    }
}

/// The state after committing one pixel: it becomes the previous pixel and
/// unconditionally overwrites its hashed cache slot.
pub open spec fn state_update(s: CodecState, p: Pixel) -> CodecState {
    CodecState { prev: p, cache: s.cache.update(hash_spec(p), p) }
}

/// The state after committing a whole pixel sequence, front to back.
/// Both directions step through exactly this sequence of states.
pub open spec fn state_after(pixels: Seq<Pixel>, s: CodecState) -> CodecState
    decreases pixels.len(),
{
    if pixels.len() == 0 {
        s
    } else {
        state_after(pixels.skip(1), state_update(s, pixels[0]))
    }
}

/// An 8-bit channel value reached by adding a (possibly negative) delta with
/// wraparound modulo 256.
pub open spec fn wrap8(v: int) -> u8 {
    (v % 256) as u8
}

/// The result of decoding a token body: the pixels written and the final
/// codec state.
pub ghost struct Decoded {
    pub pixels: Seq<Pixel>,
    pub end: CodecState,
}

/// The meaning of a token body, one token at a time. `None` means the body
/// is corrupt: a token claims payload bytes past the end of the body.
///
/// The first byte's two top bits pick the token shape, except for the two
/// exact literal tags 255 (RGBA) and 254 (RGB), which outrank the run tag.
#[verifier::opaque]
pub open spec fn decode_body(bytes: Seq<u8>, s: CodecState) -> Option<Decoded>
    decreases bytes.len(), 0int,
{
    if bytes.len() == 0 {
        Some(Decoded { pixels: Seq::empty(), end: s })
    } else {
        let t = bytes[0];
        if t == TOKEN_RGBA {
            if bytes.len() < 5 {
                None
            } else {
                let p = Pixel { r: bytes[1], g: bytes[2], b: bytes[3], a: bytes[4] };
                decode_more(bytes.skip(5), s, seq![p], p)
            }
        } else if t == TOKEN_RGB {
            if bytes.len() < 4 {
                None
            } else {
                let p = Pixel { r: bytes[1], g: bytes[2], b: bytes[3], a: s.prev.a };
                decode_more(bytes.skip(4), s, seq![p], p)
            }
        } else if t / 64 == 3 {
            let n = (t % 64) + 1;
            decode_more(bytes.skip(1), s, Seq::new(n as nat, |i: int| s.prev), s.prev)
        } else if t / 64 == 0 {
            let p = s.cache[(t % 64) as int];
            decode_more(bytes.skip(1), s, seq![p], p)
        } else if t / 64 == 1 {
            let f = t % 64;
            let p = Pixel {
                r: wrap8(s.prev.r + f / 16 - 2),
                g: wrap8(s.prev.g + (f / 4) % 4 - 2),
                b: wrap8(s.prev.b + f % 4 - 2),
                a: s.prev.a,
            };
            decode_more(bytes.skip(1), s, seq![p], p)
        } else {
            if bytes.len() < 2 {
                None
            } else {
                let dg = t % 64 - 32;
                let f = bytes[1];
                let p = Pixel {
                    r: wrap8(s.prev.r + dg + f / 16 - 8),
                    g: wrap8(s.prev.g + dg),
                    b: wrap8(s.prev.b + dg + f % 16 - 8),
                    a: s.prev.a,
                };
                decode_more(bytes.skip(2), s, seq![p], p)
            }
        }
    }
}

/// Prefix already-written pixels onto a decode outcome; corruption stays
/// corruption.
pub open spec fn compose(pre: Seq<Pixel>, r: Option<Decoded>) -> Option<Decoded> {
    match r {
        Some(d) => Some(Decoded { pixels: pre + d.pixels, end: d.end }),
        None => None,
    }
}

/// Helper for `decode_body`: commit `written` copies of the token's pixel
/// `p` and go on with the rest of the body.
pub open spec fn decode_more(rest: Seq<u8>, s: CodecState, written: Seq<Pixel>, p: Pixel) -> Option<
    Decoded,
>
    decreases rest.len(), 1int,
{
    compose(written, decode_body(rest, state_update(s, p)))
}

/// Prefixing written pixels one batch at a time is the same as prefixing
/// them at once.
pub proof fn lemma_compose_assoc(a: Seq<Pixel>, b: Seq<Pixel>, r: Option<Decoded>)
    ensures
        compose(a, compose(b, r)) == compose(a + b, r),
{
    match r {
        Some(d) => {
            assert(a + (b + d.pixels) =~= (a + b) + d.pixels);
        },
        None => {
        },
    }
}

/// One decoding step composes with already-written pixels.
pub proof fn lemma_step(
    full: Seq<u8>,
    s0: CodecState,
    pre: Seq<Pixel>,
    rest: Seq<u8>,
    cur: CodecState,
    written: Seq<Pixel>,
    rest2: Seq<u8>,
    cur2: CodecState,
)
    requires
        decode_body(full, s0) == compose(pre, decode_body(rest, cur)),
        decode_body(rest, cur) == compose(written, decode_body(rest2, cur2)),
    ensures
        decode_body(full, s0) == compose(pre + written, decode_body(rest2, cur2)),
{
    lemma_compose_assoc(pre, written, decode_body(rest2, cur2));
}

/// An empty body decodes to no pixels and leaves the state as it stands.
pub proof fn lemma_decode_nil(s: CodecState)
    ensures
        decode_body(Seq::empty(), s) == Some(Decoded { pixels: Seq::empty(), end: s }),
{
    reveal(decode_body);
}

/// Unfold one RGBA literal token.
pub proof fn lemma_decode_rgba(bytes: Seq<u8>, s: CodecState)
    requires
        bytes.len() >= 5,
        bytes[0] == TOKEN_RGBA,
    ensures
        decode_body(bytes, s) == compose(
            seq![Pixel { r: bytes[1], g: bytes[2], b: bytes[3], a: bytes[4] }],
            decode_body(
                bytes.skip(5),
                state_update(s, Pixel { r: bytes[1], g: bytes[2], b: bytes[3], a: bytes[4] }),
            ),
        ),
{
    reveal(decode_body);
}

/// An RGBA literal token cut short by the end of the body is corruption.
pub proof fn lemma_decode_rgba_short(bytes: Seq<u8>, s: CodecState)
    requires
        1 <= bytes.len() < 5,
        bytes[0] == TOKEN_RGBA,
    ensures
        decode_body(bytes, s) is None,
{
    reveal(decode_body);
}

/// Unfold one RGB literal token; alpha is kept from the previous pixel.
pub proof fn lemma_decode_rgb(bytes: Seq<u8>, s: CodecState)
    requires
        bytes.len() >= 4,
        bytes[0] == TOKEN_RGB,
    ensures
        decode_body(bytes, s) == compose(
            seq![Pixel { r: bytes[1], g: bytes[2], b: bytes[3], a: s.prev.a }],
            decode_body(
                bytes.skip(4),
                state_update(s, Pixel { r: bytes[1], g: bytes[2], b: bytes[3], a: s.prev.a }),
            ),
        ),
{
    reveal(decode_body);
}

/// An RGB literal token cut short by the end of the body is corruption.
pub proof fn lemma_decode_rgb_short(bytes: Seq<u8>, s: CodecState)
    requires
        1 <= bytes.len() < 4,
        bytes[0] == TOKEN_RGB,
    ensures
        decode_body(bytes, s) is None,
{
    reveal(decode_body);
}

/// Unfold one run token: `(tag mod 64) + 1` repeats of the previous pixel.
pub proof fn lemma_decode_run(bytes: Seq<u8>, s: CodecState)
    requires
        bytes.len() >= 1,
        bytes[0] != TOKEN_RGBA,
        bytes[0] != TOKEN_RGB,
        bytes[0] / 64 == 3,
    ensures
        decode_body(bytes, s) == compose(
            Seq::new((bytes[0] % 64 + 1) as nat, |i: int| s.prev),
            decode_body(bytes.skip(1), state_update(s, s.prev)),
        ),
{
    reveal(decode_body);
}

/// Unfold one cache-hit token: the pixel stored at the named slot.
pub proof fn lemma_decode_lookback(bytes: Seq<u8>, s: CodecState)
    requires
        bytes.len() >= 1,
        bytes[0] / 64 == 0,
    ensures
        decode_body(bytes, s) == compose(
            seq![s.cache[(bytes[0] % 64) as int]],
            decode_body(bytes.skip(1), state_update(s, s.cache[(bytes[0] % 64) as int])),
        ),
{
    reveal(decode_body);
    vstd::arithmetic::div_mod::lemma_fundamental_div_mod(bytes[0] as int, 64);
}

/// Unfold one small-diff token: biased 2-bit deltas on each color channel.
pub proof fn lemma_decode_small(bytes: Seq<u8>, s: CodecState)
    requires
        bytes.len() >= 1,
        bytes[0] / 64 == 1,
    ensures
        decode_body(bytes, s) == ({
            let f = bytes[0] % 64;
            let p = Pixel {
                r: wrap8(s.prev.r + f / 16 - 2),
                g: wrap8(s.prev.g + (f / 4) % 4 - 2),
                b: wrap8(s.prev.b + f % 4 - 2),
                a: s.prev.a,
            };
            compose(seq![p], decode_body(bytes.skip(1), state_update(s, p)))
        }),
{
    reveal(decode_body);
    vstd::arithmetic::div_mod::lemma_fundamental_div_mod(bytes[0] as int, 64);
}

/// Unfold one luma-diff token: a biased 6-bit green delta and two biased
/// 4-bit deltas relative to it.
pub proof fn lemma_decode_luma(bytes: Seq<u8>, s: CodecState)
    requires
        bytes.len() >= 2,
        bytes[0] != TOKEN_RGBA,
        bytes[0] != TOKEN_RGB,
        bytes[0] / 64 == 2,
    ensures
        decode_body(bytes, s) == ({
            let dg = bytes[0] % 64 - 32;
            let f = bytes[1];
            let p = Pixel {
                r: wrap8(s.prev.r + dg + f / 16 - 8),
                g: wrap8(s.prev.g + dg),
                b: wrap8(s.prev.b + dg + f % 16 - 8),
                a: s.prev.a,
            };
            compose(seq![p], decode_body(bytes.skip(2), state_update(s, p)))
        }),
{
    reveal(decode_body);
    vstd::arithmetic::div_mod::lemma_fundamental_div_mod(bytes[0] as int, 64);
}

/// A luma-diff token cut short by the end of the body is corruption.
pub proof fn lemma_decode_luma_short(bytes: Seq<u8>, s: CodecState)
    requires
        bytes.len() == 1,
        bytes[0] != TOKEN_RGBA,
        bytes[0] != TOKEN_RGB,
        bytes[0] / 64 == 2,
    ensures
        decode_body(bytes, s) is None,
{
    reveal(decode_body);
}

/// Whether each channel delta from `q` to `p` fits a small-diff token:
/// all three in `[-2, +1]`.
pub open spec fn small_fits(p: Pixel, q: Pixel) -> bool {
    &&& -2 <= p.r - q.r <= 1
    &&& -2 <= p.g - q.g <= 1
    &&& -2 <= p.b - q.b <= 1
}

/// Whether the deltas from `q` to `p` fit a luma-diff token: green delta in
/// `[-32, +31]`, red and blue deltas relative to the green delta in `[-8, +7]`.
pub open spec fn luma_fits(p: Pixel, q: Pixel) -> bool {
    &&& -32 <= p.g - q.g <= 31
    &&& -8 <= (p.r - q.r) - (p.g - q.g) <= 7
    &&& -8 <= (p.b - q.b) - (p.g - q.g) <= 7
}

/// Whether `p` differs from `q` in at least one of the three color channels.
pub open spec fn rgb_differs(p: Pixel, q: Pixel) -> bool {
    p.r != q.r || p.g != q.g || p.b != q.b
}

/// The bytes of the one non-run token the encoder picks for a new pixel `p`
/// in state `s`, in strict priority order: cache hit, full RGBA literal on
/// an alpha change, small diff, luma diff, RGB literal.
pub open spec fn encode_token(p: Pixel, s: CodecState) -> Seq<u8> {
    if s.cache[hash_spec(p)] == p {
        seq![hash_spec(p) as u8]
    } else if p.a != s.prev.a {
        seq![TOKEN_RGBA, p.r, p.g, p.b, p.a]
    } else if rgb_differs(p, s.prev) && small_fits(p, s.prev) {
        seq![(64 + (p.r - s.prev.r + 2) * 16 + (p.g - s.prev.g + 2) * 4 + (p.b - s.prev.b + 2)) as u8]
    } else if rgb_differs(p, s.prev) && luma_fits(p, s.prev) {
        seq![
            (128 + (p.g - s.prev.g + 32)) as u8,
            (((p.r - s.prev.r) - (p.g - s.prev.g) + 8) * 16 + ((p.b - s.prev.b) - (p.g - s.prev.g)
                + 8)) as u8,
        ]
    } else {
        seq![TOKEN_RGB, p.r, p.g, p.b]
    }
}

/// The byte of a run token standing for `n` repeats, `1 <= n <= 62`.
pub open spec fn run_token(n: int) -> u8 {
    (192 + n - 1) as u8
}

/// The token body the encoder emits for `pixels`, starting from state `s`
/// with an open run of `run` copies of `s.prev` not yet flushed.
///
/// Per pixel: extend the open run while the pixel repeats `s.prev` and the
/// run is under its 62-repeat cap; otherwise flush the run (committing
/// `s.prev` to the cache), then either start a new run or emit the one
/// token `encode_token` picks. A run still open at the end is flushed.
pub open spec fn encode_body(pixels: Seq<Pixel>, s: CodecState, run: int) -> Seq<u8>
    decreases pixels.len(),
{
    if pixels.len() == 0 {
        if run > 0 {
            seq![run_token(run)]
        } else {
            Seq::empty()
        }
    } else {
        let p = pixels[0];
        if p == s.prev && run < 62 {
            encode_body(pixels.skip(1), s, run + 1)
        } else if run > 0 {
            let s2 = state_update(s, s.prev);
            if p == s.prev {
                seq![run_token(run)] + encode_body(pixels.skip(1), s2, 1)
            } else {
                seq![run_token(run)] + encode_token(p, s2) + encode_body(
                    pixels.skip(1),
                    state_update(s2, p),
                    0,
                )
            }
        } else {
            encode_token(p, s) + encode_body(pixels.skip(1), state_update(s, p), 0)
        }
    }
}

/// The 4-byte magic marker `qoif` that opens every stream.
pub open spec fn magic() -> Seq<u8> {
    seq![113u8, 111u8, 105u8, 102u8]
}

/// The 4-byte end marker that closes every stream.
pub open spec fn end_marker() -> Seq<u8> {
    seq![1u8, 0u8, 0u8, 0u8]
}

/// A 32-bit value as four big-endian bytes.
pub open spec fn be32(x: u32) -> Seq<u8> {
    seq![
        (x / 0x1000000) as u8,
        ((x / 0x10000) % 256) as u8,
        ((x / 256) % 256) as u8,
        (x % 256) as u8,
    ]
}

/// The value of four big-endian bytes.
pub open spec fn be32_val(s: Seq<u8>) -> int {
    s[0] * 0x1000000 + s[1] * 0x10000 + s[2] * 256 + s[3]
}

/// The 14-byte header: magic marker, width, height, a channel-count byte
/// (always 4) and a color-space byte (always 0).
pub open spec fn header_bytes(w: u32, h: u32) -> Seq<u8> {
    magic() + be32(w) + be32(h) + seq![4u8, 0u8]
}

/// A stream at least long enough for a header, opening with the magic marker.
pub open spec fn header_well_formed(b: Seq<u8>) -> bool {
    b.len() >= 14 && b.subrange(0, 4) == magic()
}

/// A stream long enough to hold a header and an end marker, closing with
/// the end marker.
pub open spec fn marker_ok(b: Seq<u8>) -> bool {
    b.len() >= 18 && b.subrange(b.len() - 4, b.len() as int) == end_marker()
}

/// The width a stream's header declares.
pub open spec fn width_of(b: Seq<u8>) -> int {
    be32_val(b.subrange(4, 8))
}

/// The height a stream's header declares.
pub open spec fn height_of(b: Seq<u8>) -> int {
    be32_val(b.subrange(8, 12))
}

/// Whether the declared pixel count is addressable.
pub open spec fn dims_ok(b: Seq<u8>) -> bool {
    width_of(b) * height_of(b) <= usize::MAX
}

/// The token body of a stream: everything between the header and the end
/// marker.
pub open spec fn body_of(b: Seq<u8>) -> Seq<u8> {
    b.subrange(14, b.len() - 4)
}

/// A stream the decoder accepts: well-formed header, end marker in place,
/// addressable dimensions, and a token body with no truncated token.
pub open spec fn stream_ok(b: Seq<u8>) -> bool {
    &&& header_well_formed(b)
    &&& marker_ok(b)
    &&& dims_ok(b)
    &&& decode_body(body_of(b), state_init()) is Some
}

/// The pixels a decoded body yields for an image of `n` pixels: the first
/// `n` decoded pixels, with any shortfall filled by repeating the last
/// committed pixel (the initial previous pixel if none was committed).
pub open spec fn fill_to(pix: Seq<Pixel>, n: nat) -> Seq<Pixel> {
    Seq::new(
        n,
        |i: int|
            if i < pix.len() {
                pix[i]
            } else if pix.len() > 0 {
                pix.last()
            } else {
                state_init().prev
            },
    )
}

} // verus!
