//! The glyph stream decoder: record framing and the quadtree bitmap body.
//!
//! A record starts with one raw selector bit: 0 introduces a 7-bit control
//! code, 1 a graphical unit (two offset-presence flags, the optional
//! offsets, a quadtree-compressed 64x64 bitmap, and pad bits up to the next
//! byte boundary).  Decoding stops cleanly when the selector read finds no
//! more bits; a record cut short by the end of input is dropped and the
//! records completed before it are returned.

use vstd::prelude::*;

verus! {

use vstd::arithmetic::power2::pow2;
use crate::reader::fr_bit;
use crate::reader::fr_read;
use crate::reader::fr_signed;
use crate::reader::fr_skip;
use crate::reader::pad_len;
use crate::reader::stream_bits;
use crate::reader::lemma_fr_read_bound;
use crate::reader::lemma_wf_bounds;
use crate::reader::lemma_fr_signed_bound;
use crate::reader::BitReaderWrapper;

/// The mathematical shape of one decoded record: either a control code or a
/// graphical unit with its placement offsets and 512 raster bytes.
pub enum Record {
    Control { code: u8 },
    Graphical { x: i8, y: i8, raster: Seq<u8> },
}

/// The named control codes of the format.
#[derive(Clone, Copy, Debug, PartialEq, Eq, Structural)]
pub enum ControlCode {
    DirectionRightDown,
    DirectionLeftDown,
    DirectionRightUp,
    DirectionLeftUp,
}

impl ControlCode {
    /// The 7-bit code a control record carries for this name.
    pub open spec fn spec_code(self) -> u8 {
        match self {
            ControlCode::DirectionRightDown => 4,
            ControlCode::DirectionLeftDown => 5,
            ControlCode::DirectionRightUp => 6,
            ControlCode::DirectionLeftUp => 7,
        }
    }

    pub fn code(&self) -> (c: u8)
        ensures
            c == self.spec_code(),
    {
        match self {
            ControlCode::DirectionRightDown => 4,
            ControlCode::DirectionLeftDown => 5,
            ControlCode::DirectionRightUp => 6,
            ControlCode::DirectionLeftUp => 7,
        }
    }
}

/// One decoded record.  Exactly one of `control_code` and `graphical_data`
/// is present; offsets are only meaningful on graphical records and stay 0
/// on control records.
#[derive(Debug, PartialEq)]
pub struct Character {
    pub x_offset: i8,
    pub y_offset: i8,
    pub control_code: Option<u8>,
    pub graphical_data: Option<Vec<u8>>,
}

impl Character {
    pub open spec fn wf(self) -> bool {
        match (self.control_code, self.graphical_data) {
            (Some(code), None) => self.x_offset == 0 && self.y_offset == 0 && code < 128,
            (None, Some(g)) => g@.len() == 512,
            _ => false,
        }
    }

    /// The record this value stands for.
    pub open spec fn rec(self) -> Record {
        match self.control_code {
            Some(code) => Record::Control { code },
            None => Record::Graphical {
                x: self.x_offset,
                y: self.y_offset,
                raster: match self.graphical_data {
                    Some(g) => g@,
                    None => Seq::empty(),
                },
            },
        }
    }
}

/// The record views of a decoded sequence.
pub open spec fn rec_seq(chars: Seq<Character>) -> Seq<Record> {
    Seq::new(chars.len(), |i: int| chars[i].rec())
}

/// Pixels per quadtree block at level `i` (0 coarsest .. 5 finest):
/// 4^(6-i).
pub open spec fn block_size(i: int) -> int {
    if i == 0 {
        4096
    } else if i == 1 {
        1024
    } else if i == 2 {
        256
    } else if i == 3 {
        64
    } else if i == 4 {
        16
    } else {
        4
    }
}

/// The homogeneity probes made before pixel `n`, from level `i` on: while no
/// block is cached, each level at which `n` starts a block asks one framed
/// bit; a 1 answer reads one fill bit and caches `(fill, level)`.  Returns
/// the cache and cursor afterwards, `None` on end of input.
pub open spec fn probe_levels(
    bits: Seq<bool>,
    pos: int,
    n: int,
    i: int,
    cache: Option<(bool, int)>,
) -> Option<(Option<(bool, int)>, int)>
    decreases 6 - i,
{
    if i < 0 || i >= 6 {
        Some((cache, pos))
    } else if cache is None && n % block_size(i) == 0 {
        match fr_bit(bits, pos) {
            None => None,
            Some((h, p1)) => if h {
                match fr_bit(bits, p1) {
                    None => None,
                    Some((f, p2)) => probe_levels(bits, p2, n, i + 1, Some((f, i))),
                }
            } else {
                probe_levels(bits, p1, n, i + 1, cache)
            },
        }
    } else {
        probe_levels(bits, pos, n, i + 1, cache)
    }
}

/// The pixels `n .. 4096` of one quadtree-compressed bitmap body, decoded
/// from `pos` with the given active cache, together with the cursor after
/// the body; `None` on end of input.  Each pixel first runs the level
/// probes, then takes the cached fill bit or one fresh framed bit, and the
/// cache is dropped after the last pixel of its block.
pub open spec fn qt_pixels(bits: Seq<bool>, pos: int, n: int, cache: Option<(bool, int)>) -> Option<
    (Seq<bool>, int),
>
    decreases 4096 - n,
{
    if n < 0 || n >= 4096 {
        Some((Seq::empty(), pos))
    } else {
        match probe_levels(bits, pos, n, 0, cache) {
            None => None,
            Some((cache1, p1)) => {
                let pixel = match cache1 {
                    Some((f, _lv)) => Some((f, p1)),
                    None => fr_bit(bits, p1),
                };
                match pixel {
                    None => None,
                    Some((b, p2)) => {
                        let cache2 = match cache1 {
                            Some((f, lv)) => if (n + 1) % block_size(lv) == 0 {
                                None
                            } else {
                                cache1
                            },
                            None => None,
                        };
                        match qt_pixels(bits, p2, n + 1, cache2) {
                            None => None,
                            Some((rest, pf)) => Some((seq![b] + rest, pf)),
                        }
                    },
                }
            },
        }
    }
}

/// A byte from up to eight pixel bits, least significant bit first.
pub open spec fn bits_to_byte_le(bs: Seq<bool>) -> nat
    decreases bs.len(),
{
    if bs.len() == 0 {
        0
    } else {
        (if bs[0] {
            1nat
        } else {
            0nat
        }) + 2 * bits_to_byte_le(bs.skip(1))
    }
}

/// The serialized raster: pixel `n` is bit `n % 8` of byte `n / 8`, which is
/// the little-endian layout of 64 words of 64 pixels each.
pub open spec fn pack_pixels(pix: Seq<bool>) -> Seq<u8> {
    Seq::new(pix.len() / 8, |i: int| bits_to_byte_le(pix.subrange(8 * i, 8 * i + 8)) as u8)
}

/// A control record body: a 7-bit unsigned code.
pub open spec fn parse_control(bits: Seq<bool>, pos: int) -> Option<(Record, int)> {
    match fr_read(bits, pos, 7) {
        None => None,
        Some((v, p)) => Some((Record::Control { code: v as u8 }, p)),
    }
}

/// A graphical record body: two presence flags, the optional offsets (the
/// horizontal one read as an unsigned field, as the format does), the
/// quadtree bitmap, then pad bits to the next byte boundary.
pub open spec fn parse_graphical(bits: Seq<bool>, pos: int) -> Option<(Record, int)> {
    match fr_bit(bits, pos) {
        None => None,
        Some((fx, p1)) => match fr_bit(bits, p1) {
            None => None,
            Some((fy, p2)) => {
                let xr = if fx {
                    match fr_read(bits, p2, 7) {
                        None => None,
                        Some((xv, p3)) => Some((xv as int, p3)),
                    }
                } else {
                    Some((0int, p2))
                };
                match xr {
                    None => None,
                    Some((xv, p3)) => {
                        let yr = if fy {
                            fr_signed(bits, p3, 7)
                        } else {
                            Some((0int, p3))
                        };
                        match yr {
                            None => None,
                            Some((yv, p4)) => match qt_pixels(bits, p4, 0, None) {
                                None => None,
                                Some((pix, p5)) => Some(
                                    (
                                        Record::Graphical {
                                            x: xv as i8,
                                            y: yv as i8,
                                            raster: pack_pixels(pix),
                                        },
                                        fr_skip(bits, p5, pad_len(p5)),
                                    ),
                                ),
                            },
                        }
                    },
                }
            },
        },
    }
}

/// The records decoded from `pos` on: one raw selector bit chooses the
/// record kind; a missing selector bit ends the sequence, and a record whose
/// body cannot be completed is dropped.
pub open spec fn decode_from(bits: Seq<bool>, pos: int) -> Seq<Record>
    decreases bits.len() - pos
        via decode_from_decreases
{
    if pos < 0 || pos >= bits.len() {
        Seq::empty()
    } else if !bits[pos] {
        match parse_control(bits, pos + 1) {
            None => Seq::empty(),
            Some((rec, p)) => seq![rec] + decode_from(bits, p),
        }
    } else {
        match parse_graphical(bits, pos + 1) {
            None => Seq::empty(),
            Some((rec, p)) => seq![rec] + decode_from(bits, p),
        }
    }
}

#[via_fn]
proof fn decode_from_decreases(bits: Seq<bool>, pos: int) {
    if 0 <= pos < bits.len() {
        lemma_parse_control_props(bits, pos + 1);
        lemma_parse_graphical_props(bits, pos + 1);
    }
}

/// What `decode` returns on a byte buffer.
pub open spec fn spec_decode(bytes: Seq<u8>) -> Seq<Record> {
    decode_from(stream_bits(bytes), 0)
}

/// The probes before one pixel stay within the stream.
proof fn lemma_probe_levels_props(
    bits: Seq<bool>,
    pos: int,
    n: int,
    i: int,
    cache: Option<(bool, int)>,
)
    requires
        pos <= bits.len(),
    ensures
        (match probe_levels(bits, pos, n, i, cache) {
            Some((c2, p1)) => pos <= p1 <= bits.len(),
            None => true,
        }),
    decreases 6 - i,
{
    if i < 0 || i >= 6 {
    } else if cache is None && n % block_size(i) == 0 {
        match fr_bit(bits, pos) {
            None => {},
            Some((h, p1)) => if h {
                match fr_bit(bits, p1) {
                    None => {},
                    Some((f, p2)) => lemma_probe_levels_props(bits, p2, n, i + 1, Some((f, i))),
                }
            } else {
                lemma_probe_levels_props(bits, p1, n, i + 1, cache)
            },
        }
    } else {
        lemma_probe_levels_props(bits, pos, n, i + 1, cache)
    }
}

/// A quadtree body yields exactly the pixels `n .. 4096` and stays within
/// the stream.
pub proof fn lemma_qt_pixels_props(bits: Seq<bool>, pos: int, n: int, cache: Option<(bool, int)>)
    requires
        pos <= bits.len(),
        0 <= n <= 4096,
    ensures
        (match qt_pixels(bits, pos, n, cache) {
            Some((pix, p)) => pix.len() == 4096 - n && pos <= p <= bits.len(),
            None => true,
        }),
    decreases 4096 - n,
{
    if 0 <= n < 4096 {
        lemma_probe_levels_props(bits, pos, n, 0, cache);
        match probe_levels(bits, pos, n, 0, cache) {
            None => {},
            Some((cache1, p1)) => {
                let pixel = match cache1 {
                    Some((f, _lv)) => Some((f, p1)),
                    None => fr_bit(bits, p1),
                };
                match pixel {
                    None => {},
                    Some((b, p2)) => {
                        let cache2 = match cache1 {
                            Some((f, lv)) => if (n + 1) % block_size(lv) == 0 {
                                None
                            } else {
                                cache1
                            },
                            None => None,
                        };
                        lemma_qt_pixels_props(bits, p2, n + 1, cache2);
                    },
                }
            },
        }
    }
}

/// A completed control body moves the cursor strictly forward, never past
/// the end of the stream.
pub proof fn lemma_parse_control_props(bits: Seq<bool>, pos: int)
    ensures
        (match parse_control(bits, pos) {
            Some((rec, p)) => pos < p <= bits.len() && rec is Control,
            None => true,
        }),
{
    lemma_fr_read_bound(bits, pos, 7);
}

/// A completed graphical body moves the cursor strictly forward, never past
/// the end of the stream.
pub proof fn lemma_parse_graphical_props(bits: Seq<bool>, pos: int)
    ensures
        (match parse_graphical(bits, pos) {
            Some((rec, p)) => pos < p <= bits.len() && rec is Graphical,
            None => true,
        }),
{
    match fr_bit(bits, pos) {
        None => {},
        Some((fx, p1)) => match fr_bit(bits, p1) {
            None => {},
            Some((fy, p2)) => {
                lemma_fr_read_bound(bits, p2, 7);
                let xr = if fx {
                    match fr_read(bits, p2, 7) {
                        None => None,
                        Some((xv, p3)) => Some((xv as int, p3)),
                    }
                } else {
                    Some((0int, p2))
                };
                match xr {
                    None => {},
                    Some((xv, p3)) => {
                        if fy {
                            lemma_fr_signed_bound(bits, p3, 7);
                        }
                        let yr = if fy {
                            fr_signed(bits, p3, 7)
                        } else {
                            Some((0int, p3))
                        };
                        match yr {
                            None => {},
                            Some((yv, p4)) => {
                                lemma_qt_pixels_props(bits, p4, 0, None);
                            },
                        }
                    },
                }
            },
        },
    }
}

/// The cache of the executable quadtree loop, seen as the spec model's
/// optional `(fill, level)` pair.
spec fn cur_cache(on: bool, v: bool, lv: u32) -> Option<(bool, int)> {
    if on {
        Some((v, lv as int))
    } else {
        None
    }
}

fn block_size_x(i: u32) -> (s: u32)
    requires
        i < 6,
    ensures
        s == block_size(i as int),
        s >= 1,
{
    if i == 0 {
        4096
    } else if i == 1 {
        1024
    } else if i == 2 {
        256
    } else if i == 3 {
        64
    } else if i == 4 {
        16
    } else {
        4
    }
}

/// Packs 4096 pixel bits into 512 raster bytes, least significant bit of
/// each byte first.
fn pack_bits(pix: &Vec<bool>) -> (out: Vec<u8>)
    requires
        pix@.len() == 4096,
    ensures
        out@ == pack_pixels(pix@),
{
    let mut out: Vec<u8> = Vec::new();
    let mut i: usize = 0;
    while i < 512
        invariant
            pix@.len() == 4096,
            i <= 512,
            out@.len() == i,
            forall|k: int| 0 <= k < i ==> out@[k] == pack_pixels(pix@)[k],
        decreases 512 - i,
    {
        let mut b: u8 = 0;
        let mut t: usize = 8;
        proof {
            vstd::arithmetic::power2::lemma2_to64();
            assert(pix@.subrange(8 * i + 8, 8 * i + 8) =~= Seq::<bool>::empty());
            assert(bits_to_byte_le(Seq::<bool>::empty()) == 0);
        }
        while t > 0
            invariant
                pix@.len() == 4096,
                i < 512,
                t <= 8,
                b as nat == bits_to_byte_le(pix@.subrange(8 * i + t, 8 * i + 8)),
                b < pow2((8 - t) as nat),
            decreases t,
        {
            t = t - 1;
            proof {
                vstd::arithmetic::power2::lemma2_to64();
                vstd::arithmetic::power2::lemma_pow2_unfold((8 - t) as nat);
                assert(pix@.subrange(8 * i + t, 8 * i + 8).skip(1) =~= pix@.subrange(
                    8 * i + t + 1,
                    8 * i + 8,
                ));
            }
            b = b * 2 + (if pix[8 * i + t] {
                1
            } else {
                0
            });
        }
        proof {
            vstd::arithmetic::power2::lemma2_to64();
        }
        out.push(b);
        i = i + 1;
    }
    proof {
        assert(out@ =~= pack_pixels(pix@));
    }
    out
}

/// Decodes one quadtree bitmap body from the current position and packs it
/// into 512 raster bytes; `None` when the stream ends inside the body.
fn read_raster(r: &mut BitReaderWrapper) -> (res: Option<Vec<u8>>)
    requires
        old(r).wf(),
    ensures
        final(r).wf(),
        final(r).full() == old(r).full(),
        (match qt_pixels(old(r).full(), old(r).pos(), 0, None) {
            Some((pix, p)) => res matches Some(v) && v@ == pack_pixels(pix) && final(r).pos()
                == p,
            None => res is None && final(r).pos() == old(r).full().len(),
        }),
{
    let ghost bits0 = r.full();
    let ghost pos0 = r.pos();
    let mut pix: Vec<bool> = Vec::new();
    let mut cache_on: bool = false;
    let mut cache_val: bool = false;
    let mut cache_lv: u32 = 0;
    let mut n: u32 = 0;
    proof {
        assert(cur_cache(cache_on, cache_val, cache_lv) is None);
    }
    while n < 4096
        invariant
            r.wf(),
            r.full() == bits0,
            bits0 == old(r).full(),
            pos0 == old(r).pos(),
            n <= 4096,
            pix@.len() == n,
            cache_on ==> cache_lv < 6,
            (match qt_pixels(bits0, r.pos(), n as int, cur_cache(cache_on, cache_val, cache_lv)) {
                Some((rest, pf)) => qt_pixels(bits0, pos0, 0, None) == Some((pix@ + rest, pf)),
                None => qt_pixels(bits0, pos0, 0, None) is None,
            }),
        decreases 4096 - n,
    {
        let ghost pstart = r.pos();
        let ghost cache_start = cur_cache(cache_on, cache_val, cache_lv);
        let mut i: u32 = 0;
        while i < 6
            invariant
                r.wf(),
                r.full() == bits0,
                bits0 == old(r).full(),
                pos0 == old(r).pos(),
                i <= 6,
                n < 4096,
                pix@.len() == n,
                cache_on ==> cache_lv < 6,
                (match probe_levels(
                    bits0,
                    r.pos(),
                    n as int,
                    i as int,
                    cur_cache(cache_on, cache_val, cache_lv),
                ) {
                    Some(x) => probe_levels(bits0, pstart, n as int, 0, cache_start) == Some(x),
                    None => probe_levels(bits0, pstart, n as int, 0, cache_start) is None,
                }),
                (match qt_pixels(bits0, pstart, n as int, cache_start) {
                    Some((rest, pf)) => qt_pixels(bits0, pos0, 0, None) == Some((pix@ + rest, pf)),
                    None => qt_pixels(bits0, pos0, 0, None) is None,
                }),
            decreases 6 - i,
        {
            if !cache_on && n % block_size_x(i) == 0 {
                let ghost pcur = r.pos();
                match r.read_bit() {
                    None => {
                        proof {
                            assert(probe_levels(bits0, pcur, n as int, i as int, cur_cache(cache_on, cache_val, cache_lv)) is None);
                            assert(probe_levels(bits0, pstart, n as int, 0, cache_start) is None);
                            assert(qt_pixels(bits0, pstart, n as int, cache_start) is None);
                        }
                        return None;
                    },
                    Some(h) => {
                        if h {
                            let ghost p1 = r.pos();
                            match r.read_bit() {
                                None => {
                                    proof {
                                        assert(probe_levels(bits0, pcur, n as int, i as int, cur_cache(cache_on, cache_val, cache_lv)) is None);
                                        assert(probe_levels(bits0, pstart, n as int, 0, cache_start) is None);
                                        assert(qt_pixels(bits0, pstart, n as int, cache_start) is None);
                                    }
                                    return None;
                                },
                                Some(f) => {
                                    proof {
                                        assert(probe_levels(bits0, pcur, n as int, i as int, cur_cache(cache_on, cache_val, cache_lv)) == probe_levels(bits0, r.pos(), n as int, i as int + 1, Some((f, i as int))));
                                    }
                                    cache_on = true;
                                    cache_val = f;
                                    cache_lv = i;
                                },
                            }
                        } else {
                            proof {
                                assert(probe_levels(bits0, pcur, n as int, i as int, cur_cache(cache_on, cache_val, cache_lv)) == probe_levels(bits0, r.pos(), n as int, i as int + 1, cur_cache(cache_on, cache_val, cache_lv)));
                            }
                        }
                    },
                }
            } else {
                proof {
                    assert(probe_levels(bits0, r.pos(), n as int, i as int, cur_cache(cache_on, cache_val, cache_lv)) == probe_levels(bits0, r.pos(), n as int, i as int + 1, cur_cache(cache_on, cache_val, cache_lv)));
                }
            }
            i = i + 1;
        }
        let ghost cache_mid = cur_cache(cache_on, cache_val, cache_lv);
        let ghost pmid = r.pos();
        proof {
            assert(probe_levels(bits0, pmid, n as int, 6, cache_mid) == Some((cache_mid, pmid)));
            assert(probe_levels(bits0, pstart, n as int, 0, cache_start) == Some((cache_mid, pmid)));
        }
        let b: bool;
        if cache_on {
            b = cache_val;
        } else {
            match r.read_bit() {
                None => {
                    proof {
                        assert(qt_pixels(bits0, pstart, n as int, cache_start) is None);
                    }
                    return None;
                },
                Some(bb) => {
                    b = bb;
                },
            }
        }
        pix.push(b);
        if cache_on {
            if (n + 1) % block_size_x(cache_lv) == 0 {
                cache_on = false;
            }
        }
        proof {
            let cache2 = cur_cache(cache_on, cache_val, cache_lv);
            assert(qt_pixels(bits0, pstart, n as int, cache_start) == (match qt_pixels(
                bits0,
                r.pos(),
                n as int + 1,
                cache2,
            ) {
                None => None::<(Seq<bool>, int)>,
                Some((rest2, pf2)) => Some((seq![b] + rest2, pf2)),
            }));
            match qt_pixels(bits0, r.pos(), n as int + 1, cache2) {
                None => {},
                Some((rest2, pf2)) => {
                    let old_pix = pix@.subrange(0, n as int);
                    assert(pix@ =~= old_pix + seq![b]);
                    assert(old_pix + (seq![b] + rest2) =~= (old_pix + seq![b]) + rest2);
                },
            }
        }
        n = n + 1;
    }
    proof {
        assert(qt_pixels(bits0, r.pos(), 4096, cur_cache(cache_on, cache_val, cache_lv)) == Some((
            Seq::<bool>::empty(),
            r.pos(),
        )));
        assert(pix@ + Seq::<bool>::empty() =~= pix@);
    }
    let bytes = pack_bits(&pix);
    Some(bytes)
}

/// Decodes the body of one graphical record (everything after its selector
/// bit); `None` when the stream ends inside the body.
fn read_graphical(r: &mut BitReaderWrapper) -> (res: Option<Character>)
    requires
        old(r).wf(),
    ensures
        final(r).wf(),
        final(r).full() == old(r).full(),
        (match parse_graphical(old(r).full(), old(r).pos()) {
            Some((rec, p)) => res matches Some(c) && c.wf() && c.rec() == rec && final(r).pos()
                == p,
            None => res is None,
        }),
{
    let ghost bits0 = r.full();
    let ghost pos0 = r.pos();
    let fx = match r.read_bit() {
        Some(b) => b,
        None => {
            return None;
        },
    };
    let fy = match r.read_bit() {
        Some(b) => b,
        None => {
            return None;
        },
    };
    let mut x_offset: i8 = 0;
    if fx {
        let ghost p2 = r.pos();
        match r.read(7) {
            Some(v) => {
                proof {
                    lemma_fr_read_bound(bits0, p2, 7);
                    vstd::arithmetic::power2::lemma2_to64();
                }
                x_offset = v as i8;
            },
            None => {
                return None;
            },
        }
    }
    let mut y_offset: i8 = 0;
    if fy {
        let ghost p3 = r.pos();
        match r.read_signed(7) {
            Some(v) => {
                proof {
                    lemma_fr_signed_bound(bits0, p3, 7);
                    vstd::arithmetic::power2::lemma2_to64();
                }
                y_offset = v as i8;
            },
            None => {
                return None;
            },
        }
    }
    proof {
        lemma_wf_bounds(*r);
        lemma_qt_pixels_props(bits0, r.pos(), 0, None);
    }
    let raster = match read_raster(r) {
        Some(v) => v,
        None => {
            return None;
        },
    };
    let ghost p5 = r.pos();
    proof {
        lemma_wf_bounds(*r);
    }
    let cpos = r.bit_position_in_byte();
    if cpos != 0 {
        let _all_there = r.skip(8 - cpos as u32);
        proof {
            assert(pad_len(p5) == (8 - cpos) as nat);
        }
    } else {
        proof {
            assert(pad_len(p5) == 0);
            assert(fr_skip(bits0, p5, 0) == p5);
        }
    }
    Some(
        Character {
            x_offset,
            y_offset,
            control_code: None,
            graphical_data: Some(raster),
        },
    )
}

/// Decodes a glyph stream: repeatedly reads one raw selector bit and then a
/// control or graphical record body.  A missing selector bit is the clean
/// end of input; a record cut short by the end of input is dropped, and the
/// records completed before it are returned.
pub fn decode(input: &[u8]) -> (out: Vec<Character>)
    ensures
        rec_seq(out@) == spec_decode(input@),
        forall|k: int| 0 <= k < out@.len() ==> (#[trigger] out@[k]).wf(),
{
    let ghost bits0 = stream_bits(input@);
    let mut r = BitReaderWrapper::new(input);
    let mut out: Vec<Character> = Vec::new();
    let mut done = false;
    while !done
        invariant
            r.wf(),
            r.full() == bits0,
            bits0 == stream_bits(input@),
            forall|k: int| 0 <= k < out@.len() ==> (#[trigger] out@[k]).wf(),
            decode_from(bits0, 0) == rec_seq(out@) + (if done {
                Seq::<Record>::empty()
            } else {
                decode_from(bits0, r.pos())
            }),
        decreases (if done {
            0int
        } else {
            bits0.len() - r.pos() + 1
        }),
    {
        let ghost ptop = r.pos();
        let ghost out_top = out@;
        proof {
            lemma_wf_bounds(r);
        }
        match r.read_raw_bit() {
            None => {
                proof {
                    assert(decode_from(bits0, ptop) == Seq::<Record>::empty());
                }
                done = true;
            },
            Some(graphical) => {
                if graphical {
                    match read_graphical(&mut r) {
                        None => {
                            proof {
                                assert(decode_from(bits0, ptop) == Seq::<Record>::empty());
                            }
                            done = true;
                        },
                        Some(c) => {
                            proof {
                                lemma_parse_graphical_props(bits0, ptop + 1);
                            }
                            out.push(c);
                            proof {
                                let rec = c.rec();
                                let pnext = r.pos();
                                assert(decode_from(bits0, ptop) == seq![rec] + decode_from(
                                    bits0,
                                    pnext,
                                ));
                                assert(rec_seq(out@) =~= rec_seq(out_top) + seq![rec]);
                                assert((rec_seq(out_top) + seq![rec]) + decode_from(bits0, pnext)
                                    =~= rec_seq(out_top) + (seq![rec] + decode_from(bits0, pnext)));
                            }
                        },
                    }
                } else {
                    let ghost p1 = r.pos();
                    match r.read(7) {
                        None => {
                            proof {
                                assert(fr_read(bits0, p1, 7) is None);
                                assert(decode_from(bits0, ptop) == Seq::<Record>::empty());
                            }
                            done = true;
                        },
                        Some(v) => {
                            proof {
                                lemma_fr_read_bound(bits0, p1, 7);
                                lemma_parse_control_props(bits0, p1);
                                vstd::arithmetic::power2::lemma2_to64();
                            }
                            let c = Character {
                                x_offset: 0,
                                y_offset: 0,
                                control_code: Some(v as u8),
                                graphical_data: None,
                            };
                            out.push(c);
                            proof {
                                let rec = c.rec();
                                let pnext = r.pos();
                                assert(parse_control(bits0, p1) == Some((rec, pnext)));
                                assert(decode_from(bits0, ptop) == seq![rec] + decode_from(
                                    bits0,
                                    pnext,
                                ));
                                assert(rec_seq(out@) =~= rec_seq(out_top) + seq![rec]);
                                assert((rec_seq(out_top) + seq![rec]) + decode_from(bits0, pnext)
                                    =~= rec_seq(out_top) + (seq![rec] + decode_from(bits0, pnext)));
                            }
                        },
                    }
                }
            },
        }
    }
    proof {
        assert(rec_seq(out@) + Seq::<Record>::empty() =~= rec_seq(out@));
    }
    out
}

} // verus!
