//! The laws of the decoder, stated over the spec model and proved once and
//! for all: determinism, byte alignment after graphical units, the exact
//! pixel count of a bitmap body, and the two extreme compression cases of
//! the quadtree code.

use vstd::prelude::*;

verus! {

use crate::codec::block_size;
use crate::codec::lemma_qt_pixels_props;
use crate::codec::parse_graphical;
use crate::codec::probe_levels;
use crate::codec::qt_pixels;
use crate::codec::spec_decode;
use crate::reader::fr_bit;
use crate::reader::fr_read;
use crate::reader::fr_signed;
use crate::reader::fr_skip;
use crate::reader::pad_len;
use crate::reader::fr_advance;
use crate::reader::lemma_fr_advance_adds;
use crate::reader::lemma_fr_bit_advance;

/// Decoding is a pure function of the input bytes: equal inputs always give
/// equal record sequences.
pub proof fn lemma_decode_deterministic(a: Seq<u8>, b: Seq<u8>)
    requires
        a == b,
    ensures
        spec_decode(a) == spec_decode(b),
{
}

/// After any completed graphical unit of a whole-byte stream, the logical
/// cursor sits on a byte boundary: the pad step discards exactly the bits
/// up to the next boundary.
pub proof fn lemma_graphical_unit_aligned(bits: Seq<bool>, pos: int)
    requires
        bits.len() % 8 == 0,
    ensures
        (match parse_graphical(bits, pos) {
            Some((rec, p)) => p % 8 == 0,
            None => true,
        }),
{
    match fr_bit(bits, pos) {
        None => {},
        Some((fx, p1)) => match fr_bit(bits, p1) {
            None => {},
            Some((fy, p2)) => {
                let xr = if fx {
                    match fr_read(bits, p2, 7) {
                        None => None,
                        Some((xv, p3)) => Some((xv as int, p3)),
                    }
                } else {
                    Some((0int, p2))
                };
                match xr {
                    None => {},
                    Some((xv, p3)) => {
                        let yr = if fy {
                            fr_signed(bits, p3, 7)
                        } else {
                            Some((0int, p3))
                        };
                        match yr {
                            None => {},
                            Some((yv, p4)) => match qt_pixels(bits, p4, 0, None) {
                                None => {},
                                Some((pix, p5)) => {
                                    lemma_skip_pad_aligns(bits, p5);
                                },
                            },
                        }
                    },
                }
            },
        },
    }
}

/// Discarding `pad_len(pos)` bits from a whole-byte stream lands on a byte
/// boundary.
proof fn lemma_skip_pad_aligns(bits: Seq<bool>, pos: int)
    requires
        bits.len() % 8 == 0,
    ensures
        fr_skip(bits, pos, pad_len(pos)) % 8 == 0,
{
    let m = pos % 8;
    vstd::arithmetic::div_mod::lemma_fundamental_div_mod(pos, 8);
    if pos + pad_len(pos) <= bits.len() {
        if m != 0 {
            vstd::arithmetic::div_mod::lemma_fundamental_div_mod_converse_mod(
                pos + (8 - m),
                8,
                pos / 8 + 1,
                0,
            );
        }
    }
}

/// Exactness: a quadtree bitmap body always stands for exactly 4096 pixel
/// bits, however much or little of the stream its compression consumed.
pub proof fn lemma_raster_exactness(bits: Seq<bool>, pos: int)
    requires
        pos <= bits.len(),
    ensures
        (match qt_pixels(bits, pos, 0, None) {
            Some((pix, p)) => pix.len() == 4096 && pos <= p <= bits.len(),
            None => true,
        }),
{
    lemma_qt_pixels_props(bits, pos, 0, None);
}

/// While a block is cached, the level probes ask nothing and change
/// nothing.
proof fn lemma_probe_skip_cached(bits: Seq<bool>, pos: int, n: int, i: int, c: (bool, int))
    requires
        0 <= i <= 6,
    ensures
        probe_levels(bits, pos, n, i, Some(c)) == Some((Some(c), pos)),
    decreases 6 - i,
{
    if i < 6 {
        lemma_probe_skip_cached(bits, pos, n, i + 1, c);
    }
}

/// With the whole raster cached at level 0, every remaining pixel is the
/// fill bit and the stream is not touched again.
proof fn lemma_filled_tail(bits: Seq<bool>, pos: int, n: int, f: bool)
    requires
        0 <= n <= 4096,
    ensures
        qt_pixels(bits, pos, n, Some((f, 0))) == Some(
            (Seq::new((4096 - n) as nat, |k: int| f), pos),
        ),
    decreases 4096 - n,
{
    if n == 4096 {
        assert(Seq::new(0, |k: int| f) =~= Seq::<bool>::empty());
    } else {
        lemma_probe_skip_cached(bits, pos, n, 0, (f, 0));
        assert(probe_levels(bits, pos, n, 0, Some((f, 0))) == Some((Some((f, 0int)), pos)));
        if n == 4095 {
            assert((n + 1) % block_size(0) == 0);
            assert(qt_pixels(bits, pos, 4096, None::<(bool, int)>) == Some(
                (Seq::<bool>::empty(), pos),
            ));
            assert(seq![f] + Seq::<bool>::empty() =~= Seq::new(1, |k: int| f));
        } else {
            vstd::arithmetic::div_mod::lemma_small_mod((n + 1) as nat, 4096);
            assert((n + 1) % block_size(0) != 0);
            lemma_filled_tail(bits, pos, n + 1, f);
            assert(seq![f] + Seq::new((4096 - n - 1) as nat, |k: int| f) =~= Seq::new(
                (4096 - n) as nat,
                |k: int| f,
            ));
        }
    }
}

/// Best case: when the level-0 homogeneity probe answers 1, the whole
/// raster is the fill bit repeated 4096 times, and the bitmap body consumes
/// exactly those two logical bits — the cursor ends right after the fill
/// bit.
pub proof fn lemma_best_case(bits: Seq<bool>, pos: int, p1: int, f: bool, p2: int)
    requires
        fr_bit(bits, pos) == Some((true, p1)),
        fr_bit(bits, p1) == Some((f, p2)),
    ensures
        qt_pixels(bits, pos, 0, None) == Some((Seq::new(4096, |k: int| f), p2)),
{
    lemma_probe_skip_cached(bits, p2, 0, 1, (f, 0));
    lemma_filled_tail(bits, p2, 1, f);
    assert(seq![f] + Seq::new(4095, |k: int| f) =~= Seq::new(4096, |k: int| f));
}

/// The level probes before pixel `n`, all answering 0: each level at which
/// `n` starts a block asks one framed bit and reads a 0.  Returns the
/// cursor afterwards; `None` when a probe answers 1 or the stream ends.
pub open spec fn probe_zeros(bits: Seq<bool>, pos: int, n: int, i: int) -> Option<int>
    decreases 6 - i,
{
    if i < 0 || i >= 6 {
        Some(pos)
    } else if n % block_size(i) == 0 {
        match fr_bit(bits, pos) {
            None => None,
            Some((h, p1)) => if h {
                None
            } else {
                probe_zeros(bits, p1, n, i + 1)
            },
        }
    } else {
        probe_zeros(bits, pos, n, i + 1)
    }
}

/// The fully incompressible reading of pixels `n .. 4096`: every
/// homogeneity probe answers 0, and every pixel costs exactly one fresh
/// framed bit of its own.
pub open spec fn qt_nocache(bits: Seq<bool>, pos: int, n: int) -> Option<(Seq<bool>, int)>
    decreases 4096 - n,
{
    if n < 0 || n >= 4096 {
        Some((Seq::empty(), pos))
    } else {
        match probe_zeros(bits, pos, n, 0) {
            None => None,
            Some(p1) => match fr_bit(bits, p1) {
                None => None,
                Some((b, p2)) => match qt_nocache(bits, p2, n + 1) {
                    None => None,
                    Some((rest, pf)) => Some((seq![b] + rest, pf)),
                },
            },
        }
    }
}

/// How many levels probe pixel `n`, from level `i` on: one per level at
/// which `n` starts a block.
pub open spec fn levels_from(n: int, i: int) -> nat
    decreases 6 - i,
{
    if i < 0 || i >= 6 {
        0
    } else {
        (if n % block_size(i) == 0 {
            1nat
        } else {
            0nat
        }) + levels_from(n, i + 1)
    }
}

/// The logical bits an incompressible body spends on pixels `n .. 4096`:
/// the probes of each pixel plus one fresh bit for the pixel itself.
pub open spec fn qt_zero_cost(n: int) -> nat
    decreases 4096 - n,
{
    if n < 0 || n >= 4096 {
        0
    } else {
        levels_from(n, 0) + 1 + qt_zero_cost(n + 1)
    }
}

/// The probes of one pixel, written out: one per block size that divides
/// `n`.
proof fn lemma_levels_from_sum(n: int)
    ensures
        levels_from(n, 0) == (if n % 4096 == 0 {
            1int
        } else {
            0int
        }) + (if n % 1024 == 0 {
            1int
        } else {
            0int
        }) + (if n % 256 == 0 {
            1int
        } else {
            0int
        }) + (if n % 64 == 0 {
            1int
        } else {
            0int
        }) + (if n % 16 == 0 {
            1int
        } else {
            0int
        }) + (if n % 4 == 0 {
            1int
        } else {
            0int
        }),
{
    assert(levels_from(n, 6) == 0);
    assert(levels_from(n, 5) == (if n % 4 == 0 {
        1nat
    } else {
        0nat
    }) + levels_from(n, 6));
    assert(levels_from(n, 4) == (if n % 16 == 0 {
        1nat
    } else {
        0nat
    }) + levels_from(n, 5));
    assert(levels_from(n, 3) == (if n % 64 == 0 {
        1nat
    } else {
        0nat
    }) + levels_from(n, 4));
    assert(levels_from(n, 2) == (if n % 256 == 0 {
        1nat
    } else {
        0nat
    }) + levels_from(n, 3));
    assert(levels_from(n, 1) == (if n % 1024 == 0 {
        1nat
    } else {
        0nat
    }) + levels_from(n, 2));
    assert(levels_from(n, 0) == (if n % 4096 == 0 {
        1nat
    } else {
        0nat
    }) + levels_from(n, 1));
}

/// How many multiples of `d` lie in `[n, 4096)`, as a difference of
/// divisions.
spec fn mult_count(n: int, d: int) -> int {
    4096int / d - (n + d - 1) / d
}

/// Crossing one pixel changes the multiple count by 1 exactly at the
/// multiples themselves.
proof fn lemma_mult_count_step(n: int, d: int)
    requires
        0 <= n,
        0 < d,
    ensures
        mult_count(n, d) - mult_count(n + 1, d) == (if n % d == 0 {
            1int
        } else {
            0int
        }),
{
    vstd::arithmetic::div_mod::lemma_fundamental_div_mod(n, d);
    let q = n / d;
    let r = n % d;
    assert((q + 1) * d == q * d + d) by (nonlinear_arith);
    assert(d * q == q * d) by (nonlinear_arith);
    if r == 0 {
        vstd::arithmetic::div_mod::lemma_fundamental_div_mod_converse_div(n + d - 1, d, q, d - 1);
        vstd::arithmetic::div_mod::lemma_fundamental_div_mod_converse_div(n + d, d, q + 1, 0);
    } else {
        vstd::arithmetic::div_mod::lemma_fundamental_div_mod_converse_div(
            n + d - 1,
            d,
            q + 1,
            r - 1,
        );
        vstd::arithmetic::div_mod::lemma_fundamental_div_mod_converse_div(n + d, d, q + 1, r);
    }
}

/// The closed count of what an incompressible body spends on the pixels
/// `n .. 4096`; at `n = 0` it comes to 1365 probe bits plus 4096 pixel
/// bits.
proof fn lemma_cost_formula(n: int)
    requires
        0 <= n <= 4096,
    ensures
        qt_zero_cost(n) == (4096 - n) + mult_count(n, 4096) + mult_count(n, 1024) + mult_count(
            n,
            256,
        ) + mult_count(n, 64) + mult_count(n, 16) + mult_count(n, 4),
    decreases 4096 - n,
{
    if n == 4096 {
    } else {
        lemma_cost_formula(n + 1);
        lemma_levels_from_sum(n);
        lemma_mult_count_step(n, 4096);
        lemma_mult_count_step(n, 1024);
        lemma_mult_count_step(n, 256);
        lemma_mult_count_step(n, 64);
        lemma_mult_count_step(n, 16);
        lemma_mult_count_step(n, 4);
    }
}

proof fn lemma_probe_zeros_cost(bits: Seq<bool>, pos: int, n: int, i: int)
    ensures
        (match probe_zeros(bits, pos, n, i) {
            Some(p) => p == fr_advance(pos, levels_from(n, i)),
            None => true,
        }),
    decreases 6 - i,
{
    if 0 <= i < 6 {
        if n % block_size(i) == 0 {
            match fr_bit(bits, pos) {
                None => {},
                Some((h, p1)) => {
                    if !h {
                        lemma_fr_bit_advance(bits, pos);
                        lemma_probe_zeros_cost(bits, p1, n, i + 1);
                        lemma_fr_advance_adds(pos, 1, levels_from(n, i + 1));
                    }
                },
            }
        } else {
            lemma_probe_zeros_cost(bits, pos, n, i + 1);
        }
    }
}

proof fn lemma_worst_cost_tail(bits: Seq<bool>, pos: int, n: int)
    requires
        0 <= n <= 4096,
    ensures
        (match qt_nocache(bits, pos, n) {
            Some((pix, p)) => p == fr_advance(pos, qt_zero_cost(n)),
            None => true,
        }),
    decreases 4096 - n,
{
    if n < 4096 {
        lemma_probe_zeros_cost(bits, pos, n, 0);
        match probe_zeros(bits, pos, n, 0) {
            None => {},
            Some(p1) => match fr_bit(bits, p1) {
                None => {},
                Some((b, p2)) => {
                    lemma_fr_bit_advance(bits, p1);
                    lemma_worst_cost_tail(bits, p2, n + 1);
                    lemma_fr_advance_adds(pos, levels_from(n, 0), 1 + qt_zero_cost(n + 1));
                    lemma_fr_advance_adds(p1, 1, qt_zero_cost(n + 1));
                },
            },
        }
    }
}

proof fn lemma_probe_zeros_equiv(bits: Seq<bool>, pos: int, n: int, i: int)
    ensures
        (match probe_zeros(bits, pos, n, i) {
            Some(p) => probe_levels(bits, pos, n, i, None) == Some((None::<(bool, int)>, p)),
            None => true,
        }),
    decreases 6 - i,
{
    if 0 <= i < 6 {
        if n % block_size(i) == 0 {
            match fr_bit(bits, pos) {
                None => {},
                Some((h, p1)) => {
                    if !h {
                        lemma_probe_zeros_equiv(bits, p1, n, i + 1);
                    }
                },
            }
        } else {
            lemma_probe_zeros_equiv(bits, pos, n, i + 1);
        }
    }
}

proof fn lemma_worst_tail(bits: Seq<bool>, pos: int, n: int)
    ensures
        (match qt_nocache(bits, pos, n) {
            Some((pix, p)) => qt_pixels(bits, pos, n, None) == Some((pix, p)),
            None => true,
        }),
    decreases 4096 - n,
{
    if 0 <= n < 4096 {
        lemma_probe_zeros_equiv(bits, pos, n, 0);
        match probe_zeros(bits, pos, n, 0) {
            None => {},
            Some(p1) => match fr_bit(bits, p1) {
                None => {},
                Some((b, p2)) => {
                    lemma_worst_tail(bits, p2, n + 1);
                },
            },
        }
    }
}

/// Worst case: when every homogeneity probe at every level answers 0, the
/// decoder reads the bitmap exactly as the incompressible machine does —
/// one probe bit per block boundary and one fresh stream bit per pixel.
/// The body then costs exactly 5461 logical bits: 1365 probe bits (one per
/// block start: 1 + 4 + 16 + 64 + 256 + 1024) and 4096 pixel bits, one per
/// pixel.
pub proof fn lemma_worst_case(bits: Seq<bool>, pos: int)
    ensures
        (match qt_nocache(bits, pos, 0) {
            Some((pix, p)) => qt_pixels(bits, pos, 0, None) == Some((pix, p)) && pix.len()
                == 4096 && p == fr_advance(pos, 1365 + 4096),
            None => true,
        }),
{
    lemma_worst_tail(bits, pos, 0);
    lemma_worst_cost_tail(bits, pos, 0);
    lemma_cost_formula(0);
    match qt_nocache(bits, pos, 0) {
        None => {},
        Some((pix, p)) => {
            match probe_zeros(bits, pos, 0, 0) {
                None => {},
                Some(p1) => {
                    lemma_qt_pixels_props(bits, pos, 0, None);
                },
            }
        },
    }
}

} // verus!
