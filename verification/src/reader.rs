//! The framed bit source: a logical bit stream over a raw big-endian bit
//! stream, with the per-byte continuation bit stripped.
//!
//! The raw stream is read through `bitstream_io`.  The logical cursor counts
//! every raw bit consumed; immediately before a framed read whose cursor is a
//! multiple of 8 (the first bit of a physical byte), one raw bit — the
//! continuation bit of the wire format — is consumed and discarded.

use vstd::prelude::*;

use bitstream_io::BitRead;

verus! {

use vstd::arithmetic::power2::pow2;

/// The concrete raw bit source: a big-endian bit reader over an owned byte
/// buffer.  Verus cannot take `bitstream_io::BitReader`'s generics (they are
/// bounded by an outside trait), so the reader sits opaque inside this
/// struct, described only by `remaining_bits` and the two trusted functions
/// below.
#[verifier::external_body]
pub struct RawReader {
    inner: bitstream_io::BitReader<std::io::Cursor<Vec<u8>>, bitstream_io::BigEndian>,
}

/// Bit `i` (0 = most significant) of byte `b`.
pub open spec fn byte_bit(b: u8, i: int) -> bool {
    (b >> ((7 - i) as u8)) & 1 == 1
}

/// The raw bit stream carried by a byte buffer: each byte contributes its
/// bits most significant first.
pub open spec fn stream_bits(bytes: Seq<u8>) -> Seq<bool> {
    Seq::new(bytes.len() * 8, |k: int| byte_bit(bytes[k / 8], k % 8))
}

/// The bits the raw reader has not yet handed out.
pub uninterp spec fn remaining_bits(r: RawReader) -> Seq<bool>;

/// Relies on `bitstream_io::BitReader::new` over an in-memory cursor with
/// `BigEndian` bit order: the reader will hand back exactly the buffer's
/// bits, most significant bit of each byte first.
#[verifier::external_body]
fn raw_reader_new(bytes: &[u8]) -> (r: RawReader)
    ensures
        remaining_bits(r) == stream_bits(bytes@),
{
    RawReader { inner: bitstream_io::BitReader::new(std::io::Cursor::new(bytes.to_vec())) }
}

/// Relies on `bitstream_io::BitRead::read_bit` (`BigEndian`): it pops the
/// next most significant unread bit, and errors exactly when the stream is
/// exhausted, consuming nothing in that case.
#[verifier::external_body]
fn raw_next_bit(r: &mut RawReader) -> (b: Option<bool>)
    ensures
        remaining_bits(*old(r)).len() == 0 ==> b is None && remaining_bits(*final(r))
            == remaining_bits(*old(r)),
        remaining_bits(*old(r)).len() > 0 ==> b == Some(remaining_bits(*old(r))[0])
            && remaining_bits(*final(r)) == remaining_bits(*old(r)).skip(1),
{
    match r.inner.read_bit() {
        Ok(v) => Some(v),
        Err(_) => None,
    }
}

/// One framed bit read at logical position `pos` of the raw stream `bits`:
/// when `pos` sits on a byte boundary the continuation bit `bits[pos]` is
/// discarded first, then the next raw bit is delivered.  `None` when the
/// stream is too short.
pub open spec fn fr_bit(bits: Seq<bool>, pos: int) -> Option<(bool, int)> {
    let p = if pos % 8 == 0 {
        pos + 1
    } else {
        pos
    };
    if 0 <= p && p < bits.len() {
        Some((bits[p], p + 1))
    } else {
        None
    }
}

/// An unsigned field of `w` framed bits, most significant bit first.
pub open spec fn fr_read(bits: Seq<bool>, pos: int, w: nat) -> Option<(nat, int)>
    decreases w,
{
    if w == 0 {
        Some((0, pos))
    } else {
        match fr_bit(bits, pos) {
            None => None,
            Some((b, p1)) => match fr_read(bits, p1, (w - 1) as nat) {
                None => None,
                Some((v, p2)) => Some(
                    ((if b {
                        pow2((w - 1) as nat)
                    } else {
                        0
                    }) + v, p2),
                ),
            },
        }
    }
}

/// A signed field of `w` framed bits: one sign bit, then `w - 1` magnitude
/// bits; a set sign bit turns magnitude `m` into `m - 2^(w-1)` (two's
/// complement over `w` bits).
pub open spec fn fr_signed(bits: Seq<bool>, pos: int, w: nat) -> Option<(int, int)>
    recommends
        1 <= w,
{
    match fr_bit(bits, pos) {
        None => None,
        Some((s, p1)) => match fr_read(bits, p1, (w - 1) as nat) {
            None => None,
            Some((m, p2)) => Some(
                ((if s {
                    m - pow2((w - 1) as nat)
                } else {
                    m as int
                }), p2),
            ),
        },
    }
}

/// Where the cursor lands after discarding `n` raw bits (no continuation
/// rule applies); a short stream is drained to its end.
pub open spec fn fr_skip(bits: Seq<bool>, pos: int, n: nat) -> int {
    if pos + n <= bits.len() {
        pos + n
    } else {
        bits.len() as int
    }
}

/// How many pad bits separate position `pos` from the next byte boundary.
pub open spec fn pad_len(pos: int) -> nat {
    ((8 - pos % 8) % 8) as nat
}

/// The framed bit source.  `bit_count` is the logical cursor modulo 8 — the
/// only part of the cursor the framing rule needs at run time.
pub struct BitReaderWrapper {
    bitreader: RawReader,
    bit_count: u8,
    stream: Ghost<Seq<bool>>,
    cursor: Ghost<int>,
}

impl BitReaderWrapper {
    /// The whole raw bit stream this source was created over.
    pub closed spec fn full(&self) -> Seq<bool> {
        self.stream@
    }

    /// How many raw bits have been consumed so far.
    pub closed spec fn pos(&self) -> int {
        self.cursor@
    }

    pub closed spec fn wf(&self) -> bool {
        &&& 0 <= self.cursor@ <= self.stream@.len()
        &&& remaining_bits(self.bitreader) == self.stream@.skip(self.cursor@)
        &&& self.bit_count == self.cursor@ % 8
    }

    pub fn new(input: &[u8]) -> (r: Self)
        ensures
            r.wf(),
            r.full() == stream_bits(input@),
            r.pos() == 0,
    {
        let raw = raw_reader_new(input);
        let r = BitReaderWrapper {
            bitreader: raw,
            bit_count: 0,
            stream: Ghost(stream_bits(input@)),
            cursor: Ghost(0),
        };
        proof {
            assert(stream_bits(input@).skip(0) =~= stream_bits(input@));
        }
        r
    }

    /// One raw bit, bypassing the continuation rule (used for the selector
    /// bit of each record and for pad skipping).
    pub fn read_raw_bit(&mut self) -> (b: Option<bool>)
        requires
            old(self).wf(),
        ensures
            final(self).wf(),
            final(self).full() == old(self).full(),
            old(self).pos() < old(self).full().len() ==> b == Some(
                old(self).full()[old(self).pos()],
            ) && final(self).pos() == old(self).pos() + 1,
            old(self).pos() >= old(self).full().len() ==> b is None && final(self).pos() == old(
                self,
            ).pos(),
    {
        let b = raw_next_bit(&mut self.bitreader);
        match b {
            Some(_) => {
                if self.bit_count == 7 {
                    self.bit_count = 0;
                } else {
                    self.bit_count = self.bit_count + 1;
                }
                proof {
                    assert(old(self).full().skip(old(self).pos()).len() > 0);
                    assert(old(self).full().skip(old(self).pos()).skip(1) =~= old(
                        self,
                    ).full().skip(old(self).pos() + 1));
                }
                self.cursor = Ghost(self.cursor@ + 1);
            },
            None => {
                proof {
                    assert(old(self).full().skip(old(self).pos()).len()
                        == old(self).full().len() - old(self).pos());
                }
            },
        }
        b
    }

    /// One logical bit: the boundary rule first, then one raw bit.
    pub fn read_bit(&mut self) -> (b: Option<bool>)
        requires
            old(self).wf(),
        ensures
            final(self).wf(),
            final(self).full() == old(self).full(),
            (match fr_bit(old(self).full(), old(self).pos()) {
                Some((bit, p)) => b == Some(bit) && final(self).pos() == p,
                None => b is None && final(self).pos() == old(self).full().len(),
            }),
    {
        if self.bit_count == 0 {
            let _discarded = self.read_raw_bit();
        }
        self.read_raw_bit()
    }

    /// The logical cursor modulo 8: 0 means the next framed read starts a
    /// new physical byte.
    pub fn bit_position_in_byte(&self) -> (r: u8)
        requires
            self.wf(),
        ensures
            r == self.pos() % 8,
    {
        self.bit_count
    }

    /// An unsigned field of `width` logical bits, most significant first.
    pub fn read(&mut self, width: u32) -> (v: Option<u64>)
        requires
            old(self).wf(),
            width <= 64,
        ensures
            final(self).wf(),
            final(self).full() == old(self).full(),
            (match fr_read(old(self).full(), old(self).pos(), width as nat) {
                Some((val, p)) => v == Some(val as u64) && final(self).pos() == p,
                None => v is None && final(self).pos() == old(self).full().len(),
            }),
    {
        let ghost bits0 = self.full();
        let ghost pos0 = self.pos();
        let mut acc: u64 = 0;
        let mut i: u32 = 0;
        proof {
            vstd::arithmetic::power2::lemma2_to64();
        }
        while i < width
            invariant
                self.wf(),
                self.full() == bits0,
                bits0 == old(self).full(),
                pos0 == old(self).pos(),
                i <= width,
                width <= 64,
                acc < pow2(i as nat),
                (match fr_read(bits0, self.pos(), (width - i) as nat) {
                    Some((v2, p2)) => fr_read(bits0, pos0, width as nat) == Some(
                        ((acc as nat) * pow2((width - i) as nat) + v2, p2),
                    ),
                    None => fr_read(bits0, pos0, width as nat) is None,
                }),
            decreases width - i,
        {
            let ghost pcur = self.pos();
            let b = match self.read_bit() {
                Some(b) => b,
                None => {
                    proof {
                        assert(fr_read(bits0, pcur, (width - i) as nat) is None);
                    }
                    return None;
                },
            };
            proof {
                let rem = (width - i) as nat;
                vstd::arithmetic::power2::lemma2_to64();
                vstd::arithmetic::power2::lemma_pow2_unfold(rem);
                vstd::arithmetic::power2::lemma_pow2_unfold((i + 1) as nat);
                if i + 1 < 64 {
                    vstd::arithmetic::power2::lemma_pow2_strictly_increases((i + 1) as nat, 64);
                }
                let a = acc as nat;
                let ph = pow2((rem - 1) as nat);
                assert(a * pow2(rem) == (2 * a) * ph) by (nonlinear_arith)
                    requires
                        pow2(rem) == 2 * ph,
                ;
                match fr_read(bits0, self.pos(), (rem - 1) as nat) {
                    Some((v3, p3)) => {
                        assert(fr_read(bits0, pcur, rem) == Some(
                            ((if b {
                                ph
                            } else {
                                0
                            }) + v3, p3),
                        ));
                        assert(a * pow2(rem) + ((if b {
                            ph
                        } else {
                            0
                        }) + v3) == (2 * a + (if b {
                            1nat
                        } else {
                            0nat
                        })) * ph + v3) by (nonlinear_arith)
                            requires
                                pow2(rem) == 2 * ph,
                        ;
                    },
                    None => {
                        assert(fr_read(bits0, pcur, rem) is None);
                    },
                }
            }
            acc = acc * 2 + (if b {
                1
            } else {
                0
            });
            i = i + 1;
        }
        proof {
            assert(i == width);
            assert(fr_read(bits0, self.pos(), (width - i) as nat) == Some((0nat, self.pos())));
            vstd::arithmetic::power2::lemma2_to64();
            assert((acc as nat) * pow2((width - i) as nat) + 0 == acc as nat);
            assert(fr_read(bits0, pos0, width as nat) == Some((acc as nat, self.pos())));
        }
        Some(acc)
    }

    /// A signed field: one sign bit, then `width - 1` magnitude bits; a set
    /// sign bit yields `magnitude - 2^(width-1)`.
    pub fn read_signed(&mut self, width: u32) -> (v: Option<i64>)
        requires
            old(self).wf(),
            1 <= width <= 64,
        ensures
            final(self).wf(),
            final(self).full() == old(self).full(),
            (match fr_signed(old(self).full(), old(self).pos(), width as nat) {
                Some((val, p)) => v == Some(val as i64) && final(self).pos() == p,
                None => v is None && final(self).pos() == old(self).full().len(),
            }),
    {
        let ghost bits0 = self.full();
        let ghost pos0 = self.pos();
        let s = match self.read_bit() {
            Some(b) => b,
            None => {
                return None;
            },
        };
        let ghost p1 = self.pos();
        let m = match self.read(width - 1) {
            Some(m) => m,
            None => {
                proof {
                    assert(fr_read(bits0, p1, (width - 1) as nat) is None);
                }
                return None;
            },
        };
        proof {
            lemma_fr_read_bound(bits0, p1, (width - 1) as nat);
            vstd::arithmetic::power2::lemma2_to64();
            vstd::arithmetic::power2::lemma2_to64_rest();
            if width < 64 {
                vstd::arithmetic::power2::lemma_pow2_strictly_increases(
                    (width - 1) as nat,
                    63,
                );
            }
        }
        if s {
            if width == 64 {
                Some((m as i64) + i64::MIN)
            } else {
                let off: u64 = 1u64 << ((width - 1) as u64);
                proof {
                    vstd::bits::lemma_u64_shl_is_mul(1u64, (width - 1) as u64);
                }
                Some((m as i64) - (off as i64))
            }
        } else {
            Some(m as i64)
        }
    }

    /// Discards `n` raw bits without applying the continuation rule; drains
    /// a shorter stream to its end and reports whether all `n` bits were
    /// there.
    pub fn skip(&mut self, n: u32) -> (ok: bool)
        requires
            old(self).wf(),
        ensures
            final(self).wf(),
            final(self).full() == old(self).full(),
            final(self).pos() == fr_skip(old(self).full(), old(self).pos(), n as nat),
            ok == (old(self).pos() + n <= old(self).full().len()),
    {
        let ghost bits0 = self.full();
        let ghost pos0 = self.pos();
        let mut j: u32 = 0;
        while j < n
            invariant
                self.wf(),
                self.full() == bits0,
                bits0 == old(self).full(),
                pos0 == old(self).pos(),
                j <= n,
                self.pos() == pos0 + j,
            decreases n - j,
        {
            match self.read_raw_bit() {
                Some(_) => {
                    j = j + 1;
                },
                None => {
                    return false;
                },
            }
        }
        true
    }
}

/// Where the cursor lands after `k` consecutive framed bit reads that all
/// succeed: one raw bit per read, plus one discarded continuation bit at
/// every byte boundary crossed.
pub open spec fn fr_advance(pos: int, k: nat) -> int
    decreases k,
{
    if k == 0 {
        pos
    } else {
        fr_advance(
            if pos % 8 == 0 {
                pos + 2
            } else {
                pos + 1
            },
            (k - 1) as nat,
        )
    }
}

/// Framed advances compose.
pub proof fn lemma_fr_advance_adds(pos: int, a: nat, b: nat)
    ensures
        fr_advance(pos, a + b) == fr_advance(fr_advance(pos, a), b),
    decreases a,
{
    if a > 0 {
        let next = if pos % 8 == 0 {
            pos + 2
        } else {
            pos + 1
        };
        lemma_fr_advance_adds(next, (a - 1) as nat, b);
    }
}

/// A successful framed bit read advances the cursor by exactly one framed
/// step.
pub proof fn lemma_fr_bit_advance(bits: Seq<bool>, pos: int)
    ensures
        (match fr_bit(bits, pos) {
            Some((b, p)) => p == fr_advance(pos, 1),
            None => true,
        }),
{
    let next = if pos % 8 == 0 {
        pos + 2
    } else {
        pos + 1
    };
    assert(fr_advance(next, 0) == next);
}

/// A well-formed source's cursor lies within its stream.
pub proof fn lemma_wf_bounds(r: BitReaderWrapper)
    requires
        r.wf(),
    ensures
        0 <= r.pos() <= r.full().len(),
{
}

/// A `w`-bit unsigned field is below `2^w`, and reading it moves the cursor
/// forward, never past the end of the stream.
pub proof fn lemma_fr_read_bound(bits: Seq<bool>, pos: int, w: nat)
    ensures
        (match fr_read(bits, pos, w) {
            Some((v, p)) => v < pow2(w) && pos <= p && (w > 0 ==> pos < p && p <= bits.len()),
            None => true,
        }),
    decreases w,
{
    vstd::arithmetic::power2::lemma_pow2_pos(w);
    if w > 0 {
        match fr_bit(bits, pos) {
            None => {},
            Some((b, p1)) => {
                lemma_fr_read_bound(bits, p1, (w - 1) as nat);
                vstd::arithmetic::power2::lemma_pow2_unfold(w);
            },
        }
    }
}

/// A signed field lies in `[-2^(w-1), 2^(w-1))`, and reading it moves the
/// cursor forward, never past the end of the stream.
pub proof fn lemma_fr_signed_bound(bits: Seq<bool>, pos: int, w: nat)
    requires
        1 <= w,
    ensures
        (match fr_signed(bits, pos, w) {
            Some((v, p)) => -(pow2((w - 1) as nat) as int) <= v < pow2((w - 1) as nat) && pos < p
                && p <= bits.len(),
            None => true,
        }),
{
    match fr_bit(bits, pos) {
        None => {},
        Some((s, p1)) => {
            lemma_fr_read_bound(bits, p1, (w - 1) as nat);
            if w == 1 {
                vstd::arithmetic::power2::lemma2_to64();
            }
        },
    }
}

} // verus!
