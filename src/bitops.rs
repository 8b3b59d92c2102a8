use vstd::prelude::*;
use vstd::arithmetic::div_mod::lemma_fundamental_div_mod_converse;

verus! {

/// Number of bits in a payload word.
pub const ARCHITECTURE_SIZE: usize = 64;

/// Bit `j` (counted from the least significant end) of the word `w`.
pub open spec fn word_bit(w: u64, j: int) -> bool {
    (w >> (j as u64)) & 1u64 == 1u64
}

/// Bit `k` of a word buffer, bit 0 being the lowest bit of the first word.
pub open spec fn seq_bit(s: Seq<u64>, k: int) -> bool {
    word_bit(s[k / 64], k % 64)
}

/// The `len` bits of `s` that start at bit `off`.
pub open spec fn bits_of(s: Seq<u64>, off: int, len: int) -> Seq<bool> {
    Seq::new(len as nat, |j: int| seq_bit(s, off + j))
}

/// The bits a cursor step yields: the low `n` bits (at most a word) read from `pos`,
/// every higher bit zero.
pub open spec fn is_read_word(w: u64, s: Seq<u64>, pos: int, n: int) -> bool {
    forall|j: int| 0 <= j < 64 ==> #[trigger] word_bit(w, j) == (j < n && seq_bit(s, pos + j))
}

/// `t` is `s` with the bits `[pos, pos + n)` (`n` at most a word) taken from the low bits of `w`.
pub open spec fn is_word_written(t: Seq<u64>, s: Seq<u64>, pos: int, n: int, w: u64) -> bool {
    &&& t.len() == s.len()
    &&& forall|k: int|
        0 <= k < s.len() * 64 ==> #[trigger] seq_bit(t, k) == if pos <= k < pos + n {
            word_bit(w, k - pos)
        } else {
            seq_bit(s, k)
        }
}

/// `t` is `s` with the bits `[dst_off, dst_off + len)` replaced by the bits of `src`
/// that start at `src_off`.
pub open spec fn is_bits_copied(
    t: Seq<u64>,
    s: Seq<u64>,
    src: Seq<u64>,
    dst_off: int,
    src_off: int,
    len: int,
) -> bool {
    &&& t.len() == s.len()
    &&& forall|k: int|
        0 <= k < s.len() * 64 ==> #[trigger] seq_bit(t, k) == if dst_off <= k < dst_off + len {
            seq_bit(src, src_off + (k - dst_off))
        } else {
            seq_bit(s, k)
        }
}

/// The word whose low `bit_count` bits are set.
pub open spec fn lsb_mask_spec(bit_count: nat) -> u64 {
    if bit_count >= 64 {
        u64::MAX
    } else {
        ((1u64 << bit_count as u64) - 1) as u64
    }
}

proof fn lemma_mask_nonzero(n: u64)
    by (bit_vector)
    requires
        n < 64,
    ensures
        1u64 << n >= 1,
{
}

/// Bits of the mask word, as `lsb_mask_spec` states them.
pub proof fn lemma_lsb_mask_bit(n: nat, j: int)
    requires
        0 <= j < 64,
    ensures
        word_bit(lsb_mask_spec(n), j) == (j < n),
{
    let ju = j as u64;
    if n >= 64 {
        assert((u64::MAX >> ju) & 1u64 == 1u64) by (bit_vector)
            requires
                ju < 64,
        ;
    } else {
        let nu = n as u64;
        lemma_mask_nonzero(nu);
        assert(((((1u64 << nu) - 1) as u64 >> ju) & 1u64 == 1u64) == (ju < nu)) by (bit_vector)
            requires
                nu < 64,
                ju < 64,
        ;
    }
}

proof fn lemma_bit_and(x: u64, y: u64, j: u64)
    by (bit_vector)
    requires
        j < 64,
    ensures
        (((x & y) >> j) & 1u64 == 1u64) == (((x >> j) & 1u64 == 1u64) && ((y >> j) & 1u64
            == 1u64)),
{
}

proof fn lemma_bit_or(x: u64, y: u64, j: u64)
    by (bit_vector)
    requires
        j < 64,
    ensures
        (((x | y) >> j) & 1u64 == 1u64) == (((x >> j) & 1u64 == 1u64) || ((y >> j) & 1u64
            == 1u64)),
{
}

proof fn lemma_bit_not(x: u64, j: u64)
    by (bit_vector)
    requires
        j < 64,
    ensures
        (((!x) >> j) & 1u64 == 1u64) == !((x >> j) & 1u64 == 1u64),
{
}

proof fn lemma_bit_shr(a: u64, s: u64, j: u64)
    by (bit_vector)
    requires
        s < 64,
        j < 64,
    ensures
        (((a >> s) >> j) & 1u64 == 1u64) == (s + j < 64 && ((a >> ((s + j) as u64)) & 1u64 == 1u64)),
{
}

proof fn lemma_bit_shl(b: u64, t: u64, j: u64)
    by (bit_vector)
    requires
        t < 64,
        j < 64,
    ensures
        (((b << t) >> j) & 1u64 == 1u64) == (j >= t && ((b >> ((j - t) as u64)) & 1u64 == 1u64)),
{
}

/// Where bit `i * 64 + r` of a buffer lives.
pub proof fn lemma_bit_position(i: int, r: int)
    requires
        0 <= i,
        0 <= r < 64,
    ensures
        (i * 64 + r) / 64 == i,
        (i * 64 + r) % 64 == r,
{
    lemma_fundamental_div_mod_converse(i * 64 + r, 64, i, r);
}

/// Any buffer bit in terms of its word index and its bit within that word.
pub proof fn lemma_bit_split(k: int)
    requires
        0 <= k,
    ensures
        k == (k / 64) * 64 + k % 64,
        0 <= k % 64 < 64,
        0 <= k / 64,
{
}

pub fn lsb_bitmask(bit_count: usize) -> (r: u64)
    ensures
        r == lsb_mask_spec(bit_count as nat),
{
    if bit_count >= 64 {
        u64::MAX
    } else {
        proof {
            lemma_mask_nonzero(bit_count as u64);
        }
        ((1u64 << bit_count as u64) - 1) as u64
    }
}

/// A cursor that reads a run of bits out of a word buffer, one word at a time.
pub struct BitwiseRead<'a> {
    pub src: &'a [u64],
    pub length: usize,
    pub shift: usize,
    pub index: usize,
}

impl<'a> BitwiseRead<'a> {
    /// The bit position the next word is read from.
    pub open spec fn position(&self) -> int {
        self.index * 64 + self.shift
    }

    pub open spec fn wf(&self) -> bool {
        &&& self.shift < 64
        &&& self.length > 0 ==> self.position() + self.length <= self.src@.len() * 64
    }

    pub fn new(src: &'a [u64], length: usize, offset: usize) -> (r: BitwiseRead<'a>)
        requires
            offset + length <= src@.len() * 64,
        ensures
            r.wf(),
            r.src@ == src@,
            r.length == length,
            r.position() == offset,
    {
        proof {
            lemma_bit_split(offset as int);
        }
        BitwiseRead { src, length, shift: offset % ARCHITECTURE_SIZE, index: offset / ARCHITECTURE_SIZE }
    }

    /// Yields the next word of the run, `None` once it is exhausted.
    pub fn next(&mut self) -> (r: Option<u64>)
        requires
            old(self).wf(),
        ensures
            final(self).wf(),
            final(self).src@ == old(self).src@,
            old(self).length == 0 ==> r is None && *final(self) == *old(self),
            old(self).length > 0 ==> {
                &&& r is Some
                &&& is_read_word(r->0, old(self).src@, old(self).position(), old(self).length as int)
                &&& final(self).position() == old(self).position() + 64
                &&& final(self).length == if old(self).length > 64 {
                    old(self).length - 64
                } else {
                    0
                }
            },
    {
        if self.length == 0 {
            return None;
        }
        let ghost s = self.src@;
        let ghost i = self.index as int;
        let ghost sh = self.shift as int;
        let ghost n = self.length as int;
        proof {
            assert(i * 64 < s.len() * 64) by (nonlinear_arith)
                requires
                    i * 64 + sh + n <= s.len() * 64,
                    0 <= sh,
                    n > 0,
            ;
        }
        let a = self.src[self.index];
        let mut dst: u64 = a >> (self.shift as u64);
        let ghost mut b: u64 = 0;
        let two = self.length > ARCHITECTURE_SIZE - self.shift && self.shift > 0;
        if two {
            proof {
                assert((i + 1) * 64 < s.len() * 64) by (nonlinear_arith)
                    requires
                        i * 64 + sh + n <= s.len() * 64,
                        sh + n > 64,
                ;
            }
            let bx = self.src[self.index + 1];
            proof { b = bx; }
            dst = dst | (bx << ((ARCHITECTURE_SIZE - self.shift) as u64));
        }
        let unmasked = dst;
        if self.length < ARCHITECTURE_SIZE {
            dst = dst & lsb_bitmask(self.length);
        }
        proof {
            assert forall|j: int| 0 <= j < 64 implies #[trigger] word_bit(dst, j) == (j < n
                && seq_bit(s, i * 64 + sh + j)) by {
                let ju = j as u64;
                let shu = sh as u64;
                lemma_bit_shr(a, shu, ju);
                if two {
                    lemma_bit_or(a >> shu, b << (64 - shu) as u64, ju);
                    lemma_bit_shl(b, (64 - shu) as u64, ju);
                }
                if n < 64 {
                    lemma_bit_and(unmasked, lsb_mask_spec(n as nat), ju);
                    lemma_lsb_mask_bit(n as nat, j);
                }
                if sh + j < 64 {
                    lemma_bit_position(i, sh + j);
                } else {
                    lemma_bit_position(i + 1, sh + j - 64);
                }
            }
        }
        self.length = if self.length > ARCHITECTURE_SIZE {
            self.length - ARCHITECTURE_SIZE
        } else {
            0
        };
        self.index = self.index + 1;
        Some(dst)
    }
}

/// A cursor that writes a run of bits into a word buffer, one word at a time.
/// The buffer is handed to each step.
pub struct BitwiseWrite {
    pub length: usize,
    pub shift: usize,
    pub index: usize,
}

impl BitwiseWrite {
    /// The bit position the next word is written to.
    pub open spec fn position(&self) -> int {
        self.index * 64 + self.shift
    }

    pub open spec fn wf(&self, dst_len: int) -> bool {
        &&& self.shift < 64
        &&& self.length > 0 ==> self.position() + self.length <= dst_len * 64
    }

    pub fn new(length: usize, offset: usize) -> (r: BitwiseWrite)
        ensures
            r.shift < 64,
            r.length == length,
            r.position() == offset,
    {
        proof {
            lemma_bit_split(offset as int);
        }
        BitwiseWrite { length, shift: offset % ARCHITECTURE_SIZE, index: offset / ARCHITECTURE_SIZE }
    }

    /// Whether bits remain to be written.
    pub fn more(&self) -> (r: bool)
        ensures
            r == (self.length > 0),
    {
        self.length > 0
    }

    /// Writes the low bits of `src` (a word's worth, or what remains of the run).
    pub fn next(&mut self, dst: &mut [u64], src: u64)
        requires
            old(self).wf(old(dst)@.len() as int),
            old(self).length > 0,
        ensures
            final(self).wf(final(dst)@.len() as int),
            is_word_written(
                final(dst)@,
                old(dst)@,
                old(self).position(),
                if old(self).length < 64 {
                    old(self).length as int
                } else {
                    64
                },
                src,
            ),
            final(self).position() == old(self).position() + 64,
            final(self).length == if old(self).length > 64 {
                old(self).length - 64
            } else {
                0
            },
    {
        let ghost s = dst@;
        let ghost i = self.index as int;
        let ghost sh = self.shift as int;
        let ghost n = self.length as int;
        let ghost m: int = if n < 64 { n } else { 64 };
        proof {
            assert(i * 64 < s.len() * 64) by (nonlinear_arith)
                requires
                    i * 64 + sh + n <= s.len() * 64,
                    0 <= sh,
                    n > 0,
            ;
        }
        let mask = lsb_bitmask(self.length);
        let v = src & mask;
        let shu = self.shift as u64;
        let a = dst[self.index];
        let na = (a & !(mask << shu)) | (v << shu);
        dst[self.index] = na;
        let two = self.length > ARCHITECTURE_SIZE - self.shift && self.shift > 0;
        let ghost mut b: u64 = 0;
        let ghost mut nb: u64 = 0;
        if two {
            proof {
                assert((i + 1) * 64 < s.len() * 64) by (nonlinear_arith)
                    requires
                        i * 64 + sh + n <= s.len() * 64,
                        sh + n > 64,
                ;
            }
            let t = (ARCHITECTURE_SIZE - self.shift) as u64;
            let bb = dst[self.index + 1];
            let nbb = (bb & !(mask >> t)) | (v >> t);
            proof {
                b = bb;
                nb = nbb;
            }
            dst[self.index + 1] = nbb;
        }
        proof {
            let t = dst@;
            assert forall|k: int| 0 <= k < s.len() * 64 implies #[trigger] seq_bit(t, k) == if i
                * 64 + sh <= k < i * 64 + sh + m {
                word_bit(src, k - (i * 64 + sh))
            } else {
                seq_bit(s, k)
            } by {
                lemma_bit_split(k);
                let w = k / 64;
                let r = k % 64;
                let ru = r as u64;
                if w == i {
                    lemma_bit_or(a & !(mask << shu), v << shu, ru);
                    lemma_bit_and(a, !(mask << shu), ru);
                    lemma_bit_not(mask << shu, ru);
                    lemma_bit_shl(mask, shu, ru);
                    lemma_bit_shl(v, shu, ru);
                    if r >= sh {
                        lemma_bit_and(src, mask, (r - sh) as u64);
                        lemma_lsb_mask_bit(n as nat, r - sh);
                    }
                    assert(k == i * 64 + r);
                } else if w == i + 1 && two {
                    let tt = (64 - sh) as u64;
                    lemma_bit_or(b & !(mask >> tt), v >> tt, ru);
                    lemma_bit_and(b, !(mask >> tt), ru);
                    lemma_bit_not(mask >> tt, ru);
                    lemma_bit_shr(mask, tt, ru);
                    lemma_bit_shr(v, tt, ru);
                    if r + 64 - sh < 64 {
                        lemma_bit_and(src, mask, (r + 64 - sh) as u64);
                        lemma_lsb_mask_bit(n as nat, r + 64 - sh);
                    }
                    assert(k == (i + 1) * 64 + r);
                } else {
                    assert(t[w] == s[w]);
                    if w < i {
                        assert(k < i * 64) by (nonlinear_arith)
                            requires
                                k == w * 64 + r,
                                w < i,
                                r < 64,
                        ;
                    } else {
                        assert(k >= (i + 1) * 64) by (nonlinear_arith)
                            requires
                                k == w * 64 + r,
                                w > i,
                                r >= 0,
                        ;
                        if !two {
                            assert(sh + m <= 64);
                        } else {
                            assert(k >= (i + 2) * 64) by (nonlinear_arith)
                                requires
                                    k == w * 64 + r,
                                    w > i + 1,
                                    r >= 0,
                            ;
                        }
                    }
                }
            }
        }
        self.length = if self.length > ARCHITECTURE_SIZE {
            self.length - ARCHITECTURE_SIZE
        } else {
            0
        };
        self.index = self.index + 1;
    }
}

/// Bit `j` of a run that starts at the word boundary `a * 64`.
proof fn lemma_aligned_bit(a: int, j: int)
    requires
        0 <= a,
        0 <= j,
    ensures
        (a * 64 + j) / 64 == a + j / 64,
        (a * 64 + j) % 64 == j % 64,
{
    lemma_bit_split(j);
    lemma_bit_position(a + j / 64, j % 64);
    assert(a * 64 + j == (a + j / 64) * 64 + j % 64) by (nonlinear_arith)
        requires
            j == (j / 64) * 64 + j % 64,
    ;
}

/// Bit `k` lies in word `w` exactly when `w * 64 <= k < w * 64 + 64`.
proof fn lemma_word_of_bit(k: int, w: int)
    requires
        0 <= k,
        0 <= w,
    ensures
        (k / 64 == w) == (w * 64 <= k < w * 64 + 64),
{
    lemma_bit_split(k);
    if w * 64 <= k < w * 64 + 64 {
        lemma_bit_position(w, k - w * 64);
    }
    if k / 64 == w {
        assert(w * 64 <= k < w * 64 + 64);
    }
}

/// The word-aligned path: whole words, then the masked tail word.
fn copy_aligned_words(dst: &mut [u64], src: &[u64], dst_offset: usize, src_offset: usize, length: usize)
    requires
        dst_offset % 64 == 0,
        src_offset % 64 == 0,
        dst_offset + length <= old(dst)@.len() * 64,
        src_offset + length <= src@.len() * 64,
    ensures
        is_bits_copied(final(dst)@, old(dst)@, src@, dst_offset as int, src_offset as int, length as int),
{
    let ghost d0 = dst@;
    let ghost doff = dst_offset as int;
    let ghost soff = src_offset as int;
    let dw = dst_offset / ARCHITECTURE_SIZE;
    let sw = src_offset / ARCHITECTURE_SIZE;
    let full = length / ARCHITECTURE_SIZE;
    let rem = length % ARCHITECTURE_SIZE;
    proof {
        lemma_bit_split(length as int);
        lemma_bit_split(doff);
        lemma_bit_split(soff);
        assert(dw * 64 + full * 64 + rem <= d0.len() * 64);
        assert(sw * 64 + full * 64 + rem <= src@.len() * 64);
        assert(dw + full <= d0.len()) by (nonlinear_arith)
            requires
                dw * 64 + full * 64 <= d0.len() * 64,
        ;
        assert(sw + full <= src@.len()) by (nonlinear_arith)
            requires
                sw * 64 + full * 64 <= src@.len() * 64,
        ;
        if rem > 0 {
            assert(dw + full < d0.len()) by (nonlinear_arith)
                requires
                    dw * 64 + full * 64 + rem <= d0.len() * 64,
                    rem > 0,
            ;
            assert(sw + full < src@.len()) by (nonlinear_arith)
                requires
                    sw * 64 + full * 64 + rem <= src@.len() * 64,
                    rem > 0,
            ;
        }
    }
    let dlen = dst.len();
    let slen = src.len();
    let mut i: usize = 0;
    while i < full
        invariant
            i <= full,
            dlen == d0.len(),
            slen == src@.len(),
            dw + full <= dlen,
            sw + full <= slen,
            doff == dw * 64,
            soff == sw * 64,
            is_bits_copied(dst@, d0, src@, doff, soff, i * 64),
        decreases full - i,
    {
        let ghost before = dst@;
        dst[dw + i] = src[sw + i];
        proof {
            let t = dst@;
            assert forall|k: int| 0 <= k < d0.len() * 64 implies #[trigger] seq_bit(t, k) == if doff
                <= k < doff + (i + 1) * 64 {
                seq_bit(src@, soff + (k - doff))
            } else {
                seq_bit(d0, k)
            } by {
                lemma_word_of_bit(k, dw + i);
                assert(seq_bit(before, k) == if doff <= k < doff + i * 64 {
                    seq_bit(src@, soff + (k - doff))
                } else {
                    seq_bit(d0, k)
                });
                if k / 64 == dw + i {
                    lemma_aligned_bit(sw as int, k - doff);
                    lemma_aligned_bit(dw as int, k - doff);
                    lemma_aligned_bit(i as int, k - doff - i * 64);
                    assert((k - doff) / 64 == i);
                }
            }
        }
        i = i + 1;
    }
    if rem > 0 {
        let ghost before = dst@;
        let mask = lsb_bitmask(rem);
        let a = dst[dw + full];
        let b = src[sw + full];
        dst[dw + full] = (a & !mask) | (b & mask);
        proof {
            let t = dst@;
            assert forall|k: int| 0 <= k < d0.len() * 64 implies #[trigger] seq_bit(t, k) == if doff
                <= k < doff + length {
                seq_bit(src@, soff + (k - doff))
            } else {
                seq_bit(d0, k)
            } by {
                lemma_word_of_bit(k, dw + full);
                assert(seq_bit(before, k) == if doff <= k < doff + full * 64 {
                    seq_bit(src@, soff + (k - doff))
                } else {
                    seq_bit(d0, k)
                });
                if k / 64 == dw + full {
                    let r = k % 64;
                    let ru = r as u64;
                    lemma_bit_split(k);
                    lemma_bit_or(a & !mask, b & mask, ru);
                    lemma_bit_and(a, !mask, ru);
                    lemma_bit_not(mask, ru);
                    lemma_bit_and(b, mask, ru);
                    lemma_lsb_mask_bit(rem as nat, r);
                    lemma_aligned_bit(sw + full, r);
                    lemma_bit_split(r);
                    assert(soff + (k - doff) == (sw + full) * 64 + r);
                }
            }
        }
    }
}

/// Copies `n` bits that lie within one word on both sides: from bit `s_bit` of `src` to
/// bit `d_bit` of `dst`.
fn copy_within_word(dst: &mut [u64], src: &[u64], d_bit: usize, s_bit: usize, n: usize)
    requires
        d_bit + n <= old(dst)@.len() * 64,
        s_bit + n <= src@.len() * 64,
        d_bit % 64 + n <= 64,
        s_bit % 64 + n <= 64,
        0 < n,
    ensures
        is_bits_copied(final(dst)@, old(dst)@, src@, d_bit as int, s_bit as int, n as int),
{
    let ghost d0 = dst@;
    let dw = d_bit / ARCHITECTURE_SIZE;
    let sw = s_bit / ARCHITECTURE_SIZE;
    let ds = (d_bit % ARCHITECTURE_SIZE) as u64;
    let ss = (s_bit % ARCHITECTURE_SIZE) as u64;
    proof {
        lemma_bit_split(d_bit as int);
        lemma_bit_split(s_bit as int);
        assert(dw < d0.len()) by (nonlinear_arith)
            requires
                d_bit == dw * 64 + ds,
                d_bit + n <= d0.len() * 64,
                ds + n <= 64,
                n > 0,
        ;
        assert(sw < src@.len()) by (nonlinear_arith)
            requires
                s_bit == sw * 64 + ss,
                s_bit + n <= src@.len() * 64,
                ss + n <= 64,
                n > 0,
        ;
    }
    let mask = lsb_bitmask(n);
    let a = dst[dw];
    let b = src[sw];
    let v = (b >> ss) & mask;
    dst[dw] = (a & !(mask << ds)) | (v << ds);
    proof {
        let t = dst@;
        assert forall|k: int| 0 <= k < d0.len() * 64 implies #[trigger] seq_bit(t, k) == if d_bit <= k < d_bit + n {
            seq_bit(src@, s_bit + (k - d_bit))
        } else {
            seq_bit(d0, k)
        } by {
            lemma_bit_split(k);
            let w = k / 64;
            let r = k % 64;
            if w == dw {
                let ru = r as u64;
                lemma_bit_or(a & !(mask << ds), v << ds, ru);
                lemma_bit_and(a, !(mask << ds), ru);
                lemma_bit_not(mask << ds, ru);
                lemma_bit_shl(mask, ds, ru);
                lemma_bit_shl(v, ds, ru);
                if r >= ds {
                    let j = (r - ds) as u64;
                    lemma_bit_and(b >> ss, mask, j);
                    lemma_lsb_mask_bit(n as nat, j as int);
                    lemma_bit_shr(b, ss, j);
                    if r - ds < n {
                        lemma_bit_position(sw as int, ss + (r - ds));
                        assert(s_bit + (k - d_bit) == sw * 64 + ss + (r - ds));
                    }
                }
                assert(k == dw * 64 + r);
            } else {
                assert(t[w] == d0[w]);
                if w < dw {
                    assert(k < dw * 64) by (nonlinear_arith)
                        requires
                            k == w * 64 + r,
                            w < dw,
                            r < 64,
                    ;
                } else {
                    assert(k >= (dw + 1) * 64) by (nonlinear_arith)
                        requires
                            k == w * 64 + r,
                            w > dw,
                            r >= 0,
                    ;
                }
            }
        }
    }
}

/// The byte-aligned path: whole bytes, then the masked tail byte.
fn copy_aligned_bytes(dst: &mut [u64], src: &[u64], dst_offset: usize, src_offset: usize, length: usize)
    requires
        dst_offset % 8 == 0,
        src_offset % 8 == 0,
        dst_offset + length <= old(dst)@.len() * 64,
        src_offset + length <= src@.len() * 64,
        dst_offset + length <= usize::MAX,
        src_offset + length <= usize::MAX,
    ensures
        is_bits_copied(final(dst)@, old(dst)@, src@, dst_offset as int, src_offset as int, length as int),
{
    let ghost d0 = dst@;
    let ghost doff = dst_offset as int;
    let ghost soff = src_offset as int;
    let mut done: usize = 0;
    while done < length
        invariant
            dst_offset % 8 == 0,
            src_offset % 8 == 0,
            dst_offset + length <= d0.len() * 64,
            src_offset + length <= src@.len() * 64,
            dst_offset + length <= usize::MAX,
            src_offset + length <= usize::MAX,
            done % 8 == 0 || done == length,
            done <= length,
            doff == dst_offset,
            soff == src_offset,
            is_bits_copied(dst@, d0, src@, doff, soff, done as int),
        decreases length - done,
    {
        let n = if length - done < 8 { length - done } else { 8 };
        let ghost before = dst@;
        proof {
            assert((dst_offset + done) % 64 + n <= 64 && (src_offset + done) % 64 + n <= 64) by (nonlinear_arith)
                requires
                    dst_offset % 8 == 0,
                    src_offset % 8 == 0,
                    done % 8 == 0,
                    n <= 8,
            ;
        }
        copy_within_word(dst, src, dst_offset + done, src_offset + done, n);
        proof {
            let t = dst@;
            assert forall|k: int| 0 <= k < d0.len() * 64 implies #[trigger] seq_bit(t, k) == if doff <= k < doff + (done + n) {
                seq_bit(src@, soff + (k - doff))
            } else {
                seq_bit(d0, k)
            } by {
                assert(seq_bit(before, k) == if doff <= k < doff + done {
                    seq_bit(src@, soff + (k - doff))
                } else {
                    seq_bit(d0, k)
                });
                assert(seq_bit(t, k) == if (dst_offset + done) as int <= k < (dst_offset + done) as int + n {
                    seq_bit(src@, (src_offset + done) as int + (k - (dst_offset + done) as int))
                } else {
                    seq_bit(before, k)
                });
            }
        }
        if n < 8 {
            done = length;
        } else {
            done = done + 8;
        }
    }
}

/// The general path: a read cursor piped into a write cursor.
fn copy_through_cursors(dst: &mut [u64], src: &[u64], dst_offset: usize, src_offset: usize, length: usize)
    requires
        dst_offset + length <= old(dst)@.len() * 64,
        src_offset + length <= src@.len() * 64,
    ensures
        is_bits_copied(final(dst)@, old(dst)@, src@, dst_offset as int, src_offset as int, length as int),
{
    let ghost d0 = dst@;
    let ghost doff = dst_offset as int;
    let ghost soff = src_offset as int;
    let mut reader = BitwiseRead::new(src, length, src_offset);
    let mut writer = BitwiseWrite::new(length, dst_offset);
    let ghost mut done: int = 0;
    while writer.more()
        invariant
            reader.wf(),
            reader.src@ == src@,
            writer.wf(dst@.len() as int),
            dst@.len() == d0.len(),
            reader.length == writer.length,
            0 <= done <= length,
            done + writer.length == length,
            writer.length > 0 ==> reader.position() == soff + done && writer.position() == doff + done,
            is_bits_copied(dst@, d0, src@, doff, soff, done),
        decreases writer.length,
    {
        let ghost before = dst@;
        let ghost n = writer.length as int;
        let ghost m: int = if n < 64 { n } else { 64 };
        match reader.next() {
            Some(w) => {
                writer.next(dst, w);
                proof {
                    let t = dst@;
                    assert forall|k: int| 0 <= k < d0.len() * 64 implies #[trigger] seq_bit(t, k)
                        == if doff <= k < doff + done + m {
                        seq_bit(src@, soff + (k - doff))
                    } else {
                        seq_bit(d0, k)
                    } by {
                        assert(seq_bit(before, k) == if doff <= k < doff + done {
                            seq_bit(src@, soff + (k - doff))
                        } else {
                            seq_bit(d0, k)
                        });
                        if doff + done <= k < doff + done + m {
                            let j = k - (doff + done);
                            assert(word_bit(w, j) == (j < n && seq_bit(src@, soff + done + j)));
                        }
                    }
                    done = done + m;
                }
            },
            None => {},
        }
    }
}

/// Copies `length` bits of `src`, starting at bit `src_offset`, over the bits of `dst`
/// starting at bit `dst_offset`; every other bit of `dst` is kept.
pub fn bitwise_copy_nonoverlapping(
    dst: &mut [u64],
    src: &[u64],
    dst_offset: usize,
    src_offset: usize,
    length: usize,
)
    requires
        dst_offset + length <= old(dst)@.len() * 64,
        src_offset + length <= src@.len() * 64,
        dst_offset + length <= usize::MAX,
        src_offset + length <= usize::MAX,
    ensures
        is_bits_copied(final(dst)@, old(dst)@, src@, dst_offset as int, src_offset as int, length as int),
{
    if length == 0 {
        return;
    }
    if dst_offset % ARCHITECTURE_SIZE == 0 && src_offset % ARCHITECTURE_SIZE == 0 {
        copy_aligned_words(dst, src, dst_offset, src_offset, length);
    } else if dst_offset % 8 == 0 && src_offset % 8 == 0 {
        copy_aligned_bytes(dst, src, dst_offset, src_offset, length);
    } else {
        copy_through_cursors(dst, src, dst_offset, src_offset, length);
    }
}

/// Writing a word over a run of bits and reading the same run back yields the written bits.
pub proof fn lemma_write_then_read(t: Seq<u64>, s: Seq<u64>, pos: int, n: int, w: u64, r: u64)
    requires
        0 <= pos,
        0 <= n <= 64,
        pos + n <= s.len() * 64,
        is_word_written(t, s, pos, n, w),
        is_read_word(r, t, pos, n),
    ensures
        forall|j: int| 0 <= j < 64 ==> #[trigger] word_bit(r, j) == (j < n && word_bit(w, j)),
{
    assert forall|j: int| 0 <= j < 64 implies #[trigger] word_bit(r, j) == (j < n && word_bit(w, j)) by {
        if j < n {
            assert(seq_bit(t, pos + j) == word_bit(w, pos + j - pos));
        }
    }
}

} // verus!
