//! Adaptive arithmetic coding: a carry-less range decoder over adaptive
//! per-symbol frequency models.

use vstd::prelude::*;

use crate::error::DecodeError;
use crate::num::read_u8;
use vstd::arithmetic::div_mod::lemma_fundamental_div_mod;
use vstd::arithmetic::div_mod::lemma_mod_bound;
use vstd::arithmetic::mul::lemma_mul_inequality;

verus! {

broadcast use vstd::arithmetic::mul::lemma_mul_is_commutative;

/// Frequencies never grow past this total; beyond it the model is halved.
pub const MAX_TOTAL_FREQ: u32 = 65520;

/// How much a decoded symbol's frequency grows.
pub const FREQ_STEP: u32 = 16;

/// The sum of a frequency table.
pub open spec fn sum_freqs(s: Seq<u32>) -> int
    decreases s.len(),
{
    if s.len() == 0 {
        0
    } else {
        sum_freqs(s.drop_last()) + s.last()
    }
}

pub(crate) proof fn lemma_sum_update(s: Seq<u32>, i: int, v: u32)
    requires
        0 <= i < s.len(),
    ensures
        sum_freqs(s.update(i, v)) == sum_freqs(s) - s[i] + v,
    decreases s.len(),
{
    if i == s.len() - 1 {
        assert(s.update(i, v).drop_last() =~= s.drop_last());
    } else {
        assert(s.update(i, v).drop_last() =~= s.drop_last().update(i, v));
        lemma_sum_update(s.drop_last(), i, v);
    }
}

pub(crate) proof fn lemma_sum_min(s: Seq<u32>)
    requires
        forall|i: int| 0 <= i < s.len() ==> #[trigger] s[i] >= 1,
    ensures
        sum_freqs(s) >= s.len(),
    decreases s.len(),
{
    if s.len() > 0 {
        lemma_sum_min(s.drop_last());
    }
}

pub(crate) proof fn lemma_sum_nonneg(s: Seq<u32>)
    ensures
        sum_freqs(s) >= 0,
    decreases s.len(),
{
    if s.len() > 0 {
        lemma_sum_nonneg(s.drop_last());
    }
}

pub(crate) proof fn lemma_sum_split(s: Seq<u32>, i: int)
    requires
        0 <= i < s.len(),
    ensures
        sum_freqs(s) == sum_freqs(s.subrange(0, i)) + s[i] + sum_freqs(
            s.subrange(i + 1, s.len() as int),
        ),
    decreases s.len(),
{
    if i == s.len() - 1 {
        assert(s.subrange(0, i) =~= s.drop_last());
        assert(s.subrange(i + 1, s.len() as int) =~= Seq::empty());
    } else {
        lemma_sum_split(s.drop_last(), i);
        assert(s.drop_last().subrange(0, i) =~= s.subrange(0, i));
        assert(s.drop_last().subrange(i + 1, s.len() - 1) =~= s.subrange(i + 1, s.len() - 1));
        assert(s.subrange(i + 1, s.len() as int).drop_last() =~= s.subrange(i + 1, s.len() - 1));
    }
}

pub(crate) proof fn lemma_freq_le_total(s: Seq<u32>, t: int)
    requires
        0 <= t < s.len(),
    ensures
        s[t] <= sum_freqs(s),
{
    lemma_sum_split(s, t);
    lemma_sum_nonneg(s.subrange(0, t));
    lemma_sum_nonneg(s.subrange(t + 1, s.len() as int));
}

/// The carry-less range decoder: a 32-bit window (`code`) over the byte
/// stream, narrowed by a 32-bit `range`.
pub struct RangeCoder {
    /// The width of the current coding interval.
    pub range: u32,
    /// The code window over the byte stream.
    pub code: u32,
}

impl RangeCoder {
    /// The decoder keeps its range renormalised to at least `2^24`.
    pub open spec fn wf(self) -> bool {
        self.range >= 0x100_0000
    }

    /// The current range, for specifications.
    pub open spec fn spec_range(self) -> u32 {
        self.range
    }

    /// The current code window, for specifications.
    pub open spec fn spec_code(self) -> u32 {
        self.code
    }

    /// A fresh decoder; `range_decode_create` must run before decoding.
    pub fn new() -> (r: RangeCoder)
        ensures
            r.wf(),
    {
        RangeCoder { range: u32::MAX, code: 0 }
    }

    /// Primes the code window with the first five stream bytes.
    pub fn range_decode_create(&mut self, src: &[u8], pos: &mut usize) -> (r: Result<
        (),
        DecodeError,
    >)
        ensures
            r is Ok <==> *old(pos) + 5 <= src@.len(),
            r is Ok ==> final(self).wf() && *final(pos) == *old(pos) + 5,
            r is Err ==> r->Err_0 == DecodeError::Truncated && *final(pos) >= src@.len(),
    {
        let mut code: u32 = 0;
        let mut k: usize = 0;
        while k < 5
            invariant
                k <= 5,
                *pos == *old(pos) + k,
                k > 0 ==> *pos <= src@.len(),
            decreases 5 - k,
        {
            let b = read_u8(src, pos)?;
            code = (code << 8) | (b as u32);
            k = k + 1;
        }
        self.code = code;
        self.range = u32::MAX;
        Ok(())
    }

    /// Narrows the range to one frequency unit and returns the slot of the
    /// code window within the total.
    pub fn range_get_freq(&mut self, tot: u32) -> (x: u32)
        requires
            old(self).wf(),
            1 <= tot <= 0x1_0000,
        ensures
            final(self).range == old(self).range / tot,
            final(self).code == old(self).code,
            final(self).range >= 0x100,
            x == old(self).code / final(self).range,
    {
        proof {
            let r = old(self).range;
            assert(r / tot >= 0x100u32) by (nonlinear_arith)
                requires
                    r >= 0x100_0000u32,
                    1 <= tot <= 0x1_0000,
            ;
        }
        self.range = self.range / tot;
        self.code / self.range
    }

    /// Consumes one symbol's subrange and renormalises, pulling in stream
    /// bytes while the range is narrow.
    pub fn range_decode(&mut self, src: &[u8], pos: &mut usize, cumfreq: u32, freq: u32) -> (r:
        Result<(), DecodeError>)
        requires
            freq >= 1,
            old(self).range >= 1,
            cumfreq * old(self).range <= old(self).code,
            freq * old(self).range <= u32::MAX,
        ensures
            r is Ok ==> final(self).wf(),
            r is Err ==> r->Err_0 == DecodeError::Truncated && *final(pos) >= src@.len(),
            *old(pos) + 3 <= src@.len() ==> r is Ok,
    {
        proof {
            let r = old(self).range;
            assert(freq * r >= 1 * r) by (nonlinear_arith)
                requires
                    freq >= 1,
                    r >= 0u32,
            ;
        }
        self.code = self.code - cumfreq * self.range;
        self.range = self.range * freq;
        while self.range < 0x100_0000
            invariant
                self.range >= 1,
                *old(pos) <= *pos <= *old(pos) + 3,
                *pos == *old(pos) + 1 ==> self.range >= 0x100,
                *pos == *old(pos) + 2 ==> self.range >= 0x1_0000,
                *pos == *old(pos) + 3 ==> self.range >= 0x100_0000,
            decreases
                    (if self.range < 0x100_0000 {
                        0x100_0000 - self.range as int
                    } else {
                        0int
                    }),
        {
            let b = read_u8(src, pos)?;
            let r_old = self.range;
            proof {
                assert(r_old < 0x100_0000 ==> (r_old << 8u32) == r_old * 256) by (bit_vector);
            }
            self.range = self.range << 8;
            self.code = (self.code << 8) | (b as u32);
        }
        Ok(())
    }
}

/// The carry-aware range encoder matching `RangeCoder`: a 33-bit low
/// accumulator whose settled bytes leave through a one-byte cache.
pub struct RangeEncoder {
    /// The low end of the coding interval, with a possible carry bit.
    pub low: u64,
    /// The width of the coding interval.
    pub range: u32,
    /// The last settled byte, held back for carry propagation.
    pub cache: u8,
    /// How many settled bytes are pending, the cache plus any `0xFF` run.
    pub cache_size: u64,
}

impl RangeEncoder {
    /// The interval stays renormalised and the low accumulator never
    /// outruns it.
    pub open spec fn wf(self) -> bool {
        &&& self.range >= 0x100_0000
        &&& self.cache_size >= 1
        &&& self.low as int + self.range as int <= 0x2_0000_0000
    }

    /// A fresh encoder.
    pub fn new() -> (r: RangeEncoder)
        ensures
            r.wf(),
    {
        RangeEncoder { low: 0, range: u32::MAX, cache: 0, cache_size: 1 }
    }

    /// Settles one byte of `low`: emits the cache (propagating a carry
    /// through any pending `0xFF` run) unless the byte could still change.
    fn shift_low(&mut self, out: &mut Vec<u8>)
        requires
            old(self).low < 0x2_0000_0000,
            old(self).cache_size >= 1,
        ensures
            final(self).low <= 0xFFFF_FF00u64,
            final(self).cache_size >= 1,
            final(self).range == old(self).range,
    {
        if (self.low % 0x1_0000_0000) < 0xFF00_0000 || (self.low / 0x1_0000_0000) != 0 {
            let carry = (self.low / 0x1_0000_0000) as u8;
            let mut temp = self.cache;
            loop
                invariant_except_break
                    self.cache_size >= 1,
                invariant
                    self.range == old(self).range,
                    self.low == old(self).low,
                decreases self.cache_size,
            {
                out.push(((temp as u16 + carry as u16) % 0x100) as u8);
                temp = 0xFF;
                self.cache_size = self.cache_size - 1;
                if self.cache_size == 0 {
                    break ;
                }
            }
            self.cache = ((self.low / 0x100_0000) % 0x100) as u8;
        }
        if self.cache_size < u64::MAX {
            self.cache_size = self.cache_size + 1;
        }
        self.low = (self.low % 0x100_0000) * 0x100;
    }

    /// Narrows the interval onto one symbol's subrange and renormalises,
    /// settling bytes while the interval is narrow.
    pub fn encode(&mut self, out: &mut Vec<u8>, cumfreq: u32, freq: u32, tot: u32)
        requires
            old(self).wf(),
            1 <= freq,
            cumfreq + freq <= tot,
            tot <= 0x1_0000,
        ensures
            final(self).wf(),
    {
        proof {
            let rng = old(self).range;
            assert(rng / tot >= 0x100u32) by (nonlinear_arith)
                requires
                    rng >= 0x100_0000u32,
                    1 <= tot <= 0x1_0000,
            ;
        }
        let r = self.range / tot;
        proof {
            lemma_fundamental_div_mod(self.range as int, tot as int);
            lemma_mod_bound(self.range as int, tot as int);
            lemma_mul_inequality((cumfreq + freq) as int, tot as int, r as int);
            vstd::arithmetic::mul::lemma_mul_is_distributive_add_other_way(
                r as int,
                cumfreq as int,
                freq as int,
            );
        }
        proof {
            lemma_mul_inequality(1, freq as int, r as int);
        }
        self.low = self.low + (cumfreq as u64) * (r as u64);
        self.range = r * freq;
        while self.range < 0x100_0000
            invariant
                self.range >= 1,
                self.cache_size >= 1,
                self.low as int + self.range as int <= 0x2_0000_0000,
            decreases
                    (if self.range < 0x100_0000 {
                        0x100_0000 - self.range as int
                    } else {
                        0int
                    }),
        {
            self.range = self.range * 0x100;
            self.shift_low(out);
        }
    }

    /// Flushes the remaining low bytes; the encoder is spent afterwards.
    pub fn finish(&mut self, out: &mut Vec<u8>)
        requires
            old(self).wf(),
    {
        let mut k: usize = 0;
        while k < 5
            invariant
                self.low < 0x2_0000_0000,
                self.cache_size >= 1,
            decreases 5 - k,
        {
            self.shift_low(out);
            k = k + 1;
        }
    }
}

/// Whether the symbol table holds the value `v` somewhere.
pub open spec fn syms_contains(syms: Seq<u8>, v: int) -> bool {
    exists|i: int| 0 <= i < syms.len() && (#[trigger] syms[i]) as int == v
}

/// Whether the symbol table holds every value below its length: the
/// alphabet `0..len` in some order.
pub open spec fn contains_all(syms: Seq<u8>) -> bool {
    forall|v: int| 0 <= v < syms.len() ==> #[trigger] syms_contains(syms, v)
}

/// An adaptive model over a small symbol alphabet: per-symbol frequencies,
/// kept roughly sorted by frequency, with their running total.
pub struct Model {
    /// The sum of all frequencies.
    pub total: u32,
    /// The symbols, most frequent roughly first.
    pub syms: Vec<u8>,
    /// Each symbol's frequency.
    pub freqs: Vec<u32>,
}

impl Model {
    /// Frequencies are positive and sum to `total`, which stays within the
    /// renormalisation bound; symbols index the alphabet.
    pub open spec fn wf(self) -> bool {
        &&& self.syms@.len() == self.freqs@.len()
        &&& 1 <= self.syms@.len() <= 256
        &&& self.total as int == sum_freqs(self.freqs@)
        &&& self.total <= 0x1_0000
        &&& forall|i: int| 0 <= i < self.freqs@.len() ==> #[trigger] self.freqs@[i] >= 1
        &&& forall|i: int|
            0 <= i < self.syms@.len() ==> (#[trigger] self.syms@[i] as int) < self.syms@.len()
        &&& contains_all(self.syms@)
    }

    /// A fresh model over symbols `0..=num_sym`, all equally likely.
    pub fn new(num_sym: u8) -> (r: Model)
        ensures
            r.wf(),
            r.syms@.len() == num_sym + 1,
    {
        let n = num_sym as usize + 1;
        let mut syms: Vec<u8> = Vec::new();
        let mut freqs: Vec<u32> = Vec::new();
        let mut i: usize = 0;
        while i < n
            invariant
                n <= 256,
                i <= n,
                syms@.len() == i,
                freqs@.len() == i,
                sum_freqs(freqs@) == i,
                forall|j: int| 0 <= j < i ==> #[trigger] freqs@[j] == 1,
                forall|j: int| 0 <= j < i ==> #[trigger] syms@[j] == j,
            decreases n - i,
        {
            let ghost prev = freqs@;
            syms.push(i as u8);
            freqs.push(1);
            i = i + 1;
            proof {
                assert(freqs@.drop_last() =~= prev);
            }
        }
        proof {
            assert forall|v: int| 0 <= v < syms@.len() implies #[trigger] syms_contains(
                syms@,
                v,
            ) by {
                assert((syms@[v]) as int == v);
            }
        }
        Model { total: n as u32, syms, freqs }
    }

    /// A field-for-field copy.
    pub fn duplicate(&self) -> (r: Model)
        ensures
            r.total == self.total,
            r.syms@ == self.syms@,
            r.freqs@ == self.freqs@,
    {
        let mut syms: Vec<u8> = Vec::new();
        let mut i: usize = 0;
        while i < self.syms.len()
            invariant
                i <= self.syms@.len(),
                syms@ == self.syms@.subrange(0, i as int),
            decreases self.syms@.len() - i,
        {
            syms.push(self.syms[i]);
            i = i + 1;
            proof {
                assert(syms@ =~= self.syms@.subrange(0, i as int));
            }
        }
        let mut freqs: Vec<u32> = Vec::new();
        let mut k: usize = 0;
        while k < self.freqs.len()
            invariant
                k <= self.freqs@.len(),
                freqs@ == self.freqs@.subrange(0, k as int),
            decreases self.freqs@.len() - k,
        {
            freqs.push(self.freqs[k]);
            k = k + 1;
            proof {
                assert(freqs@ =~= self.freqs@.subrange(0, k as int));
            }
        }
        proof {
            assert(syms@ =~= self.syms@);
            assert(freqs@ =~= self.freqs@);
        }
        Model { total: self.total, syms, freqs }
    }

    /// Halves every frequency, rounding up, and recomputes the total.
    fn renormalize(&mut self)
        requires
            old(self).syms@.len() == old(self).freqs@.len(),
            1 <= old(self).freqs@.len() <= 256,
            old(self).total as int == sum_freqs(old(self).freqs@),
            old(self).total <= 0x1_0010,
            forall|i: int| 0 <= i < old(self).freqs@.len() ==> #[trigger] old(self).freqs@[i] >= 1,
        ensures
            final(self).syms@ == old(self).syms@,
            final(self).freqs@.len() == old(self).freqs@.len(),
            final(self).total as int == sum_freqs(final(self).freqs@),
            final(self).total <= 0x1_0000,
            forall|i: int| 0 <= i < final(self).freqs@.len() ==> #[trigger] final(self).freqs@[i] >= 1,
    {
        let ghost orig = self.freqs@;
        proof {
            assert forall|t: int| 0 <= t < orig.len() implies #[trigger] orig[t]
                <= 0x1_0010 by {
                lemma_freq_le_total(orig, t);
            }
        }
        let n = self.freqs.len();
        let mut new_total: u32 = 0;
        let mut j: usize = 0;
        while j < n
            invariant
                self.freqs@.len() == n == orig.len(),
                self.syms@ == old(self).syms@,
                1 <= n <= 256,
                j <= n,
                forall|t: int| j <= t < n ==> #[trigger] self.freqs@[t] == orig[t],
                forall|t: int| 0 <= t < j ==> #[trigger] self.freqs@[t] >= 1,
                forall|t: int| 0 <= t < n ==> #[trigger] orig[t] >= 1,
                forall|t: int| 0 <= t < n ==> #[trigger] orig[t] <= 0x1_0010,
                new_total as int == sum_freqs(self.freqs@.subrange(0, j as int)),
                2 * new_total <= sum_freqs(orig.subrange(0, j as int)) + j,
                new_total <= 0x1_0010 * j,
            decreases n - j,
        {
            let f = self.freqs[j];
            proof {
                assert(f >> 1u32 == f / 2) by (bit_vector);
                lemma_fundamental_div_mod(f as int, 2);
                lemma_mod_bound(f as int, 2);
            }
            let nf = f - (f >> 1);
            let ghost pre = self.freqs@;
            self.freqs.set(j, nf);
            new_total = new_total + nf;
            j = j + 1;
            proof {
                assert(self.freqs@.subrange(0, j - 1) =~= pre.subrange(0, j - 1));
                assert(self.freqs@.subrange(0, j as int).drop_last() =~= self.freqs@.subrange(
                    0,
                    j - 1,
                ));
                assert(orig.subrange(0, j as int).drop_last() =~= orig.subrange(0, j - 1));
            }
        }
        proof {
            assert(self.freqs@.subrange(0, n as int) =~= self.freqs@);
            assert(orig.subrange(0, n as int) =~= orig);
        }
        self.total = new_total;
    }

    /// The cumulative-frequency slot that the code window selects under
    /// this model's total.
    pub open spec fn decode_slot(self, rc: RangeCoder) -> int {
        rc.spec_code() as int / (rc.spec_range() as int / self.total as int)
    }

    /// Decodes one symbol: the one whose cumulative-frequency range covers
    /// the slot the code window selects. Consumes its subrange, bumps its
    /// frequency, and keeps the table roughly sorted.
    pub fn decode(&mut self, src: &[u8], pos: &mut usize, rc: &mut RangeCoder) -> (r: Result<
        u8,
        DecodeError,
    >)
        requires
            old(self).wf(),
            old(rc).wf(),
        ensures
            final(self).wf(),
            final(self).syms@.len() == old(self).syms@.len(),
            r is Ok ==> final(rc).wf() && (r->Ok_0 as int) < old(self).syms@.len(),
            r is Ok ==> exists|i: int|
                {
                    &&& 0 <= i < old(self).syms@.len()
                    &&& old(self).syms@[i] == r->Ok_0
                    &&& #[trigger] sum_freqs(old(self).freqs@.subrange(0, i)) <= old(
                        self,
                    ).decode_slot(*old(rc))
                    &&& old(self).decode_slot(*old(rc)) < sum_freqs(
                        old(self).freqs@.subrange(0, i + 1),
                    )
                },
            r is Err ==> (r->Err_0 == DecodeError::Truncated || r->Err_0
                == DecodeError::CorruptStream),
            (r is Err && r->Err_0 == DecodeError::CorruptStream) <==> old(self).decode_slot(
                *old(rc),
            ) >= old(self).total,
            r is Err && r->Err_0 == DecodeError::Truncated ==> *final(pos) >= src@.len(),
            old(self).decode_slot(*old(rc)) < old(self).total && *old(pos) + 3 <= src@.len()
                ==> r is Ok,
    {
        let ghost r0 = rc.spec_range();
        let ghost c0 = rc.spec_code();
        let ghost tot = self.total;
        proof {
            lemma_sum_min(self.freqs@);
            assert forall|t: int| 0 <= t < self.freqs@.len() implies #[trigger] self.freqs@[t]
                <= 0x1_0000 by {
                lemma_freq_le_total(self.freqs@, t);
            }
        }
        let x = rc.range_get_freq(self.total);
        if x >= self.total {
            return Err(DecodeError::CorruptStream);
        }

        let n = self.freqs.len();
        let mut acc: u32 = 0;
        let mut i: usize = 0;
        while i < n && acc + self.freqs[i] <= x
            invariant
                self.wf(),
                n == self.freqs@.len(),
                i <= n,
                x < self.total,
                forall|t: int| 0 <= t < n ==> #[trigger] self.freqs@[t] <= 0x1_0000,
                acc as int == sum_freqs(self.freqs@.subrange(0, i as int)),
                acc <= x,
            decreases n - i,
        {
            proof {
                assert(self.freqs@.subrange(0, i + 1).drop_last() =~= self.freqs@.subrange(
                    0,
                    i as int,
                ));
            }
            acc = acc + self.freqs[i];
            i = i + 1;
        }
        proof {
            if i >= n {
                assert(self.freqs@.subrange(0, n as int) =~= self.freqs@);
                assert(false);
            }
        }
        let f = self.freqs[i];
        proof {
            lemma_sum_split(self.freqs@, i as int);
            lemma_sum_nonneg(self.freqs@.subrange(i + 1, n as int));
            assert(acc + f <= self.total);
            lemma_fundamental_div_mod(c0 as int, rc.spec_range() as int);
            lemma_mod_bound(c0 as int, rc.spec_range() as int);
            lemma_mul_inequality(acc as int, (c0 / rc.spec_range()) as int, rc.spec_range() as int);
            lemma_fundamental_div_mod(r0 as int, tot as int);
            lemma_mod_bound(r0 as int, tot as int);
            lemma_mul_inequality(f as int, tot as int, rc.spec_range() as int);
            assert(tot as int * rc.spec_range() as int == tot as int * (r0 as int / tot as int));
            assert(f * rc.spec_range() <= u32::MAX);
        }
        proof {
            assert(self.freqs@.subrange(0, i + 1).drop_last() =~= self.freqs@.subrange(
                0,
                i as int,
            ));
            assert(sum_freqs(old(self).freqs@.subrange(0, i as int)) <= old(self).decode_slot(
                *old(rc),
            ));
            assert(old(self).decode_slot(*old(rc)) < sum_freqs(
                old(self).freqs@.subrange(0, i + 1),
            ));
        }
        rc.range_decode(src, pos, acc, f)?;

        let sym = self.syms[i];
        proof {
            assert(old(self).syms@[i as int] == sym);
        }
        self.bump(i);
        Ok(sym)
    }

    /// Adapts the model after coding the symbol at slot `i`: its frequency
    /// grows by the step, the total is renormalised when it overflows, and
    /// the slot bubbles up past a lighter neighbour.
    fn bump(&mut self, i: usize)
        requires
            old(self).wf(),
            i < old(self).freqs@.len(),
        ensures
            final(self).wf(),
            final(self).syms@.len() == old(self).syms@.len(),
    {
        let f = self.freqs[i];
        proof {
            lemma_freq_le_total(self.freqs@, i as int);
            lemma_sum_update(self.freqs@, i as int, (f + FREQ_STEP) as u32);
        }
        self.freqs.set(i, f + FREQ_STEP);
        self.total = self.total + FREQ_STEP;
        if self.total > MAX_TOTAL_FREQ {
            self.renormalize();
        }

        if i > 0 {
            let fi = self.freqs[i];
            let fprev = self.freqs[i - 1];
            if fi > fprev {
                proof {
                    lemma_sum_update(self.freqs@, i as int, fprev);
                    lemma_sum_update(self.freqs@.update(i as int, fprev), i - 1, fi);
                }
                self.freqs.set(i, fprev);
                self.freqs.set(i - 1, fi);
                let si = self.syms[i];
                let sprev = self.syms[i - 1];
                let ghost pre_syms = self.syms@;
                self.syms.set(i, sprev);
                self.syms.set(i - 1, si);
                proof {
                    assert(pre_syms == old(self).syms@);
                    assert forall|v: int| 0 <= v < self.syms@.len() implies #[trigger] syms_contains(
                        self.syms@,
                        v,
                    ) by {
                        assert(syms_contains(pre_syms, v));
                        let w = choose|w: int|
                            0 <= w < pre_syms.len() && (#[trigger] pre_syms[w]) as int == v;
                        if w == i {
                            assert((self.syms@[i - 1]) as int == v);
                        } else if w == i - 1 {
                            assert((self.syms@[i as int]) as int == v);
                        } else {
                            assert((self.syms@[w]) as int == v);
                        }
                    }
                }
            }
        }
    }

    /// Encodes one symbol: finds its slot, emits its subrange, and adapts
    /// the model exactly as the decoder does. A symbol outside the model's
    /// alphabet is refused.
    pub fn encode(&mut self, out: &mut Vec<u8>, rc: &mut RangeEncoder, sym: u8) -> (r: Result<
        (),
        DecodeError,
    >)
        requires
            old(self).wf(),
            old(rc).wf(),
        ensures
            final(self).wf(),
            final(self).syms@.len() == old(self).syms@.len(),
            final(rc).wf(),
            r is Ok <==> exists|i: int|
                0 <= i < old(self).syms@.len() && #[trigger] old(self).syms@[i] == sym,
            (sym as int) < old(self).syms@.len() ==> r is Ok,
            r is Err ==> {
                &&& r->Err_0 == DecodeError::CorruptStream
                &&& *final(self) == *old(self)
                &&& *final(rc) == *old(rc)
                &&& final(out)@ == old(out)@
            },
    {
        let n = self.freqs.len();
        let mut acc: u32 = 0;
        let mut i: usize = 0;
        while i < n && self.syms[i] != sym
            invariant
                self.wf(),
                n == self.freqs@.len(),
                i <= n,
                acc as int == sum_freqs(self.freqs@.subrange(0, i as int)),
                acc <= self.total,
                forall|t: int| 0 <= t < i ==> #[trigger] self.syms@[t] != sym,
            decreases n - i,
        {
            proof {
                assert(self.freqs@.subrange(0, i + 1).drop_last() =~= self.freqs@.subrange(
                    0,
                    i as int,
                ));
                lemma_sum_split(self.freqs@, i as int);
                lemma_sum_nonneg(self.freqs@.subrange(i + 1, n as int));
                lemma_sum_nonneg(self.freqs@.subrange(0, i as int));
            }
            acc = acc + self.freqs[i];
            i = i + 1;
        }
        if i >= n {
            proof {
                if (sym as int) < old(self).syms@.len() {
                    assert(syms_contains(old(self).syms@, sym as int));
                    let w = choose|w: int|
                        0 <= w < old(self).syms@.len() && (#[trigger] old(self).syms@[w]) as int
                            == sym as int;
                    assert(old(self).syms@[w] == sym);
                    assert(false);
                }
            }
            return Err(DecodeError::CorruptStream);
        }
        let f = self.freqs[i];
        proof {
            lemma_sum_split(self.freqs@, i as int);
            lemma_sum_nonneg(self.freqs@.subrange(i + 1, n as int));
        }
        rc.encode(out, acc, f, self.total);
        self.bump(i);
        Ok(())
    }
}

} // verus!
