//! rANS 4x8 entropy decoder, orders 0 and 1: four interleaved range-coder
//! states over byte symbols with 12-bit frequencies.

use vstd::prelude::*;

use crate::error::DecodeError;
use crate::num::itf8_at;
use crate::num::itf8_len;
use crate::num::le_u32_at;
use crate::num::read_itf8;
use crate::num::read_u32_le;
use crate::num::read_u8;
use crate::aac::lemma_sum_nonneg;
use crate::aac::lemma_sum_split;
use crate::aac::lemma_sum_update;
use crate::aac::sum_freqs;
use vstd::arithmetic::div_mod::lemma_div_denominator;
use vstd::arithmetic::div_mod::lemma_div_is_strictly_smaller;
use vstd::arithmetic::div_mod::lemma_fundamental_div_mod;
use vstd::arithmetic::div_mod::lemma_mod_bound;
use vstd::arithmetic::div_mod::lemma_multiply_divide_lt;

verus! {

/// The interleave order of a rANS stream.
#[derive(Clone, Copy, Debug, PartialEq, Eq, Structural)]
pub enum Order {
    /// Order-0: one frequency table for all positions.
    Zero,
    /// Order-1: a frequency table per previous symbol.
    One,
}

impl Order {
    /// Parses the order byte of a stream header.
    pub fn from_byte(n: u8) -> (r: Result<Order, DecodeError>)
        ensures
            match r {
                Ok(o) => (n == 0 && o is Zero) || (n == 1 && o is One),
                Err(e) => n > 1 && e == DecodeError::CorruptStream,
            },
    {
        if n == 0 {
            Ok(Order::Zero)
        } else if n == 1 {
            Ok(Order::One)
        } else {
            Err(DecodeError::CorruptStream)
        }
    }
}

/// The low 12 bits of a decoder state: its cumulative-frequency slot.
pub fn rans_get_cumulative_freq(r: u32) -> (c: u32)
    ensures
        c == r & 0x0FFF,
        c < 0x1000,
{
    proof {
        assert((r & 0x0FFF) < 0x1000) by (bit_vector);
    }
    r & 0x0FFF
}

/// One decode step: `f * (r >> 12) + (r & 0xfff) - c`.
pub fn rans_advance_step(r: u32, c: u32, f: u32) -> (n: u32)
    requires
        f <= 0x1000,
        c <= (r & 0x0FFF),
    ensures
        n == f * (r >> 12u32) + (r & 0x0FFF) - c,
{
    proof {
        assert((r >> 12u32) <= 0xF_FFFF && (r & 0x0FFF) < 0x1000) by (bit_vector);
        assert(f * (r >> 12u32) <= 0x1000 * 0xF_FFFF) by (nonlinear_arith)
            requires
                f <= 0x1000,
                (r >> 12u32) <= 0xF_FFFF,
        ;
    }
    f * (r >> 12) + (r & 0x0FFF) - c
}

/// Renormalisation as a relation on the byte stream: while the state is below
/// `2^23`, shift in one byte; `None` when the stream runs out first.
pub open spec fn renorm_spec(s: Seq<u8>, i: int, r: u32) -> Option<(u32, int)>
    decreases s.len() - i,
{
    if r >= 0x80_0000 {
        Some((r, i))
    } else if i < 0 || i >= s.len() {
        None
    } else {
        renorm_spec(s, i + 1, (r * 0x100 + s[i]) as u32)
    }
}

/// Shifts bytes into the state until it reaches `2^23`.
pub fn rans_renorm(src: &[u8], pos: &mut usize, r: u32) -> (res: Result<u32, DecodeError>)
    ensures
        match res {
            Ok(v) => {
                &&& renorm_spec(src@, *old(pos) as int, r) == Some((v, *final(pos) as int))
                &&& v >= 0x80_0000
                &&& *old(pos) <= *final(pos)
                &&& *old(pos) <= src@.len() ==> *final(pos) <= src@.len()
            },
            Err(e) => {
                &&& e == DecodeError::Truncated
                &&& renorm_spec(src@, *old(pos) as int, r) is None
                &&& *final(pos) >= src@.len()
            },
        },
{
    let mut state = r;
    if *pos > src.len() {
        if state >= 0x80_0000 {
            return Ok(state);
        }
        return Err(DecodeError::Truncated);
    }
    while state < 0x80_0000
        invariant
            renorm_spec(src@, *old(pos) as int, r) == renorm_spec(src@, *pos as int, state),
            *old(pos) <= *pos <= src@.len(),
        decreases src@.len() - *pos,
    {
        let b = read_u8(src, pos)?;
        state = state * 0x100 + b as u32;
    }
    Ok(state)
}

/// An all-zero 256-entry frequency table.
pub open spec fn zero_freqs() -> Seq<u32> {
    Seq::new(256, |i: int| 0u32)
}

/// One step of the run-length-encoded frequency list: a frequency for the
/// current symbol, then either the run continues, or the next symbol byte
/// (with a run byte after a consecutive symbol), until symbol zero ends the
/// list.
pub open spec fn freqs0_step(
    s: Seq<u8>,
    pos: int,
    freqs: Seq<u32>,
    sym: u8,
    last_sym: u8,
    rle: u8,
) -> Option<(Seq<u32>, int)>
    decreases s.len() - pos,
{
    if !(0 <= pos < s.len()) {
        None
    } else {
        let f = itf8_at(s, pos);
        let w = itf8_len(s[pos]);
        if pos + w > s.len() {
            None
        } else if f > 4096 {
            None
        } else {
            let freqs2 = freqs.update(sym as int, f as u32);
            if rle > 0 {
                if sym == 255 {
                    None
                } else {
                    freqs0_step(
                        s,
                        pos + w,
                        freqs2,
                        (sym + 1) as u8,
                        (sym + 1) as u8,
                        (rle - 1) as u8,
                    )
                }
            } else {
                if pos + w >= s.len() {
                    None
                } else {
                    let sym2 = s[pos + w];
                    if sym2 == 0 {
                        Some((freqs2, pos + w + 1))
                    } else if last_sym < 255 && sym2 == last_sym + 1 {
                        if pos + w + 1 >= s.len() {
                            None
                        } else {
                            freqs0_step(s, pos + w + 2, freqs2, sym2, sym2, s[pos + w + 1])
                        }
                    } else {
                        freqs0_step(s, pos + w + 1, freqs2, sym2, sym2, rle)
                    }
                }
            }
        }
    }
}

/// The parsed order-0 frequency table at `start`: the first symbol byte,
/// then the run-length-encoded list.
pub open spec fn freqs0_parse(s: Seq<u8>, start: int) -> Option<(Seq<u32>, int)> {
    if !(0 <= start < s.len()) {
        None
    } else {
        freqs0_step(s, start + 1, zero_freqs(), s[start], s[start], 0)
    }
}

/// A well-formed order-0 frequency table: 256 frequencies with their
/// cumulative sums, totalling at most 4096.
pub open spec fn freq_table_wf(freqs: Seq<u32>, cum: Seq<u32>) -> bool {
    &&& freqs.len() == 256
    &&& cum.len() == 257
    &&& cum[0] == 0
    &&& forall|i: int| 0 <= i < 256 ==> cum[i + 1] == cum[i] + #[trigger] freqs[i]
    &&& forall|i: int| 0 <= i <= 256 ==> #[trigger] cum[i] <= 4096
}

/// Reads the run-length-encoded symbol/frequency list of one order-0 table.
fn read_frequencies_0(src: &[u8], pos: &mut usize) -> (r: Result<
    (Vec<u32>, Vec<u32>),
    DecodeError,
>)
    ensures
        match r {
            Ok((freqs, cum)) => {
                &&& freq_table_wf(freqs@, cum@)
                &&& *old(pos) < *final(pos) <= src@.len()
                &&& freqs0_parse(src@, *old(pos) as int) == Some((freqs@, *final(pos) as int))
                &&& forall|j: int|
                    0 <= j <= 256 ==> #[trigger] cum@[j] as int == sum_freqs(
                        freqs@.subrange(0, j),
                    )
            },
            Err(e) => {
                &&& (e == DecodeError::Truncated || e == DecodeError::CorruptStream)
                &&& e == DecodeError::Truncated ==> *final(pos) >= src@.len()
                &&& (freqs0_parse(src@, *old(pos) as int) is None || (freqs0_parse(
                    src@,
                    *old(pos) as int,
                ) matches Some(fp) && sum_freqs(fp.0) > 4096))
            },
        },
{
    let mut freqs: Vec<u32> = Vec::new();
    let mut k: usize = 0;
    while k < 256
        invariant
            freqs@.len() == k <= 256,
            forall|j: int| 0 <= j < k ==> #[trigger] freqs@[j] == 0,
        decreases 256 - k,
    {
        freqs.push(0);
        k = k + 1;
    }

    proof {
        assert(freqs@ =~= zero_freqs());
    }
    let mut sym = read_u8(src, pos)?;
    let mut last_sym = sym;
    let mut rle: u8 = 0;
    loop
        invariant_except_break
            freqs0_parse(src@, *old(pos) as int) == freqs0_step(
                src@,
                *pos as int,
                freqs@,
                sym,
                last_sym,
                rle,
            ),
        invariant
            freqs@.len() == 256,
            forall|j: int| 0 <= j < 256 ==> #[trigger] freqs@[j] <= 4096,
            *old(pos) < *pos <= src@.len(),
        ensures
            freqs0_parse(src@, *old(pos) as int) == Some((freqs@, *pos as int)),
        decreases src@.len() - *pos,
    {
        let ghost pos_e = *pos as int;
        let ghost freqs_e = freqs@;
        let ghost sym_e = sym;
        let ghost last_e = last_sym;
        let ghost rle_e = rle;
        let f = read_itf8(src, pos)?;
        if f > 4096 {
            return Err(DecodeError::CorruptStream);
        }
        freqs.set(sym as usize, f);
        if rle > 0 {
            if sym == 255 {
                return Err(DecodeError::CorruptStream);
            }
            rle = rle - 1;
            sym = sym + 1;
            last_sym = sym;
            proof {
                assert(freqs0_step(src@, pos_e, freqs_e, sym_e, last_e, rle_e) == freqs0_step(
                    src@,
                    *pos as int,
                    freqs@,
                    sym,
                    last_sym,
                    rle,
                ));
            }
        } else {
            sym = read_u8(src, pos)?;
            if last_sym < 255 && sym == last_sym + 1 {
                rle = read_u8(src, pos)?;
                last_sym = sym;
                if sym == 0 {
                    proof {
                        assert(false);
                    }
                    break ;
                }
                proof {
                    assert(freqs0_step(src@, pos_e, freqs_e, sym_e, last_e, rle_e)
                        == freqs0_step(src@, *pos as int, freqs@, sym, last_sym, rle));
                }
            } else {
                last_sym = sym;
                if sym == 0 {
                    proof {
                        assert(freqs0_step(src@, pos_e, freqs_e, sym_e, last_e, rle_e) == Some(
                            (freqs@, *pos as int),
                        ));
                    }
                    break ;
                }
                proof {
                    assert(freqs0_step(src@, pos_e, freqs_e, sym_e, last_e, rle_e)
                        == freqs0_step(src@, *pos as int, freqs@, sym, last_sym, rle));
                }
            }
        }
    }

    let mut cum: Vec<u32> = Vec::new();
    cum.push(0);
    let mut i: usize = 0;
    while i < 256
        invariant
            freqs@.len() == 256,
            forall|j: int| 0 <= j < 256 ==> #[trigger] freqs@[j] <= 4096,
            cum@.len() == i + 1 <= 257,
            cum@[0] == 0,
            forall|j: int| 0 <= j < i ==> cum@[j + 1] == cum@[j] + #[trigger] freqs@[j],
            forall|j: int| 0 <= j <= i ==> #[trigger] cum@[j] <= 4096,
            forall|j: int|
                0 <= j <= i ==> #[trigger] cum@[j] as int == sum_freqs(freqs@.subrange(0, j)),
            freqs0_parse(src@, *old(pos) as int) == Some((freqs@, *pos as int)),
        decreases 256 - i,
    {
        proof {
            assert(freqs@.subrange(0, i + 1).drop_last() =~= freqs@.subrange(0, i as int));
        }
        let total = cum[i] + freqs[i];
        if total > 4096 {
            proof {
                lemma_sum_split(freqs@, i as int);
                lemma_sum_nonneg(freqs@.subrange(i + 1, 256));
                assert(sum_freqs(freqs@) > 4096);
            }
            return Err(DecodeError::CorruptStream);
        }
        cum.push(total);
        i = i + 1;
    }
    Ok((freqs, cum))
}

/// The reverse lookup from a 12-bit slot to the symbol whose cumulative
/// range covers it: each entry `t[k]` is the last symbol whose cumulative
/// frequency is at most `k`.
pub open spec fn lookup_table_wf(t: Seq<u8>, cum: Seq<u32>) -> bool {
    &&& t.len() == 4096
    &&& forall|k: int| 0 <= k < 4096 ==> cum[#[trigger] t[k] as int] <= k
    &&& forall|k: int| 0 <= k < 4096 ==> (#[trigger] t[k] == 255 || cum[t[k] + 1] > k)
}

/// The symbol whose cumulative range covers `slot`, scanning upward from
/// `s`: the last symbol whose cumulative frequency is at most the slot.
pub open spec fn slot_symbol(cum: Seq<u32>, slot: int, s: int) -> u8
    decreases 255 - s,
{
    if s < 0 || s >= 255 {
        255
    } else if cum[s + 1] <= slot {
        slot_symbol(cum, slot, s + 1)
    } else {
        s as u8
    }
}

/// Adjacent monotonicity extends to any pair of cumulative entries.
proof fn lemma_cum_monotone(cum: Seq<u32>, i: int, j: int)
    requires
        cum.len() == 257,
        forall|k: int| 0 <= k < 256 ==> #[trigger] cum[k] <= cum[k + 1],
        0 <= i <= j <= 256,
    ensures
        cum[i] <= cum[j],
    decreases j - i,
{
    if i < j {
        lemma_cum_monotone(cum, i + 1, j);
    }
}

/// The bracketing `cum[x] <= slot < cum[x+1]` (or `x == 255`) pins the
/// symbol the upward scan finds.
proof fn lemma_slot_symbol_bracket(cum: Seq<u32>, slot: int, x: u8, s: int)
    requires
        cum.len() == 257,
        forall|k: int| 0 <= k < 256 ==> #[trigger] cum[k] <= cum[k + 1],
        0 <= s <= x as int,
        cum[x as int] <= slot,
        x == 255 || cum[x as int + 1] > slot,
    ensures
        slot_symbol(cum, slot, s) == x,
    decreases 255 - s,
{
    if s < x as int {
        lemma_cum_monotone(cum, s + 1, x as int);
        lemma_slot_symbol_bracket(cum, slot, x, s + 1);
    }
}

/// Builds the 4096-entry slot-to-symbol lookup table.
fn build_lookup(cum: &Vec<u32>) -> (t: Vec<u8>)
    requires
        cum@.len() == 257,
        cum@[0] == 0,
    ensures
        lookup_table_wf(t@, cum@),
{
    let mut t: Vec<u8> = Vec::new();
    let mut sym: u8 = 0;
    let mut f: usize = 0;
    while f < 4096
        invariant
            cum@.len() == 257,
            cum@[0] == 0,
            t@.len() == f <= 4096,
            cum@[sym as int] <= f,
            forall|k: int| 0 <= k < f ==> cum@[#[trigger] t@[k] as int] <= k,
            forall|k: int| 0 <= k < f ==> (#[trigger] t@[k] == 255 || cum@[t@[k] + 1] > k),
        decreases 4096 - f,
    {
        while sym < 255 && cum[sym as usize + 1] <= f as u32
            invariant
                cum@.len() == 257,
                cum@[sym as int] <= f,
            decreases 255 - sym,
        {
            sym = sym + 1;
        }
        t.push(sym);
        f = f + 1;
    }
    t
}

/// The cumulative table of a frequency table: entry `j` sums the first `j`
/// frequencies.
pub open spec fn cum_of(freqs: Seq<u32>) -> Seq<u32> {
    Seq::new(257, |j: int| sum_freqs(freqs.subrange(0, j)) as u32)
}

/// The four-lane order-0 decode of `n - i` more bytes from `pos`: byte `i`
/// comes from lane `i % 4`, whose state selects a slot, yields its symbol,
/// advances and renormalises.
pub open spec fn rans0_loop(
    s: Seq<u8>,
    pos: int,
    states: Seq<u32>,
    freqs: Seq<u32>,
    cum: Seq<u32>,
    i: int,
    n: int,
) -> Option<(Seq<u8>, int)>
    decreases n - i,
{
    if i >= n {
        Some((Seq::empty(), pos))
    } else {
        let lane = i % 4;
        let st = states[lane];
        let slot = (st & 0x0FFF) as int;
        let sym = slot_symbol(cum, slot, 0);
        let c = cum[sym as int];
        let f = freqs[sym as int];
        let st2 = (f * (st >> 12u32) + (st & 0x0FFF) - c) as u32;
        match renorm_spec(s, pos, st2) {
            None => None,
            Some(rn) => match rans0_loop(s, rn.1, states.update(lane, rn.0), freqs, cum, i + 1, n) {
                None => None,
                Some(rest) => Some((seq![sym] + rest.0, rest.1)),
            },
        }
    }
}

/// The whole order-0 stream body after the header: the frequency table,
/// four little-endian lane states, then `n` decoded bytes.
pub open spec fn rans0_body_spec(s: Seq<u8>, start: int, n: int) -> Option<(Seq<u8>, int)> {
    match freqs0_parse(s, start) {
        None => None,
        Some(fp) => {
            if sum_freqs(fp.0) > 4096 {
                None
            } else if fp.1 + 16 > s.len() {
                None
            } else {
                let states = Seq::new(4, |k: int| le_u32_at(s, fp.1 + 4 * k) as u32);
                rans0_loop(s, fp.1 + 16, states, fp.0, cum_of(fp.0), 0, n)
            }
        },
    }
}

/// Decodes `n` bytes with a single frequency table and four interleaved
/// states, exactly as the order-0 stream model describes.
#[verifier::rlimit(100)]
fn decode_0(src: &[u8], pos: &mut usize, n: usize) -> (r: Result<Vec<u8>, DecodeError>)
    ensures
        match r {
            Ok(out) => {
                &&& out@.len() == n
                &&& rans0_body_spec(src@, *old(pos) as int, n as int) == Some(
                    (out@, *final(pos) as int),
                )
            },
            Err(e) => {
                &&& (e == DecodeError::Truncated || e == DecodeError::CorruptStream)
                &&& e == DecodeError::Truncated ==> *final(pos) + 4 > src@.len()
                &&& rans0_body_spec(src@, *old(pos) as int, n as int) is None
            },
        },
{
    let (freqs, cum) = read_frequencies_0(src, pos)?;
    proof {
        assert(cum@ =~= cum_of(freqs@));
    }
    let table = build_lookup(&cum);

    let ghost p1 = *pos as int;
    let mut states: Vec<u32> = Vec::new();
    let mut j: usize = 0;
    while j < 4
        invariant
            states@.len() == j <= 4,
            *pos == p1 + 4 * j,
            freqs0_parse(src@, *old(pos) as int) == Some((freqs@, p1)),
            sum_freqs(freqs@) <= 4096,
            forall|k: int|
                0 <= k < j ==> #[trigger] states@[k] == le_u32_at(src@, p1 + 4 * k) as u32,
            j > 0 ==> p1 + 4 * j <= src@.len(),
        decreases 4 - j,
    {
        let st = read_u32_le(src, pos)?;
        states.push(st);
        j = j + 1;
    }
    proof {
        assert(states@ =~= Seq::new(4, |k: int| le_u32_at(src@, p1 + 4 * k) as u32));
        assert(rans0_body_spec(src@, *old(pos) as int, n as int) == rans0_loop(
            src@,
            *pos as int,
            states@,
            freqs@,
            cum@,
            0,
            n as int,
        ));
    }

    let mut out: Vec<u8> = Vec::new();
    let mut i: usize = 0;
    while i < n
        invariant
            out@.len() == i <= n,
            states@.len() == 4,
            freq_table_wf(freqs@, cum@),
            lookup_table_wf(table@, cum@),
            rans0_body_spec(src@, *old(pos) as int, n as int) == (match rans0_loop(
                src@,
                *pos as int,
                states@,
                freqs@,
                cum@,
                i as int,
                n as int,
            ) {
                Some(rem) => Some((out@ + rem.0, rem.1)),
                None => None::<(Seq<u8>, int)>,
            }),
        decreases n - i,
    {
        let ghost pos_e = *pos as int;
        let ghost states_e = states@;
        let lane = i % 4;
        let st = states[lane];
        let slot = rans_get_cumulative_freq(st);
        let s = table[slot as usize];
        proof {
            assert forall|k: int| 0 <= k < 256 implies #[trigger] cum@[k] <= cum@[k + 1] by {
                assert(cum@[k + 1] == cum@[k] + freqs@[k]);
            }
            lemma_slot_symbol_bracket(cum@, slot as int, s, 0);
        }
        out.push(s);
        let c = cum[s as usize];
        let f = freqs[s as usize];
        let st2 = rans_advance_step(st, c, f);
        let st3 = rans_renorm(src, pos, st2)?;
        states.set(lane, st3);
        i = i + 1;
        proof {
            assert(rans0_loop(src@, pos_e, states_e, freqs@, cum@, i - 1, n as int) == (
            match rans0_loop(src@, *pos as int, states@, freqs@, cum@, i as int, n as int) {
                Some(rest) => Some((seq![s] + rest.0, rest.1)),
                None => None::<(Seq<u8>, int)>,
            }));
            if rans0_loop(src@, *pos as int, states@, freqs@, cum@, i as int, n as int) is Some {
                let rest = rans0_loop(
                    src@,
                    *pos as int,
                    states@,
                    freqs@,
                    cum@,
                    i as int,
                    n as int,
                )->Some_0;
                assert(out@.drop_last() + (seq![s] + rest.0) =~= out@ + rest.0);
            }
        }
    }
    proof {
        assert(rans0_loop(src@, *pos as int, states@, freqs@, cum@, n as int, n as int) == Some(
            (Seq::<u8>::empty(), *pos as int),
        ));
        assert(out@ + Seq::<u8>::empty() =~= out@);
    }
    Ok(out)
}

/// Reads the order-1 table: an order-0 frequency table per previous-symbol
/// context, over the run-length-encoded list of contexts present.
fn read_frequencies_1(src: &[u8], pos: &mut usize) -> (r: Result<
    (Vec<Vec<u32>>, Vec<Vec<u32>>),
    DecodeError,
>)
    ensures
        match r {
            Ok((freqs, cums)) => {
                &&& freqs@.len() == 256
                &&& cums@.len() == 256
                &&& forall|c: int|
                    0 <= c < 256 ==> freq_table_wf(#[trigger] freqs@[c]@, cums@[c]@)
            },
            Err(e) => {
                &&& (e == DecodeError::Truncated || e == DecodeError::CorruptStream)
                &&& e == DecodeError::Truncated ==> *final(pos) >= src@.len()
            },
        },
{
    let mut freqs: Vec<Vec<u32>> = Vec::new();
    let mut cums: Vec<Vec<u32>> = Vec::new();
    let mut k: usize = 0;
    while k < 256
        invariant
            freqs@.len() == k <= 256,
            cums@.len() == k,
            forall|c: int| 0 <= c < k ==> freq_table_wf(#[trigger] freqs@[c]@, cums@[c]@),
        decreases 256 - k,
    {
        let mut zf: Vec<u32> = Vec::new();
        let mut zc: Vec<u32> = Vec::new();
        let mut m: usize = 0;
        while m < 256
            invariant
                zf@.len() == m <= 256,
                zc@.len() == m,
                forall|j: int| 0 <= j < m ==> #[trigger] zf@[j] == 0,
                forall|j: int| 0 <= j < m ==> #[trigger] zc@[j] == 0,
            decreases 256 - m,
        {
            zf.push(0);
            zc.push(0);
            m = m + 1;
        }
        zc.push(0);
        freqs.push(zf);
        cums.push(zc);
        k = k + 1;
    }

    let mut sym = read_u8(src, pos)?;
    let mut last_sym = sym;
    let mut rle: u8 = 0;
    loop
        invariant
            freqs@.len() == 256,
            cums@.len() == 256,
            forall|c: int| 0 <= c < 256 ==> freq_table_wf(#[trigger] freqs@[c]@, cums@[c]@),
            *pos <= src@.len(),
        decreases src@.len() - *pos,
    {
        let (f, c) = read_frequencies_0(src, pos)?;
        freqs.set(sym as usize, f);
        cums.set(sym as usize, c);
        if rle > 0 {
            if sym == 255 {
                return Err(DecodeError::CorruptStream);
            }
            rle = rle - 1;
            sym = sym + 1;
        } else {
            sym = read_u8(src, pos)?;
            if last_sym < 255 && sym == last_sym + 1 {
                rle = read_u8(src, pos)?;
            }
        }
        last_sym = sym;
        if sym == 0 {
            break ;
        }
    }
    Ok((freqs, cums))
}

/// Decodes `n` bytes with per-context tables: the output is laid out in four
/// quarters, one per state, and each state's context is its own last symbol.
fn decode_1(src: &[u8], pos: &mut usize, n: usize) -> (r: Result<Vec<u8>, DecodeError>)
    ensures
        match r {
            Ok(out) => out@.len() == n,
            Err(e) => {
                &&& (e == DecodeError::Truncated || e == DecodeError::CorruptStream)
                &&& e == DecodeError::Truncated ==> *final(pos) + 4 > src@.len()
            },
        },
{
    let (freqs, cums) = read_frequencies_1(src, pos)?;

    let mut tables: Vec<Vec<u8>> = Vec::new();
    let mut k: usize = 0;
    while k < 256
        invariant
            tables@.len() == k <= 256,
            freqs@.len() == 256,
            cums@.len() == 256,
            forall|c: int| 0 <= c < 256 ==> freq_table_wf(#[trigger] freqs@[c]@, cums@[c]@),
            forall|c: int| 0 <= c < k ==> lookup_table_wf(#[trigger] tables@[c]@, cums@[c]@),
        decreases 256 - k,
    {
        proof {
            assert(freq_table_wf(freqs@[k as int]@, cums@[k as int]@));
        }
        let t = build_lookup(&cums[k]);
        tables.push(t);
        k = k + 1;
    }

    let mut states: Vec<u32> = Vec::new();
    let mut j: usize = 0;
    while j < 4
        invariant
            states@.len() == j <= 4,
        decreases 4 - j,
    {
        let st = read_u32_le(src, pos)?;
        states.push(st);
        j = j + 1;
    }

    let quarter = n / 4;
    proof {
        assert(4 * (n as int / 4) <= n as int) by (nonlinear_arith);
    }

    let mut out: Vec<u8> = Vec::new();
    let mut i: usize = 0;
    while i < n
        invariant
            out@.len() == i <= n,
        decreases n - i,
    {
        out.push(0);
        i = i + 1;
    }

    let mut lasts: Vec<u8> = Vec::new();
    let mut j2: usize = 0;
    while j2 < 4
        invariant
            lasts@.len() == j2 <= 4,
        decreases 4 - j2,
    {
        lasts.push(0);
        j2 = j2 + 1;
    }

    let mut i: usize = 0;
    while i < quarter
        invariant
            out@.len() == n,
            states@.len() == 4,
            lasts@.len() == 4,
            freqs@.len() == 256,
            cums@.len() == 256,
            tables@.len() == 256,
            4 * quarter <= n,
            i <= quarter,
            forall|c: int| 0 <= c < 256 ==> freq_table_wf(#[trigger] freqs@[c]@, cums@[c]@),
            forall|c: int| 0 <= c < 256 ==> lookup_table_wf(#[trigger] tables@[c]@, cums@[c]@),
        decreases quarter - i,
    {
        let mut lane: usize = 0;
        while lane < 4
            invariant
                out@.len() == n,
                states@.len() == 4,
                lasts@.len() == 4,
                freqs@.len() == 256,
                cums@.len() == 256,
                tables@.len() == 256,
                4 * quarter <= n,
                i < quarter,
                lane <= 4,
                forall|c: int| 0 <= c < 256 ==> freq_table_wf(#[trigger] freqs@[c]@, cums@[c]@),
                forall|c: int| 0 <= c < 256 ==> lookup_table_wf(#[trigger] tables@[c]@, cums@[c]@),
            decreases 4 - lane,
        {
            let ctx = lasts[lane] as usize;
            proof {
                assert(freq_table_wf(freqs@[ctx as int]@, cums@[ctx as int]@));
                assert(lookup_table_wf(tables@[ctx as int]@, cums@[ctx as int]@));
            }
            let st = states[lane];
            let slot = rans_get_cumulative_freq(st);
            let s = tables[ctx][slot as usize];
            proof {
                assert(lane * quarter + i < 4 * quarter) by (nonlinear_arith)
                    requires
                        lane < 4,
                        i < quarter,
                ;
            }
            out.set(lane * quarter + i, s);
            let c = cums[ctx][s as usize];
            let f = freqs[ctx][s as usize];
            let st2 = rans_advance_step(st, c, f);
            let st3 = rans_renorm(src, pos, st2)?;
            states.set(lane, st3);
            lasts.set(lane, s);
            lane = lane + 1;
        }
        i = i + 1;
    }

    let mut i: usize = 4 * quarter;
    while i < n
        invariant
            out@.len() == n,
            states@.len() == 4,
            lasts@.len() == 4,
            freqs@.len() == 256,
            cums@.len() == 256,
            tables@.len() == 256,
            i <= n,
            forall|c: int| 0 <= c < 256 ==> freq_table_wf(#[trigger] freqs@[c]@, cums@[c]@),
            forall|c: int| 0 <= c < 256 ==> lookup_table_wf(#[trigger] tables@[c]@, cums@[c]@),
        decreases n - i,
    {
        let ctx = lasts[3] as usize;
        proof {
            assert(freq_table_wf(freqs@[ctx as int]@, cums@[ctx as int]@));
            assert(lookup_table_wf(tables@[ctx as int]@, cums@[ctx as int]@));
        }
        let st = states[3];
        let slot = rans_get_cumulative_freq(st);
        let s = tables[ctx][slot as usize];
        out.set(i, s);
        let c = cums[ctx][s as usize];
        let f = freqs[ctx][s as usize];
        let st2 = rans_advance_step(st, c, f);
        let st3 = rans_renorm(src, pos, st2)?;
        states.set(3, st3);
        lasts.set(3, s);
        i = i + 1;
    }
    Ok(out)
}

/// Reads the stream header: the order byte, the compressed length, and the
/// uncompressed length.
pub fn read_header(src: &[u8], pos: &mut usize) -> (r: Result<(Order, usize, usize), DecodeError>)
    ensures
        match r {
            Ok((order, compressed_len, data_len)) => {
                &&& *old(pos) + 9 <= src@.len()
                &&& ((src@[*old(pos) as int] == 0 && order is Zero) || (src@[*old(pos) as int]
                    == 1 && order is One))
                &&& compressed_len == le_u32_at(src@, *old(pos) + 1)
                &&& data_len == le_u32_at(src@, *old(pos) + 5)
                &&& *final(pos) == *old(pos) + 9
            },
            Err(e) => {
                &&& (e == DecodeError::Truncated || e == DecodeError::CorruptStream)
                &&& e == DecodeError::CorruptStream ==> *old(pos) < src@.len() && src@[*old(
                    pos,
                ) as int] > 1
                &&& e == DecodeError::Truncated ==> (*old(pos) >= src@.len() || (src@[*old(
                    pos,
                ) as int] <= 1 && *old(pos) + 9 > src@.len())) && *final(pos) + 4 > src@.len()
            },
        },
        *old(pos) + 9 <= src@.len() && src@[*old(pos) as int] <= 1 ==> r is Ok,
{
    let order_byte = read_u8(src, pos)?;
    let order = Order::from_byte(order_byte)?;
    let compressed_len = read_u32_le(src, pos)?;
    let data_len = read_u32_le(src, pos)?;
    Ok((order, compressed_len as usize, data_len as usize))
}

/// Decodes one framed rANS stream: order byte, compressed length,
/// uncompressed length, then the payload. The output length always equals
/// the declared uncompressed length, and an order-0 payload decodes exactly
/// as the order-0 stream model describes.
pub fn rans_decode(src: &[u8], pos: &mut usize) -> (r: Result<Vec<u8>, DecodeError>)
    ensures
        match r {
            Ok(out) => {
                &&& *old(pos) + 9 <= src@.len()
                &&& (src@[*old(pos) as int] == 0 || src@[*old(pos) as int] == 1)
                &&& out@.len() == le_u32_at(src@, *old(pos) + 5)
                &&& src@[*old(pos) as int] == 0 ==> rans0_body_spec(
                    src@,
                    *old(pos) + 9,
                    le_u32_at(src@, *old(pos) + 5),
                ) == Some((out@, *final(pos) as int))
            },
            Err(e) => {
                &&& (e == DecodeError::Truncated || e == DecodeError::CorruptStream)
                &&& e == DecodeError::Truncated ==> *final(pos) + 4 > src@.len()
            },
        },
        (*old(pos) + 9 <= src@.len() && src@[*old(pos) as int] == 0 && rans0_body_spec(
            src@,
            *old(pos) + 9,
            le_u32_at(src@, *old(pos) + 5),
        ) is Some) ==> r is Ok,
{
    let header = read_header(src, pos)?;
    let order = header.0;
    let n = header.2;

    match order {
        Order::Zero => decode_0(src, pos, n),
        Order::One => decode_1(src, pos, n),
    }
}

/// The sum of a frequency table is at most its length when every entry is
/// at most one.
proof fn lemma_sum_at_most_len(s: Seq<u32>)
    requires
        forall|i: int| 0 <= i < s.len() ==> #[trigger] s[i] <= 1,
    ensures
        sum_freqs(s) <= s.len(),
    decreases s.len(),
{
    if s.len() > 0 {
        lemma_sum_at_most_len(s.drop_last());
    }
}

/// Appends one ITF-8 group for a value below `2^14`.
fn push_itf8_small(buf: &mut Vec<u8>, v: u32)
    requires
        v < 0x4000,
    ensures
        old(buf)@.len() < final(buf)@.len() <= old(buf)@.len() + 2,
{
    if v < 0x80 {
        buf.push(v as u8);
    } else {
        proof {
            assert((0x80u32 | (v >> 8u32)) < 0x100) by (bit_vector)
                requires
                    v < 0x4000u32,
            ;
        }
        buf.push((0x80 | (v >> 8)) as u8);
        buf.push((v % 0x100) as u8);
    }
}

/// Appends the four little-endian bytes of `v`.
fn push_u32_le(buf: &mut Vec<u8>, v: u32)
    ensures
        final(buf)@.len() == old(buf)@.len() + 4,
        final(buf)@.subrange(0, old(buf)@.len() as int) == old(buf)@,
        le_u32_at(final(buf)@, old(buf)@.len() as int) == v,
{
    proof {
        lemma_fundamental_div_mod(v as int, 0x100);
        lemma_mod_bound(v as int, 0x100);
        lemma_fundamental_div_mod(v as int / 0x100, 0x100);
        lemma_mod_bound(v as int / 0x100, 0x100);
        lemma_div_denominator(v as int, 0x100, 0x100);
        lemma_fundamental_div_mod(v as int / 0x1_0000, 0x100);
        lemma_mod_bound(v as int / 0x1_0000, 0x100);
        lemma_div_denominator(v as int, 0x1_0000, 0x100);
    }
    buf.push((v % 0x100) as u8);
    buf.push(((v / 0x100) % 0x100) as u8);
    buf.push(((v / 0x1_0000) % 0x100) as u8);
    buf.push((v / 0x100_0000) as u8);
    proof {
        assert(buf@.subrange(0, old(buf)@.len() as int) =~= old(buf)@);
    }
}

/// Normalised symbol frequencies for the bytes of `src`: every occurring
/// byte keeps a positive frequency and the total stays within 4096.
#[verifier::rlimit(50)]
fn build_frequencies(src: &[u8]) -> (r: (Vec<u32>, u32))
    requires
        src@.len() <= 0xFFFF_FFFF,
    ensures
        ({
            let (scaled, total) = r;
            &&& scaled@.len() == 256
            &&& forall|j: int| 0 <= j < 256 ==> #[trigger] scaled@[j] <= 4096
            &&& forall|t: int|
                0 <= t < src@.len() ==> #[trigger] scaled@[src@[t] as int] >= 1
            &&& total as int == sum_freqs(scaled@)
            &&& total <= 4096
            &&& exists|j: int| 0 <= j < 256 && #[trigger] scaled@[j] >= 1
        }),
{
    let n = src.len();

    let mut scaled: Vec<u32> = Vec::new();
    let mut z: usize = 0;
    while z < 256
        invariant
            scaled@.len() == z <= 256,
            forall|j: int| 0 <= j < z ==> #[trigger] scaled@[j] == 0,
        decreases 256 - z,
    {
        scaled.push(0);
        z = z + 1;
    }

    if n == 0 {
        proof {
            assert(sum_freqs(scaled@) == 0) by {
                lemma_sum_zero(scaled@);
            }
            lemma_sum_update(scaled@, 0, 4096);
        }
        scaled.set(0, 4096);
        proof {
            assert(scaled@[0] >= 1);
            assert(forall|j: int| 0 <= j < 256 ==> #[trigger] scaled@[j] <= 4096);
            assert(sum_freqs(scaled@) == 4096);
        }
        return (scaled, 4096);
    }

    let mut counts: Vec<u64> = Vec::new();
    let mut z2: usize = 0;
    while z2 < 256
        invariant
            counts@.len() == z2 <= 256,
            forall|j: int| 0 <= j < z2 ==> #[trigger] counts@[j] == 0,
        decreases 256 - z2,
    {
        counts.push(0);
        z2 = z2 + 1;
    }

    let mut t: usize = 0;
    while t < n
        invariant
            counts@.len() == 256,
            n == src@.len() <= 0xFFFF_FFFF,
            t <= n,
            forall|j: int| 0 <= j < 256 ==> #[trigger] counts@[j] <= t,
            forall|u: int| 0 <= u < t ==> #[trigger] counts@[src@[u] as int] >= 1,
        decreases n - t,
    {
        let b = src[t] as usize;
        let c = counts[b];
        counts.set(b, c + 1);
        t = t + 1;
    }

    let mut s: usize = 0;
    while s < 256
        invariant
            counts@.len() == 256,
            scaled@.len() == 256,
            1 <= n == src@.len() <= 0xFFFF_FFFF,
            s <= 256,
            forall|j: int| 0 <= j < 256 ==> #[trigger] counts@[j] <= n,
            forall|j: int| 0 <= j < 256 ==> #[trigger] scaled@[j] <= 4096,
            forall|j: int|
                0 <= j < s && counts@[j] >= 1 ==> #[trigger] scaled@[j] >= 1,
        decreases 256 - s,
    {
        if counts[s] > 0 {
            let mut v = counts[s] * 4096 / (n as u64);
            if v > 4096 {
                v = 4096;
            }
            if v < 1 {
                v = 1;
            }
            scaled.set(s, v as u32);
        }
        s = s + 1;
    }

    let mut total: u32 = 0;
    let mut s2: usize = 0;
    while s2 < 256
        invariant
            scaled@.len() == 256,
            s2 <= 256,
            forall|j: int| 0 <= j < 256 ==> #[trigger] scaled@[j] <= 4096,
            total as int == sum_freqs(scaled@.subrange(0, s2 as int)),
            total <= 4096 * s2,
        decreases 256 - s2,
    {
        proof {
            assert(scaled@.subrange(0, s2 + 1).drop_last() =~= scaled@.subrange(0, s2 as int));
        }
        total = total + scaled[s2];
        s2 = s2 + 1;
    }
    proof {
        assert(scaled@.subrange(0, 256) =~= scaled@);
    }

    while total > 4096
        invariant
            scaled@.len() == 256,
            forall|j: int| 0 <= j < 256 ==> #[trigger] scaled@[j] <= 4096,
            forall|j: int|
                0 <= j < 256 && counts@[j] >= 1 ==> #[trigger] scaled@[j] >= 1,
            counts@.len() == 256,
            total as int == sum_freqs(scaled@),
        decreases total,
    {
        let ghost total0 = total;
        let mut s3: usize = 0;
        while s3 < 256
            invariant
                scaled@.len() == 256,
                counts@.len() == 256,
                s3 <= 256,
                forall|j: int| 0 <= j < 256 ==> #[trigger] scaled@[j] <= 4096,
                forall|j: int|
                    0 <= j < 256 && counts@[j] >= 1 ==> #[trigger] scaled@[j] >= 1,
                total as int == sum_freqs(scaled@),
                total <= total0,
                4096 < total0,
                total < total0 || (forall|j: int| 0 <= j < s3 ==> #[trigger] scaled@[j] <= 1),
            decreases 256 - s3,
        {
            if total > 4096 && scaled[s3] > 1 {
                proof {
                    lemma_sum_update(scaled@, s3 as int, (scaled@[s3 as int] - 1) as u32);
                }
                let f = scaled[s3];
                scaled.set(s3, f - 1);
                total = total - 1;
            }
            s3 = s3 + 1;
        }
        proof {
            if total == total0 {
                lemma_sum_at_most_len(scaled@);
                assert(false);
            }
        }
    }

    proof {
        assert forall|u: int| 0 <= u < src@.len() implies #[trigger] scaled@[src@[u] as int]
            >= 1 by {
            assert(counts@[src@[u] as int] >= 1);
        }
        assert(scaled@[src@[0] as int] >= 1);
    }
    (scaled, total)
}

/// The sum of an all-zero table is zero.
proof fn lemma_sum_zero(s: Seq<u32>)
    requires
        forall|i: int| 0 <= i < s.len() ==> #[trigger] s[i] == 0,
    ensures
        sum_freqs(s) == 0,
    decreases s.len(),
{
    if s.len() > 0 {
        lemma_sum_zero(s.drop_last());
    }
}

/// Encodes bytes as one framed order-0 rANS stream, the inverse of the
/// order-0 decoder: the frame declares the input's length, and the
/// frequency table gives every occurring byte a positive frequency.
pub fn rans_encode(src: &[u8]) -> (r: Result<Vec<u8>, DecodeError>)
    ensures
        match r {
            Ok(out) => {
                &&& out@.len() >= 9
                &&& out@[0] == 0
                &&& le_u32_at(out@, 1) == out@.len() - 9
                &&& le_u32_at(out@, 5) == src@.len()
            },
            Err(e) => e == DecodeError::CorruptStream,
        },
        src@.len() <= 0x3FFF_FFFF ==> r is Ok,
{
    if src.len() as u64 > 0xFFFF_FFFFu64 {
        return Err(DecodeError::CorruptStream);
    }
    let n = src.len();

    let built = build_frequencies(src);
    let scaled = built.0;
    let ghost total = built.1;

    let mut cum: Vec<u32> = Vec::new();
    cum.push(0);
    let mut i: usize = 0;
    while i < 256
        invariant
            scaled@.len() == 256,
            forall|j: int| 0 <= j < 256 ==> #[trigger] scaled@[j] <= 4096,
            sum_freqs(scaled@) <= 4096,
            cum@.len() == i + 1 <= 257,
            cum@[0] == 0,
            forall|j: int| 0 <= j < i ==> cum@[j + 1] == cum@[j] + #[trigger] scaled@[j],
            forall|j: int| 0 <= j <= i ==> #[trigger] cum@[j] <= 4096,
            cum@[i as int] == sum_freqs(scaled@.subrange(0, i as int)),
        decreases 256 - i,
    {
        proof {
            assert(scaled@.subrange(0, i + 1).drop_last() =~= scaled@.subrange(0, i as int));
            if i < 256 {
                lemma_sum_split(scaled@, i as int);
                lemma_sum_nonneg(scaled@.subrange(i + 1, 256));
            }
        }
        let c = cum[i] + scaled[i];
        cum.push(c);
        i = i + 1;
    }

    // The symbol/frequency table, in the run-length form the decoder reads.
    let mut table: Vec<u8> = Vec::new();
    let mut started = false;
    let mut prev: usize = 0;
    let mut s: usize = 0;
    while s < 256
        invariant
            scaled@.len() == 256,
            forall|j: int| 0 <= j < 256 ==> #[trigger] scaled@[j] <= 4096,
            s <= 256,
            started ==> prev < s,
            table@.len() <= 4 * s,
            started <==> exists|j: int| 0 <= j < s && #[trigger] scaled@[j] >= 1,
        decreases 256 - s,
    {
        if scaled[s] > 0 {
            table.push(s as u8);
            if started && s == prev + 1 {
                table.push(0);
            }
            push_itf8_small(&mut table, scaled[s]);
            started = true;
            prev = s;
        }
        s = s + 1;
    }
    if !started {
        proof {
            assert(false);
        }
        return Err(DecodeError::CorruptStream);
    }
    table.push(0);

    // Encode back to front; renormalisation bytes come out reversed.
    let mut states: Vec<u32> = Vec::new();
    let mut z: usize = 0;
    while z < 4
        invariant
            states@.len() == z <= 4,
            forall|j: int| 0 <= j < z ==> #[trigger] states@[j] < 0x8000_0000,
        decreases 4 - z,
    {
        states.push(0x80_0000);
        z = z + 1;
    }

    let mut rev: Vec<u8> = Vec::new();
    let mut i2: usize = n;
    while i2 > 0
        invariant
            states@.len() == 4,
            scaled@.len() == 256,
            cum@.len() == 257,
            n == src@.len(),
            i2 <= n,
            forall|j: int| 0 <= j < 4 ==> #[trigger] states@[j] < 0x8000_0000,
            forall|j: int| 0 <= j < 256 ==> #[trigger] scaled@[j] <= 4096,
            forall|t: int| 0 <= t < src@.len() ==> #[trigger] scaled@[src@[t] as int] >= 1,
            forall|j: int| 0 <= j < 256 ==> cum@[j + 1] == cum@[j] + #[trigger] scaled@[j],
            forall|j: int| 0 <= j <= 256 ==> #[trigger] cum@[j] <= 4096,
            rev@.len() <= 2 * (n - i2),
        decreases i2,
    {
        i2 = i2 - 1;
        let lane = i2 % 4;
        let sym = src[i2] as usize;
        let f = scaled[sym];
        let c = cum[sym];
        let x_max = f * 0x8_0000;
        let mut x = states[lane];
        let ghost rev0 = rev@.len() as int;
        while x >= x_max
            invariant
                f >= 1,
                x_max == f * 0x8_0000,
                0 <= rev0 <= rev@.len() <= rev0 + 2,
                rev0 <= 2 * (n - i2 - 1),
                i2 < n,
                rev@.len() == rev0 ==> x < 0x8000_0000,
                rev@.len() == rev0 + 1 ==> x < 0x80_0000,
                rev@.len() == rev0 + 2 ==> x < 0x8000,
            decreases x,
        {
            proof {
                lemma_div_is_strictly_smaller(x as int, 0x100);
                assert(x_max >= 0x8_0000);
            }
            rev.push((x % 0x100) as u8);
            x = x / 0x100;
        }
        proof {
            lemma_multiply_divide_lt(x as int, f as int, 0x8_0000);
            lemma_mod_bound(x as int, f as int);
            assert(cum@[sym + 1] == cum@[sym as int] + scaled@[sym as int]);
        }
        let q = x / f;
        let xm = x % f;
        states.set(lane, q * 0x1000 + c + xm);
    }

    let mut payload: Vec<u8> = Vec::new();
    let mut lane2: usize = 0;
    while lane2 < 4
        invariant
            states@.len() == 4,
            lane2 <= 4,
            payload@.len() == 4 * lane2,
        decreases 4 - lane2,
    {
        push_u32_le(&mut payload, states[lane2]);
        lane2 = lane2 + 1;
    }
    let ghost rev_len0 = rev@.len() as int;
    let mut k = rev.len();
    while k > 0
        invariant
            k <= rev@.len() == rev_len0,
            payload@.len() == 16 + (rev_len0 - k),
        decreases k,
    {
        k = k - 1;
        payload.push(rev[k]);
    }

    let mut body = table;
    body.append(&mut payload);
    if body.len() as u64 > 0xFFFF_FFFFu64 {
        proof {
            assert(src@.len() > 0x3FFF_FFFF);
        }
        return Err(DecodeError::CorruptStream);
    }

    let mut out: Vec<u8> = Vec::new();
    out.push(0x00);
    let ghost first = out@;
    let comp = body.len() as u32;
    push_u32_le(&mut out, comp);
    let ghost mid = out@;
    push_u32_le(&mut out, n as u32);
    let ghost header = out@;
    out.append(&mut body);
    proof {
        assert(first =~= seq![0u8]);
        assert(mid.subrange(0, 1) =~= first);
        assert(mid[0] == first[0]);
        assert(header.subrange(0, 5) =~= mid);
        assert(header[0] == mid[0] && header[1] == mid[1] && header[2] == mid[2] && header[3]
            == mid[3] && header[4] == mid[4]);
        assert(le_u32_at(header, 1) == le_u32_at(mid, 1));
        assert(out@[0] == header[0]);
        assert(out@[1] == header[1] && out@[2] == header[2] && out@[3] == header[3] && out@[4]
            == header[4]);
        assert(out@[5] == header[5] && out@[6] == header[6] && out@[7] == header[7] && out@[8]
            == header[8]);
        assert(le_u32_at(out@, 1) == le_u32_at(header, 1));
        assert(le_u32_at(out@, 5) == le_u32_at(header, 5));
    }
    Ok(out)
}

} // verus!
