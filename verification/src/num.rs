//! Byte-cursor primitives: single bytes, little-endian scalars, and the
//! CRAM variable-length integer codes ITF-8 and uint7.

use vstd::prelude::*;

use crate::error::DecodeError;

verus! {

/// The little-endian 32-bit value laid out at `i` in `s`.
pub open spec fn le_u32_at(s: Seq<u8>, i: int) -> int {
    s[i] + s[i + 1] * 0x100 + s[i + 2] * 0x1_0000 + s[i + 3] * 0x100_0000
}

/// How many bytes the ITF-8 group starting with `b0` occupies.
pub open spec fn itf8_len(b0: u8) -> int {
    if b0 < 0x80 {
        1
    } else if b0 < 0xC0 {
        2
    } else if b0 < 0xE0 {
        3
    } else if b0 < 0xF0 {
        4
    } else {
        5
    }
}

/// The raw 32-bit value of the ITF-8 group laid out at `i` in `s`.
pub open spec fn itf8_at(s: Seq<u8>, i: int) -> int {
    let b0 = s[i];
    if b0 < 0x80 {
        b0 as int
    } else if b0 < 0xC0 {
        (b0 & 0x3F) * 0x100 + s[i + 1]
    } else if b0 < 0xE0 {
        (b0 & 0x1F) * 0x1_0000 + s[i + 1] * 0x100 + s[i + 2]
    } else if b0 < 0xF0 {
        (b0 & 0x0F) * 0x100_0000 + s[i + 1] * 0x1_0000 + s[i + 2] * 0x100 + s[i + 3]
    } else {
        (b0 & 0x0F) * 0x1000_0000 + s[i + 1] * 0x10_0000 + s[i + 2] * 0x1000 + s[i + 3] * 0x10
            + (s[i + 4] & 0x0F)
    }
}

/// Parses the uint7 group at `i` with accumulator `acc`: 7-bit big-endian
/// groups, high bit set on every byte but the last. Yields the value and the
/// index just past the group, or `None` on truncation.
pub open spec fn uint7_parse_rec(s: Seq<u8>, i: int, acc: int) -> Option<(int, int)>
    decreases s.len() - i,
{
    if i < 0 || i >= s.len() {
        None
    } else {
        let v = acc * 0x80 + (s[i] & 0x7F);
        if s[i] < 0x80 {
            Some((v, i + 1))
        } else {
            uint7_parse_rec(s, i + 1, v)
        }
    }
}

/// Parses the uint7 group at `i` in `s`.
pub open spec fn uint7_parse(s: Seq<u8>, i: int) -> Option<(int, int)> {
    uint7_parse_rec(s, i, 0)
}

/// Reads one byte and advances the cursor.
pub fn read_u8(src: &[u8], pos: &mut usize) -> (r: Result<u8, DecodeError>)
    ensures
        match r {
            Ok(b) => {
                &&& *old(pos) < src@.len()
                &&& b == src@[*old(pos) as int]
                &&& *final(pos) == *old(pos) + 1
            },
            Err(e) => {
                &&& e == DecodeError::Truncated
                &&& *final(pos) == *old(pos)
                &&& *old(pos) >= src@.len()
            },
        },
{
    if *pos < src.len() {
        let b = src[*pos];
        *pos = *pos + 1;
        Ok(b)
    } else {
        Err(DecodeError::Truncated)
    }
}

/// Reads a little-endian unsigned 32-bit integer.
pub fn read_u32_le(src: &[u8], pos: &mut usize) -> (r: Result<u32, DecodeError>)
    ensures
        match r {
            Ok(v) => {
                &&& *old(pos) + 4 <= src@.len()
                &&& v == le_u32_at(src@, *old(pos) as int)
                &&& *final(pos) == *old(pos) + 4
            },
            Err(e) => {
                &&& e == DecodeError::Truncated
                &&& *old(pos) + 4 > src@.len()
                &&& *final(pos) == *old(pos)
            },
        },
{
    if src.len() < 4 || *pos > src.len() - 4 {
        return Err(DecodeError::Truncated);
    }
    let b0 = src[*pos] as u32;
    let b1 = src[*pos + 1] as u32;
    let b2 = src[*pos + 2] as u32;
    let b3 = src[*pos + 3] as u32;
    *pos = *pos + 4;
    Ok(b0 + b1 * 0x100 + b2 * 0x1_0000 + b3 * 0x100_0000)
}

/// Reads an ITF-8 group and returns its raw 32-bit value.
pub fn read_itf8(src: &[u8], pos: &mut usize) -> (r: Result<u32, DecodeError>)
    ensures
        match r {
            Ok(v) => {
                &&& *old(pos) < src@.len()
                &&& *old(pos) + itf8_len(src@[*old(pos) as int]) <= src@.len()
                &&& v == itf8_at(src@, *old(pos) as int)
                &&& *final(pos) == *old(pos) + itf8_len(src@[*old(pos) as int])
            },
            Err(e) => {
                &&& e == DecodeError::Truncated
                &&& *final(pos) >= src@.len()
                &&& (*old(pos) >= src@.len() || *old(pos) + itf8_len(src@[*old(pos) as int])
                    > src@.len())
            },
        },
{
    let b0 = read_u8(src, pos)?;
    proof {
        assert((b0 & 0x3F) <= 0x3F && (b0 & 0x1F) <= 0x1F && (b0 & 0x0F) <= 0x0F) by (bit_vector);
    }
    if b0 < 0x80 {
        Ok(b0 as u32)
    } else if b0 < 0xC0 {
        let b1 = read_u8(src, pos)?;
        Ok(((b0 & 0x3F) as u32) * 0x100 + b1 as u32)
    } else if b0 < 0xE0 {
        let b1 = read_u8(src, pos)?;
        let b2 = read_u8(src, pos)?;
        Ok(((b0 & 0x1F) as u32) * 0x1_0000 + (b1 as u32) * 0x100 + b2 as u32)
    } else if b0 < 0xF0 {
        let b1 = read_u8(src, pos)?;
        let b2 = read_u8(src, pos)?;
        let b3 = read_u8(src, pos)?;
        Ok(((b0 & 0x0F) as u32) * 0x100_0000 + (b1 as u32) * 0x1_0000 + (b2 as u32) * 0x100
            + b3 as u32)
    } else {
        let b1 = read_u8(src, pos)?;
        let b2 = read_u8(src, pos)?;
        let b3 = read_u8(src, pos)?;
        let b4 = read_u8(src, pos)?;
        proof {
            assert((b4 & 0x0F) <= 0x0F) by (bit_vector);
        }
        Ok(((b0 & 0x0F) as u32) * 0x1000_0000 + (b1 as u32) * 0x10_0000 + (b2 as u32) * 0x1000 + (
        b3 as u32) * 0x10 + ((b4 & 0x0F) as u32))
    }
}

/// The value of 7-bit groups, least significant first.
pub open spec fn uint7_groups_val(groups: Seq<u8>) -> int
    decreases groups.len(),
{
    if groups.len() == 0 {
        0
    } else {
        uint7_groups_val(groups.drop_last()) + groups.last() * vstd::arithmetic::power::pow(
            0x80,
            (groups.len() - 1) as nat,
        )
    }
}

/// A successful uint7 parse stays within the byte sequence.
pub proof fn lemma_uint7_parse_range(s: Seq<u8>, i: int, acc: int)
    ensures
        match uint7_parse_rec(s, i, acc) {
            Some(v) => i >= 0 && i < v.1 <= s.len(),
            None => true,
        },
    decreases s.len() - i,
{
    if 0 <= i < s.len() {
        if s[i] >= 0x80 {
            lemma_uint7_parse_range(s, i + 1, acc * 0x80 + (s[i] & 0x7F));
        }
    }
}

/// A parse that succeeds reads only the bytes of its own group: any byte
/// sequence agreeing on that span parses alike.
pub proof fn lemma_uint7_parse_prefix(s1: Seq<u8>, s2: Seq<u8>, i: int, acc: int)
    requires
        uint7_parse_rec(s1, i, acc) is Some,
        uint7_parse_rec(s1, i, acc) matches Some(v) ==> v.1 <= s2.len(),
        forall|t: int|
            i <= t < uint7_parse_rec(s1, i, acc)->Some_0.1 ==> #[trigger] s2[t] == s1[t],
    ensures
        uint7_parse_rec(s2, i, acc) == uint7_parse_rec(s1, i, acc),
    decreases s1.len() - i,
{
    lemma_uint7_parse_range(s1, i, acc);
    if s1[i] >= 0x80 {
        lemma_uint7_parse_range(s1, i + 1, acc * 0x80 + (s1[i] & 0x7F));
        lemma_uint7_parse_prefix(s1, s2, i + 1, acc * 0x80 + (s1[i] & 0x7F));
    }
}

/// Parsing groups laid out most significant first, each with the
/// continuation bit but the last, yields their value.
pub proof fn lemma_uint7_parse_groups(s: Seq<u8>, start: int, groups: Seq<u8>, acc: int)
    requires
        0 <= start,
        start + groups.len() <= s.len(),
        groups.len() >= 1,
        0 <= acc,
        forall|j: int| 0 <= j < groups.len() ==> #[trigger] groups[j] < 0x80,
        forall|m: int|
            0 <= m < groups.len() - 1 ==> #[trigger] s[start + m] == (0x80 | groups[groups.len()
                - 1 - m]),
        s[start + groups.len() - 1] == groups[0],
    ensures
        uint7_parse_rec(s, start, acc) == Some(
            (
                acc * vstd::arithmetic::power::pow(0x80, groups.len() as nat) + uint7_groups_val(
                    groups,
                ),
                start + groups.len(),
            ),
        ),
    decreases groups.len(),
{
    let ln = groups.len() as int;
    if ln == 1 {
        let b = groups[0];
        assert(b < 0x80 ==> (b & 0x7F) == b) by (bit_vector);
        proof_pow_facts(0);
        assert(uint7_groups_val(groups.drop_last()) == 0);
        assert((groups.len() - 1) as nat == 0nat);
        assert(uint7_groups_val(groups) == b * vstd::arithmetic::power::pow(0x80, 0nat));
        assert(uint7_groups_val(groups) == b);
        assert(s[start] == b);
        assert(groups.len() as nat == (0 + 1) as nat);
        assert(vstd::arithmetic::power::pow(0x80, groups.len() as nat) == 0x80);
        assert(uint7_parse_rec(s, start, acc) == Some((acc * 0x80 + b, start + 1)));
    } else {
        let g = groups[ln - 1];
        assert(g < 0x80 ==> ((0x80u8 | g) >= 0x80 && ((0x80u8 | g) & 0x7F) == g)) by (bit_vector);
        assert(s[start + 0] == (0x80 | groups[ln - 1 - 0]));
        assert(s[start] == (0x80u8 | g));
        let acc1 = acc * 0x80 + g;
        assert(uint7_parse_rec(s, start, acc) == uint7_parse_rec(s, start + 1, acc1));
        let rest = groups.drop_last();
        assert(rest[0] == groups[0]);
        assert forall|m: int| 0 <= m < rest.len() - 1 implies #[trigger] s[start + 1 + m] == (
        0x80 | rest[rest.len() - 1 - m]) by {
            assert(s[start + (m + 1)] == (0x80 | groups[ln - 1 - (m + 1)]));
            assert(rest[rest.len() - 1 - m] == groups[ln - 2 - m]);
        }
        lemma_uint7_parse_groups(s, start + 1, rest, acc1);
        proof_uint7_value_step(acc, g, rest, groups);
    }
}

/// Base facts about powers of 128: positivity, the zero case, and one
/// unfolding step.
proof fn proof_pow_facts(e: nat)
    ensures
        vstd::arithmetic::power::pow(0x80, 0nat) == 1,
        vstd::arithmetic::power::pow(0x80, (e + 1) as nat) == 0x80
            * vstd::arithmetic::power::pow(0x80, e),
{
    vstd::arithmetic::power::lemma_pow0(0x80);
    vstd::arithmetic::power::lemma_pow1(0x80);
    vstd::arithmetic::power::lemma_pow_adds(0x80, 1nat, e);
    assert((e + 1) as nat == 1nat + e);
}

/// Arithmetic step of the group-value induction: folding the top group into
/// the accumulator keeps the combined value.
proof fn proof_uint7_value_step(acc: int, g: u8, rest: Seq<u8>, groups: Seq<u8>)
    requires
        0 <= acc,
        groups.len() >= 2,
        rest == groups.drop_last(),
        g == groups.last(),
    ensures
        (acc * 0x80 + g) * vstd::arithmetic::power::pow(0x80, rest.len() as nat)
            + uint7_groups_val(rest) == acc * vstd::arithmetic::power::pow(
            0x80,
            groups.len() as nat,
        ) + uint7_groups_val(groups),
{
    let p = vstd::arithmetic::power::pow(0x80, rest.len() as nat);
    proof_pow_facts(rest.len() as nat);
    assert(vstd::arithmetic::power::pow(0x80, groups.len() as nat) == 0x80 * p) by {
        assert((rest.len() + 1) as nat - 1 == rest.len() as nat);
        assert(vstd::arithmetic::power::pow(0x80, (rest.len() + 1) as nat) == 0x80
            * vstd::arithmetic::power::pow(0x80, rest.len() as nat));
    }
    assert(uint7_groups_val(groups) == uint7_groups_val(rest) + g * p);
    assert((acc * 0x80 + g) * p == (acc * 0x80) * p + g * p) by {
        vstd::arithmetic::mul::lemma_mul_is_distributive_add_other_way(p, acc * 0x80, g as int);
    }
    assert((acc * 0x80) * p == acc * (0x80 * p)) by {
        vstd::arithmetic::mul::lemma_mul_is_associative(acc, 0x80, p);
    }
}

/// A parsed uint7 value is at least the accumulator it grew from.
proof fn lemma_uint7_value_lower(s: Seq<u8>, i: int, acc: int)
    requires
        0 <= acc,
    ensures
        match uint7_parse_rec(s, i, acc) {
            Some(v) => v.0 >= acc,
            None => true,
        },
    decreases s.len() - i,
{
    if 0 <= i < s.len() {
        if s[i] >= 0x80 {
            lemma_uint7_value_lower(s, i + 1, acc * 0x80 + (s[i] & 0x7F));
        }
    }
}

/// Reads a uint7 varint. Values that do not fit in 62 bits are refused as
/// corrupt rather than wrapped.
pub fn read_uint7(src: &[u8], pos: &mut usize) -> (r: Result<u64, DecodeError>)
    ensures
        match r {
            Ok(v) => uint7_parse(src@, *old(pos) as int) == Some((v as int, *final(pos) as int)),
            Err(e) => {
                &&& (e == DecodeError::Truncated || e == DecodeError::CorruptStream)
                &&& e == DecodeError::Truncated ==> uint7_parse(src@, *old(pos) as int) is None
                    && *final(pos) >= src@.len()
                &&& e == DecodeError::CorruptStream ==> match uint7_parse(src@, *old(pos) as int) {
                    Some(v) => v.0 >= 0x80_0000_0000_0000,
                    None => true,
                }
            },
        },
{
    if *pos > src.len() {
        return Err(DecodeError::Truncated);
    }
    let mut acc: u64 = 0;
    loop
        invariant
            *old(pos) <= *pos <= src@.len(),
            acc < 0x4000_0000_0000_0000u64,
            uint7_parse(src@, *old(pos) as int) == uint7_parse_rec(src@, *pos as int, acc as int),
        decreases src@.len() - *pos,
    {
        let b = read_u8(src, pos)?;
        proof {
            assert((b & 0x7F) < 0x80) by (bit_vector);
            assert(b >= 0x80 ==> (b & 0x7F) == b - 0x80) by (bit_vector);
            assert(b < 0x80 ==> (b & 0x7F) == b) by (bit_vector);
        }
        if acc >= 0x80_0000_0000_0000u64 {
            proof {
                lemma_uint7_value_lower(src@, *pos - 1, acc as int);
            }
            return Err(DecodeError::CorruptStream);
        }
        let v = acc * 0x80 + (b & 0x7F) as u64;
        if b < 0x80 {
            return Ok(v);
        }
        acc = v;
    }
}

} // verus!
