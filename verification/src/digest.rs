//! Normalized reference digest: strip non-graphic bytes, uppercase letters,
//! then hash the result with MD5.

use vstd::prelude::*;

verus! {

/// The MD5 digest of `data`, as 16 bytes. The digest is a pure function of
/// the input alone; its definition is left to the hashing collaborator.
pub uninterp spec fn md5_of(data: Seq<u8>) -> Seq<u8>;

/// Whether `b` is a graphic ASCII byte, `!` through `~` inclusive.
pub open spec fn is_graphic(b: u8) -> bool {
    33 <= b <= 126
}

/// `b` with an ASCII lowercase letter mapped to its uppercase form.
pub open spec fn upper(b: u8) -> u8 {
    if 97 <= b <= 122 {
        (b - 32) as u8
    } else {
        b
    }
}

/// `s` with non-graphic bytes stripped and letters uppercased.
pub open spec fn normalize_spec(s: Seq<u8>) -> Seq<u8>
    decreases s.len(),
{
    if s.len() == 0 {
        Seq::empty()
    } else {
        let rest = normalize_spec(s.drop_last());
        if is_graphic(s.last()) {
            rest.push(upper(s.last()))
        } else {
            rest
        }
    }
}

/// Relies on `md5::Md5` (the `Digest::digest` one-shot interface): the MD5
/// digest of exactly the bytes given, 16 bytes long.
#[verifier::external_body]
fn md5_raw(data: &[u8]) -> (r: [u8; 16])
    ensures
        r@ == md5_of(data@),
{
    <md5::Md5 as md5::Digest>::digest(data).into()
}

/// Strips non-graphic bytes and uppercases letters.
pub fn normalize(sequence: &[u8]) -> (r: Vec<u8>)
    ensures
        r@ == normalize_spec(sequence@),
{
    let mut out: Vec<u8> = Vec::new();
    let mut i: usize = 0;
    while i < sequence.len()
        invariant
            i <= sequence@.len(),
            out@ == normalize_spec(sequence@.subrange(0, i as int)),
        decreases sequence@.len() - i,
    {
        let b = sequence[i];
        if b >= 33 && b <= 126 {
            if b >= 97 && b <= 122 {
                out.push(b - 32);
            } else {
                out.push(b);
            }
        }
        i = i + 1;
        proof {
            let sub = sequence@.subrange(0, i as int);
            assert(sub.drop_last() =~= sequence@.subrange(0, i - 1));
            assert(sub.last() == sequence@[i - 1]);
        }
    }
    proof {
        assert(sequence@.subrange(0, sequence@.len() as int) =~= sequence@);
    }
    out
}

/// Computes the normalized MD5 digest of a reference sequence: all bytes
/// outside `!`..=`~` are stripped, lowercase letters are uppercased, and the
/// result is hashed.
pub fn calculate_normalized_sequence_digest(sequence: &[u8]) -> (r: [u8; 16])
    ensures
        r@ == md5_of(normalize_spec(sequence@)),
{
    let normalized = normalize(sequence);
    md5_raw(normalized.as_slice())
}

/// Normalizing is idempotent: the normalized form is all graphic and has no
/// lowercase letters left, so a second pass changes nothing.
pub proof fn lemma_normalize_idempotent(s: Seq<u8>)
    ensures
        normalize_spec(normalize_spec(s)) == normalize_spec(s),
    decreases s.len(),
{
    if s.len() == 0 {
    } else {
        lemma_normalize_idempotent(s.drop_last());
        if is_graphic(s.last()) {
            let rest = normalize_spec(s.drop_last());
            let whole = rest.push(upper(s.last()));
            assert(whole.drop_last() =~= rest);
        }
    }
}

/// Law: the normalized digest of a sequence equals the normalized digest of
/// its already-stripped-and-uppercased form.
pub proof fn lemma_normalized_digest_of_normalized(s: Seq<u8>)
    ensures
        md5_of(normalize_spec(s)) == md5_of(normalize_spec(normalize_spec(s))),
{
    lemma_normalize_idempotent(s);
}

} // verus!
