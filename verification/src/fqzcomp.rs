//! The fqzcomp quality-score codec: a range-coded stream over adaptive
//! models chosen by a 16-bit context built from recent quality values,
//! position, delta and selector, as described by a per-stream parameter
//! block.

use vstd::prelude::*;

use crate::aac::Model;
use crate::aac::RangeCoder;
use crate::aac::RangeEncoder;
use crate::error::DecodeError;
use crate::num::read_u8;
use crate::num::read_uint7;
use crate::num::uint7_parse;
use crate::num::uint7_groups_val;
use crate::num::lemma_uint7_parse_groups;
use crate::num::lemma_uint7_parse_prefix;

verus! {

/// Parameter flag: runs of identical records are deduplicated.
pub const FLAG_DO_DEDUP: u8 = 2;

/// Parameter flag: each record's length is coded explicitly.
pub const FLAG_DO_LEN: u8 = 4;

/// Parameter flag: the selector joins the quality context.
pub const FLAG_DO_SEL: u8 = 8;

/// Parameter flag: quality symbols go through a value map.
pub const FLAG_HAVE_QMAP: u8 = 16;

/// Parameter flag: a position table joins the context.
pub const FLAG_HAVE_PTAB: u8 = 32;

/// Parameter flag: a delta table joins the context.
pub const FLAG_HAVE_DTAB: u8 = 64;

/// Parameter flag: quality values go through a context table.
pub const FLAG_HAVE_QTAB: u8 = 128;

/// Global flag: several parameter sets are present.
pub const GFLAG_MULTI_PARAM: u8 = 1;

/// Global flag: a selector-to-parameter table is present.
pub const GFLAG_HAVE_S_TAB: u8 = 2;

/// Global flag: records may be stored reversed.
pub const GFLAG_DO_REV: u8 = 4;

/// One parameter set: context seed, flags, and the small tables that shape
/// the per-byte context.
pub struct Parameter {
    /// The context seed.
    pub context: u16,
    /// The per-set flag bits.
    pub flags: u8,
    /// The largest quality symbol this set codes.
    pub max_sym: u8,
    /// How many context bits the quality history contributes.
    pub q_bits: u8,
    /// How far the quality history shifts per byte.
    pub q_shift: u8,
    /// Where the quality history sits in the context.
    pub q_loc: u8,
    /// Where the selector sits in the context.
    pub s_loc: u8,
    /// Where the position table value sits in the context.
    pub p_loc: u8,
    /// Where the delta table value sits in the context.
    pub d_loc: u8,
    /// Maps decoded symbols to output values.
    pub q_map: Vec<u8>,
    /// Maps quality values into the context history.
    pub q_tab: Vec<u8>,
    /// Maps remaining-length positions into the context.
    pub p_tab: Vec<u8>,
    /// Maps deltas into the context.
    pub d_tab: Vec<u8>,
    /// Nonzero until the first record length has been decoded.
    pub first_len: u8,
    /// The most recently decoded record length.
    pub last_len: usize,
}

impl Parameter {
    /// Table sizes are fixed and the context-shaping fields fit a nibble.
    pub open spec fn wf(self) -> bool {
        &&& self.q_map@.len() == 256
        &&& self.q_tab@.len() == 256
        &&& self.p_tab@.len() == 1024
        &&& self.d_tab@.len() == 256
        &&& self.last_len <= 0xFFFF_FFFF
        &&& self.q_bits <= 15
        &&& self.q_shift <= 15
        &&& self.q_loc <= 15
        &&& self.s_loc <= 15
        &&& self.p_loc <= 15
        &&& self.d_loc <= 15
    }

    /// An inert parameter set: identity tables, nothing enabled.
    pub fn blank() -> (p: Parameter)
        ensures
            p.wf(),
    {
        Parameter {
            context: 0,
            flags: 0,
            max_sym: 0,
            q_bits: 0,
            q_shift: 0,
            q_loc: 0,
            s_loc: 0,
            p_loc: 0,
            d_loc: 0,
            q_map: byte_table(256, false),
            q_tab: byte_table(256, false),
            p_tab: byte_table(1024, true),
            d_tab: byte_table(256, true),
            first_len: 1,
            last_len: 0,
        }
    }

    /// A field-for-field copy.
    pub fn duplicate(&self) -> (p: Parameter)
        ensures
            p.context == self.context,
            p.flags == self.flags,
            p.max_sym == self.max_sym,
            p.q_bits == self.q_bits,
            p.q_shift == self.q_shift,
            p.q_loc == self.q_loc,
            p.s_loc == self.s_loc,
            p.p_loc == self.p_loc,
            p.d_loc == self.d_loc,
            p.q_map@ == self.q_map@,
            p.q_tab@ == self.q_tab@,
            p.p_tab@ == self.p_tab@,
            p.d_tab@ == self.d_tab@,
            p.first_len == self.first_len,
            p.last_len == self.last_len,
    {
        Parameter {
            context: self.context,
            flags: self.flags,
            max_sym: self.max_sym,
            q_bits: self.q_bits,
            q_shift: self.q_shift,
            q_loc: self.q_loc,
            s_loc: self.s_loc,
            p_loc: self.p_loc,
            d_loc: self.d_loc,
            q_map: copy_bytes(&self.q_map),
            q_tab: copy_bytes(&self.q_tab),
            p_tab: copy_bytes(&self.p_tab),
            d_tab: copy_bytes(&self.d_tab),
            first_len: self.first_len,
            last_len: self.last_len,
        }
    }
}

/// A vector of `n` bytes: zeros, or the identity ramp truncated to 255.
fn byte_table(n: usize, zero: bool) -> (r: Vec<u8>)
    ensures
        r@.len() == n,
{
    let mut v: Vec<u8> = Vec::new();
    let mut i: usize = 0;
    while i < n
        invariant
            v@.len() == i <= n,
        decreases n - i,
    {
        if zero || i > 255 {
            v.push(0);
        } else {
            v.push(i as u8);
        }
        i = i + 1;
    }
    v
}

/// A fresh copy of a byte vector.
fn copy_bytes(v: &Vec<u8>) -> (r: Vec<u8>)
    ensures
        r@ == v@,
{
    let mut out: Vec<u8> = Vec::new();
    let mut i: usize = 0;
    while i < v.len()
        invariant
            i <= v@.len(),
            out@ == v@.subrange(0, i as int),
        decreases v@.len() - i,
    {
        out.push(v[i]);
        i = i + 1;
        proof {
            assert(out@ =~= v@.subrange(0, i as int));
        }
    }
    proof {
        assert(out@ =~= v@);
    }
    out
}

/// The decoded parameter block of one stream.
pub struct Parameters {
    /// The global flag bits.
    pub gflags: u8,
    /// The largest selector value.
    pub max_sel: u8,
    /// The largest quality symbol over all parameter sets.
    pub max_sym: u8,
    /// Maps a selector to a parameter set.
    pub s_tab: Vec<u8>,
    /// The parameter sets.
    pub params: Vec<Parameter>,
}

impl Parameters {
    /// The selector table always lands inside `params`.
    pub open spec fn wf(self) -> bool {
        &&& self.s_tab@.len() == 256
        &&& 1 <= self.params@.len() <= 256
        &&& forall|i: int| 0 <= i < self.params@.len() ==> (#[trigger] self.params@[i]).wf()
        &&& forall|i: int|
            0 <= i < 256 ==> (#[trigger] self.s_tab@[i] as int) < self.params@.len()
    }
}

/// Reads one run group from the gathered run bytes: runs of 255 chain into
/// the next byte.
fn read_run_length(runs: &Vec<u8>, j: &mut usize, n: usize) -> (r: Result<usize, DecodeError>)
    requires
        runs@.len() == n <= 0x10_0000,
        *old(j) <= n,
    ensures
        match r {
            Ok(rl) => *old(j) < *final(j) <= n && rl <= n * 0xFF,
            Err(e) => e == DecodeError::CorruptStream,
        },
{
    if *j >= n {
        return Err(DecodeError::CorruptStream);
    }
    let part0 = runs[*j];
    *j = *j + 1;
    let mut run_len: usize = part0 as usize;
    if part0 != 255 {
        return Ok(run_len);
    }
    loop
        invariant
            runs@.len() == n <= 0x10_0000,
            *old(j) < *j <= n,
            run_len <= *j * 0xFF,
        decreases n - *j,
    {
        if *j >= n {
            return Err(DecodeError::CorruptStream);
        }
        let part = runs[*j];
        *j = *j + 1;
        run_len = run_len + part as usize;
        if part != 255 {
            break ;
        }
    }
    Ok(run_len)
}

/// Reads a run-length-encoded table of `n` entries: each byte is a run of
/// the current value; a repeated run byte introduces a copy count; the
/// value increments after every run group.
pub fn read_array(src: &[u8], pos: &mut usize, n: usize) -> (r: Result<Vec<u8>, DecodeError>)
    requires
        n <= 0x10_0000,
    ensures
        match r {
            Ok(v) => {
                &&& v@.len() == n
                &&& *old(pos) <= *final(pos) <= src@.len()
                &&& exists|g: Seq<int>|
                    {
                        &&& g.len() == n
                        &&& (forall|t: int| 0 <= t < n ==> #[trigger] v@[t] == g[t] % 256)
                        &&& (forall|t: int| 0 <= t < n - 1 ==> #[trigger] g[t] <= g[t + 1])
                        &&& (forall|t: int| 0 <= t < n ==> #[trigger] g[t] >= 0)
                    }
            },
            Err(e) => {
                &&& (e == DecodeError::Truncated || e == DecodeError::CorruptStream)
                &&& e == DecodeError::Truncated ==> *final(pos) >= src@.len()
            },
        },
{
    if *pos > src.len() {
        return Err(DecodeError::Truncated);
    }
    let mut runs: Vec<u8> = byte_table(n, true);
    let mut j: usize = 0;
    let mut z: usize = 0;
    let mut last: u8 = 0;
    while z < n
        invariant
            runs@.len() == n <= 0x10_0000,
            j <= n,
            z <= n + 0xFF00,
            *old(pos) <= *pos <= src@.len(),
        decreases src@.len() - *pos,
    {
        let run = read_u8(src, pos)?;
        if j >= n {
            return Err(DecodeError::CorruptStream);
        }
        runs.set(j, run);
        j = j + 1;
        z = z + run as usize;
        if run == last {
            let copy = read_u8(src, pos)?;
            let mut c: usize = 0;
            while c < copy as usize
                invariant
                    runs@.len() == n,
                    j <= n,
                    c <= copy as usize,
                decreases copy as usize - c,
            {
                if j >= n {
                    return Err(DecodeError::CorruptStream);
                }
                runs.set(j, run);
                j = j + 1;
                c = c + 1;
            }
            proof {
                vstd::arithmetic::mul::lemma_mul_upper_bound(
                    run as int,
                    255,
                    copy as int,
                    255,
                );
                vstd::arithmetic::mul::lemma_mul_nonnegative(run as int, copy as int);
            }
            z = z + (run as usize) * (copy as usize);
        }
        last = run;
    }

    let mut a: Vec<u8> = byte_table(n, true);
    let ghost mut groups: Seq<int> = Seq::empty();
    let mut i: usize = 0;
    let mut j2: usize = 0;
    let mut z2: usize = 0;
    while z2 < n
        invariant
            a@.len() == n <= 0x10_0000,
            runs@.len() == n,
            j2 <= n,
            z2 <= n,
            groups.len() == z2,
            forall|t: int| 0 <= t < z2 ==> #[trigger] a@[t] == groups[t] % 256,
            forall|t: int| 0 <= t < z2 - 1 ==> #[trigger] groups[t] <= groups[t + 1],
            forall|t: int| 0 <= t < z2 ==> 0 <= #[trigger] groups[t] <= i,
        decreases n - j2,
    {
        let run_len = read_run_length(&runs, &mut j2, n)?;
        if run_len > n - z2 {
            return Err(DecodeError::CorruptStream);
        }
        let mut c: usize = 0;
        while c < run_len
            invariant
                a@.len() == n,
                c <= run_len,
                z2 + run_len <= n,
                z2 + c <= n,
                groups.len() == z2 + c,
                forall|t: int| 0 <= t < z2 + c ==> #[trigger] a@[t] == groups[t] % 256,
                forall|t: int| 0 <= t < z2 + c - 1 ==> #[trigger] groups[t] <= groups[t + 1],
                forall|t: int| 0 <= t < z2 + c ==> 0 <= #[trigger] groups[t] <= i,
            decreases run_len - c,
    {
            a.set(z2 + c, (i % 256) as u8);
            proof {
                groups = groups.push(i as int);
            }
            c = c + 1;
        }
        z2 = z2 + run_len;
        if i < usize::MAX {
            i = i + 1;
        }
    }
    proof {
        assert(groups.len() == n);
        assert((forall|t: int| 0 <= t < n ==> #[trigger] a@[t] == groups[t] % 256) && (forall|
            t: int,
        | 0 <= t < n - 1 ==> #[trigger] groups[t] <= groups[t + 1]) && (forall|t: int|
            0 <= t < n ==> #[trigger] groups[t] >= 0));
    }
    Ok(a)
}

/// Reads one parameter set.
fn fqz_decode_single_param(src: &[u8], pos: &mut usize) -> (r: Result<Parameter, DecodeError>)
    ensures
        match r {
            Ok(p) => p.wf(),
            Err(e) => {
                &&& (e == DecodeError::Truncated || e == DecodeError::CorruptStream)
                &&& e == DecodeError::Truncated ==> *final(pos) >= src@.len()
            },
        },
{
    let ctx_lo = read_u8(src, pos)?;
    let ctx_hi = read_u8(src, pos)?;
    let context: u16 = ctx_lo as u16 + 0x100 * (ctx_hi as u16);
    let flags = read_u8(src, pos)?;
    let max_sym = read_u8(src, pos)?;
    let x0 = read_u8(src, pos)?;
    let q_bits = x0 / 16;
    let q_shift = x0 % 16;
    let x1 = read_u8(src, pos)?;
    let q_loc = x1 / 16;
    let s_loc = x1 % 16;
    let x2 = read_u8(src, pos)?;
    let p_loc = x2 / 16;
    let d_loc = x2 % 16;

    let q_map: Vec<u8>;
    if flags & FLAG_HAVE_QMAP != 0 {
        let mut m = byte_table(256, true);
        let mut i: usize = 0;
        while i < max_sym as usize
            invariant
                m@.len() == 256,
                i <= max_sym as usize,
            decreases max_sym as usize - i,
        {
            let b = read_u8(src, pos)?;
            m.set(i, b);
            i = i + 1;
        }
        q_map = m;
    } else {
        q_map = byte_table(256, false);
    }

    let q_tab: Vec<u8>;
    if flags & FLAG_HAVE_QTAB != 0 {
        q_tab = read_array(src, pos, 256)?;
    } else {
        q_tab = byte_table(256, false);
    }

    let p_tab: Vec<u8>;
    if flags & FLAG_HAVE_PTAB != 0 {
        p_tab = read_array(src, pos, 1024)?;
    } else {
        p_tab = byte_table(1024, true);
    }

    let d_tab: Vec<u8>;
    if flags & FLAG_HAVE_DTAB != 0 {
        d_tab = read_array(src, pos, 256)?;
    } else {
        d_tab = byte_table(256, true);
    }

    Ok(
        Parameter {
            context,
            flags,
            max_sym,
            q_bits,
            q_shift,
            q_loc,
            s_loc,
            p_loc,
            d_loc,
            q_map,
            q_tab,
            p_tab,
            d_tab,
            first_len: 1,
            last_len: 0,
        },
    )
}

/// Reads the whole parameter block: version, global flags, the selector
/// table, and each parameter set.
fn fqz_decode_params(src: &[u8], pos: &mut usize) -> (r: Result<Parameters, DecodeError>)
    ensures
        match r {
            Ok(p) => p.wf(),
            Err(e) => {
                &&& (e == DecodeError::Truncated || e == DecodeError::CorruptStream)
                &&& e == DecodeError::Truncated ==> *final(pos) >= src@.len()
            },
        },
{
    let vers = read_u8(src, pos)?;
    if vers != 5 {
        return Err(DecodeError::CorruptStream);
    }
    let gflags = read_u8(src, pos)?;
    let n_param: usize = if gflags & GFLAG_MULTI_PARAM != 0 {
        read_u8(src, pos)? as usize
    } else {
        1
    };
    if n_param == 0 {
        return Err(DecodeError::CorruptStream);
    }
    let mut max_sel: u8 = if n_param > 1 {
        (n_param - 1) as u8
    } else {
        0
    };
    let s_tab: Vec<u8>;
    if gflags & GFLAG_HAVE_S_TAB != 0 {
        max_sel = read_u8(src, pos)?;
        let tab = read_array(src, pos, 256)?;
        let mut i: usize = 0;
        while i < 256
            invariant
                tab@.len() == 256,
                i <= 256,
                n_param >= 1,
                forall|t: int| 0 <= t < i ==> (#[trigger] tab@[t] as int) < n_param,
            decreases 256 - i,
        {
            if tab[i] as usize >= n_param {
                return Err(DecodeError::CorruptStream);
            }
            i = i + 1;
        }
        s_tab = tab;
    } else {
        let mut tab: Vec<u8> = Vec::new();
        let mut i: usize = 0;
        while i < 256
            invariant
                tab@.len() == i <= 256,
                1 <= n_param <= 256,
                forall|t: int| 0 <= t < i ==> (#[trigger] tab@[t] as int) < n_param,
            decreases 256 - i,
        {
            if i < n_param {
                tab.push(i as u8);
            } else {
                tab.push((n_param - 1) as u8);
            }
            i = i + 1;
        }
        s_tab = tab;
    }

    let mut params: Vec<Parameter> = Vec::new();
    let mut max_sym: u8 = 0;
    let mut k: usize = 0;
    while k < n_param
        invariant
            params@.len() == k <= n_param <= 256,
            forall|t: int| 0 <= t < k ==> (#[trigger] params@[t]).wf(),
        decreases n_param - k,
    {
        let p = fqz_decode_single_param(src, pos)?;
        if p.max_sym > max_sym {
            max_sym = p.max_sym;
        }
        params.push(p);
        k = k + 1;
    }

    Ok(Parameters { gflags, max_sel, max_sym, s_tab, params })
}

/// The model set of one stream: four length models, a quality model per
/// 16-bit context, and the duplicate, reverse and selector models.
pub struct Models {
    /// One model per record-length byte.
    pub len: Vec<Model>,
    /// One quality model per context.
    pub qual: Vec<Model>,
    /// Whether a record repeats the previous one.
    pub dup: Model,
    /// Whether a record is stored reversed.
    pub rev: Model,
    /// Which parameter set a record uses.
    pub sel: Model,
}

/// All models are well-formed and the fixed-size groups are complete.
pub open spec fn models_wf(m: Models) -> bool {
    &&& m.len@.len() == 4
    &&& forall|i: int| 0 <= i < 4 ==> (#[trigger] m.len@[i]).wf()
    &&& m.qual@.len() == 0x1_0000
    &&& forall|i: int| 0 <= i < 0x1_0000 ==> (#[trigger] m.qual@[i]).wf()
    &&& m.dup.wf()
    &&& m.rev.wf()
    &&& m.sel.wf()
}

/// Builds the fresh range coder and model set that decoding starts from.
pub fn fqz_create_models(parameters: &Parameters) -> (r: (RangeCoder, Models))
    ensures
        r.0.wf(),
        models_wf(r.1),
        forall|i: int| 0 <= i < 4 ==> (#[trigger] r.1.len@[i]).syms@.len() == 256,
        forall|i: int|
            0 <= i < 0x1_0000 ==> (#[trigger] r.1.qual@[i]).syms@.len() == parameters.max_sym
                + 1,
        r.1.dup.syms@.len() == 2,
        r.1.rev.syms@.len() == 2,
        r.1.sel.syms@.len() == parameters.max_sel + 1,
{
    let mut len_models: Vec<Model> = Vec::new();
    let mut i: usize = 0;
    while i < 4
        invariant
            len_models@.len() == i <= 4,
            forall|t: int| 0 <= t < i ==> (#[trigger] len_models@[t]).wf(),
            forall|t: int| 0 <= t < i ==> (#[trigger] len_models@[t]).syms@.len() == 256,
        decreases 4 - i,
    {
        len_models.push(Model::new(255));
        i = i + 1;
    }
    let mut qual: Vec<Model> = Vec::new();
    let mut k: usize = 0;
    while k < 0x1_0000
        invariant
            qual@.len() == k <= 0x1_0000,
            forall|t: int| 0 <= t < k ==> (#[trigger] qual@[t]).wf(),
            forall|t: int|
                0 <= t < k ==> (#[trigger] qual@[t]).syms@.len() == parameters.max_sym + 1,
        decreases 0x1_0000 - k,
    {
        qual.push(Model::new(parameters.max_sym));
        k = k + 1;
    }
    let models = Models {
        len: len_models,
        qual,
        dup: Model::new(1),
        rev: Model::new(1),
        sel: Model::new(parameters.max_sel),
    };
    (RangeCoder::new(), models)
}

/// Decoder state for the record being filled.
pub struct Record {
    /// How many records have started.
    pub rec: usize,
    /// The selector of this record.
    pub sel: u8,
    /// This record's length.
    pub rec_len: usize,
    /// Bytes of this record still to decode.
    pub pos: usize,
    /// Whether this record copies the previous one.
    pub is_dup: bool,
    /// The rolling quality-history context bits.
    pub qctx: u32,
    /// How many adjacent quality pairs differed, capped at 255.
    pub delta: u32,
    /// The previous quality symbol.
    pub prevq: u8,
}

impl Record {
    /// The state before any record.
    pub fn new() -> (r: Record)
        ensures
            r.rec == 0 && r.sel == 0 && r.rec_len == 0 && r.pos == 0 && !r.is_dup && r.qctx == 0
                && r.delta == 0 && r.prevq == 0,
    {
        Record {
            rec: 0,
            sel: 0,
            rec_len: 0,
            pos: 0,
            is_dup: false,
            qctx: 0,
            delta: 0,
            prevq: 0,
        }
    }
}

/// Decodes one model symbol held in a vector of models, at `idx`.
fn decode_model_at(
    models: &mut Vec<Model>,
    idx: usize,
    src: &[u8],
    pos: &mut usize,
    rc: &mut RangeCoder,
) -> (r: Result<u8, DecodeError>)
    requires
        idx < old(models)@.len(),
        (#[trigger] old(models)@[idx as int]).wf(),
        old(rc).wf(),
    ensures
        final(models)@.len() == old(models)@.len(),
        forall|t: int|
            0 <= t < old(models)@.len() && t != idx ==> #[trigger] final(models)@[t]
                == old(models)@[t],
        final(models)@[idx as int].wf(),
        final(models)@[idx as int].syms@.len() == old(models)@[idx as int].syms@.len(),
        r is Ok ==> final(rc).wf() && (r->Ok_0 as int) < old(models)@[idx as int].syms@.len(),
        r is Err ==> {
            &&& (r->Err_0 == DecodeError::Truncated || r->Err_0 == DecodeError::CorruptStream)
            &&& r->Err_0 == DecodeError::Truncated ==> *final(pos) >= src@.len()
        },
{
    let mut m = models[idx].duplicate();
    proof {
        assert(m.wf());
    }
    let res = m.decode(src, pos, rc);
    models.set(idx, m);
    res
}

/// Decodes a record length: four bytes, least significant first, each under
/// its own model.
fn decode_length(src: &[u8], pos: &mut usize, rc: &mut RangeCoder, models: &mut Models) -> (r:
    Result<u32, DecodeError>)
    requires
        models_wf(*old(models)),
        old(rc).wf(),
    ensures
        models_wf(*final(models)),
        final(models).qual@ == old(models).qual@,
        final(models).sel == old(models).sel,
        final(models).dup == old(models).dup,
        final(models).rev == old(models).rev,
        r is Ok ==> final(rc).wf(),
        r is Err ==> {
            &&& (r->Err_0 == DecodeError::Truncated || r->Err_0 == DecodeError::CorruptStream)
            &&& r->Err_0 == DecodeError::Truncated ==> *final(pos) >= src@.len()
        },
{
    let b0 = decode_model_at(&mut models.len, 0, src, pos, rc)? as u32;
    let b1 = decode_model_at(&mut models.len, 1, src, pos, rc)? as u32;
    let b2 = decode_model_at(&mut models.len, 2, src, pos, rc)? as u32;
    let b3 = decode_model_at(&mut models.len, 3, src, pos, rc)? as u32;
    Ok((b3 << 24) | (b2 << 16) | (b1 << 8) | b0)
}

proof fn lemma_shl_small(v: u32, s: u32)
    requires
        v < 0x8000,
        s <= 15,
    ensures
        (v << s) <= 0x3FFF_8000,
{
    assert(v < 0x8000 && s <= 15 ==> (v << s) <= 0x3FFF_8000) by (bit_vector);
}

proof fn lemma_shl_byte(v: u32, s: u32)
    requires
        v <= 0xFF,
        s <= 15,
    ensures
        (v << s) <= 0x7F_8000,
{
    assert(v <= 0xFF && s <= 15 ==> (v << s) <= 0x7F_8000) by (bit_vector);
}

proof fn lemma_shl_nibble_range(s: u32)
    requires
        s <= 15,
    ensures
        1 <= (1u32 << s) <= 0x8000,
{
    assert(s <= 15 ==> 1 <= (1u32 << s) <= 0x8000) by (bit_vector);
}

/// The next quality-history context: shifted left, mixed with the table
/// value for `q`, and kept to 16 bits.
pub open spec fn fqz_qctx_next(p: Parameter, q: u8, qctx: u32) -> u32 {
    (((qctx << (p.q_shift as u32)) as int % 0x10000 + p.q_tab@[q as int] as int) % 0x10000) as u32
}

/// The remaining-length index into the position table, capped at 1023.
pub open spec fn fqz_pos_index(r: Record) -> int {
    if r.pos < 1023 {
        r.pos as int
    } else {
        1023
    }
}

/// The delta index into the delta table, capped at 255.
pub open spec fn fqz_delta_index(r: Record) -> int {
    if r.delta < 255 {
        r.delta as int
    } else {
        255
    }
}

/// The 16-bit model context for the next quality byte: the parameter seed
/// plus the enabled quality-history, position, delta and selector parts.
pub open spec fn fqz_context_spec(p: Parameter, q: u8, r: Record) -> int {
    let qctx2 = fqz_qctx_next(p, q, r.qctx);
    let qpart = (qctx2 % (1u32 << (p.q_bits as u32))) << (p.q_loc as u32);
    let ppart: u32 = if p.flags & FLAG_HAVE_PTAB != 0 {
        (p.p_tab@[fqz_pos_index(r)] as u32) << (p.p_loc as u32)
    } else {
        0
    };
    let dpart: u32 = if p.flags & FLAG_HAVE_DTAB != 0 {
        (p.d_tab@[fqz_delta_index(r)] as u32) << (p.d_loc as u32)
    } else {
        0
    };
    let spart: u32 = if p.flags & FLAG_DO_SEL != 0 {
        (r.sel as u32) << (p.s_loc as u32)
    } else {
        0
    };
    (p.context as int + qpart as int + ppart as int + dpart as int + spart as int) % 0x10000
}

/// The record state after mixing `q` into the context.
pub open spec fn fqz_record_next(p: Parameter, q: u8, r: Record) -> Record {
    Record {
        qctx: fqz_qctx_next(p, q, r.qctx),
        delta: if p.flags & FLAG_HAVE_DTAB != 0 {
            if r.prevq != q {
                (r.delta + 1) as u32
            } else {
                r.delta
            }
        } else {
            r.delta
        },
        prevq: if p.flags & FLAG_HAVE_DTAB != 0 {
            q
        } else {
            r.prevq
        },
        ..r
    }
}

/// Folds one decoded quality into the record state and returns the context
/// under which the next quality will be decoded.
pub fn fqz_update_context(param: &Parameter, q: u8, record: &mut Record) -> (ctx: u16)
    requires
        param.wf(),
        old(record).delta < 0xFFFF_FFFF,
    ensures
        ctx as int == fqz_context_spec(*param, q, *old(record)),
        *final(record) == fqz_record_next(*param, q, *old(record)),
{
    let shifted: u32 = record.qctx << (param.q_shift as u32);
    let masked: u32 = shifted % 0x10000;
    let qctx2: u32 = (masked + param.q_tab[q as usize] as u32) % 0x10000;
    record.qctx = qctx2;

    proof {
        lemma_shl_nibble_range(param.q_bits as u32);
    }
    let window: u32 = 1u32 << (param.q_bits as u32);
    let qmasked: u32 = qctx2 % window;
    proof {
        lemma_shl_small(qmasked, param.q_loc as u32);
    }
    let qpart: u32 = qmasked << (param.q_loc as u32);
    let mut c: u32 = param.context as u32 + qpart;

    if param.flags & FLAG_HAVE_PTAB != 0 {
        let pidx: usize = if record.pos < 1023 {
            record.pos
        } else {
            1023
        };
        let pv = param.p_tab[pidx] as u32;
        proof {
            lemma_shl_byte(pv, param.p_loc as u32);
        }
        c = c + (pv << (param.p_loc as u32));
    }

    if param.flags & FLAG_HAVE_DTAB != 0 {
        let didx: usize = if record.delta < 255 {
            record.delta as usize
        } else {
            255
        };
        let dv = param.d_tab[didx] as u32;
        proof {
            lemma_shl_byte(dv, param.d_loc as u32);
        }
        c = c + (dv << (param.d_loc as u32));
        if record.prevq != q {
            record.delta = record.delta + 1;
        }
        record.prevq = q;
    }

    if param.flags & FLAG_DO_SEL != 0 {
        let sv = record.sel as u32;
        proof {
            lemma_shl_byte(sv, param.s_loc as u32);
        }
        c = c + (sv << (param.s_loc as u32));
    }

    (c % 0x10000) as u16
}

/// Starts a record: selector, parameter set, length, reverse flag and
/// duplicate flag. Returns the chosen parameter-set index.
fn fqz_new_record(
    src: &[u8],
    pos: &mut usize,
    parameters: &mut Parameters,
    rc: &mut RangeCoder,
    models: &mut Models,
    record: &mut Record,
    rev_len: &mut Vec<(bool, usize)>,
) -> (r: Result<usize, DecodeError>)
    requires
        old(parameters).wf(),
        models_wf(*old(models)),
        old(rc).wf(),
    ensures
        final(parameters).wf(),
        final(parameters).gflags == old(parameters).gflags,
        final(parameters).params@.len() == old(parameters).params@.len(),
        models_wf(*final(models)),
        old(parameters).max_sel == 0 ==> final(models).sel == old(models).sel,
        match r {
            Ok(x) => {
                &&& final(rc).wf()
                &&& (x as int) < final(parameters).params@.len()
                &&& final(record).pos == final(record).rec_len
                &&& final(record).rec_len <= 0xFFFF_FFFF
                &&& final(record).qctx == 0
                &&& final(record).delta == 0
                &&& final(record).prevq == 0
                &&& final(record).rec == (if old(record).rec < usize::MAX {
                    (old(record).rec + 1) as usize
                } else {
                    old(record).rec
                })
                &&& old(parameters).max_sel == 0 ==> x == 0 && final(record).sel == 0
                &&& if old(parameters).gflags & GFLAG_DO_REV != 0 {
                    exists|b: bool|
                        final(rev_len)@ == old(rev_len)@.push((b, final(record).rec_len))
                } else {
                    final(rev_len)@ == old(rev_len)@
                }
            },
            Err(e) => {
                &&& (e == DecodeError::Truncated || e == DecodeError::CorruptStream)
                &&& e == DecodeError::Truncated ==> *final(pos) >= src@.len()
            },
        },
{
    let mut sel: u8 = 0;
    let mut x: usize = 0;

    if parameters.max_sel > 0 {
        let mut m = models.sel.duplicate();
        proof {
            assert(m.wf());
        }
        let res = m.decode(src, pos, rc);
        models.sel = m;
        sel = res?;
        if parameters.gflags & GFLAG_HAVE_S_TAB != 0 {
            x = parameters.s_tab[sel as usize] as usize;
        }
    }
    record.sel = sel;

    let mut p = parameters.params[x].duplicate();
    proof {
        assert(parameters.params@[x as int].wf());
        assert(p.wf());
    }

    if (p.flags & FLAG_DO_LEN != 0) || p.first_len > 0 {
        let len = decode_length(src, pos, rc, models)?;
        p.last_len = len as usize;
        if p.flags & FLAG_DO_LEN == 0 {
            p.first_len = 0;
        }
    }

    record.rec_len = p.last_len;
    record.pos = record.rec_len;

    if parameters.gflags & GFLAG_DO_REV != 0 {
        let mut m = models.rev.duplicate();
        proof {
            assert(m.wf());
        }
        let res = m.decode(src, pos, rc);
        models.rev = m;
        let rev = res? == 1;
        rev_len.push((rev, record.rec_len));
    }

    if record.rec < usize::MAX {
        record.rec = record.rec + 1;
    }

    if p.flags & FLAG_DO_DEDUP != 0 {
        let mut m = models.dup.duplicate();
        proof {
            assert(m.wf());
        }
        let res = m.decode(src, pos, rc);
        models.dup = m;
        record.is_dup = res? == 1;
    }

    record.qctx = 0;
    record.delta = 0;
    record.prevq = 0;

    parameters.params.set(x, p);
    Ok(x)
}

/// How many bytes a reverse-flag list covers.
pub open spec fn lens_sum(rl: Seq<(bool, usize)>) -> int
    decreases rl.len(),
{
    if rl.len() == 0 {
        0
    } else {
        rl[0].1 + lens_sum(rl.drop_first())
    }
}

proof fn lemma_lens_sum_nonneg(rl: Seq<(bool, usize)>)
    ensures
        lens_sum(rl) >= 0,
    decreases rl.len(),
{
    if rl.len() > 0 {
        lemma_lens_sum_nonneg(rl.drop_first());
    }
}

/// `s` with the segment `[start, start + len)` reversed in place.
pub open spec fn reverse_segment(s: Seq<u8>, start: int, len: int) -> Seq<u8> {
    Seq::new(
        s.len(),
        |t: int|
            if start <= t < start + len {
                s[start + len - 1 - (t - start)]
            } else {
                s[t]
            },
    )
}

/// Applies each entry's optional reversal to consecutive segments starting
/// at `at`.
pub open spec fn apply_reversals(s: Seq<u8>, rl: Seq<(bool, usize)>, at: int) -> Seq<u8>
    decreases rl.len(),
{
    if rl.len() == 0 {
        s
    } else {
        let s1 = if rl[0].0 {
            reverse_segment(s, at, rl[0].1 as int)
        } else {
            s
        };
        apply_reversals(s1, rl.drop_first(), at + rl[0].1)
    }
}

/// Whether a prefix of the reversal list covers exactly `n` bytes, entry
/// by entry.
pub open spec fn tiles(rl: Seq<(bool, usize)>, n: int) -> bool
    decreases rl.len(),
{
    if n == 0 {
        true
    } else if rl.len() == 0 {
        false
    } else {
        rl[0].1 <= n && tiles(rl.drop_first(), n - rl[0].1)
    }
}

/// How many entries of the reversal list it takes to cover `n` bytes.
pub open spec fn tiling_len(rl: Seq<(bool, usize)>, n: int) -> int
    decreases rl.len(),
{
    if n <= 0 || rl.len() == 0 {
        0
    } else {
        1 + tiling_len(rl.drop_first(), n - rl[0].1)
    }
}

/// The tiling prefix is never longer than the list itself.
proof fn lemma_tiling_len_bounds(rl: Seq<(bool, usize)>, n: int)
    ensures
        0 <= tiling_len(rl, n) <= rl.len(),
    decreases rl.len(),
{
    if !(n <= 0 || rl.len() == 0) {
        lemma_tiling_len_bounds(rl.drop_first(), n - rl[0].1);
    }
}

/// A list whose lengths sum exactly to `n` covers `n` bytes.
proof fn lemma_exact_sum_tiles(rl: Seq<(bool, usize)>, n: int)
    requires
        lens_sum(rl) == n,
    ensures
        tiles(rl, n),
    decreases rl.len(),
{
    if n != 0 {
        lemma_lens_sum_nonneg(rl.drop_first());
        lemma_exact_sum_tiles(rl.drop_first(), n - rl[0].1);
    }
}

/// Reverses, in place, every record whose reverse flag is set. The
/// `(flag, length)` list must cover the first `qual_len` bytes exactly;
/// entries past that prefix are ignored.
pub fn reverse_qualities(qual: &mut Vec<u8>, qual_len: usize, rev_len: &Vec<(bool, usize)>)
    requires
        qual_len <= old(qual)@.len(),
        tiles(rev_len@, qual_len as int),
    ensures
        final(qual)@.len() == old(qual)@.len(),
        final(qual)@ == apply_reversals(
            old(qual)@,
            rev_len@.subrange(0, tiling_len(rev_len@, qual_len as int)),
            0,
        ),
{
    let ghost nn = rev_len@.len() as int;
    let ghost plan = rev_len@.subrange(0, tiling_len(rev_len@, qual_len as int));
    let ghost target = apply_reversals(old(qual)@, plan, 0);
    proof {
        lemma_tiling_len_bounds(rev_len@, qual_len as int);
        assert(rev_len@.subrange(0, nn) =~= rev_len@);
        assert(plan.subrange(0, plan.len() as int) =~= plan);
    }
    let n_recs = rev_len.len();
    let mut rec: usize = 0;
    let mut i: usize = 0;
    while i < qual_len
        invariant
            qual@.len() >= qual_len,
            qual@.len() == old(qual)@.len(),
            n_recs == rev_len@.len() == nn,
            rec <= n_recs,
            i <= qual_len,
            plan == rev_len@.subrange(0, tiling_len(rev_len@, qual_len as int)),
            target == apply_reversals(old(qual)@, plan, 0),
            tiles(rev_len@.subrange(rec as int, nn), qual_len - i),
            rec <= plan.len(),
            plan.len() - rec == tiling_len(rev_len@.subrange(rec as int, nn), qual_len - i),
            target == apply_reversals(qual@, plan.subrange(rec as int, plan.len() as int), i as int),
        decreases qual_len - i, n_recs - rec,
    {
        proof {
            lemma_tiling_len_bounds(rev_len@, qual_len as int);
            if rev_len@.subrange(rec as int, nn).len() == 0 {
                assert(false);
            }
            assert(rev_len@.subrange(rec as int, nn)[0] == rev_len@[rec as int]);
            assert(rev_len@.subrange(rec as int, nn).drop_first() =~= rev_len@.subrange(
                rec + 1,
                nn,
            ));
            lemma_tiling_len_bounds(
                rev_len@.subrange(rec + 1, nn),
                qual_len - i - rev_len@[rec as int].1,
            );
            assert(rec < plan.len());
            assert(plan[rec as int] == rev_len@[rec as int]);
            assert(plan.subrange(rec as int, plan.len() as int).drop_first() =~= plan.subrange(
                rec + 1,
                plan.len() as int,
            ));
            assert(plan.subrange(rec as int, plan.len() as int)[0] == plan[rec as int]);
        }
        let entry = rev_len[rec];
        let rev = entry.0;
        let len = entry.1;
        let ghost pre = qual@;
        if rev && len > 1 {
            let mut j: usize = 0;
            let mut k: usize = len - 1;
            while j < k
                invariant
                    qual@.len() == pre.len(),
                    i + len <= qual_len,
                    qual_len <= pre.len(),
                    2 <= len,
                    j + k == len - 1,
                    k <= len - 1,
                    forall|t: int|
                        i <= t < i + j ==> #[trigger] qual@[t] == pre[2 * (i as int) + len - 1
                            - t],
                    forall|t: int|
                        i + k < t < i + len ==> #[trigger] qual@[t] == pre[2 * (i as int) + len
                            - 1 - t],
                    forall|t: int| i + j <= t <= i + k ==> #[trigger] qual@[t] == pre[t],
                    forall|t: int|
                        0 <= t < pre.len() && !(i <= t < i + len) ==> #[trigger] qual@[t]
                            == pre[t],
                decreases k,
            {
                let a = qual[i + j];
                let b = qual[i + k];
                qual.set(i + j, b);
                qual.set(i + k, a);
                j = j + 1;
                k = k - 1;
            }
            proof {
                assert(qual@ =~= reverse_segment(pre, i as int, len as int));
            }
        } else {
            proof {
                if rev {
                    assert(reverse_segment(pre, i as int, len as int) =~= pre);
                }
            }
        }
        proof {
            let rest = plan.subrange(rec as int, plan.len() as int);
            assert(rest[0] == rev_len@[rec as int]);
            let s1 = if rev {
                reverse_segment(pre, i as int, len as int)
            } else {
                pre
            };
            assert(qual@ == s1);
            assert(apply_reversals(pre, rest, i as int) == apply_reversals(
                s1,
                rest.drop_first(),
                i + len,
            ));
        }
        i = i + len;
        rec = rec + 1;
    }
    proof {
        assert(plan.subrange(rec as int, plan.len() as int) =~= Seq::<(bool, usize)>::empty());
    }
}

/// Decodes one fqzcomp stream: the uint7 output length, the parameter
/// block, then the range-coded quality bytes. The output length always
/// equals the declared length.
pub fn fqz_decode(src: &[u8], pos: &mut usize) -> (r: Result<Vec<u8>, DecodeError>)
    ensures
        match r {
            Ok(out) => match uint7_parse(src@, *old(pos) as int) {
                Some(v) => out@.len() == v.0,
                None => false,
            },
            Err(e) => {
                &&& (e == DecodeError::Truncated || e == DecodeError::CorruptStream)
                &&& e == DecodeError::Truncated ==> *final(pos) >= src@.len()
            },
        },
{
    let buf_len64 = read_uint7(src, pos)?;
    if buf_len64 > usize::MAX as u64 {
        return Err(DecodeError::CorruptStream);
    }
    let buf_len = buf_len64 as usize;
    let mut parameters = fqz_decode_params(src, pos)?;
    let created = fqz_create_models(&parameters);
    let mut rc = created.0;
    let mut models = created.1;
    rc.range_decode_create(src, pos)?;

    let mut dst: Vec<u8> = byte_table(buf_len, true);
    let mut rev_len: Vec<(bool, usize)> = Vec::new();
    let mut record = Record::new();
    let mut cur = Parameter::blank();
    let mut x: usize = 0;
    let mut ctx: u16 = 0;
    let mut i: usize = 0;
    while i < buf_len
        invariant
            parameters.wf(),
            models_wf(models),
            rc.wf(),
            cur.wf(),
            dst@.len() == buf_len,
            i <= buf_len,
            record.rec_len <= 0xFFFF_FFFF,
            record.pos <= record.rec_len,
            record.delta as int <= record.rec_len - record.pos,
        decreases buf_len - i,
    {
        if record.pos == 0 {
            x = fqz_new_record(
                src,
                pos,
                &mut parameters,
                &mut rc,
                &mut models,
                &mut record,
                &mut rev_len,
            )?;
            if record.rec_len == 0 {
                return Err(DecodeError::CorruptStream);
            }
            if record.is_dup {
                if record.rec_len > i || record.rec_len > buf_len - i {
                    return Err(DecodeError::CorruptStream);
                }
                let rl = record.rec_len;
                let mut j: usize = 0;
                while j < rl
                    invariant
                        dst@.len() == buf_len,
                        j <= rl <= i,
                        i + rl <= buf_len,
                    decreases rl - j,
                {
                    let b = dst[i + j - rl];
                    dst.set(i + j, b);
                    j = j + 1;
                }
                i = i + rl;
                record.pos = 0;
                continue ;
            }
            cur = parameters.params[x].duplicate();
            proof {
                assert(parameters.params@[x as int].wf());
            }
            ctx = cur.context;
        }
        proof {
            assert(models.qual@[ctx as int].wf());
        }
        let q = decode_model_at(&mut models.qual, ctx as usize, src, pos, &mut rc)?;
        let b = if cur.flags & FLAG_HAVE_QMAP != 0 {
            cur.q_map[q as usize]
        } else {
            q
        };
        dst.set(i, b);
        ctx = fqz_update_context(&cur, q, &mut record);
        i = i + 1;
        record.pos = record.pos - 1;
    }

    if parameters.gflags & GFLAG_DO_REV != 0 {
        let n_entries = rev_len.len();
        proof {
            assert(rev_len@.subrange(0, rev_len@.len() as int) =~= rev_len@);
        }
        let mut acc: usize = 0;
        let mut t: usize = 0;
        while t < n_entries
            invariant
                t <= rev_len@.len() == n_entries,
                acc <= buf_len,
                dst@.len() == buf_len,
                lens_sum(rev_len@) == acc + lens_sum(
                    rev_len@.subrange(t as int, rev_len@.len() as int),
                ),
            decreases n_entries - t,
        {
            let entry = rev_len[t];
            let len = entry.1;
            if len > buf_len - acc {
                return Err(DecodeError::CorruptStream);
            }
            proof {
                let nn = rev_len@.len() as int;
                assert(rev_len@.subrange(t as int, nn).drop_first() =~= rev_len@.subrange(
                    t + 1,
                    nn,
                ));
            }
            acc = acc + len;
            t = t + 1;
        }
        if acc != buf_len {
            return Err(DecodeError::CorruptStream);
        }
        proof {
            lemma_exact_sum_tiles(rev_len@, buf_len as int);
        }
        reverse_qualities(&mut dst, buf_len, &rev_len);
    }
    Ok(dst)
}

/// Base facts about powers of 128: the zero case and one unfolding step.
proof fn proof_pow128_facts(e: nat)
    ensures
        vstd::arithmetic::power::pow(0x80, 0nat) == 1,
        vstd::arithmetic::power::pow(0x80, (e + 1) as nat) == 0x80
            * vstd::arithmetic::power::pow(0x80, e),
{
    vstd::arithmetic::power::lemma_pow0(0x80);
    vstd::arithmetic::power::lemma_pow1(0x80);
    vstd::arithmetic::power::lemma_pow_adds(0x80, 1nat, e);
    assert((e + 1) as nat == 1nat + e);
}

/// Pushing the next 7-bit group keeps the combined group-and-remainder
/// value: the group takes the weight the remainder loses.
proof fn proof_groups_push_step(xv: int, len: nat)
    requires
        0 <= xv,
    ensures
        (xv % 0x80) * vstd::arithmetic::power::pow(0x80, len) + (xv / 0x80)
            * vstd::arithmetic::power::pow(0x80, (len + 1) as nat) == xv
            * vstd::arithmetic::power::pow(0x80, len),
{
    let p = vstd::arithmetic::power::pow(0x80, len);
    proof_pow128_facts(len);
    vstd::arithmetic::div_mod::lemma_fundamental_div_mod(xv, 0x80);
    assert((xv / 0x80) * (0x80 * p) == ((xv / 0x80) * 0x80) * p) by {
        vstd::arithmetic::mul::lemma_mul_is_associative(xv / 0x80, 0x80, p);
    }
    assert(((xv / 0x80) * 0x80 + xv % 0x80) * p == ((xv / 0x80) * 0x80) * p + (xv % 0x80) * p)
        by {
        vstd::arithmetic::mul::lemma_mul_is_distributive_add_other_way(
            p,
            (xv / 0x80) * 0x80,
            xv % 0x80,
        );
    }
    assert(0x80 * (xv / 0x80) == (xv / 0x80) * 0x80) by {
        vstd::arithmetic::mul::lemma_mul_is_commutative(0x80, xv / 0x80);
    }
}

/// The total byte count of a record-length list.
pub open spec fn rec_lens_total(ls: Seq<usize>) -> int
    decreases ls.len(),
{
    if ls.len() == 0 {
        0
    } else {
        ls[0] + rec_lens_total(ls.drop_first())
    }
}

proof fn lemma_rec_lens_total_nonneg(ls: Seq<usize>)
    ensures
        rec_lens_total(ls) >= 0,
    decreases ls.len(),
{
    if ls.len() > 0 {
        lemma_rec_lens_total_nonneg(ls.drop_first());
    }
}

/// Encodes one model symbol held in a vector of models, at `idx`.
fn encode_model_at(
    models: &mut Vec<Model>,
    idx: usize,
    out: &mut Vec<u8>,
    rc: &mut RangeEncoder,
    sym: u8,
) -> (r: Result<(), DecodeError>)
    requires
        idx < old(models)@.len(),
        (#[trigger] old(models)@[idx as int]).wf(),
        old(rc).wf(),
    ensures
        final(models)@.len() == old(models)@.len(),
        forall|t: int|
            0 <= t < old(models)@.len() && t != idx ==> #[trigger] final(models)@[t]
                == old(models)@[t],
        final(models)@[idx as int].wf(),
        final(models)@[idx as int].syms@.len() == old(models)@[idx as int].syms@.len(),
        final(rc).wf(),
        (sym as int) < old(models)@[idx as int].syms@.len() ==> r is Ok,
        r is Err ==> r->Err_0 == DecodeError::CorruptStream,
{
    let mut m = models[idx].duplicate();
    proof {
        assert(m.wf());
    }
    let res = m.encode(out, rc, sym);
    models.set(idx, m);
    res
}

/// Encodes quality scores as one fqzcomp stream, the inverse of the
/// decoder: a uint7 length, a single parameter set with explicit record
/// lengths and no value map, then the range-coded bytes. The frame
/// declares the input's length.
pub fn fqz_encode(src: &[u8], lens: &Vec<usize>) -> (r: Result<Vec<u8>, DecodeError>)
    requires
        rec_lens_total(lens@) == src@.len(),
        forall|i: int| 0 <= i < lens@.len() ==> 1 <= #[trigger] lens@[i] <= 0xFFFF_FFFF,
    ensures
        match r {
            Ok(out) => match uint7_parse(out@, 0) {
                Some(v) => v.0 == src@.len(),
                None => false,
            },
            Err(e) => e == DecodeError::CorruptStream || e == DecodeError::Truncated,
        },
        src@.len() < 0x80_0000_0000_0000 ==> r is Ok,
{
    let n = src.len();

    let mut max_sym: u8 = 0;
    let mut t: usize = 0;
    while t < n
        invariant
            n == src@.len(),
            t <= n,
            forall|u: int| 0 <= u < t ==> #[trigger] src@[u] <= max_sym,
        decreases n - t,
    {
        if src[t] > max_sym {
            max_sym = src[t];
        }
        t = t + 1;
    }

    let mut out: Vec<u8> = Vec::new();

    let mut groups: Vec<u8> = Vec::new();
    let mut x = n as u64;
    groups.push((x % 0x80) as u8);
    proof {
        proof_pow128_facts(0);
        vstd::arithmetic::div_mod::lemma_fundamental_div_mod(x as int, 0x80);
        assert(uint7_groups_val(groups@.drop_last()) == 0);
    }
    x = x / 0x80;
    while x > 0
        invariant
            groups@.len() >= 1,
            forall|j: int| 0 <= j < groups@.len() ==> #[trigger] groups@[j] < 0x80,
            uint7_groups_val(groups@) + (x as int) * vstd::arithmetic::power::pow(
                0x80,
                groups@.len() as nat,
            ) == n as int,
        decreases x,
    {
        let ghost pre_groups = groups@;
        let ghost x0 = x as int;
        groups.push((x % 0x80) as u8);
        proof {
            vstd::arithmetic::div_mod::lemma_div_is_strictly_smaller(x as int, 0x80);
            vstd::arithmetic::div_mod::lemma_fundamental_div_mod(x as int, 0x80);
            assert(groups@.drop_last() =~= pre_groups);
            proof_groups_push_step(x0, pre_groups.len() as nat);
        }
        x = x / 0x80;
    }
    let ghost gl = groups@.len() as int;
    proof {
        assert(uint7_groups_val(groups@) == n as int);
    }
    let mut k = groups.len();
    while k > 1
        invariant
            groups@.len() == gl >= 1,
            1 <= k <= gl,
            forall|j: int| 0 <= j < gl ==> #[trigger] groups@[j] < 0x80,
            out@.len() == gl - k,
            forall|m: int| 0 <= m < gl - k ==> #[trigger] out@[m] == (0x80 | groups@[gl - 1 - m]),
        decreases k,
    {
        k = k - 1;
        out.push(0x80 | groups[k]);
    }
    out.push(groups[0]);
    proof {
        lemma_uint7_parse_groups(out@, 0, groups@, 0);
        assert(uint7_parse(out@, 0) == Some((n as int, gl)));
    }
    let ghost u7 = out@;

    out.push(5);
    out.push(0);
    out.push(0);
    out.push(0);
    out.push(FLAG_DO_LEN);
    out.push(max_sym);
    out.push(0);
    out.push(0);
    out.push(0);
    proof {
        assert(forall|t2: int| 0 <= t2 < u7.len() ==> #[trigger] out@[t2] == u7[t2]);
    }
    let ghost header = out@;

    let mut len_models: Vec<Model> = Vec::new();
    let mut i: usize = 0;
    while i < 4
        invariant
            len_models@.len() == i <= 4,
            forall|j: int| 0 <= j < i ==> (#[trigger] len_models@[j]).wf(),
            forall|j: int| 0 <= j < i ==> (#[trigger] len_models@[j]).syms@.len() == 256,
        decreases 4 - i,
    {
        len_models.push(Model::new(255));
        i = i + 1;
    }
    let mut qual: Vec<Model> = Vec::new();
    let mut i2: usize = 0;
    while i2 < 0x1_0000
        invariant
            qual@.len() == i2 <= 0x1_0000,
            forall|j: int| 0 <= j < i2 ==> (#[trigger] qual@[j]).wf(),
            forall|j: int| 0 <= j < i2 ==> (#[trigger] qual@[j]).syms@.len() == max_sym + 1,
        decreases 0x1_0000 - i2,
    {
        qual.push(Model::new(max_sym));
        i2 = i2 + 1;
    }
    let mut rc = RangeEncoder::new();
    let mut body: Vec<u8> = Vec::new();

    let n_recs = lens.len();
    proof {
        assert(lens@.subrange(0, n_recs as int) =~= lens@);
    }
    let mut pos: usize = 0;
    let mut rec: usize = 0;
    while rec < n_recs
        invariant
            n == src@.len(),
            n_recs == lens@.len(),
            rec <= n_recs,
            pos <= n,
            len_models@.len() == 4,
            forall|j: int| 0 <= j < 4 ==> (#[trigger] len_models@[j]).wf(),
            forall|j: int| 0 <= j < 4 ==> (#[trigger] len_models@[j]).syms@.len() == 256,
            qual@.len() == 0x1_0000,
            forall|j: int| 0 <= j < 0x1_0000 ==> (#[trigger] qual@[j]).wf(),
            forall|j: int| 0 <= j < 0x1_0000 ==> (#[trigger] qual@[j]).syms@.len() == max_sym
                + 1,
            forall|u: int| 0 <= u < n ==> #[trigger] src@[u] <= max_sym,
            rc.wf(),
            out@ == header,
            uint7_parse(u7, 0) == Some((n as int, gl)),
            gl == u7.len() <= header.len(),
            forall|t2: int| 0 <= t2 < u7.len() ==> #[trigger] header[t2] == u7[t2],
            pos as int + rec_lens_total(lens@.subrange(rec as int, n_recs as int)) == n as int,
            forall|j: int| 0 <= j < lens@.len() ==> 1 <= #[trigger] lens@[j] <= 0xFFFF_FFFF,
        decreases n_recs - rec,
    {
        proof {
            assert(lens@.subrange(rec as int, n_recs as int).drop_first() =~= lens@.subrange(
                rec + 1,
                n_recs as int,
            ));
            assert(lens@.subrange(rec as int, n_recs as int)[0] == lens@[rec as int]);
            lemma_rec_lens_total_nonneg(lens@.subrange(rec + 1, n_recs as int));
        }
        let ln = lens[rec];
        let l64 = ln as u64;
        encode_model_at(&mut len_models, 0, &mut body, &mut rc, (l64 % 0x100) as u8)?;
        encode_model_at(&mut len_models, 1, &mut body, &mut rc, ((l64 / 0x100) % 0x100) as u8)?;
        encode_model_at(
            &mut len_models,
            2,
            &mut body,
            &mut rc,
            ((l64 / 0x1_0000) % 0x100) as u8,
        )?;
        encode_model_at(&mut len_models, 3, &mut body, &mut rc, (l64 / 0x100_0000) as u8)?;

        let ghost pos0 = pos;
        let mut b: usize = 0;
        while b < ln
            invariant
                n == src@.len(),
                b <= ln,
                pos == pos0 + b,
                pos + (ln - b) <= n,
                len_models@.len() == 4,
                forall|j: int| 0 <= j < 4 ==> (#[trigger] len_models@[j]).wf(),
                forall|j: int| 0 <= j < 4 ==> (#[trigger] len_models@[j]).syms@.len() == 256,
                qual@.len() == 0x1_0000,
                forall|j: int| 0 <= j < 0x1_0000 ==> (#[trigger] qual@[j]).wf(),
                forall|j: int|
                    0 <= j < 0x1_0000 ==> (#[trigger] qual@[j]).syms@.len() == max_sym + 1,
                forall|u: int| 0 <= u < n ==> #[trigger] src@[u] <= max_sym,
                rc.wf(),
            decreases ln - b,
        {
            let q = src[pos];
            proof {
                assert(qual@[0].wf());
            }
            encode_model_at(&mut qual, 0, &mut body, &mut rc, q)?;
            pos = pos + 1;
            b = b + 1;
        }
        rec = rec + 1;
    }

    rc.finish(&mut body);
    out.append(&mut body);
    proof {
        assert(forall|t2: int| 0 <= t2 < u7.len() ==> #[trigger] out@[t2] == u7[t2]);
        lemma_uint7_parse_prefix(u7, out@, 0, 0);
        assert(uint7_parse(out@, 0) == Some((n as int, gl)));
    }

    let mut chk: usize = 0;
    let parsed = read_uint7(out.as_slice(), &mut chk)?;
    if parsed != n as u64 {
        proof {
            assert(false);
        }
        return Err(DecodeError::CorruptStream);
    }
    Ok(out)
}

} // verus!
