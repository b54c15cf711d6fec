//! Slices: bounded groups of records under one reference context, with
//! mate linkage stitched inside the slice and the normalized reference
//! digest in the header.

use vstd::prelude::*;

use crate::digest::calculate_normalized_sequence_digest;
use crate::digest::md5_of;
use crate::digest::normalize_spec;
use crate::error::DecodeError;
use crate::position::Position;
use crate::record::FLAG_DETACHED;
use crate::record::FLAG_HAS_MATE_DOWNSTREAM;
use crate::record::Record;
use crate::refctx::Context;
use crate::refctx::ReferenceSequenceContext;
use crate::refctx::update_spec;

verus! {

/// BAM flag bit: the read is part of a multi-segment template.
pub const BAM_FLAG_SEGMENTED: u16 = 0x1;

/// BAM flag bit: the alignment is secondary.
pub const BAM_FLAG_SECONDARY: u16 = 0x100;

/// How many records one slice may hold.
pub const MAX_RECORD_COUNT: usize = 10240;

/// Why a record could not be added to a slice.
#[derive(Debug, PartialEq)]
pub enum AddRecordError {
    /// The slice already holds the maximum record count; the record is
    /// handed back.
    SliceFull(Record),
}

/// The read name, abstracted for specifications.
pub open spec fn name_view(n: Option<Vec<u8>>) -> Option<Seq<u8>> {
    match n {
        Some(v) => Some(v@),
        None => None,
    }
}

/// Whether a record takes part in mate linkage: segmented and not
/// secondary.
pub open spec fn mate_eligible(r: Record) -> bool {
    r.bam_flags & BAM_FLAG_SEGMENTED != 0 && r.bam_flags & BAM_FLAG_SECONDARY == 0
}

/// The first index at or after `j` whose record is eligible and carries the
/// given read name.
pub open spec fn mate_after(recs: Seq<Record>, name: Option<Seq<u8>>, j: int) -> Option<int>
    decreases recs.len() - j,
{
    if j < 0 || j >= recs.len() {
        None
    } else if mate_eligible(recs[j]) && name_view(recs[j].read_name) == name {
        Some(j)
    } else {
        mate_after(recs, name, j + 1)
    }
}

/// Whether some record at or after `lo` and before `j` links downstream to
/// `j`.
pub open spec fn has_upstream_mate_from(recs: Seq<Record>, j: int, lo: int) -> bool {
    exists|i: int|
        lo <= i < j && mate_eligible(recs[i]) && #[trigger] mate_after(
            recs,
            name_view(recs[i].read_name),
            i + 1,
        ) == Some(j)
}

/// What mate linkage makes of record `i`, with upstream links considered
/// from `lo` on: an eligible record with a later same-name mate points at it
/// and gains the downstream flag; otherwise it is detached; and a record
/// that some earlier record points at loses its detached flag.
pub open spec fn spec_mated_from(recs: Seq<Record>, i: int, lo: int) -> Record {
    let r = recs[i];
    let flagged = if mate_eligible(r) {
        match mate_after(recs, name_view(r.read_name), i + 1) {
            Some(j) => Record {
                cram_flags: r.cram_flags | FLAG_HAS_MATE_DOWNSTREAM,
                distance_to_next_fragment: Some((j - i - 1) as usize),
                ..r
            },
            None => Record { cram_flags: r.cram_flags | FLAG_DETACHED, ..r },
        }
    } else {
        Record { cram_flags: r.cram_flags | FLAG_DETACHED, ..r }
    };
    if has_upstream_mate_from(recs, i, lo) {
        Record { cram_flags: flagged.cram_flags & !FLAG_DETACHED, ..flagged }
    } else {
        flagged
    }
}

/// What mate linkage makes of record `i`.
pub open spec fn spec_mated(recs: Seq<Record>, i: int) -> Record {
    spec_mated_from(recs, i, 0)
}

proof fn lemma_upstream_split(recs: Seq<Record>, j: int, lo: int)
    requires
        0 <= lo < j,
    ensures
        has_upstream_mate_from(recs, j, lo) == (has_upstream_mate_from(recs, j, lo + 1) || (
        mate_eligible(recs[lo]) && mate_after(recs, name_view(recs[lo].read_name), lo + 1) == Some(
            j,
        ))),
{
    if has_upstream_mate_from(recs, j, lo) {
        let i0 = choose|i0: int|
            lo <= i0 < j && mate_eligible(recs[i0]) && #[trigger] mate_after(
                recs,
                name_view(recs[i0].read_name),
                i0 + 1,
            ) == Some(j);
        if i0 != lo {
            assert(has_upstream_mate_from(recs, j, lo + 1));
        }
    }
    if has_upstream_mate_from(recs, j, lo + 1) {
        assert(has_upstream_mate_from(recs, j, lo));
    }
    if mate_eligible(recs[lo]) && mate_after(recs, name_view(recs[lo].read_name), lo + 1) == Some(
        j,
    ) {
        assert(has_upstream_mate_from(recs, j, lo));
    }
}

/// Whether two byte vectors hold the same bytes.
fn bytes_eq(a: &Vec<u8>, b: &Vec<u8>) -> (r: bool)
    ensures
        r == (a@ == b@),
{
    if a.len() != b.len() {
        return false;
    }
    let mut i: usize = 0;
    while i < a.len()
        invariant
            a@.len() == b@.len(),
            i <= a@.len(),
            forall|t: int| 0 <= t < i ==> a@[t] == b@[t],
        decreases a@.len() - i,
    {
        if a[i] != b[i] {
            return false;
        }
        i = i + 1;
    }
    proof {
        assert(a@ =~= b@);
    }
    true
}

/// Whether two optional read names are equal.
fn name_eq(a: &Option<Vec<u8>>, b: &Option<Vec<u8>>) -> (r: bool)
    ensures
        r == (name_view(*a) == name_view(*b)),
{
    if a.is_none() && b.is_none() {
        return true;
    }
    if a.is_none() || b.is_none() {
        proof {
            assert(name_view(*a) != name_view(*b));
        }
        return false;
    }
    bytes_eq(a.as_ref().unwrap(), b.as_ref().unwrap())
}

/// Stitches mate linkage within a slice: each eligible record links to the
/// nearest later record with its read name, or is marked detached; linked
/// mates lose their detached flag. Only the record flags and the distance
/// field change.
pub fn set_mates(records: &mut Vec<Record>)
    requires
        old(records)@.len() >= 1,
    ensures
        final(records)@.len() == old(records)@.len(),
        forall|i: int|
            0 <= i < old(records)@.len() ==> #[trigger] final(records)@[i] == spec_mated(
                old(records)@,
                i,
            ),
{
    let ghost orig = records@;
    let n = records.len();
    let mut i: usize = n;
    while i > 0
        invariant
            records@.len() == n == orig.len(),
            i <= n,
            forall|t: int| 0 <= t < i ==> #[trigger] records@[t] == orig[t],
            forall|t: int|
                i <= t < n ==> #[trigger] records@[t] == spec_mated_from(orig, t, i as int),
        decreases i,
    {
        i = i - 1;
        proof {
            assert forall|t: int|
                i < t < n implies records@[t].bam_flags == orig[t].bam_flags && name_view(
                records@[t].read_name,
            ) == name_view(orig[t].read_name) by {
                assert(records@[t] == spec_mated_from(orig, t, i + 1));
            }
        }
        let flags = records[i].bam_flags;
        let eligible = (flags & BAM_FLAG_SEGMENTED != 0) && (flags & BAM_FLAG_SECONDARY == 0);
        let ghost nm = name_view(orig[i as int].read_name);
        if eligible {
            let mut found: Option<usize> = None;
            let mut j: usize = i + 1;
            while j < n && found.is_none()
                invariant
                    records@.len() == n == orig.len(),
                    i < j <= n,
                    nm == name_view(orig[i as int].read_name),
                    records@[i as int] == orig[i as int],
                    forall|t: int|
                        i < t < n ==> records@[t].bam_flags == orig[t].bam_flags && name_view(
                            #[trigger] records@[t].read_name,
                        ) == name_view(orig[t].read_name),
                    match found {
                        Some(f) => i < f < n && mate_after(orig, nm, i + 1) == Some(f as int),
                        None => mate_after(orig, nm, i + 1) == mate_after(orig, nm, j as int),
                    },
                decreases n - j, (if found is None {
                    1int
                } else {
                    0int
                }),
            {
                let cand_flags = records[j].bam_flags;
                let cand_eligible = (cand_flags & BAM_FLAG_SEGMENTED != 0) && (cand_flags
                    & BAM_FLAG_SECONDARY == 0);
                let mut hit = false;
                if cand_eligible {
                    hit = name_eq(&records[i].read_name, &records[j].read_name);
                }
                if hit {
                    proof {
                        assert(mate_eligible(orig[j as int]));
                        assert(name_view(orig[j as int].read_name) == nm);
                        assert(mate_after(orig, nm, j as int) == Some(j as int));
                    }
                    found = Some(j);
                } else {
                    proof {
                        assert(records@[j as int].bam_flags == orig[j as int].bam_flags);
                        assert(name_view(records@[j as int].read_name) == name_view(
                            orig[j as int].read_name,
                        ));
                        assert(name_view(records@[i as int].read_name) == nm);
                        assert(!(mate_eligible(orig[j as int]) && name_view(
                            orig[j as int].read_name,
                        ) == nm));
                        assert(mate_after(orig, nm, j as int) == mate_after(orig, nm, j + 1));
                    }
                    j = j + 1;
                }
            }
            match found {
                Some(j2) => {
                    let ghost pre = records@;
                    let c = records[i].cram_flags;
                    records[i].cram_flags = c | FLAG_HAS_MATE_DOWNSTREAM;
                    records[i].distance_to_next_fragment = Some(j2 - i - 1);
                    let cj = records[j2].cram_flags;
                    records[j2].cram_flags = cj & !FLAG_DETACHED;
                    proof {
                        assert(records@[i as int] == (Record {
                            cram_flags: orig[i as int].cram_flags | FLAG_HAS_MATE_DOWNSTREAM,
                            distance_to_next_fragment: Some((j2 - i - 1) as usize),
                            ..orig[i as int]
                        }));
                        assert(records@[j2 as int] == (Record {
                            cram_flags: spec_mated_from(orig, j2 as int, i + 1).cram_flags
                                & !FLAG_DETACHED,
                            ..spec_mated_from(orig, j2 as int, i + 1)
                        }));
                        lemma_set_mates_step_found(orig, records@, i as int, j2 as int);
                    }
                },
                None => {
                    let c = records[i].cram_flags;
                    records[i].cram_flags = c | FLAG_DETACHED;
                    proof {
                        lemma_set_mates_step_unfound(orig, records@, i as int, true);
                    }
                },
            }
        } else {
            let c = records[i].cram_flags;
            records[i].cram_flags = c | FLAG_DETACHED;
            proof {
                lemma_set_mates_step_unfound(orig, records@, i as int, false);
            }
        }
    }
}

proof fn lemma_set_mates_step_found(orig: Seq<Record>, cur: Seq<Record>, i: int, j: int)
    requires
        orig.len() == cur.len(),
        0 <= i < j < orig.len(),
        mate_eligible(orig[i]),
        mate_after(orig, name_view(orig[i].read_name), i + 1) == Some(j),
        cur[i] == (Record {
            cram_flags: orig[i].cram_flags | FLAG_HAS_MATE_DOWNSTREAM,
            distance_to_next_fragment: Some((j - i - 1) as usize),
            ..orig[i]
        }),
        cur[j] == (Record {
            cram_flags: spec_mated_from(orig, j, i + 1).cram_flags & !FLAG_DETACHED,
            ..spec_mated_from(orig, j, i + 1)
        }),
        forall|t: int|
            i < t < orig.len() && t != j ==> #[trigger] cur[t] == spec_mated_from(orig, t, i + 1),
    ensures
        forall|t: int| i <= t < orig.len() ==> #[trigger] cur[t] == spec_mated_from(orig, t, i),
{
    assert forall|t: int| i <= t < orig.len() implies #[trigger] cur[t] == spec_mated_from(
        orig,
        t,
        i,
    ) by {
        if t == i {
            assert(!has_upstream_mate_from(orig, i, i));
        } else {
            lemma_upstream_split(orig, t, i);
            if t == j {
                assert(has_upstream_mate_from(orig, j, i));
                let base = spec_mated_from(orig, j, i + 1);
                if has_upstream_mate_from(orig, j, i + 1) {
                    let f0 = if mate_eligible(orig[j]) {
                        match mate_after(orig, name_view(orig[j].read_name), j + 1) {
                            Some(_) => orig[j].cram_flags | FLAG_HAS_MATE_DOWNSTREAM,
                            None => orig[j].cram_flags | FLAG_DETACHED,
                        }
                    } else {
                        orig[j].cram_flags | FLAG_DETACHED
                    };
                    assert(base.cram_flags == f0 & !FLAG_DETACHED);
                    assert((f0 & !FLAG_DETACHED) & !FLAG_DETACHED == f0 & !FLAG_DETACHED)
                        by (bit_vector);
                }
            } else {
                assert(cur[t] == spec_mated_from(orig, t, i + 1));
                assert(!(mate_eligible(orig[i]) && mate_after(
                    orig,
                    name_view(orig[i].read_name),
                    i + 1,
                ) == Some(t)));
                assert(has_upstream_mate_from(orig, t, i) == has_upstream_mate_from(
                    orig,
                    t,
                    i + 1,
                ));
            }
        }
    }
}

proof fn lemma_set_mates_step_unfound(orig: Seq<Record>, cur: Seq<Record>, i: int, eligible: bool)
    requires
        orig.len() == cur.len(),
        0 <= i < orig.len(),
        eligible == mate_eligible(orig[i]),
        eligible ==> mate_after(orig, name_view(orig[i].read_name), i + 1) is None,
        cur[i] == (Record { cram_flags: orig[i].cram_flags | FLAG_DETACHED, ..orig[i] }),
        forall|t: int| 0 <= t < i ==> #[trigger] cur[t] == orig[t],
        forall|t: int| i < t < orig.len() ==> #[trigger] cur[t] == spec_mated_from(orig, t, i + 1),
    ensures
        forall|t: int| i <= t < orig.len() ==> #[trigger] cur[t] == spec_mated_from(orig, t, i),
{
    assert forall|t: int| i <= t < orig.len() implies #[trigger] cur[t] == spec_mated_from(
        orig,
        t,
        i,
    ) by {
        if t == i {
            assert(!has_upstream_mate_from(orig, i, i));
        } else {
            lemma_upstream_split(orig, t, i);
            assert(!(mate_eligible(orig[i]) && mate_after(orig, name_view(orig[i].read_name), i + 1)
                == Some(t)));
            assert(has_upstream_mate_from(orig, t, i) == has_upstream_mate_from(orig, t, i + 1));
        }
    }
}

/// A slice in decoded form: its header and the records it owns.
#[derive(Clone, Debug, PartialEq)]
pub struct Slice {
    /// The slice header.
    pub header: SliceHeader,
    /// The records of the slice, mate linkage stitched.
    pub records: Vec<Record>,
}

/// The header of a slice.
#[derive(Clone, Debug, PartialEq)]
pub struct SliceHeader {
    /// Where the slice's records align.
    pub reference_sequence_context: ReferenceSequenceContext,
    /// How many records the slice holds.
    pub record_count: usize,
    /// The index of the slice's first record in the whole stream.
    pub record_counter: u64,
    /// The normalized MD5 digest of the covered reference span, or sixteen
    /// zero bytes when there is no single span.
    pub reference_md5: Vec<u8>,
}

/// The record's inclusive alignment end: start plus read length, less one,
/// when that is a valid position.
pub open spec fn record_end_spec(r: Record) -> Option<Position> {
    match r.alignment_start {
        Some(p) => if p.spec_get() + r.read_length - 1 >= 1 {
            Some(Position::from_int(p.spec_get() + r.read_length - 1))
        } else {
            None
        },
        None => None,
    }
}

/// What adding a record does to a slice's reference context: the first
/// record seeds it, later records fold in through the usual update.
pub open spec fn added_context_spec(
    c: ReferenceSequenceContext,
    was_empty: bool,
    record: Record,
) -> ReferenceSequenceContext {
    if was_empty {
        match (record.reference_sequence_id, record.alignment_start, record_end_spec(record)) {
            (Some(id), Some(start), Some(end)) => ReferenceSequenceContext::Single(
                Context { reference_sequence_id: id, alignment_start: start, alignment_end: end },
            ),
            _ => ReferenceSequenceContext::Missing,
        }
    } else {
        update_spec(c, record.reference_sequence_id, record.alignment_start, record_end_spec(record))
    }
}

/// Computes the record's inclusive alignment end position.
fn alignment_end_position(record: &Record) -> (r: Option<Position>)
    requires
        match record.alignment_start {
            Some(p) => p.spec_get() + record.read_length <= usize::MAX,
            None => true,
        },
    ensures
        r == record_end_spec(*record),
{
    match &record.alignment_start {
        Some(p) => {
            let e = p.get() + record.read_length;
            Position::new(e - 1)
        },
        None => None,
    }
}

/// Accumulates records into a slice, tracking their shared reference
/// context.
pub struct Builder {
    /// The records added so far.
    pub records: Vec<Record>,
    /// Where those records align.
    pub reference_sequence_context: ReferenceSequenceContext,
}

impl Default for Builder {
    /// An empty slice under construction.
    fn default() -> (r: Builder)
        ensures
            r.records@.len() == 0,
            r.reference_sequence_context is Missing,
    {
        Builder { records: Vec::new(), reference_sequence_context: ReferenceSequenceContext::Missing }
    }
}

impl Builder {
    /// Whether no record has been added yet.
    pub fn is_empty(&self) -> (r: bool)
        ensures
            r == (self.records@.len() == 0),
    {
        self.records.len() == 0
    }

    /// The records added so far.
    pub fn records(&self) -> (r: &Vec<Record>)
        ensures
            r@ == self.records@,
    {
        &self.records
    }

    /// Where the records added so far align.
    pub fn reference_sequence_context(&self) -> (r: ReferenceSequenceContext)
        ensures
            r == self.reference_sequence_context,
    {
        self.reference_sequence_context
    }

    /// Adds a record, folding its placement into the context; a full slice
    /// refuses and hands the record back.
    pub fn add_record(&mut self, record: Record) -> (r: Result<(), AddRecordError>)
        requires
            match record.alignment_start {
                Some(p) => p.spec_get() + record.read_length <= usize::MAX,
                None => true,
            },
        ensures
            match r {
                Ok(()) => {
                    &&& old(self).records@.len() < MAX_RECORD_COUNT
                    &&& final(self).records@ == old(self).records@.push(record)
                    &&& final(self).reference_sequence_context == added_context_spec(
                        old(self).reference_sequence_context,
                        old(self).records@.len() == 0,
                        record,
                    )
                },
                Err(AddRecordError::SliceFull(rec)) => {
                    &&& old(self).records@.len() >= MAX_RECORD_COUNT
                    &&& rec == record
                    &&& *final(self) == *old(self)
                },
            },
    {
        if self.records.len() >= MAX_RECORD_COUNT {
            return Err(AddRecordError::SliceFull(record));
        }

        let end = alignment_end_position(&record);
        if self.records.len() == 0 {
            let has_all = record.reference_sequence_id.is_some() && record.alignment_start.is_some()
                && end.is_some();
            if has_all {
                let id = record.reference_sequence_id.unwrap();
                let start = record.alignment_start.unwrap();
                self.reference_sequence_context = ReferenceSequenceContext::some(
                    id,
                    start,
                    end.unwrap(),
                );
                proof {
                    assert(self.reference_sequence_context matches ReferenceSequenceContext::Single(
                        c,
                    ) && c == (Context {
                        reference_sequence_id: id,
                        alignment_start: start,
                        alignment_end: end.unwrap(),
                    }));
                }
            } else {
                self.reference_sequence_context = ReferenceSequenceContext::Missing;
            }
        } else {
            self.reference_sequence_context.update(
                record.reference_sequence_id,
                record.alignment_start,
                end,
            );
        }

        self.records.push(record);
        Ok(())
    }

    /// Finishes the slice: stitches mate linkage, counts the records, and
    /// computes the normalized digest of the covered reference span. The
    /// digest in the header is exactly the normalized MD5 of
    /// `reference[start..=end]` whenever the context is a single span.
    pub fn build(self, reference: &[u8], record_counter: u64) -> (r: Result<Slice, DecodeError>)
        requires
            self.records@.len() >= 1,
        ensures
            match r {
                Ok(s) => {
                    &&& s.records@.len() == self.records@.len()
                    &&& forall|i: int|
                        0 <= i < self.records@.len() ==> #[trigger] s.records@[i] == spec_mated(
                            self.records@,
                            i,
                        )
                    &&& s.header.reference_sequence_context == self.reference_sequence_context
                    &&& s.header.record_count == self.records@.len()
                    &&& s.header.record_counter == record_counter
                    &&& match self.reference_sequence_context {
                        ReferenceSequenceContext::Single(c) => {
                            &&& c.spec_start().spec_get() <= c.spec_end().spec_get()
                            &&& c.spec_end().spec_get() <= reference@.len()
                            &&& s.header.reference_md5@ == md5_of(
                                normalize_spec(
                                    reference@.subrange(
                                        c.spec_start().spec_get() - 1,
                                        c.spec_end().spec_get(),
                                    ),
                                ),
                            )
                        },
                        _ => s.header.reference_md5@ == Seq::new(16, |k: int| 0u8),
                    }
                },
                Err(e) => {
                    &&& e == DecodeError::InvalidReferenceSpan
                    &&& self.reference_sequence_context matches ReferenceSequenceContext::Single(c)
                        && (c.spec_start().spec_get() > c.spec_end().spec_get()
                        || c.spec_end().spec_get() > reference@.len())
                },
            },
    {
        let mut records = self.records;
        set_mates(&mut records);

        let reference_md5: Vec<u8>;
        match &self.reference_sequence_context {
            ReferenceSequenceContext::Single(c) => {
                let start = c.alignment_start().get();
                let end = c.alignment_end().get();
                if start > end || end > reference.len() {
                    return Err(DecodeError::InvalidReferenceSpan);
                }
                let mut seg: Vec<u8> = Vec::new();
                let mut k: usize = start - 1;
                while k < end
                    invariant
                        1 <= start <= end <= reference@.len(),
                        start - 1 <= k <= end,
                        seg@ == reference@.subrange(start - 1, k as int),
                    decreases end - k,
                {
                    seg.push(reference[k]);
                    k = k + 1;
                    proof {
                        assert(seg@ =~= reference@.subrange(start - 1, k as int));
                    }
                }
                let digest = calculate_normalized_sequence_digest(seg.as_slice());
                let mut md5: Vec<u8> = Vec::new();
                let mut t: usize = 0;
                while t < 16
                    invariant
                        md5@.len() == t <= 16,
                        forall|u: int| 0 <= u < t ==> #[trigger] md5@[u] == digest@[u],
                    decreases 16 - t,
                {
                    md5.push(digest[t]);
                    t = t + 1;
                }
                proof {
                    assert(md5@ =~= digest@);
                }
                reference_md5 = md5;
            },
            _ => {
                let mut md5: Vec<u8> = Vec::new();
                let mut t: usize = 0;
                while t < 16
                    invariant
                        md5@.len() == t <= 16,
                        forall|u: int| 0 <= u < t ==> #[trigger] md5@[u] == 0u8,
                    decreases 16 - t,
                {
                    md5.push(0);
                    t = t + 1;
                }
                proof {
                    assert(md5@ =~= Seq::new(16, |k: int| 0u8));
                }
                reference_md5 = md5;
            },
        }

        let record_count = records.len();
        Ok(
            Slice {
                header: SliceHeader {
                    reference_sequence_context: self.reference_sequence_context,
                    record_count,
                    record_counter,
                    reference_md5,
                },
                records,
            },
        )
    }
}

} // verus!
