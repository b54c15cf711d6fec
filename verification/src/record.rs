//! A decoded alignment record and its builder.

use vstd::prelude::*;

use crate::position::Position;

verus! {

/// BAM flag bit: the segment is unmapped.
pub const BAM_FLAG_UNMAPPED: u16 = 0x4;

/// Record flag bit: quality scores are stored as an array.
pub const FLAG_QUALITY_SCORES_STORED_AS_ARRAY: u8 = 0x01;

/// Record flag bit: the mate is detached, with explicit coordinates.
pub const FLAG_DETACHED: u8 = 0x02;

/// Record flag bit: the mate is the record `distance + 1` further on in the
/// same slice.
pub const FLAG_HAS_MATE_DOWNSTREAM: u8 = 0x04;

/// Record flag bit: the sequence decodes as unknown.
pub const FLAG_DECODE_SEQUENCE_AS_UNKNOWN: u8 = 0x08;

/// A raw auxiliary tag: two-character key, type code, and value bytes.
#[derive(Clone, Debug, PartialEq, Eq)]
pub struct Tag {
    /// The first key character.
    pub key0: u8,
    /// The second key character.
    pub key1: u8,
    /// The value type code.
    pub ty: u8,
    /// The raw value bytes.
    pub value: Vec<u8>,
}

/// One read feature: an edit against the reference at a read position.
#[derive(Clone, Debug, PartialEq, Eq)]
pub enum Feature {
    /// A read base differing from the reference, by substitution code.
    Substitution(usize, u8),
    /// Bases inserted into the read.
    Insertion(usize, Vec<u8>),
    /// Reference bases deleted from the read.
    Deletion(usize, usize),
    /// A single inserted base.
    InsertBase(usize, u8),
    /// Bases soft-clipped from the alignment.
    SoftClip(usize, Vec<u8>),
    /// A skipped stretch of reference.
    ReferenceSkip(usize, usize),
    /// Bases hard-clipped away.
    HardClip(usize, usize),
    /// Silent padding.
    Padding(usize, usize),
    /// An explicit base with its quality.
    ReadBase(usize, u8, u8),
    /// An explicit quality score.
    QualityScore(usize, u8),
}

/// A decoded alignment record.
#[derive(Clone, Debug, PartialEq, Eq)]
pub struct Record {
    /// The record id within its container.
    pub id: i64,
    /// The BAM flag bits.
    pub bam_flags: u16,
    /// The CRAM-specific flag bits.
    pub cram_flags: u8,
    /// Which reference the record aligns to, if mapped.
    pub reference_sequence_id: Option<usize>,
    /// The read length.
    pub read_length: usize,
    /// The 1-based alignment start, if mapped.
    pub alignment_start: Option<Position>,
    /// The read group, if any.
    pub read_group_id: Option<usize>,
    /// The read name, if preserved.
    pub read_name: Option<Vec<u8>>,
    /// The next mate's flag bits.
    pub next_mate_flags: u8,
    /// The mate's reference, when detached.
    pub next_fragment_reference_sequence_id: Option<usize>,
    /// The mate's alignment start, when detached.
    pub next_mate_alignment_start: Option<Position>,
    /// The template size.
    pub template_size: i32,
    /// How many records further on the mate sits, less one.
    pub distance_to_next_fragment: Option<usize>,
    /// The auxiliary tags.
    pub tags: Vec<Tag>,
    /// The read bases.
    pub bases: Vec<u8>,
    /// The read features.
    pub features: Vec<Feature>,
    /// The mapping quality, if mapped.
    pub mapping_quality: Option<u8>,
    /// The per-base quality scores.
    pub quality_scores: Vec<u8>,
}

impl Record {
    /// The record's alignment end: start plus the reference length of its
    /// features, less one. Here the reference length is the read length;
    /// feature-aware spans belong to the consumer of the feature list.
    pub fn alignment_end(&self) -> (r: Option<usize>)
        requires
            match self.alignment_start {
                Some(p) => p.spec_get() + self.read_length <= usize::MAX,
                None => true,
            },
        ensures
            match self.alignment_start {
                Some(p) => r == Some((p.spec_get() + self.read_length - 1) as usize),
                None => r is None,
            },
    {
        match self.alignment_start {
            Some(p) => Some(p.get() + self.read_length - 1),
            None => None,
        }
    }

    /// Whether the record is marked unmapped.
    pub fn is_unmapped(&self) -> (r: bool)
        ensures
            r == (self.bam_flags & BAM_FLAG_UNMAPPED != 0),
    {
        self.bam_flags & BAM_FLAG_UNMAPPED != 0
    }
}

/// Builds a record field by field; unset fields keep their defaults.
pub struct Builder {
    /// The record being built.
    pub record: Record,
}

impl Builder {
    /// Sets the record id.
    pub fn set_id(self, id: i64) -> (r: Builder)
        ensures
            r.record == (Record { id, ..self.record }),
    {
        Builder { record: Record { id, ..self.record } }
    }

    /// Sets the BAM flags.
    pub fn set_bam_flags(self, bam_flags: u16) -> (r: Builder)
        ensures
            r.record == (Record { bam_flags, ..self.record }),
    {
        Builder { record: Record { bam_flags, ..self.record } }
    }

    /// Sets the CRAM flags.
    pub fn set_flags(self, cram_flags: u8) -> (r: Builder)
        ensures
            r.record == (Record { cram_flags, ..self.record }),
    {
        Builder { record: Record { cram_flags, ..self.record } }
    }

    /// Sets the reference sequence id.
    pub fn set_reference_sequence_id(self, reference_sequence_id: usize) -> (r: Builder)
        ensures
            r.record == (Record {
                reference_sequence_id: Some(reference_sequence_id),
                ..self.record
            }),
    {
        Builder {
            record: Record { reference_sequence_id: Some(reference_sequence_id), ..self.record },
        }
    }

    /// Sets the read length.
    pub fn set_read_length(self, read_length: usize) -> (r: Builder)
        ensures
            r.record == (Record { read_length, ..self.record }),
    {
        Builder { record: Record { read_length, ..self.record } }
    }

    /// Sets the alignment start.
    pub fn set_alignment_start(self, alignment_start: Position) -> (r: Builder)
        ensures
            r.record == (Record { alignment_start: Some(alignment_start), ..self.record }),
    {
        Builder { record: Record { alignment_start: Some(alignment_start), ..self.record } }
    }

    /// Sets the read group id.
    pub fn set_read_group_id(self, read_group_id: usize) -> (r: Builder)
        ensures
            r.record == (Record { read_group_id: Some(read_group_id), ..self.record }),
    {
        Builder { record: Record { read_group_id: Some(read_group_id), ..self.record } }
    }

    /// Sets the read name.
    pub fn set_read_name(self, read_name: Vec<u8>) -> (r: Builder)
        ensures
            r.record == (Record { read_name: Some(read_name), ..self.record }),
    {
        Builder { record: Record { read_name: Some(read_name), ..self.record } }
    }

    /// Sets the next mate's flags.
    pub fn set_next_mate_flags(self, next_mate_flags: u8) -> (r: Builder)
        ensures
            r.record == (Record { next_mate_flags, ..self.record }),
    {
        Builder { record: Record { next_mate_flags, ..self.record } }
    }

    /// Sets the next fragment's reference sequence id.
    pub fn set_next_fragment_reference_sequence_id(self, id: usize) -> (r: Builder)
        ensures
            r.record == (Record {
                next_fragment_reference_sequence_id: Some(id),
                ..self.record
            }),
    {
        Builder {
            record: Record { next_fragment_reference_sequence_id: Some(id), ..self.record },
        }
    }

    /// Sets the next mate's alignment start.
    pub fn set_next_mate_alignment_start(self, start: Position) -> (r: Builder)
        ensures
            r.record == (Record { next_mate_alignment_start: Some(start), ..self.record }),
    {
        Builder { record: Record { next_mate_alignment_start: Some(start), ..self.record } }
    }

    /// Sets the template size.
    pub fn set_template_size(self, template_size: i32) -> (r: Builder)
        ensures
            r.record == (Record { template_size, ..self.record }),
    {
        Builder { record: Record { template_size, ..self.record } }
    }

    /// Sets the distance to the next fragment.
    pub fn set_distance_to_next_fragment(self, distance: usize) -> (r: Builder)
        ensures
            r.record == (Record { distance_to_next_fragment: Some(distance), ..self.record }),
    {
        Builder { record: Record { distance_to_next_fragment: Some(distance), ..self.record } }
    }

    /// Replaces the tag list.
    pub fn set_tags(self, tags: Vec<Tag>) -> (r: Builder)
        ensures
            r.record == (Record { tags, ..self.record }),
    {
        Builder { record: Record { tags, ..self.record } }
    }

    /// Appends one tag.
    pub fn add_tag(self, tag: Tag) -> (r: Builder)
        ensures
            r.record.tags@ == self.record.tags@.push(tag),
            r.record == (Record { tags: r.record.tags, ..self.record }),
    {
        let mut record = self.record;
        record.tags.push(tag);
        Builder { record }
    }

    /// Replaces the read bases.
    pub fn set_bases(self, bases: Vec<u8>) -> (r: Builder)
        ensures
            r.record == (Record { bases, ..self.record }),
    {
        Builder { record: Record { bases, ..self.record } }
    }

    /// Appends one base.
    pub fn add_base(self, base: u8) -> (r: Builder)
        ensures
            r.record.bases@ == self.record.bases@.push(base),
            r.record == (Record { bases: r.record.bases, ..self.record }),
    {
        let mut record = self.record;
        record.bases.push(base);
        Builder { record }
    }

    /// Replaces the feature list.
    pub fn set_features(self, features: Vec<Feature>) -> (r: Builder)
        ensures
            r.record == (Record { features, ..self.record }),
    {
        Builder { record: Record { features, ..self.record } }
    }

    /// Appends one feature.
    pub fn add_feature(self, feature: Feature) -> (r: Builder)
        ensures
            r.record.features@ == self.record.features@.push(feature),
            r.record == (Record { features: r.record.features, ..self.record }),
    {
        let mut record = self.record;
        record.features.push(feature);
        Builder { record }
    }

    /// Sets the mapping quality.
    pub fn set_mapping_quality(self, mapping_quality: u8) -> (r: Builder)
        ensures
            r.record == (Record { mapping_quality: Some(mapping_quality), ..self.record }),
    {
        Builder { record: Record { mapping_quality: Some(mapping_quality), ..self.record } }
    }

    /// Replaces the quality scores.
    pub fn set_quality_scores(self, quality_scores: Vec<u8>) -> (r: Builder)
        ensures
            r.record == (Record { quality_scores, ..self.record }),
    {
        Builder { record: Record { quality_scores, ..self.record } }
    }

    /// Appends one quality score.
    pub fn add_quality_score(self, quality_score: u8) -> (r: Builder)
        ensures
            r.record.quality_scores@ == self.record.quality_scores@.push(quality_score),
            r.record == (Record { quality_scores: r.record.quality_scores, ..self.record }),
    {
        let mut record = self.record;
        record.quality_scores.push(quality_score);
        Builder { record }
    }

    /// Finishes the record.
    pub fn build(self) -> (r: Record)
        ensures
            r == self.record,
    {
        self.record
    }
}

impl Default for Builder {
    /// An empty, unmapped record.
    fn default() -> (r: Builder)
        ensures
            r.record.id == 0,
            r.record.bam_flags == BAM_FLAG_UNMAPPED,
            r.record.cram_flags == 0,
            r.record.reference_sequence_id is None,
            r.record.read_length == 0,
            r.record.alignment_start is None,
            r.record.read_group_id is None,
            r.record.read_name is None,
            r.record.next_mate_flags == 0,
            r.record.next_fragment_reference_sequence_id is None,
            r.record.next_mate_alignment_start is None,
            r.record.template_size == 0,
            r.record.distance_to_next_fragment is None,
            r.record.tags@.len() == 0,
            r.record.bases@.len() == 0,
            r.record.features@.len() == 0,
            r.record.mapping_quality is None,
            r.record.quality_scores@.len() == 0,
    {
        Builder {
            record: Record {
                id: 0,
                bam_flags: BAM_FLAG_UNMAPPED,
                cram_flags: 0,
                reference_sequence_id: None,
                read_length: 0,
                alignment_start: None,
                read_group_id: None,
                read_name: None,
                next_mate_flags: 0,
                next_fragment_reference_sequence_id: None,
                next_mate_alignment_start: None,
                template_size: 0,
                distance_to_next_fragment: None,
                tags: Vec::new(),
                bases: Vec::new(),
                features: Vec::new(),
                mapping_quality: None,
                quality_scores: Vec::new(),
            },
        }
    }
}

} // verus!
