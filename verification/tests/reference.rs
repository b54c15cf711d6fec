use cram_core::digest::calculate_normalized_sequence_digest;
use cram_core::position::Position;
use cram_core::record::BAM_FLAG_UNMAPPED;
use cram_core::record::Builder;
use cram_core::record::FLAG_DETACHED;
use cram_core::record::FLAG_HAS_MATE_DOWNSTREAM;
use cram_core::refctx::ReferenceSequenceContext;
use cram_core::slice;
use cram_core::slice::set_mates;

#[test]
fn test_update() {
    let mut context = ReferenceSequenceContext::some(
        0,
        Position::new(8).unwrap(),
        Position::new(13).unwrap(),
    );
    context.update(Some(0), Position::new(5), Position::new(21));
    assert_eq!(
        context,
        ReferenceSequenceContext::some(0, Position::new(5).unwrap(), Position::new(21).unwrap())
    );

    let mut context = ReferenceSequenceContext::some(
        0,
        Position::new(8).unwrap(),
        Position::new(13).unwrap(),
    );
    context.update(None, None, None);
    assert_eq!(context, ReferenceSequenceContext::Many);

    let mut context = ReferenceSequenceContext::Missing;
    context.update(Some(0), Position::new(1), Position::new(1));
    assert_eq!(context, ReferenceSequenceContext::Many);

    let mut context = ReferenceSequenceContext::Missing;
    context.update(None, None, None);
    assert_eq!(context, ReferenceSequenceContext::Missing);

    let mut context = ReferenceSequenceContext::Many;
    context.update(Some(0), Position::new(1), Position::new(1));
    assert_eq!(context, ReferenceSequenceContext::Many);

    let mut context = ReferenceSequenceContext::Many;
    context.update(None, None, None);
    assert_eq!(context, ReferenceSequenceContext::Many);
}

#[test]
fn test_update_keeps_single_span_over_many_records() {
    let mut context = ReferenceSequenceContext::some(
        3,
        Position::new(100).unwrap(),
        Position::new(150).unwrap(),
    );
    context.update(Some(3), Position::new(90), Position::new(120));
    context.update(Some(3), Position::new(110), Position::new(200));
    context.update(Some(3), Position::new(95), Position::new(96));
    assert_eq!(
        context,
        ReferenceSequenceContext::some(3, Position::new(90).unwrap(), Position::new(200).unwrap())
    );

    context.update(Some(4), Position::new(1), Position::new(2));
    assert_eq!(context, ReferenceSequenceContext::Many);
}

#[test]
fn test_calculate_normalized_sequence_digest() {
    assert_eq!(
        calculate_normalized_sequence_digest(b"ACGT"),
        [
            0xf1, 0xf8, 0xf4, 0xbf, 0x41, 0x3b, 0x16, 0xad, 0x13, 0x57, 0x22, 0xaa, 0x45, 0x91,
            0x04, 0x3e
        ]
    );

    assert_eq!(
        calculate_normalized_sequence_digest(b"ACgt"),
        [
            0xf1, 0xf8, 0xf4, 0xbf, 0x41, 0x3b, 0x16, 0xad, 0x13, 0x57, 0x22, 0xaa, 0x45, 0x91,
            0x04, 0x3e
        ]
    );

    assert_eq!(
        calculate_normalized_sequence_digest(b"ACGTACGTACGTACGTACGTACGT...12345!!!"),
        [
            0xdf, 0xab, 0xdb, 0xb3, 0x6e, 0x23, 0x9a, 0x6d, 0xa8, 0x89, 0x57, 0x84, 0x1f, 0x32,
            0xb8, 0xe4
        ]
    );
}

#[test]
fn test_normalized_digest_strips_and_uppercases() {
    // Spaces and control bytes are stripped, letters uppercased: all three
    // inputs hash alike.
    let a = calculate_normalized_sequence_digest(b"acgt acgt\n");
    let b = calculate_normalized_sequence_digest(b"ACGTACGT");
    let c = calculate_normalized_sequence_digest(b" a c g t A C G T ");
    assert_eq!(a, b);
    assert_eq!(b, c);
}

#[test]
fn test_position_new() {
    assert!(Position::new(8).is_some());
    assert!(Position::new(0).is_none());
    assert_eq!(Position::new(8).unwrap().get(), 8);
}

#[test]
fn test_default() {
    let builder = Builder::default();

    assert_eq!(builder.record.id, 0);
    assert_eq!(builder.record.bam_flags, BAM_FLAG_UNMAPPED);
    assert_eq!(builder.record.cram_flags, 0);
    assert!(builder.record.reference_sequence_id.is_none());
    assert_eq!(builder.record.read_length, 0);
    assert!(builder.record.alignment_start.is_none());
    assert!(builder.record.read_group_id.is_none());
    assert!(builder.record.read_name.is_none());
    assert_eq!(builder.record.next_mate_flags, 0);
    assert!(builder.record.next_fragment_reference_sequence_id.is_none());
    assert!(builder.record.next_mate_alignment_start.is_none());
    assert_eq!(builder.record.template_size, 0);
    assert!(builder.record.distance_to_next_fragment.is_none());
    assert!(builder.record.tags.is_empty());
    assert!(builder.record.bases.is_empty());
    assert!(builder.record.features.is_empty());
    assert!(builder.record.mapping_quality.is_none());
    assert!(builder.record.quality_scores.is_empty());
}

fn segmented_record(name: &[u8]) -> cram_core::record::Record {
    let mut b = Builder::default();
    b = b.set_bam_flags(slice::BAM_FLAG_SEGMENTED);
    b = b.set_read_name(name.to_vec());
    b.build()
}

#[test]
fn test_set_mates_links_nearest_same_name() {
    let mut records = vec![
        segmented_record(b"r1"),
        segmented_record(b"r2"),
        segmented_record(b"r1"),
    ];

    set_mates(&mut records);

    // The first record links two records ahead.
    assert_eq!(records[0].distance_to_next_fragment, Some(1));
    assert_ne!(records[0].cram_flags & FLAG_HAS_MATE_DOWNSTREAM, 0);
    assert_eq!(records[0].cram_flags & FLAG_DETACHED, 0);

    // The middle record has no mate and is detached.
    assert!(records[1].distance_to_next_fragment.is_none());
    assert_ne!(records[1].cram_flags & FLAG_DETACHED, 0);

    // The last record is the mate: not detached.
    assert_eq!(records[2].cram_flags & FLAG_DETACHED, 0);
}

#[test]
fn test_slice_builder_context_and_digest() {
    let reference = b"NNNNACGTACGTN";

    let mut builder = slice::Builder::default();

    let mut rb = Builder::default();
    rb = rb.set_bam_flags(0);
    rb = rb.set_reference_sequence_id(0);
    rb = rb.set_alignment_start(Position::new(5).unwrap());
    rb = rb.set_read_length(4);
    builder.add_record(rb.build()).unwrap();

    let mut rb = Builder::default();
    rb = rb.set_bam_flags(0);
    rb = rb.set_reference_sequence_id(0);
    rb = rb.set_alignment_start(Position::new(9).unwrap());
    rb = rb.set_read_length(4);
    builder.add_record(rb.build()).unwrap();

    assert_eq!(
        builder.reference_sequence_context(),
        ReferenceSequenceContext::some(0, Position::new(5).unwrap(), Position::new(12).unwrap())
    );

    let s = builder.build(reference, 0).unwrap();
    assert_eq!(s.header.record_count, 2);
    // The header digest is the normalized digest of reference[5..=12].
    let expected = calculate_normalized_sequence_digest(b"ACGTACGT");
    assert_eq!(s.header.reference_md5, expected.to_vec());
}

#[test]
fn test_slice_builder_rejects_bad_span() {
    let reference = b"ACGT";

    let mut builder = slice::Builder::default();
    let mut rb = Builder::default();
    rb = rb.set_bam_flags(0);
    rb = rb.set_reference_sequence_id(0);
    rb = rb.set_alignment_start(Position::new(3).unwrap());
    rb = rb.set_read_length(10);
    builder.add_record(rb.build()).unwrap();

    let err = builder.build(reference, 0).unwrap_err();
    assert_eq!(err, cram_core::error::DecodeError::InvalidReferenceSpan);
}

#[test]
fn test_single_unmapped_record_slice() {
    // One unmapped record: the slice context stays empty, the digest is
    // zeroed, and the record keeps its unmapped flags and no reference.
    let mut builder = slice::Builder::default();
    builder.add_record(Builder::default().build()).unwrap();
    assert_eq!(
        builder.reference_sequence_context(),
        ReferenceSequenceContext::Missing
    );

    let s = builder.build(b"", 0).unwrap();
    assert_eq!(s.header.record_count, 1);
    assert_eq!(s.header.reference_md5, vec![0u8; 16]);
    assert_eq!(s.records.len(), 1);
    let r = &s.records[0];
    assert_eq!(r.bam_flags, BAM_FLAG_UNMAPPED);
    assert!(r.reference_sequence_id.is_none());
    assert!(r.alignment_start.is_none());
    // An unmapped single record is detached.
    assert_ne!(r.cram_flags & FLAG_DETACHED, 0);
}
