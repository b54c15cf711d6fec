use cram_core::container::CompressionHeader;
use cram_core::container::DataContainer;
use cram_core::container::parse_file_definition;
use cram_core::error::DecodeError;

#[test]
fn test_parse_file_definition() {
    let mut data = vec![0x43, 0x52, 0x41, 0x4D, 0x03, 0x00];
    data.extend_from_slice(&[0xAB; 20]);

    let mut pos = 0;
    let fd = parse_file_definition(&data, &mut pos).unwrap();
    assert_eq!(fd.major, 3);
    assert_eq!(fd.minor, 0);
    assert_eq!(fd.file_id, vec![0xAB; 20]);
    assert_eq!(pos, 26);
}

#[test]
fn test_parse_file_definition_rejects_bad_magic() {
    let mut data = vec![0x42, 0x41, 0x4D, 0x01, 0x03, 0x00];
    data.extend_from_slice(&[0x00; 20]);

    let mut pos = 0;
    assert_eq!(
        parse_file_definition(&data, &mut pos),
        Err(DecodeError::InvalidMagic)
    );
}

#[test]
fn test_parse_file_definition_rejects_unsupported_version() {
    let mut data = vec![0x43, 0x52, 0x41, 0x4D, 0x09, 0x00];
    data.extend_from_slice(&[0x00; 20]);

    let mut pos = 0;
    assert_eq!(
        parse_file_definition(&data, &mut pos),
        Err(DecodeError::UnsupportedVersion)
    );
}

#[test]
fn test_parse_file_definition_rejects_truncation() {
    let data = [0x43, 0x52, 0x41, 0x4D, 0x03];
    let mut pos = 0;
    assert_eq!(
        parse_file_definition(&data, &mut pos),
        Err(DecodeError::Truncated)
    );
}

#[test]
fn test_data_container_accessors() {
    let header = CompressionHeader::new(true, true, false, vec![0; 20], vec![]);
    let container = DataContainer::new(header, Vec::new());
    assert!(container.compression_header().preserve_read_names);
    assert!(container.compression_header().ap_data_series_delta);
    assert!(!container.compression_header().reference_required);
    assert!(container.slices().is_empty());
}

#[test]
fn test_error_messages() {
    assert_eq!(DecodeError::InvalidMagic.message(), "invalid magic number");
    assert_eq!(DecodeError::Truncated.message(), "unexpected end of input");
}
