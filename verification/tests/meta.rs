use rfr::chunked::{ChunkedMeta, ChunkedMetaHeader, MetaTryFromIoError};
use rfr::timestamp::AbsTimestamp;
use rfr::{FormatIdentifier, FormatVariant};

fn created_time() -> AbsTimestamp {
    AbsTimestamp {
        secs: 1_700_000_000,
        subsec_micros: 123_456,
    }
}

#[test]
fn round_trip_meta() {
    let chunked_identifier = FormatIdentifier {
        variant: FormatVariant::RfrChunked,
        major: 3,
        minor: 4,
        patch: 652,
    };
    let meta = ChunkedMeta::new(created_time(), vec![chunked_identifier.clone()]);

    let mut buffer = Vec::new();
    meta.to_io(&mut buffer);
    let deser_meta = ChunkedMeta::try_from_io(&buffer).unwrap();

    assert_eq!(meta.format_identifier, deser_meta.format_identifier);
    assert_eq!(meta.header.created_time, deser_meta.header.created_time);
    assert_eq!(meta.header.format_identifiers, vec![chunked_identifier]);
}

#[test]
fn try_from_io_success() {
    let chunked_identifier = FormatIdentifier {
        variant: FormatVariant::RfrChunked,
        major: 3,
        minor: 4,
        patch: 652,
    };
    let meta = ChunkedMeta::new(created_time(), vec![chunked_identifier.clone()]);

    let mut buffer = Vec::new();
    meta.to_io(&mut buffer);

    let read_meta = ChunkedMeta::try_from_io(&buffer).unwrap();

    assert_eq!(meta.format_identifier, read_meta.format_identifier);
    assert_eq!(meta.header.created_time, read_meta.header.created_time);
    assert_eq!(meta.header.format_identifiers, vec![chunked_identifier]);
}

#[test]
fn try_from_io_invalid_format_identifier() {
    let buffer = vec![0_u8, 0_u8];
    let result = ChunkedMeta::try_from_io(&buffer);

    assert!(result.is_err());
    assert!(matches!(
        result,
        Err(MetaTryFromIoError::InvalidFormatIdentifier(_))
    ));
}

#[test]
fn try_from_io_incompatible_format() {
    let chunked_identifier = FormatIdentifier {
        variant: FormatVariant::RfrChunked,
        major: 3,
        minor: 4,
        patch: 652,
    };
    let meta = ChunkedMeta {
        format_identifier: FormatIdentifier {
            variant: FormatVariant::RfrChunkedMeta,
            major: 100,
            minor: 0,
            patch: 0,
        },
        header: ChunkedMetaHeader {
            created_time: created_time(),
            format_identifiers: vec![chunked_identifier],
        },
    };

    let mut buffer = Vec::new();
    meta.to_io(&mut buffer);
    let result = ChunkedMeta::try_from_io(&buffer);

    assert!(result.is_err());
    assert!(matches!(
        result,
        Err(MetaTryFromIoError::IncompatibleFormat(FormatIdentifier {
            variant: FormatVariant::RfrChunkedMeta,
            ..
        }))
    ));
}

#[test]
fn try_from_io_file_invalid() {
    let format_identifier = FormatIdentifier {
        variant: FormatVariant::RfrChunkedMeta,
        major: 0,
        minor: 0,
        patch: 1,
    };

    let mut buffer = Vec::new();
    rfr::identifier::encode_format_identifier(&mut buffer, &format_identifier);
    buffer.append(&mut vec![0xff, 0xff]);
    let result = ChunkedMeta::try_from_io(&buffer);

    assert!(result.is_err());
    assert!(matches!(result, Err(MetaTryFromIoError::FileInvalid(_)),));
}

#[test]
fn try_from_io_missing_format_identifiers() {
    let meta = ChunkedMeta {
        format_identifier: FormatIdentifier {
            variant: FormatVariant::RfrChunkedMeta,
            major: 0,
            minor: 0,
            patch: 1,
        },
        header: ChunkedMetaHeader {
            created_time: created_time(),
            format_identifiers: vec![],
        },
    };

    let mut buffer = Vec::new();
    meta.to_io(&mut buffer);

    let result = ChunkedMeta::try_from_io(&buffer);

    assert!(result.is_err());
    assert!(matches!(
        result,
        Err(MetaTryFromIoError::MissingFormatIdentifiers),
    ));
}
