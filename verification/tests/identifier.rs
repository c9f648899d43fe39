use rfr::{FormatIdentifier, FormatVariant, ParseFormatVersionError};

#[test]
fn can_read_rfr_s_version() {
    let version = FormatIdentifier::from_str("rfr-s/0.1.2").unwrap();

    let expected = FormatIdentifier {
        variant: FormatVariant::RfrStreaming,
        major: 0,
        minor: 1,
        patch: 2,
    };

    assert_eq!(version, expected);
}

#[test]
fn can_read_rfr_c_version() {
    let version = FormatIdentifier::from_str("rfr-c/3.4.652").unwrap();

    let expected = FormatIdentifier {
        variant: FormatVariant::RfrChunked,
        major: 3,
        minor: 4,
        patch: 652,
    };

    assert_eq!(version, expected);
}

#[test]
fn not_enough_parts() {
    let error = FormatIdentifier::from_str("rfr-s-1.0.0").unwrap_err();

    let expected = ParseFormatVersionError::IncorrectParts;

    assert_eq!(error, expected);
}

#[test]
fn too_many_parts() {
    let error = FormatIdentifier::from_str("rfr-s/1/0/0").unwrap_err();

    let expected = ParseFormatVersionError::IncorrectParts;

    assert_eq!(error, expected);
}

#[test]
fn unknown_variant() {
    let error = FormatIdentifier::from_str("mog/1.0.0").unwrap_err();

    let expected = ParseFormatVersionError::UnknownVariant("mog".into());

    assert_eq!(error, expected);
}

#[test]
fn invalid_version() {
    let error = FormatIdentifier::from_str("rfr-c/a.0.0").unwrap_err();

    let expected = ParseFormatVersionError::InvalidVersion("a.0.0".into());

    assert_eq!(error, expected);
}

#[test]
fn display_then_parse_is_identity() {
    let version = FormatIdentifier {
        variant: FormatVariant::RfrChunkedMeta,
        major: 12,
        minor: 0,
        patch: 4294967295,
    };

    let rendered = version.to_string();
    assert_eq!(rendered, "rfr-cm/12.0.4294967295");

    let parsed = FormatIdentifier::from_str(&rendered).unwrap();
    assert_eq!(parsed, version);
}

#[test]
fn can_read_version_is_reflexive() {
    let version = FormatIdentifier {
        variant: FormatVariant::RfrChunkedCallsites,
        major: 0,
        minor: 7,
        patch: 3,
    };

    assert!(version.can_read_version(&version));
}

#[test]
fn can_read_version_rejects_other_variants() {
    let streaming = FormatIdentifier {
        variant: FormatVariant::RfrStreaming,
        major: 1,
        minor: 2,
        patch: 3,
    };
    let chunked = FormatIdentifier {
        variant: FormatVariant::RfrChunked,
        major: 1,
        minor: 2,
        patch: 3,
    };

    assert!(!streaming.can_read_version(&chunked));
    assert!(!chunked.can_read_version(&streaming));
}

#[test]
fn newer_reader_accepts_older_writer() {
    let reader = FormatIdentifier {
        variant: FormatVariant::RfrStreaming,
        major: 0,
        minor: 1,
        patch: 4,
    };
    let writer = FormatIdentifier {
        variant: FormatVariant::RfrStreaming,
        major: 0,
        minor: 1,
        patch: 2,
    };

    assert!(reader.can_read_version(&writer));
    assert!(!writer.can_read_version(&reader));
}
