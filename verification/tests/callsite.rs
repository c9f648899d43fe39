use rfr::chunked::{Callsite, CallsiteId, ChunkedCallsites, ChunkedCallsitesWriter};
use rfr::common::{Kind, Level};

#[test]
fn empty_callsites() {
    let original = ChunkedCallsites::new(vec![]);
    let mut buffer = Vec::new();

    original.to_io(&mut buffer);

    let deser = ChunkedCallsites::try_from_io(&buffer).unwrap();

    assert_eq!(original.format_identifier, deser.format_identifier);
    assert!(deser.callsites.is_empty());
}

#[test]
fn minimal_callsite() {
    let original_callsite = Callsite {
        callsite_id: CallsiteId::from(1_u64),
        level: Level(10),
        kind: Kind::Event,
        const_fields: vec![],
        split_field_names: vec![],
    };
    let original = ChunkedCallsites::new(vec![original_callsite]);
    let mut buffer = Vec::new();

    original.to_io(&mut buffer);

    let deser = ChunkedCallsites::try_from_io(&buffer).unwrap();

    assert_eq!(original.format_identifier, deser.format_identifier);
    assert_eq!(1, deser.callsites.len());
    assert_eq!(original.callsites[0], deser.callsites[0]);
}

#[test]
fn callsites_writer_new() {
    let writer = ChunkedCallsitesWriter::try_new();
    let identifier = writer.chunked_callsites().format_identifier.clone();

    let chunked_callsites = ChunkedCallsites::try_from_io(writer.written()).unwrap();

    assert_eq!(identifier, chunked_callsites.format_identifier);
    assert!(chunked_callsites.callsites.is_empty());
}

#[test]
fn callsites_writer_minimal_callsite() {
    let callsite = Callsite {
        callsite_id: CallsiteId::from(1_u64),
        level: Level(10),
        kind: Kind::Event,
        const_fields: vec![],
        split_field_names: vec![],
    };
    let mut writer = ChunkedCallsitesWriter::try_new();
    writer.push_callsite(callsite.clone());
    writer.flush().unwrap();
    let identifier = writer.chunked_callsites().format_identifier.clone();

    let chunked_callsites = ChunkedCallsites::try_from_io(writer.written()).unwrap();

    assert_eq!(identifier, chunked_callsites.format_identifier);
    assert_eq!(1, chunked_callsites.callsites.len());
    assert_eq!(callsite, chunked_callsites.callsites[0]);
}

#[test]
fn callsites_writer_deduplicates_by_id() {
    let first = Callsite {
        callsite_id: CallsiteId::from(7_u64),
        level: Level(20),
        kind: Kind::Span,
        const_fields: vec![],
        split_field_names: vec![],
    };
    let duplicate = Callsite {
        callsite_id: CallsiteId::from(7_u64),
        level: Level(30),
        kind: Kind::Event,
        const_fields: vec![],
        split_field_names: vec![],
    };

    let mut writer = ChunkedCallsitesWriter::try_new();
    writer.push_callsite(first.clone());
    writer.push_callsite(duplicate);
    writer.flush().unwrap();

    let chunked_callsites = ChunkedCallsites::try_from_io(writer.written()).unwrap();
    assert_eq!(1, chunked_callsites.callsites.len());
    assert_eq!(first, chunked_callsites.callsites[0]);
}

#[test]
fn truncated_callsite_is_reported_with_its_index() {
    let callsite = Callsite {
        callsite_id: CallsiteId::from(1_u64),
        level: Level(10),
        kind: Kind::Event,
        const_fields: vec![],
        split_field_names: vec![],
    };
    let original = ChunkedCallsites::new(vec![callsite.clone(), callsite]);
    let mut buffer = Vec::new();
    original.to_io(&mut buffer);

    // cut the last byte, truncating the second callsite record
    buffer.pop();

    let error = ChunkedCallsites::try_from_io(&buffer).unwrap_err();
    match error {
        rfr::chunked::CallsitesTryFromIoError::CallsiteInvalid { idx, .. } => {
            assert_eq!(idx, 1);
        }
        other => panic!("unexpected error: {:?}", other),
    }
}

#[test]
fn callsites_writer_needs_flush_tracks_unwritten_callsites() {
    let mut writer = ChunkedCallsitesWriter::try_new();
    assert!(!writer.needs_flush());

    writer.push_callsite(Callsite {
        callsite_id: CallsiteId::from(3_u64),
        level: Level(20),
        kind: Kind::Span,
        const_fields: vec![],
        split_field_names: vec![],
    });
    assert!(writer.needs_flush());

    writer.flush().unwrap();
    assert!(!writer.needs_flush());
}
