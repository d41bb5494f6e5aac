use tightbeam_ext::compose::{priority_from_ordinal, version_from_ordinal, FrameFields, FrameVersion, Priority};

fn bare() -> FrameFields {
    FrameFields {
        version: None,
        matrix: false,
        message_integrity: false,
        frame_integrity: false,
        priority: false,
        lifetime: false,
        previous_hash: false,
        signed: false,
    }
}

#[test]
fn config_defaults_to_v0_cleartext() {
    assert_eq!(bare().effective_version(), FrameVersion::V0);
}

#[test]
fn config_applies_v2_metadata() {
    let fields = FrameFields { priority: true, lifetime: true, message_integrity: true, frame_integrity: true, ..bare() };
    assert_eq!(fields.effective_version(), FrameVersion::V2);
}

#[test]
fn config_matrix_requires_v3() {
    let fields = FrameFields { matrix: true, ..bare() };
    assert_eq!(fields.effective_version(), FrameVersion::V3);
}

#[test]
fn config_pins_explicit_version() {
    let fields = FrameFields { version: Some(FrameVersion::V2), ..bare() };
    assert_eq!(fields.effective_version(), FrameVersion::V2);
}

#[test]
fn a_signature_alone_needs_v1() {
    let fields = FrameFields { signed: true, ..bare() };
    assert_eq!(fields.effective_version(), FrameVersion::V1);
}

#[test]
fn a_pinned_version_wins_over_the_floor() {
    let fields = FrameFields { version: Some(FrameVersion::V0), matrix: true, signed: true, ..bare() };
    assert_eq!(fields.effective_version(), FrameVersion::V0);
}

#[test]
fn ordinals_round_trip() {
    for ordinal in 0..=3u8 {
        assert_eq!(version_from_ordinal(ordinal).map(|v| v.ordinal()), Some(ordinal));
    }
    assert_eq!(version_from_ordinal(4), None);
    assert_eq!(priority_from_ordinal(0), Some(Priority::LowEffort));
    assert_eq!(priority_from_ordinal(3), Some(Priority::LowLatency));
    assert_eq!(priority_from_ordinal(5), Some(Priority::NetworkControl));
    assert_eq!(priority_from_ordinal(6), None);
}
