use procdrift::signature::{
    classify, member_tag, nonblank_name, signer_from_units, SignatureState, Verdict, CERT_E_UNTRUSTEDROOT,
    TRUST_E_BAD_DIGEST, TRUST_E_NOSIGNATURE,
};

#[test]
fn status_codes_separate_missing_signatures_from_broken_ones() {
    assert_eq!(classify(0), SignatureState::Trusted);
    assert_eq!(classify(TRUST_E_NOSIGNATURE), SignatureState::Unsigned);
    assert_eq!(classify(TRUST_E_BAD_DIGEST), SignatureState::Invalid);
    assert_eq!(classify(CERT_E_UNTRUSTEDROOT), SignatureState::Invalid);
    assert_eq!(classify(0x7FFF_FFFF), SignatureState::Unavailable);
}

#[test]
fn the_signer_is_kept_only_for_a_verified_signature() {
    let trusted = Verdict::from_status(0, Some("Contoso".into()));
    assert_eq!(trusted.state, SignatureState::Trusted);
    assert_eq!(trusted.signer.as_deref(), Some("Contoso"));
    let broken = Verdict::from_status(TRUST_E_BAD_DIGEST, Some("Contoso".into()));
    assert_eq!(broken.state, SignatureState::Invalid);
    assert_eq!(broken.signer, None);
    let nothing = Verdict::unavailable();
    assert_eq!(nothing.state, SignatureState::Unavailable);
    assert_eq!(nothing.signer, None);
}

#[test]
fn signer_names_drop_the_terminator_and_blank_names() {
    let units: Vec<u16> = "Contoso\0".encode_utf16().collect();
    assert_eq!(signer_from_units(&units, 8), Some("Contoso".to_owned()));
    assert_eq!(signer_from_units(&units, 1), None);
    let blank: Vec<u16> = "   \0".encode_utf16().collect();
    assert_eq!(signer_from_units(&blank, 4), None);
}

#[test]
fn the_catalog_member_tag_is_uppercase_hex() {
    let tag = member_tag(&[0x0A, 0xFF, 0x30]);
    let expected: Vec<u16> = "0AFF30\0".encode_utf16().collect();
    assert_eq!(tag, expected);
    assert_eq!(member_tag(&[]), vec![0]);
}

#[test]
fn blank_display_names_are_dropped() {
    assert_eq!(nonblank_name("  \t ".to_string()), None);
    assert_eq!(nonblank_name(String::new()), None);
    assert_eq!(
        nonblank_name(" Contoso Ltd ".to_string()),
        Some(" Contoso Ltd ".to_string())
    );
}

#[test]
fn signer_names_decode_surrogate_pairs_and_replace_lone_surrogates() {
    assert_eq!(
        signer_from_units(&[0xD83D, 0xDE00, 0x0041, 0], 4),
        Some("\u{1F600}A".to_string())
    );
    assert_eq!(
        signer_from_units(&[0x0041, 0xD800, 0x0042, 0], 4),
        Some("A\u{FFFD}B".to_string())
    );
    assert_eq!(
        signer_from_units(&[0xDC00, 0], 2),
        Some("\u{FFFD}".to_string())
    );
}
