//! Authenticode verdicts: the four outcomes a signature check can report and
//! how a `WinVerifyTrust` status maps onto them.
//!
//! "No signature" and "a signature that does not verify" are kept apart,
//! because collapsing them loses the only interesting case; a failure the
//! mapping does not know claims nothing either way.

use crate::text::{chars_of, decode_utf16_lossy, trim_both, trimmed, utf16_lossy, Trim};
use vstd::prelude::*;

verus! {

/// `TRUST_E_NOSIGNATURE`.
pub const TRUST_E_NOSIGNATURE: i32 = -2146762496;
/// `TRUST_E_SUBJECT_FORM_UNKNOWN`.
pub const TRUST_E_SUBJECT_FORM_UNKNOWN: i32 = -2146762749;
/// `TRUST_E_PROVIDER_UNKNOWN`.
pub const TRUST_E_PROVIDER_UNKNOWN: i32 = -2146762751;
/// `TRUST_E_BAD_DIGEST`.
pub const TRUST_E_BAD_DIGEST: i32 = -2146869232;
/// `TRUST_E_EXPLICIT_DISTRUST`.
pub const TRUST_E_EXPLICIT_DISTRUST: i32 = -2146762479;
/// `TRUST_E_SUBJECT_NOT_TRUSTED`.
pub const TRUST_E_SUBJECT_NOT_TRUSTED: i32 = -2146762748;
/// `CERT_E_EXPIRED`.
pub const CERT_E_EXPIRED: i32 = -2146762495;
/// `CERT_E_UNTRUSTEDROOT`.
pub const CERT_E_UNTRUSTEDROOT: i32 = -2146762487;
/// `CERT_E_CHAINING`.
pub const CERT_E_CHAINING: i32 = -2146762486;
/// `CERT_E_REVOKED`.
pub const CERT_E_REVOKED: i32 = -2146762484;
/// `CRYPT_E_SECURITY_SETTINGS`.
pub const CRYPT_E_SECURITY_SETTINGS: i32 = -2146885594;

/// The outcome of checking a file's Authenticode signature.
#[derive(Clone, Copy, Debug, PartialEq, Eq, Structural)]
pub enum SignatureState {
    /// A signature verified and its certificate chain reached a root Windows
    /// trusts, as of the moment the file on disk was checked. Revocation is not
    /// checked, so a revoked certificate still lands here, and a trusted
    /// publisher is not the same thing as benign code.
    Trusted,
    /// No signature is present, embedded or catalogued.
    Unsigned,
    /// A signature is present but does not verify: tampered, expired,
    /// distrusted, or chaining to an untrusted root.
    Invalid,
    /// Verification could not be completed, so nothing is claimed either way.
    Unavailable,
}

/// The label shown for a signature state.
pub open spec fn signature_label(s: SignatureState) -> Seq<char> {
    match s {
        SignatureState::Trusted => "Trusted"@,
        SignatureState::Unsigned => "Unsigned"@,
        SignatureState::Invalid => "Invalid"@,
        SignatureState::Unavailable => "Unavailable"@,
    }
}

impl SignatureState {
    /// The label shown for this signature state.
    pub fn label(&self) -> (r: &'static str)
        ensures
            r@ == signature_label(*self),
    {
        match self {
            SignatureState::Trusted => "Trusted",
            SignatureState::Unsigned => "Unsigned",
            SignatureState::Invalid => "Invalid",
            SignatureState::Unavailable => "Unavailable",
        }
    }
}

/// A signature state and, when the signature verified, the signer's name.
#[derive(Clone, Debug)]
pub struct Verdict {
    pub state: SignatureState,
    pub signer: Option<String>,
}

impl Verdict {
    /// Nothing could be checked.
    pub fn unavailable() -> (r: Self)
        ensures
            r.state == SignatureState::Unavailable,
            r.signer is None,
    {
        Verdict { state: SignatureState::Unavailable, signer: None }
    }

    /// The verdict decided from the path alone, before any file is opened:
    /// an empty path has nothing to check and is unavailable; any other
    /// path must be checked (`None`).
    pub fn for_path(path: &str) -> (r: Option<Self>)
        ensures
            path@.len() == 0 ==> (r matches Some(v) && v.state == SignatureState::Unavailable
                && v.signer is None),
            path@.len() != 0 ==> r is None,
    {
        if path.is_empty() {
            Some(Verdict::unavailable())
        } else {
            None
        }
    }
}

/// The state a `WinVerifyTrust` status reports: success is trusted, the
/// "nothing to verify" statuses are unsigned, the statuses of a signature that
/// fails to verify are invalid, and anything else is unavailable.
pub open spec fn status_state(status: i32) -> SignatureState {
    if status == 0 {
        SignatureState::Trusted
    } else if status == TRUST_E_NOSIGNATURE || status == TRUST_E_SUBJECT_FORM_UNKNOWN || status
        == TRUST_E_PROVIDER_UNKNOWN {
        SignatureState::Unsigned
    } else if status == TRUST_E_BAD_DIGEST || status == TRUST_E_EXPLICIT_DISTRUST || status
        == TRUST_E_SUBJECT_NOT_TRUSTED || status == CERT_E_EXPIRED || status
        == CERT_E_UNTRUSTEDROOT || status == CERT_E_CHAINING || status == CERT_E_REVOKED
        || status == CRYPT_E_SECURITY_SETTINGS {
        SignatureState::Invalid
    } else {
        SignatureState::Unavailable
    }
}

/// What each `WinVerifyTrust` status means, by its value: success
/// (`0`) is trusted; "no signature" (0x800B0100), "unknown subject form"
/// (0x800B0003) and "unknown provider" (0x800B0001) are unsigned; a bad
/// digest (0x80096010), explicit distrust (0x800B0111), an untrusted subject
/// (0x800B0004), an expired certificate (0x800B0101), an untrusted root
/// (0x800B0109), a broken chain (0x800B010A), a revoked certificate
/// (0x800B010C) and security settings (0x80092026) are invalid; every other
/// status is unavailable.
pub proof fn lemma_status_meanings(status: i32)
    ensures
        status == 0 ==> status_state(status) == SignatureState::Trusted,
        (status == -2146762496 || status == -2146762749 || status == -2146762751)
            ==> status_state(status) == SignatureState::Unsigned,
        (status == -2146869232 || status == -2146762479 || status == -2146762748 || status
            == -2146762495 || status == -2146762487 || status == -2146762486 || status
            == -2146762484 || status == -2146885594) ==> status_state(status)
            == SignatureState::Invalid,
        !(status == 0 || status == -2146762496 || status == -2146762749 || status == -2146762751
            || status == -2146869232 || status == -2146762479 || status == -2146762748 || status
            == -2146762495 || status == -2146762487 || status == -2146762486 || status
            == -2146762484 || status == -2146885594) ==> status_state(status)
            == SignatureState::Unavailable,
{
}

/// Maps a `WinVerifyTrust` status onto a signature state.
pub fn classify(status: i32) -> (r: SignatureState)
    ensures
        r == status_state(status),
{
    if status == 0 {
        SignatureState::Trusted
    } else if status == TRUST_E_NOSIGNATURE || status == TRUST_E_SUBJECT_FORM_UNKNOWN || status
        == TRUST_E_PROVIDER_UNKNOWN {
        SignatureState::Unsigned
    } else if status == TRUST_E_BAD_DIGEST || status == TRUST_E_EXPLICIT_DISTRUST || status
        == TRUST_E_SUBJECT_NOT_TRUSTED || status == CERT_E_EXPIRED || status
        == CERT_E_UNTRUSTEDROOT || status == CERT_E_CHAINING || status == CERT_E_REVOKED
        || status == CRYPT_E_SECURITY_SETTINGS {
        SignatureState::Invalid
    } else {
        SignatureState::Unavailable
    }
}

impl Verdict {
    /// The verdict for a verification status: its state, and the signer
    /// only when the signature verified.
    pub fn from_status(status: i32, signer: Option<String>) -> (r: Self)
        ensures
            r.state == status_state(status),
            status == 0 ==> r.signer == signer,
            status != 0 ==> r.signer is None,
    {
        Verdict {
            state: classify(status),
            signer: if status == 0 {
                signer
            } else {
                None
            },
        }
    }
}

/// The signer's display name from the units the certificate call wrote
/// (`written` counts the terminating zero): nothing when only the zero was
/// written or the name is blank.
pub open spec fn signer_text(units: Seq<u16>, written: u32) -> Option<Seq<char>> {
    if written <= 1 {
        None
    } else {
        let name = utf16_lossy(units.take(written - 1));
        if trim_both(name, Trim::Whitespace).len() == 0 {
            None
        } else {
            Some(name)
        }
    }
}

/// The signer's display name from a name buffer (see `signer_text`).
pub fn signer_from_units(buffer: &[u16], written: u32) -> (r: Option<String>)
    requires
        written <= buffer@.len() + 1,
    ensures
        match r {
            Some(name) => signer_text(buffer@, written) == Some(name@),
            None => signer_text(buffer@, written) is None,
        },
{
    if written <= 1 {
        return None;
    }
    let end = (written - 1) as usize;
    let mut units: Vec<u16> = Vec::new();
    let mut i: usize = 0;
    while i < end
        invariant
            end <= buffer@.len(),
            i <= end,
            units@ == buffer@.take(i as int),
        decreases end - i,
    {
        units.push(buffer[i]);
        i = i + 1;
        assert(units@ =~= buffer@.take(i as int));
    }
    let name = decode_utf16_lossy(units.as_slice());
    nonblank_name(name)
}

/// A decoded display name, kept unless it is empty or all whitespace.
pub fn nonblank_name(name: String) -> (r: Option<String>)
    ensures
        trim_both(name@, Trim::Whitespace).len() == 0 ==> r is None,
        trim_both(name@, Trim::Whitespace).len() != 0 ==> r == Some(name),
{
    let chars = chars_of(name.as_str());
    let kept = trimmed(&chars, Trim::Whitespace);
    if kept.len() == 0 {
        None
    } else {
        Some(name)
    }
}

/// The two uppercase hexadecimal digits of a byte.
pub open spec fn hex_digit(d: nat) -> u16 {
    if d < 10 {
        (48 + d) as u16
    } else {
        (55 + d) as u16
    }
}

/// The catalog member tag of a file hash: the hash in uppercase
/// hexadecimal, as UTF-16 units, ending in a zero.
pub open spec fn member_tag_units(hash: Seq<u8>) -> Seq<u16>
    decreases hash.len(),
{
    if hash.len() == 0 {
        seq![0u16]
    } else {
        let b = hash[0] as nat;
        seq![hex_digit(b / 16), hex_digit(b % 16)] + member_tag_units(hash.drop_first())
    }
}

fn hex_unit(d: u8) -> (r: u16)
    requires
        d < 16,
    ensures
        r == hex_digit(d as nat),
{
    if d < 10 {
        48 + d as u16
    } else {
        55 + d as u16
    }
}

/// The catalog member tag of a file hash (see `member_tag_units`).
pub fn member_tag(hash: &[u8]) -> (r: Vec<u16>)
    ensures
        r@ == member_tag_units(hash@),
{
    let mut r: Vec<u16> = Vec::new();
    let mut i: usize = 0;
    assert(hash@.skip(0) =~= hash@);
    assert(r@ + member_tag_units(hash@.skip(0)) =~= member_tag_units(hash@));
    while i < hash.len()
        invariant
            i <= hash@.len(),
            r@ + member_tag_units(hash@.skip(i as int)) == member_tag_units(hash@),
            r@.len() == 2 * i,
        decreases hash.len() - i,
    {
        let b = hash[i];
        let high = hex_unit(b / 16);
        let low = hex_unit(b % 16);
        proof {
            let rest = hash@.skip(i as int);
            assert(rest[0] == b);
            assert(rest.drop_first() =~= hash@.skip(i + 1));
            assert(member_tag_units(rest) == seq![high, low] + member_tag_units(hash@.skip(i + 1)));
        }
        let ghost before = r@;
        r.push(high);
        r.push(low);
        assert(r@ =~= before + seq![high, low]);
        i = i + 1;
        assert(r@ + member_tag_units(hash@.skip(i as int)) =~= before + (seq![high, low]
            + member_tag_units(hash@.skip(i as int))));
    }
    assert(hash@.skip(i as int) =~= Seq::<u8>::empty());
    assert(member_tag_units(hash@.skip(i as int)) =~= seq![0u16]);
    r.push(0);
    assert(r@ =~= member_tag_units(hash@)) by {
        assert(r@.drop_last() + seq![0u16] =~= r@);
    }
    r
}

} // verus!
