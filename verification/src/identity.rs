//! Who an endpoint is: its secret key and the id that belongs to it.

use crate::text::{
    hex_encode, hex_text, is_trimmed, law_hex_determines_bytes, law_trimming_is_unique,
    law_white_space_is_trimmed, trim, trimmed_at, whitespace,
};
use vstd::arithmetic::power2::pow2;
use vstd::prelude::*;
use vstd::utf8::encode_utf8;

verus! {

// ---------------------------------------------------------------------------
// Keys as text
// ---------------------------------------------------------------------------

/// Why a text is no key.
#[derive(Clone, Copy, Debug, PartialEq, Eq, Structural)]
pub enum KeyError {
    /// It is as long as a key in hex, but is none.
    Hex,
    /// It is as long as a key in base32, but is none.
    Base32,
    /// It is neither as long as the one nor as the other.
    Length,
    /// What it says is no key.
    Data,
}

impl KeyError {
    /// The error in words.
    pub open spec fn text(self) -> Seq<char> {
        match self {
            KeyError::Hex => "failed to decode hex string"@,
            KeyError::Base32 => "failed to decode base32 string"@,
            KeyError::Length => "invalid length"@,
            KeyError::Data => "data is not a valid public key"@,
        }
    }

    /// The error in words.
    pub fn message(&self) -> (text: String)
        ensures
            text@ == self.text(),
    {
        match self {
            KeyError::Hex => "failed to decode hex string".to_owned(),
            KeyError::Base32 => "failed to decode base32 string".to_owned(),
            KeyError::Length => "invalid length".to_owned(),
            KeyError::Data => "data is not a valid public key".to_owned(),
        }
    }
}

/// Bit `i` of some bytes, the most significant bit of the first byte being the
/// first one. Behind the last there are zeros.
pub open spec fn bit_at(bytes: Seq<u8>, i: int) -> int {
    if i < 8 * bytes.len() {
        bytes[i / 8] as int / pow2((7 - i % 8) as nat) as int % 2
    } else {
        0
    }
}

/// The base32 digit `d`, in lower case.
pub open spec fn base32_digit(d: int) -> char {
    if d < 26 {
        ('a' as int + d) as char
    } else {
        ('2' as int + d - 26) as char
    }
}

/// Bytes in base32 without padding, in lower case: one digit for every five
/// bits.
pub open spec fn base32_text(bytes: Seq<u8>) -> Seq<char> {
    Seq::new(
        (8 * bytes.len() + 4) / 5,
        |k: int|
            base32_digit(
                16 * bit_at(bytes, 5 * k) + 8 * bit_at(bytes, 5 * k + 1) + 4 * bit_at(
                    bytes,
                    5 * k + 2,
                ) + 2 * bit_at(bytes, 5 * k + 3) + bit_at(bytes, 5 * k + 4),
            ),
    )
}

/// A text with its ASCII letters in lower case.
pub open spec fn ascii_lower(s: Seq<char>) -> Seq<char> {
    s.map_values(
        |c: char|
            if 'A' <= c && c <= 'Z' {
                (c as int + 32) as char
            } else {
                c
            },
    )
}

/// `text` is the key `bytes`, in lower-case hex or in base32.
pub open spec fn spells_key(text: Seq<char>, bytes: Seq<u8>) -> bool {
    &&& bytes.len() == 32
    &&& text == hex_text(bytes) || ascii_lower(text) == base32_text(bytes)
}

/// What is wrong with a text that is no key.
pub open spec fn key_fault(text: Seq<char>) -> KeyError {
    let length = encode_utf8(text).len();
    if length == 64 {
        KeyError::Hex
    } else if length == 52 {
        KeyError::Base32
    } else {
        KeyError::Length
    }
}

/// `key` is what reading a key from `text` gives.
pub open spec fn key_read(text: Seq<char>, key: Result<[u8; 32], KeyError>) -> bool {
    match key {
        Ok(bytes) => spells_key(text, bytes@),
        Err(error) => error == key_fault(text) && forall|bytes: Seq<u8>| !spells_key(text, bytes),
    }
}

/// The text is not too long to be decoded.
pub open spec fn decodable(text: Seq<char>) -> bool {
    encode_utf8(text).len() <= usize::MAX / 8
}

/// Hands a text to `<iroh::SecretKey as FromStr>::from_str`: a key of 32 bytes
/// where the text is one, in lower-case hex or, in either case, in unpadded
/// base32; otherwise an error that depends on how many bytes the text has.
#[verifier::external_body]
fn parse_key(text: &str) -> (key: Result<[u8; 32], KeyError>)
    requires
        decodable(text@),
    ensures
        key_read(text@, key),
{
    match text.parse::<iroh::SecretKey>() {
        Ok(key) => Ok(key.to_bytes()),
        Err(iroh::KeyParsingError::FailedToDecodeHex { .. }) => Err(KeyError::Hex),
        Err(iroh::KeyParsingError::FailedToDecodeBase32 { .. }) => Err(KeyError::Base32),
        Err(iroh::KeyParsingError::InvalidLength { .. }) => Err(KeyError::Length),
        Err(_) => Err(KeyError::Data),
    }
}

/// Calls `iroh::SecretKey::generate`, which picks 32 bytes at random. Nothing is
/// claimed of them.
#[verifier::external_body]
fn generate_key() -> (key: [u8; 32]) {
    iroh::SecretKey::generate().to_bytes()
}

/// The id that belongs to a secret key.
pub uninterp spec fn public_key(secret: Seq<u8>) -> Seq<u8>;

/// The bytes are the id of some endpoint, as far as their form goes.
pub uninterp spec fn is_endpoint_id(id: Seq<u8>) -> bool;

/// Calls `iroh::SecretKey::public`. The bytes it gives are always an id.
#[verifier::external_body]
fn public_of(secret: &[u8; 32]) -> (id: [u8; 32])
    ensures
        id@ == public_key(secret@),
        is_endpoint_id(id@),
{
    *iroh::SecretKey::from_bytes(secret).public().as_bytes()
}

// ---------------------------------------------------------------------------
// Choosing an identity
// ---------------------------------------------------------------------------

/// The identity of an endpoint.
#[derive(Clone, Copy, Debug)]
pub struct Identity {
    pub secret: [u8; 32],
    /// The secret was generated just now.
    pub fresh: bool,
}

/// `identity` is what a given secret leads to.
pub open spec fn identity_from(text: Seq<char>, identity: Result<Identity, KeyError>) -> bool {
    match identity {
        Ok(identity) => !identity.fresh && key_read(
            text,
            Ok::<[u8; 32], KeyError>(identity.secret),
        ),
        Err(error) => key_read(text, Err::<[u8; 32], KeyError>(error)),
    }
}

/// The secret that was built into the firmware, if any was.
pub fn parse_secret_key(secret: Option<&str>) -> (key: Result<Option<[u8; 32]>, KeyError>)
    requires
        secret matches Some(text) ==> decodable(text@),
    ensures
        match (secret, key) {
            (None, Ok(key)) => key is None,
            (None, Err(_)) => false,
            (Some(text), Ok(Some(bytes))) => key_read(text@, Ok::<[u8; 32], KeyError>(bytes)),
            (Some(_), Ok(None)) => false,
            (Some(text), Err(error)) => key_read(text@, Err::<[u8; 32], KeyError>(error)),
        },
{
    match secret {
        None => Ok(None),
        Some(text) => match parse_key(text) {
            Ok(bytes) => Ok(Some(bytes)),
            Err(error) => Err(error),
        },
    }
}

/// The identity that a secret gives, exactly as it stands, or without one the 32 bytes
/// that were drawn.
pub fn identity_with(secret: Option<&str>, drawn: [u8; 32]) -> (identity: Result<
    Identity,
    KeyError,
>)
    requires
        secret matches Some(text) ==> decodable(text@),
    ensures
        match secret {
            Some(text) => identity_from(text@, identity),
            None => identity is Ok && identity->Ok_0.fresh && identity->Ok_0.secret@ == drawn@,
        },
{
    match secret {
        Some(text) => match parse_key(text) {
            Ok(secret) => Ok(Identity { secret, fresh: false }),
            Err(error) => Err(error),
        },
        None => Ok(Identity { secret: drawn, fresh: true }),
    }
}

/// The identity of a client: from the secret that was given, exactly as it
/// stands, or a new one.
pub fn client_identity(secret: Option<&str>) -> (identity: Result<Identity, KeyError>)
    requires
        secret matches Some(text) ==> decodable(text@),
    ensures
        match secret {
            Some(text) => identity_from(text@, identity),
            None => identity is Ok && identity->Ok_0.fresh,
        },
{
    match secret {
        Some(_) => identity_with(secret, [0u8; 32]),
        None => identity_with(None, generate_key()),
    }
}

/// A secret was stored: there is one, and it is not blank.
pub open spec fn is_stored(secret: Option<&str>, core: Seq<char>) -> bool {
    match secret {
        Some(text) => is_trimmed(text@, core) && core.len() > 0,
        None => false,
    }
}

/// Without the whitespace round it, the text is not too long to be decoded.
pub open spec fn decodable_trimmed(text: Seq<char>) -> bool {
    forall|core: Seq<char>| #[trigger] is_trimmed(text, core) ==> decodable(core)
}

/// The secret that a browser stored, without the whitespace round it, if it is not
/// blank.
pub fn stored_secret<'a>(secret: Option<&'a str>) -> (stored: Option<&'a str>)
    ensures
        match stored {
            Some(core) => is_stored(secret, core@),
            None => forall|core: Seq<char>| !#[trigger] is_stored(secret, core),
        },
{
    match secret {
        None => None,
        Some(text) => {
            let core = trim(text);
            proof {
                assert forall|other: Seq<char>| #[trigger] is_stored(secret, other) implies other
                    == core@ by {
                    law_trimming_is_unique(text@, core@, other);
                }
            }
            if core.is_empty() {
                None
            } else {
                Some(core)
            }
        },
    }
}

/// The identity of a browser: from the secret that it stored, without the
/// whitespace round it, or a new one where there is none.
pub fn browser_identity(secret: Option<&str>) -> (identity: Result<Identity, KeyError>)
    requires
        secret matches Some(text) ==> decodable_trimmed(text@),
    ensures
        forall|core: Seq<char>|
            #[trigger] is_stored(secret, core) ==> identity_from(core, identity),
        (forall|core: Seq<char>| !#[trigger] is_stored(secret, core)) ==> identity is Ok
            && identity->Ok_0.fresh,
        secret matches Some(text) ==> forall|core: Seq<char>| #[trigger]
            is_trimmed(text@, core) ==> if core.len() > 0 {
                identity_from(core, identity)
            } else {
                identity is Ok && identity->Ok_0.fresh
            },
        secret is None ==> identity is Ok && identity->Ok_0.fresh,
{
    let stored = stored_secret(secret);
    proof {
        if let Some(text) = secret {
            assert forall|core: Seq<char>| #[trigger] is_trimmed(text@, core) && core.len()
                == 0 implies stored is None by {
                if let Some(other) = stored {
                    law_trimming_is_unique(text@, core, other@);
                }
            }
            assert forall|core: Seq<char>| #[trigger] is_trimmed(text@, core) && core.len()
                > 0 implies is_stored(secret, core) by {}
        }
        if let (Some(text), Some(core)) = (secret, stored) {
            assert forall|other: Seq<char>| #[trigger] is_stored(secret, other) implies other
                == core@ by {
                law_trimming_is_unique(text@, core@, other);
            }
            assert(is_stored(secret, core@));
        }
    }
    client_identity(stored)
}

impl Identity {
    /// The secret in hex, as it is stored and given back later.
    pub fn secret_hex(&self) -> (text: String)
        ensures
            text@ == hex_text(self.secret@),
    {
        hex_encode(self.secret.as_slice())
    }

    /// The id that belongs to the secret.
    pub fn public(&self) -> (id: [u8; 32])
        ensures
            id@ == public_key(self.secret@),
            is_endpoint_id(id@),
    {
        public_of(&self.secret)
    }

    /// The id in hex.
    pub fn endpoint_id(&self) -> (text: String)
        ensures
            text@ == hex_text(public_key(self.secret@)),
    {
        let id = public_of(&self.secret);
        hex_encode(id.as_slice())
    }

    /// The setting by which a client keeps this identity.
    pub fn reuse_setting(&self) -> (text: String)
        ensures
            text@ == "\tIROH_SECRET="@ + hex_text(self.secret@),
    {
        let mut text = "\tIROH_SECRET=".to_owned();
        let hex = self.secret_hex();
        text.append(hex.as_str());
        text
    }
}

// ---------------------------------------------------------------------------
// Laws
// ---------------------------------------------------------------------------

/// A secret that is stored in hex reads back: its text is a key, has no
/// whitespace to trim, and is no other key than the one that was stored.
pub proof fn law_stored_secret_reads_back(secret: Seq<u8>)
    requires
        secret.len() == 32,
    ensures
        spells_key(hex_text(secret), secret),
        is_trimmed(hex_text(secret), hex_text(secret)),
        hex_text(secret).len() > 0,
        forall|other: Seq<u8>| spells_key(hex_text(secret), other) ==> other == secret,
{
    let text = hex_text(secret);
    assert forall|other: Seq<u8>| spells_key(text, other) implies other == secret by {
        law_hex_determines_bytes(secret, other);
        assert(ascii_lower(text).len() == text.len());
        assert(base32_text(other).len() == 52);
    }
    law_hex_determines_bytes(secret, secret);
    assert forall|i: int| 0 <= i < text.len() implies !whitespace(#[trigger] text[i]) by {
        lemma_hex_has_no_white_space(secret, i);
    }
    assert(text.subrange(0, text.len() as int) =~= text);
    assert(trimmed_at(text, text, 0, text.len() as int));
}

/// An identity whose secret was stored in hex is the same identity when it is taken
/// up again.
pub proof fn law_stored_identity_is_kept(secret: Seq<u8>, identity: Result<Identity, KeyError>)
    requires
        secret.len() == 32,
        identity_from(hex_text(secret), identity),
    ensures
        identity is Ok,
        identity->Ok_0.secret@ == secret,
        !identity->Ok_0.fresh,
{
    law_stored_secret_reads_back(secret);
}

/// A browser that stored its secret in hex takes up the same identity again, whatever
/// white space got round the text.
pub proof fn law_stored_identity_survives_white_space(
    secret: Seq<u8>,
    before: Seq<char>,
    after: Seq<char>,
    identity: Result<Identity, KeyError>,
)
    requires
        secret.len() == 32,
        forall|i: int| 0 <= i < before.len() ==> whitespace(#[trigger] before[i]),
        forall|i: int| 0 <= i < after.len() ==> whitespace(#[trigger] after[i]),
        forall|core: Seq<char>| #[trigger]
            is_trimmed(before + hex_text(secret) + after, core) && core.len() > 0
                ==> identity_from(core, identity),
    ensures
        identity is Ok,
        identity->Ok_0.secret@ == secret,
        !identity->Ok_0.fresh,
{
    let text = hex_text(secret);
    law_hex_determines_bytes(secret, secret);
    assert(!whitespace(text.first()) && !whitespace(text.last())) by {
        lemma_hex_has_no_white_space(secret, 0);
        lemma_hex_has_no_white_space(secret, text.len() - 1);
    }
    assert(identity_from(text, identity)) by {
        law_white_space_is_trimmed(before, text, after);
    }
    law_stored_identity_is_kept(secret, identity);
}

/// A blank text is no secret: a browser that stored one gets a new identity.
pub proof fn law_blank_is_no_secret(text: &str)
    requires
        forall|i: int| 0 <= i < text@.len() ==> whitespace(#[trigger] text@[i]),
    ensures
        forall|core: Seq<char>| !#[trigger] is_stored(Some(text), core),
{
    let nothing = Seq::<char>::empty();
    law_white_space_is_trimmed(text@, nothing, nothing);
    assert(text@ + nothing + nothing =~= text@);
}

/// A secret counts as stored just when something is left of it without the white space round
/// it, and that is what is read.
pub proof fn law_what_is_left_is_stored(text: &str, core: Seq<char>)
    ensures
        is_stored(Some(text), core) <==> is_trimmed(text@, core) && core.len() > 0,
        !is_stored(None, core),
{
}

/// An identity that came from a text is not new, and its secret is a key that the text
/// spells; a text that spells one leads to an identity.
pub proof fn law_identity_is_what_the_text_spells(
    text: Seq<char>,
    identity: Result<Identity, KeyError>,
)
    requires
        identity_from(text, identity),
    ensures
        identity matches Ok(found) ==> {
            &&& !found.fresh
            &&& found.secret@.len() == 32
            &&& text == hex_text(found.secret@) || ascii_lower(text) == base32_text(found.secret@)
        },
        identity is Ok <==> exists|bytes: Seq<u8>| #[trigger] spells_key(text, bytes),
{
    if let Ok(found) = identity {
        assert(spells_key(text, found.secret@));
    }
}

/// A text that spells no key in any form is refused.
pub proof fn law_other_texts_are_refused(text: Seq<char>, identity: Result<Identity, KeyError>)
    requires
        identity_from(text, identity),
        forall|bytes: Seq<u8>| !#[trigger] spells_key(text, bytes),
    ensures
        identity == Err::<Identity, KeyError>(key_fault(text)),
{
}

/// Hex digits are no white space.
proof fn lemma_hex_has_no_white_space(bytes: Seq<u8>, i: int)
    requires
        0 <= i < hex_text(bytes).len(),
    ensures
        !whitespace(hex_text(bytes)[i]),
{
    assert(hex_text(bytes)[i] == crate::text::hex_byte(bytes[i / 2])[i % 2]);
}

} // verus!
