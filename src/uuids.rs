//! Image UUIDs: sixteen raw bytes, and their text forms.
use vstd::prelude::*;
use vstd::string::StringSliceAdditionalSpecFns;

verus! {

/// A lowercase hexadecimal digit.
pub open spec fn hex_digit(n: nat) -> char {
    if n < 10 {
        (n + '0' as nat) as char
    } else {
        (n - 10 + 'a' as nat) as char
    }
}

/// The hyphenated form of `u[i..16]`: two lowercase digits per byte, a
/// hyphen after the 4th, 6th, 8th and 10th byte.
pub open spec fn hyphenated_from(u: Seq<u8>, i: nat) -> Seq<char>
    decreases 16 - i,
{
    if i >= 16 {
        seq![]
    } else {
        seq![hex_digit(u[i as int] as nat / 16), hex_digit(u[i as int] as nat % 16)] + (if i == 3
            || i == 5 || i == 7 || i == 9 {
            seq!['-']
        } else {
            seq![]
        }) + hyphenated_from(u, i + 1)
    }
}

/// The hyphenated text form of a UUID, as in `63d32ddb-095d-3974-afc9-8a6cf7c8bbd6`.
pub open spec fn hyphenated(u: Seq<u8>) -> Seq<char> {
    hyphenated_from(u, 0)
}

/// Relies on `uuid::Uuid`'s `Display`: it writes the lowercase hyphenated form.
#[verifier::external_body]
pub fn uuid_to_string(u: &[u8; 16]) -> (r: String)
    ensures
        r@ == hyphenated(u@),
{
    uuid::Uuid::from_bytes(*u).to_string()
}

/// The bytes of the UUID that `uuid::Uuid::parse_str` reads in a text, if
/// it reads one.
pub uninterp spec fn uuid_text_of(s: Seq<char>) -> Option<Seq<u8>>;

/// Relies on `uuid::Uuid::parse_str`: its result depends on the text
/// alone; the hyphenated form of a UUID parses back to its bytes, and only
/// inputs of 32, 36, 38 or 45 bytes (simple, hyphenated, braced, URN) can
/// parse at all.
#[verifier::external_body]
pub(crate) fn parse_uuid(s: &str) -> (r: Option<[u8; 16]>)
    ensures
        r matches Some(u) ==> uuid_text_of(s@) == Some(u@),
        r is None ==> uuid_text_of(s@) is None,
        forall|u: Seq<u8>|
            u.len() == 16 && s@ == #[trigger] hyphenated(u) ==> r.is_some() && r.unwrap()@ == u,
        r.is_some() ==> s.spec_bytes().len() == 32 || s.spec_bytes().len() == 36
            || s.spec_bytes().len() == 38 || s.spec_bytes().len() == 45,
{
    match uuid::Uuid::parse_str(s) {
        Ok(u) => Some(*u.as_bytes()),
        Err(_) => None,
    }
}

} // verus!
