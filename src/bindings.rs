//! Calls into the outside crates that the logic relies on, each with the
//! contract that the crate's documentation and source give it.
use convert_case::{Case, Casing};
use vstd::prelude::*;

verus! {

/// The casings that names are converted to.
#[derive(Clone, Copy, Debug, PartialEq, Eq, Structural)]
pub enum TextCase {
    Lower,
    Upper,
    Title,
    Pascal,
    Camel,
    Snake,
    ScreamingSnake,
    Kebab,
    UpperKebab,
}

/// What `Casing::to_case` of convert_case makes of a text.
pub uninterp spec fn cased(s: Seq<char>, case: TextCase) -> Seq<char>;

/// What `urlencoding::encode` makes of a text.
pub uninterp spec fn url_encoded(s: Seq<char>) -> Seq<char>;

/// The hyphenated lower-case text that uuid's `Display` gives a UUID.
pub uninterp spec fn uuid_text_of(id: u128) -> Seq<char>;

/// What `Uuid::parse_str` finds in a text, as the UUID's 128 bits.
pub uninterp spec fn uuid_parsed(s: Seq<char>) -> Option<u128>;

/// What chrono's `to_rfc3339` writes for the UTC instant `secs`, `nanos`
/// after the epoch (`None` where `DateTime::from_timestamp` refuses it).
pub uninterp spec fn rfc3339_of(t: (i64, u32)) -> Option<Seq<char>>;

/// The instant, as seconds and nanoseconds after the epoch, that
/// `DateTime::parse_from_rfc3339` finds in a text.
pub uninterp spec fn rfc3339_parsed(s: Seq<char>) -> Option<(i64, u32)>;

/// What `regex::escape` makes of a text.
pub uninterp spec fn regex_escaped(s: Seq<char>) -> Seq<char>;

/// Instants between the years 0 and 9999 that fall on no leap second: the
/// ones whose RFC 3339 text has a four-digit year and parses back exactly.
pub open spec fn in_rfc3339_range(t: (i64, u32)) -> bool {
    -62167219200 <= t.0 < 253402300800 && t.1 < 1000000000
}

/// Relies on `convert_case::Casing::to_case`: the converted text depends on
/// the text and the casing alone.
#[verifier::external_body]
pub(crate) fn to_case(s: &str, case: TextCase) -> (r: String)
    ensures
        r@ == cased(s@, case),
{
    let c = match case {
        TextCase::Lower => Case::Lower,
        TextCase::Upper => Case::Upper,
        TextCase::Title => Case::Title,
        TextCase::Pascal => Case::Pascal,
        TextCase::Camel => Case::Camel,
        TextCase::Snake => Case::Snake,
        TextCase::ScreamingSnake => Case::ScreamingSnake,
        TextCase::Kebab => Case::Kebab,
        TextCase::UpperKebab => Case::UpperKebab,
    };
    s.to_case(c)
}

/// Relies on `urlencoding::encode`: percent-encodes the UTF-8 bytes of the
/// text, the result depending on the text alone.
#[verifier::external_body]
pub(crate) fn url_encode(s: &str) -> (r: String)
    ensures
        r@ == url_encoded(s@),
{
    urlencoding::encode(s).into_owned()
}

/// Relies on `Uuid::from_u128` and uuid's `Display`: 36 characters, hex
/// digits and hyphens, which `Uuid::parse_str` reads back as the same UUID.
#[verifier::external_body]
pub(crate) fn uuid_text(id: u128) -> (r: String)
    ensures
        r@ == uuid_text_of(id),
        r@.len() == 36,
        uuid_parsed(r@) == Some(id),
{
    uuid::Uuid::from_u128(id).to_string()
}

/// Relies on `Uuid::parse_str` and `Uuid::as_u128`.
#[verifier::external_body]
pub(crate) fn parse_uuid(s: &str) -> (r: Option<u128>)
    ensures
        r == uuid_parsed(s@),
{
    match uuid::Uuid::parse_str(s) {
        Ok(u) => Some(u.as_u128()),
        Err(_) => None,
    }
}

/// Relies on chrono's `DateTime::from_timestamp` and `DateTime::to_rfc3339`:
/// within years 0 to 9999 and off leap seconds, `parse_from_rfc3339` reads
/// the text back as the same instant.
#[verifier::external_body]
pub(crate) fn rfc3339_text(t: (i64, u32)) -> (r: Option<String>)
    ensures
        r matches Some(s) ==> rfc3339_of(t) == Some(s@),
        r is None ==> rfc3339_of(t) is None,
        r matches Some(s) ==> (in_rfc3339_range(t) ==> rfc3339_parsed(s@) == Some(t)),
{
    match chrono::DateTime::from_timestamp(t.0, t.1) {
        Some(d) => Some(d.to_rfc3339()),
        None => None,
    }
}

/// Relies on chrono's `DateTime::parse_from_rfc3339`, `timestamp` and
/// `timestamp_subsec_nanos`.
#[verifier::external_body]
pub(crate) fn parse_rfc3339(s: &str) -> (r: Option<(i64, u32)>)
    ensures
        r == rfc3339_parsed(s@),
{
    match chrono::DateTime::parse_from_rfc3339(s) {
        Ok(d) => Some((d.timestamp(), d.timestamp_subsec_nanos())),
        Err(_) => None,
    }
}

/// Relies on `regex::escape`: the escaped pattern depends on the text alone.
#[verifier::external_body]
pub(crate) fn escape_regex(s: &str) -> (r: String)
    ensures
        r@ == regex_escaped(s@),
{
    regex::escape(s)
}

} // verus!
