//! What the library asks of the `url` and `urlencoding` crates.
use vstd::prelude::*;
use vstd::string::StringSliceAdditionalSpecFns;
use crate::text::is_alnum;

verus! {

/// The last `/`-separated segment of the path of `text` read as an absolute
/// URL; `None` when `text` is no URL or its URL has no path segments.
pub uninterp spec fn url_last_path_segment(text: Seq<char>) -> Option<Seq<char>>;

/// The URL that `reference` names when read against the absolute URL `base`;
/// `None` when `base` is no URL or `reference` cannot be resolved against it.
pub uninterp spec fn url_joined(base: Seq<char>, reference: Seq<char>) -> Option<Seq<char>>;

/// Calls `url::Url::parse`, then `Url::path_segments` and the last item of
/// that iterator. The contract only names the result: URL parsing is not
/// restated here.
#[verifier::external_body]
pub(crate) fn last_path_segment(text: &str) -> (r: Option<String>)
    ensures
        r.deep_view() == url_last_path_segment(text@),
{
    let parsed = url::Url::parse(text).ok()?;
    let last = parsed.path_segments()?.next_back()?;
    Some(last.to_string())
}

/// Calls `url::Url::parse` on `base`, then `Url::join` with `reference`, and
/// renders the resulting URL. The contract only names the result.
#[verifier::external_body]
pub(crate) fn join_url(base: &str, reference: &str) -> (r: Option<String>)
    ensures
        r.deep_view() == url_joined(base@, reference@),
{
    let parsed = url::Url::parse(base).ok()?;
    Some(parsed.join(reference).ok()?.to_string())
}

/// Bytes that percent-encoding leaves as they are: ASCII letters and digits
/// and `-`, `.`, `_`, `~`.
pub open spec fn is_unreserved(b: u8) -> bool {
    is_alnum(b) || b == 45u8 || b == 46u8 || b == 95u8 || b == 126u8
}

/// An upper-case hexadecimal digit.
pub open spec fn hex_digit(n: u8) -> char {
    if n < 10 {
        (48 + n) as char
    } else {
        (55 + n) as char
    }
}

/// Percent-encoding of a byte string: unreserved bytes kept, every other byte
/// written `%` and two upper-case hex digits.
pub open spec fn percent_encoded(bytes: Seq<u8>) -> Seq<char>
    decreases bytes.len(),
{
    if bytes.len() == 0 {
        Seq::empty()
    } else {
        let b = bytes[0];
        (if is_unreserved(b) {
            seq![b as char]
        } else {
            seq!['%', hex_digit(b / 16), hex_digit(b % 16)]
        }) + percent_encoded(bytes.drop_first())
    }
}

/// Calls `urlencoding::encode`, which percent-encodes every byte of the UTF-8
/// form of `s` except ASCII alphanumerics and `-`, `_`, `.`, `~`.
#[verifier::external_body]
pub(crate) fn url_encode(s: &str) -> (r: String)
    ensures
        r@ == percent_encoded(s.spec_bytes()),
{
    urlencoding::encode(s).into_owned()
}

} // verus!
