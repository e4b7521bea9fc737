//! Reading a file's size from the answers to `HEAD` and ranged `GET` requests.
use vstd::prelude::*;
use crate::text::{chars_of, parse_unsigned, parse_u64_in, parse_u64, decimal, lemma_parse_decimal, lemma_decimal_reads_back};
use crate::chunks::after_last;

verus! {

/// How often the size of a file is asked for before it is given up as unknown.
pub const SIZE_PROBE_ATTEMPTS: u32 = 10;

/// A response header as the logic sees it: absent, present but not readable as
/// text (it holds bytes that are not visible ASCII), or its text.
pub enum HeaderValue {
    Missing,
    Unreadable,
    Text(String),
}

/// The size a `Content-Length` header gives when it is read as text, with an
/// unreadable header read as `0`: its value when that is a positive `u64`.
pub open spec fn size_from_length(h: HeaderValue) -> Option<u64> {
    match h {
        HeaderValue::Text(t) => match parse_unsigned(t@, u64::MAX as nat) {
            Some(v) => if v > 0 { Some(v as u64) } else { None },
            None => None,
        },
        _ => None,
    }
}

/// The size a `Content-Length` header gives, or `None` when it gives none.
pub fn content_length_size(h: &HeaderValue) -> (r: Option<u64>)
    ensures
        r == size_from_length(*h),
{
    match h {
        HeaderValue::Text(t) => match parse_u64(t.as_str()) {
            Some(v) => if v > 0 { Some(v) } else { None },
            None => None,
        },
        _ => None,
    }
}

/// The total a `Content-Range` header such as `bytes 0-0/1234` gives: the text after
/// its last `/`, when there is a `/` and that text is a positive `u64`.
pub open spec fn size_from_range(h: HeaderValue) -> Option<u64> {
    match h {
        HeaderValue::Text(t) => if t@.contains('/') {
            match parse_unsigned(after_last(t@, '/'), u64::MAX as nat) {
                Some(v) => if v > 0 { Some(v as u64) } else { None },
                None => None,
            }
        } else {
            None
        },
        _ => None,
    }
}

proof fn lemma_after_last_at(s: Seq<char>, c: char, k: int)
    requires
        0 <= k < s.len(),
        s[k] == c,
        forall|j: int| k < j < s.len() ==> s[j] != c,
    ensures
        after_last(s, c) == s.subrange(k + 1, s.len() as int),
    decreases s.len(),
{
    if s.last() == c {
    } else {
        lemma_after_last_at(s.drop_last(), c, k);
        assert(s.subrange(k + 1, s.len() as int) =~= s.drop_last().subrange(k + 1, s.len() - 1).push(s.last()));
    }
}

/// A `Content-Length` header that holds the decimal notation of a positive
/// `u64` gives that number as the size, however large.
pub proof fn law_length_header_gives_size(h: HeaderValue, v: u64)
    requires
        v > 0,
        h matches HeaderValue::Text(t) && t@ == decimal(v as nat),
    ensures
        size_from_length(h) == Some(v),
{
    lemma_parse_decimal(v as nat, u64::MAX as nat);
}

/// A `Content-Range` header whose text ends in `/` and the decimal notation of a
/// positive `u64` gives that number as the size, whatever comes before the `/`.
pub proof fn law_range_header_gives_size(h: HeaderValue, prefix: Seq<char>, v: u64)
    requires
        v > 0,
        h matches HeaderValue::Text(t) && t@ == prefix + seq!['/'] + decimal(v as nat),
    ensures
        size_from_range(h) == Some(v),
{
    let t = prefix + seq!['/'] + decimal(v as nat);
    lemma_decimal_reads_back(v as nat);
    let k = prefix.len() as int;
    assert(t[k] == '/');
    assert forall|j: int| k < j < t.len() implies t[j] != '/' by {
        assert(t[j] == decimal(v as nat)[j - k - 1]);
        assert(crate::text::is_digit_char(decimal(v as nat)[j - k - 1]));
    }
    lemma_after_last_at(t, '/', k);
    assert(t.subrange(k + 1, t.len() as int) =~= decimal(v as nat));
    assert(t.contains('/'));
    lemma_parse_decimal(v as nat, u64::MAX as nat);
}

/// The file size a `Content-Range` header gives, or `None`.
pub fn content_range_size(h: &HeaderValue) -> (r: Option<u64>)
    ensures
        r == size_from_range(*h),
{
    match h {
        HeaderValue::Text(t) => {
            let chars = chars_of(t.as_str());
            let mut k = chars.len();
            while k > 0 && chars[k - 1] != '/'
                invariant
                    k <= chars.len(),
                    chars@ == t@,
                    forall|j: int| k <= j < chars.len() ==> chars@[j] != '/',
                decreases k,
            {
                k -= 1;
            }
            if k == 0 {
                assert(!t@.contains('/'));
                return None;
            }
            proof {
                lemma_after_last_at(t@, '/', k - 1);
                assert(t@[k - 1] == '/');
            }
            match parse_u64_in(&chars, k, chars.len()) {
                Some(v) => if v > 0 { Some(v) } else { None },
                None => None,
            }
        },
        _ => None,
    }
}

/// What the size probe does after the ranged request of attempt `attempt`.
pub enum ProbeAction {
    /// The size is known.
    Found(u64),
    /// Wait, then ask again as attempt `next`, or give the size up as unknown (0)
    /// when `next` is `None`.
    Wait { next: Option<u32> },
}

/// The step after the ranged request of attempt `attempt` (counted from 0), given
/// its `Content-Range` header (`Missing` when the request failed).
pub fn after_range_probe(attempt: u32, range: &HeaderValue) -> (r: ProbeAction)
    requires
        attempt < SIZE_PROBE_ATTEMPTS,
    ensures
        match size_from_range(*range) {
            Some(t) => r matches ProbeAction::Found(f) && f == t,
            None => r matches ProbeAction::Wait { next } && next == (if attempt + 1 < SIZE_PROBE_ATTEMPTS {
                Some((attempt + 1) as u32)
            } else {
                None
            }),
        },
{
    match content_range_size(range) {
        Some(t) => ProbeAction::Found(t),
        None => ProbeAction::Wait {
            next: if attempt + 1 < SIZE_PROBE_ATTEMPTS { Some(attempt + 1) } else { None },
        },
    }
}

/// The size the `Content-Length` header gives to the downloader that asks only
/// with `HEAD`: its parsed value, 0 included; an unreadable header counts as `0`;
/// `None` when there is no header or its text is no `u64`, so that it asks again.
pub open spec fn length_value(h: HeaderValue) -> Option<u64> {
    match h {
        HeaderValue::Missing => None,
        HeaderValue::Unreadable => Some(0),
        HeaderValue::Text(t) => match parse_unsigned(t@, u64::MAX as nat) {
            Some(v) => Some(v as u64),
            None => None,
        },
    }
}

/// For the `HEAD`-only probe, a `Content-Length` header that holds the decimal
/// notation of any `u64`, 0 included, gives that number.
pub proof fn law_length_value_reads_number(h: HeaderValue, v: u64)
    requires
        h matches HeaderValue::Text(t) && t@ == decimal(v as nat),
    ensures
        length_value(h) == Some(v),
{
    lemma_parse_decimal(v as nat, u64::MAX as nat);
}

/// The value of a `Content-Length` header for the `HEAD`-only size probe.
pub fn content_length_value(h: &HeaderValue) -> (r: Option<u64>)
    ensures
        r == length_value(*h),
{
    match h {
        HeaderValue::Missing => None,
        HeaderValue::Unreadable => Some(0),
        HeaderValue::Text(t) => parse_u64(t.as_str()),
    }
}

} // verus!
