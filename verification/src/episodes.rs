//! Finding episode numbers in links and parsing episode ranges.
use vstd::prelude::*;
use vstd::string::StringSliceAdditionalSpecFns;
use vstd::utf8::{encode_utf8, encode_scalar};
use crate::urls::{url_last_path_segment, last_path_segment};
use crate::text::{
    is_digit, is_alnum, decimal_value, byte_is_digit, byte_is_alnum, ascii_lower,
    first_occurrence_from, lower_ascii_bytes, find_bytes, lemma_first_occurrence, trimmed,
    lower_char, upper_char, parse_unsigned, chars_of, trim_bounds, parse_u32_in, trim_front, trim_back,
    is_white_space, lemma_trim_front_concat, lemma_trim_back_concat, lemma_trimmed_of_trim_back,
    lemma_trimmed_of_trim_front, lemma_trim_front_keeps_absent, decimal_bytes, lemma_decimal_bytes,
    lower_byte, occurs_at,
};

verus! {

/// The index just past the run of digits that begins at `start` (`start` itself
/// when there is no digit there).
pub open spec fn digit_run_end(bytes: Seq<u8>, start: int) -> int
    decreases bytes.len() - start,
{
    if 0 <= start < bytes.len() && is_digit(bytes[start]) {
        digit_run_end(bytes, start + 1)
    } else {
        start
    }
}

/// What `read_number` returns: the digit run at `start`, its value capped at
/// `u32::MAX`, and the index just past it; `None` when no digit stands at `start`.
pub open spec fn number_at(bytes: Seq<u8>, start: int) -> Option<(u32, usize)> {
    let end = digit_run_end(bytes, start);
    if end > start {
        let v = decimal_value(bytes.subrange(start, end));
        Some((if v > u32::MAX { u32::MAX } else { v as u32 }, end as usize))
    } else {
        None
    }
}

pub proof fn lemma_digit_run_end_bounds(bytes: Seq<u8>, start: int)
    requires
        0 <= start,
    ensures
        start <= digit_run_end(bytes, start),
        start <= bytes.len() ==> digit_run_end(bytes, start) <= bytes.len(),
        forall|k: int| start <= k < digit_run_end(bytes, start) ==> is_digit(#[trigger] bytes[k]),
        digit_run_end(bytes, start) < bytes.len() ==> !is_digit(bytes[digit_run_end(bytes, start)]),
    decreases bytes.len() - start,
{
    if 0 <= start < bytes.len() && is_digit(bytes[start]) {
        lemma_digit_run_end_bounds(bytes, start + 1);
    }
}

/// Reads the decimal number that starts at `start`, saturating at `u32::MAX`.
pub fn read_number(bytes: &[u8], start: usize) -> (r: Option<(u32, usize)>)
    ensures
        r == number_at(bytes@, start as int),
{
    let mut i = start;
    let mut value: u32 = 0;
    let mut found = false;
    let ghost s = bytes@;
    while i < bytes.len() && byte_is_digit(bytes[i])
        invariant
            s == bytes@,
            start <= i,
            i <= bytes.len() || i == start,
            found == (i > start),
            forall|k: int| start <= k < i ==> is_digit(#[trigger] s[k]),
            digit_run_end(s, start as int) == digit_run_end(s, i as int),
            i == start ==> value == 0,
            i > start ==> value as nat == (if decimal_value(s.subrange(start as int, i as int)) > u32::MAX {
                u32::MAX as nat
            } else {
                decimal_value(s.subrange(start as int, i as int))
            }),
        decreases bytes.len() - i,
    {
        found = true;
        let d = bytes[i] - 48;
        let ghost old_v = if i == start { 0 } else { decimal_value(s.subrange(start as int, i as int)) };
        assert(s.subrange(start as int, i + 1).drop_last() =~= s.subrange(start as int, i as int));
        assert(s.subrange(start as int, start as int) =~= Seq::<u8>::empty());
        assert(decimal_value(Seq::<u8>::empty()) == 0);
        assert(s.subrange(start as int, i + 1).last() == s[i as int]);
        assert(decimal_value(s.subrange(start as int, i + 1)) == old_v * 10 + d);
        let m: u32 = if value > 429496729 { u32::MAX } else { value * 10 };
        value = m.saturating_add(d as u32);
        i += 1;
    }
    proof {
        lemma_digit_run_end_bounds(s, i as int);
    }
    if found { Some((value, i)) } else { None }
}

/// The word whose first occurrence starts the keyword search: `episode`.
pub open spec fn episode_word() -> Seq<u8> {
    seq![101u8, 112u8, 105u8, 115u8, 111u8, 100u8, 101u8]
}

/// The first index, not below `i`, that holds a digit or is the end.
pub open spec fn next_digit_from(s: Seq<u8>, i: int) -> int
    decreases s.len() - i,
{
    if 0 <= i < s.len() && !is_digit(s[i]) {
        next_digit_from(s, i + 1)
    } else {
        i
    }
}

/// The number written after the first `episode` of `s` (digits may follow
/// anything that is not a digit), when there is such a number and it is not 0.
pub open spec fn keyword_episode(s: Seq<u8>) -> Option<u32> {
    match first_occurrence_from(s, episode_word(), 0) {
        Some(idx) => match number_at(s, next_digit_from(s, idx + 7)) {
            Some((n, _)) => if n > 0 { Some(n) } else { None },
            None => None,
        },
        None => None,
    }
}

/// The index where the run of digits that ends just before `i` begins (`i`
/// itself when no digit stands just before it).
pub open spec fn digit_run_start(s: Seq<u8>, i: int) -> int
    decreases i,
{
    if 0 < i <= s.len() && is_digit(s[i - 1]) {
        digit_run_start(s, i - 1)
    } else {
        i
    }
}

/// The digits just before `i` follow an `s` that starts a word, as the `03` of
/// `s03e25` does.
pub open spec fn after_season(s: Seq<u8>, i: int) -> bool {
    let j = digit_run_start(s, i);
    &&& j < i
    &&& 1 <= j
    &&& s[j - 1] == 115u8
    &&& (j == 1 || !is_alnum(s[j - 2]))
}

/// An `e` at `i` that starts an episode marker: not the first byte, and after a
/// byte that is not alphanumeric (`.e25`, `_e25`), after a season number that
/// follows a word-initial `s` (`s03e25`), or after an `s` that follows a digit.
pub open spec fn marker_start(s: Seq<u8>, i: int) -> bool {
    &&& 0 < i < s.len()
    &&& s[i] == 101u8
    &&& (!is_alnum(s[i - 1]) || after_season(s, i) || (s[i - 1] == 115u8 && i >= 2 && is_digit(s[i - 2])))
}

/// The episode that an `e` marker at `i` gives: digits right after it, not
/// followed by an alphanumeric byte, with a value other than 0.
pub open spec fn marker_episode_at(s: Seq<u8>, i: int) -> Option<u32> {
    if marker_start(s, i) {
        match number_at(s, i + 1) {
            Some((n, end)) => if (end >= s.len() || !is_alnum(s[end as int])) && n > 0 {
                Some(n)
            } else {
                None
            },
            None => None,
        }
    } else {
        None
    }
}

/// The episode of the first marker at or after `i`.
pub open spec fn first_marker_episode(s: Seq<u8>, i: int) -> Option<u32>
    decreases s.len() - i,
{
    if i < 0 || i >= s.len() {
        None
    } else {
        match marker_episode_at(s, i) {
            Some(n) => Some(n),
            None => first_marker_episode(s, i + 1),
        }
    }
}

/// The episode number named in a lowered file or page name: after the word
/// `episode` first, else at the first `e` marker such as `s03e25`, `.e25`, `_e25`.
pub open spec fn episode_in_lowered(s: Seq<u8>) -> Option<u32> {
    match keyword_episode(s) {
        Some(n) => Some(n),
        None => first_marker_episode(s, 0),
    }
}

/// The episode number in a name, case being ignored.
pub open spec fn episode_in_name(name: Seq<u8>) -> Option<u32> {
    episode_in_lowered(ascii_lower(name))
}

fn skip_non_digits(s: &[u8], start: usize) -> (r: usize)
    requires
        start <= s.len(),
    ensures
        r as int == next_digit_from(s@, start as int),
        r <= s.len(),
{
    let mut i = start;
    while i < s.len() && !byte_is_digit(s[i])
        invariant
            start <= i <= s.len(),
            next_digit_from(s@, start as int) == next_digit_from(s@, i as int),
        decreases s.len() - i,
    {
        i += 1;
    }
    i
}

fn keyword_episode_exec(s: &[u8]) -> (r: Option<u32>)
    ensures
        r == keyword_episode(s@),
{
    let len = s.len();
    let word: [u8; 7] = [101, 112, 105, 115, 111, 100, 101];
    let w: &[u8] = word.as_slice();
    assert(w@ =~= episode_word());
    match find_bytes(s, w) {
        Some(idx) => {
            proof {
                lemma_first_occurrence(s@, episode_word(), 0);
                assert(crate::text::occurs_at(s@, episode_word(), idx as int));
                assert(episode_word().len() == 7);
                assert(idx + 7 <= len);
            }
            let i = skip_non_digits(s, idx + 7);
            match read_number(s, i) {
                Some((n, _)) => if n > 0 { Some(n) } else { None },
                None => None,
            }
        },
        None => None,
    }
}

fn season_before(s: &[u8], i: usize) -> (r: bool)
    requires
        i <= s.len(),
    ensures
        r == after_season(s@, i as int),
{
    let mut j = i;
    while j > 0 && byte_is_digit(s[j - 1])
        invariant
            j <= i <= s.len(),
            digit_run_start(s@, j as int) == digit_run_start(s@, i as int),
        decreases j,
    {
        j -= 1;
    }
    j < i && j >= 1 && s[j - 1] == 115 && (j == 1 || !byte_is_alnum(s[j - 2]))
}

fn marker_episode_exec(s: &[u8]) -> (r: Option<u32>)
    ensures
        r == first_marker_episode(s@, 0),
{
    let mut i: usize = 0;
    while i < s.len()
        invariant
            i <= s.len(),
            first_marker_episode(s@, 0) == first_marker_episode(s@, i as int),
        decreases s.len() - i,
    {
        if s[i] == 101 && i > 0 && (!byte_is_alnum(s[i - 1]) || season_before(s, i) || (s[i - 1]
            == 115 && i >= 2 && byte_is_digit(s[i - 2]))) {
            match read_number(s, i + 1) {
                Some((n, end)) => {
                    proof {
                        lemma_digit_run_end_bounds(s@, i + 1);
                    }
                    let next_ok = end >= s.len() || !byte_is_alnum(s[end]);
                    if next_ok && n > 0 {
                        return Some(n);
                    }
                },
                None => {},
            }
        }
        i += 1;
    }
    None
}

/// The episode number in a name (the last path segment of a link, or any text).
pub fn episode_number_in(name: &str) -> (r: Option<u32>)
    ensures
        r == episode_in_name(name.spec_bytes()),
{
    let lower = lower_ascii_bytes(name.as_bytes());
    match keyword_episode_exec(lower.as_slice()) {
        Some(n) => Some(n),
        None => marker_episode_exec(lower.as_slice()),
    }
}

/// The text in which an episode number is looked for: the last path segment
/// when `text` is a URL with a path, else `text` itself.
pub open spec fn episode_candidate(text: Seq<char>) -> Seq<char> {
    match url_last_path_segment(text) {
        Some(seg) => seg,
        None => text,
    }
}

/// Extracts an episode number from a link or a name: from the last path segment
/// when the text is a URL, else from the whole text.
pub fn extract_episode_number(text: &str) -> (r: Option<u32>)
    ensures
        r == episode_in_name(encode_utf8(episode_candidate(text@))),
{
    let candidate = match last_path_segment(text) {
        Some(seg) => seg,
        None => text.to_owned(),
    };
    episode_number_in(candidate.as_str())
}

/// `s` is the word `all`, ASCII case ignored.
pub open spec fn is_all_word(s: Seq<char>) -> bool {
    &&& s.len() == 3
    &&& lower_char(s[0]) == 'a'
    &&& lower_char(s[1]) == 'l'
    &&& lower_char(s[2]) == 'l'
}

/// The first index, not below `i`, that holds `c`.
pub open spec fn first_index_of(s: Seq<char>, c: char, i: int) -> Option<int>
    decreases s.len() - i,
{
    if i < 0 || i >= s.len() {
        None
    } else if s[i] == c {
        Some(i)
    } else {
        first_index_of(s, c, i + 1)
    }
}

/// A number of a range: the part trimmed and read as a `u32`.
pub open spec fn range_number(part: Seq<char>) -> Option<u32> {
    match parse_unsigned(trimmed(part), u32::MAX as nat) {
        Some(v) => Some(v as u32),
        None => None,
    }
}

/// What an episode-range answer means. Blank or `all` (any case): `None`, all
/// episodes. `a-b`: the range from the smaller to the larger of the two numbers.
/// One number `n`: the range `n..=n`. A 0 anywhere: `(0, 0)`, the request to stop.
/// Anything that does not read as numbers: `None`.
pub open spec fn episode_range_of(input: Seq<char>) -> Option<(u32, u32)> {
    let t = trimmed(input);
    if t.len() == 0 || is_all_word(t) {
        None
    } else {
        match first_index_of(t, '-', 0) {
            Some(k) => match (range_number(t.subrange(0, k)), range_number(t.subrange(k + 1, t.len() as int))) {
                (Some(a), Some(b)) => if a == 0 || b == 0 {
                    Some((0u32, 0u32))
                } else if a <= b {
                    Some((a, b))
                } else {
                    Some((b, a))
                },
                _ => None,
            },
            None => match range_number(t) {
                Some(n) => if n == 0 { Some((0u32, 0u32)) } else { Some((n, n)) },
                None => None,
            },
        }
    }
}

fn range_number_in(s: &Vec<char>, from: usize, to: usize) -> (r: Option<u32>)
    requires
        from <= to <= s.len(),
    ensures
        r == range_number(s@.subrange(from as int, to as int)),
{
    let (a, b) = trim_bounds(s, from, to);
    parse_u32_in(s, a, b)
}

/// Parses an episode-range answer such as `1-24`, `24-1`, `7`, `all` or `0`.
pub fn parse_episode_range(input: &str) -> (r: Option<(u32, u32)>)
    ensures
        r == episode_range_of(input@),
{
    let chars = chars_of(input);
    assert(chars@.subrange(0, chars@.len() as int) =~= chars@);
    let (a, b) = trim_bounds(&chars, 0, chars.len());
    let ghost t = chars@.subrange(a as int, b as int);
    if a == b {
        return None;
    }
    if b - a == 3 {
        let c0 = chars[a];
        let c1 = chars[a + 1];
        let c2 = chars[a + 2];
        if (c0 == 'a' || c0 == 'A') && (c1 == 'l' || c1 == 'L') && (c2 == 'l' || c2 == 'L') {
            return None;
        }
        assert(!is_all_word(t));
    } else {
        assert(!is_all_word(t));
    }
    let mut k = a;
    while k < b && chars[k] != '-'
        invariant
            a <= k <= b <= chars.len(),
            t == chars@.subrange(a as int, b as int),
            first_index_of(t, '-', 0) == first_index_of(t, '-', k - a),
        decreases b - k,
    {
        k += 1;
    }
    if k < b {
        assert(t.subrange(0, k - a) =~= chars@.subrange(a as int, k as int));
        assert(t.subrange(k - a + 1, t.len() as int) =~= chars@.subrange(k + 1, b as int));
        let start = match range_number_in(&chars, a, k) {
            Some(v) => v,
            None => return None,
        };
        let end = match range_number_in(&chars, k + 1, b) {
            Some(v) => v,
            None => return None,
        };
        if start == 0 || end == 0 {
            return Some((0, 0));
        }
        if start <= end { Some((start, end)) } else { Some((end, start)) }
    } else {
        let n = match range_number_in(&chars, a, b) {
            Some(v) => v,
            None => return None,
        };
        if n == 0 { Some((0, 0)) } else { Some((n, n)) }
    }
}

/// The range that an `a-b` answer gives, from what its two ends read as.
pub open spec fn range_from_ends(a: Option<u32>, b: Option<u32>) -> Option<(u32, u32)> {
    match (a, b) {
        (Some(a), Some(b)) => if a == 0 || b == 0 {
            Some((0u32, 0u32))
        } else if a <= b {
            Some((a, b))
        } else {
            Some((b, a))
        },
        _ => None,
    }
}

proof fn lemma_first_dash(p: Seq<char>, q: Seq<char>, i: int)
    requires
        !p.contains('-'),
        0 <= i <= p.len(),
    ensures
        first_index_of(p + seq!['-'] + q, '-', i) == Some(p.len() as int),
    decreases p.len() - i,
{
    let w = p + seq!['-'] + q;
    if i < p.len() {
        assert(w[i] == p[i]);
        lemma_first_dash(p, q, i + 1);
    } else {
        assert(w[i] == '-');
    }
}

/// An `a-b` answer (with no other `-`) gives the range of its two ends, each
/// read on its own with surrounding white space ignored.
pub proof fn lemma_range_of_pair(x: Seq<char>, y: Seq<char>)
    requires
        !x.contains('-'),
        !y.contains('-'),
    ensures
        episode_range_of(x + seq!['-'] + y) == range_from_ends(range_number(x), range_number(y)),
{
    let dash = seq!['-'];
    let input = x + dash + y;
    assert(!is_white_space('-'));
    assert(input =~= x + (dash + y));
    lemma_trim_front_concat(x, dash + y);
    let p = trim_front(x);
    assert(p + (dash + y) =~= (p + dash) + y);
    lemma_trim_back_concat(p + dash, y);
    let t = trimmed(input);
    assert(t == (p + dash) + trim_back(y));
    lemma_trim_front_keeps_absent(x, '-');
    assert(t =~= p + dash + trim_back(y));
    lemma_first_dash(p, trim_back(y), 0);
    assert(t[p.len() as int] == '-');
    assert(t.len() > 0);
    assert(!is_all_word(t));
    assert(t.subrange(0, p.len() as int) =~= p);
    assert(t.subrange(p.len() as int + 1, t.len() as int) =~= trim_back(y));
    lemma_trimmed_of_trim_front(x);
    lemma_trimmed_of_trim_back(y);
}

/// White space around an answer does not change the range it gives.
pub proof fn law_range_ignores_surrounding_space(w1: Seq<char>, x: Seq<char>, w2: Seq<char>)
    requires
        forall|i: int| 0 <= i < w1.len() ==> is_white_space(#[trigger] w1[i]),
        forall|i: int| 0 <= i < w2.len() ==> is_white_space(#[trigger] w2[i]),
    ensures
        episode_range_of(w1 + x + w2) == episode_range_of(x),
{
    crate::text::lemma_trimmed_ignores_space(w1, x, w2);
}

/// A parsed range never runs backwards, and 0 appears only in the stop request `(0, 0)`.
pub proof fn law_range_is_ordered(input: Seq<char>)
    ensures
        episode_range_of(input) matches Some((a, b)) ==> a <= b && (a == 0 <==> b == 0),
{
}

/// Swapping the two ends of an `a-b` answer gives the same range.
pub proof fn law_range_ends_commute(x: Seq<char>, y: Seq<char>)
    requires
        !x.contains('-'),
        !y.contains('-'),
    ensures
        episode_range_of(x + seq!['-'] + y) == episode_range_of(y + seq!['-'] + x),
{
    lemma_range_of_pair(x, y);
    lemma_range_of_pair(y, x);
}

/// An episode number found in a name is never 0.
pub proof fn law_episode_not_zero(name: Seq<u8>)
    ensures
        episode_in_name(name) matches Some(n) ==> n > 0,
{
    lemma_marker_episode_not_zero(ascii_lower(name), 0);
}

proof fn lemma_marker_episode_not_zero(s: Seq<u8>, i: int)
    ensures
        first_marker_episode(s, i) matches Some(n) ==> n > 0,
    decreases s.len() - i,
{
    if 0 <= i < s.len() && marker_episode_at(s, i) is None {
        lemma_marker_episode_not_zero(s, i + 1);
    }
}

/// An episode number found in a name does not depend on the case of its ASCII
/// letters: two names that agree once lowered give the same number.
pub proof fn law_episode_ignores_ascii_case(a: Seq<u8>, b: Seq<u8>)
    requires
        ascii_lower(a) == ascii_lower(b),
    ensures
        episode_in_name(a) == episode_in_name(b),
{
}

/// The ASCII letters of a text lowered; every other character kept.
pub open spec fn lower_chars(t: Seq<char>) -> Seq<char> {
    t.map_values(|c: char| lower_char(c))
}

/// The ASCII letters of a text raised; every other character kept.
pub open spec fn upper_chars(t: Seq<char>) -> Seq<char> {
    t.map_values(|c: char| upper_char(c))
}

proof fn lemma_lower_encode_scalar(c: char)
    ensures
        ascii_lower(encode_scalar(c as u32)) == encode_scalar(lower_char(c) as u32),
{
    let v = c as u32;
    if v <= 0x7F {
        assert((v & 0x7F) as u8 == v as u8) by (bit_vector)
            requires
                v <= 0x7F,
        ;
        if 'A' <= c <= 'Z' {
            let w = (v + 32) as u32;
            assert(lower_char(c) as u32 == w);
            assert((w & 0x7F) as u8 == w as u8) by (bit_vector)
                requires
                    w <= 0x7F,
            ;
            assert(ascii_lower(encode_scalar(v)) =~= encode_scalar(w as u32));
        } else {
            assert(ascii_lower(encode_scalar(v)) =~= encode_scalar(v));
        }
    } else {
        assert(lower_char(c) == c);
        assert(forall|x: u8| #[trigger] (0xC0u8 | x) >= 0x80) by (bit_vector);
        assert(forall|x: u8| #[trigger] (0xE0u8 | x) >= 0x80) by (bit_vector);
        assert(forall|x: u8| #[trigger] (0xF0u8 | x) >= 0x80) by (bit_vector);
        assert(forall|x: u8| #[trigger] (0x80u8 | x) >= 0x80) by (bit_vector);
        let e = encode_scalar(v);
        assert(forall|k: int| 0 <= k < e.len() ==> #[trigger] e[k] >= 0x80);
        assert(ascii_lower(e) =~= e);
    }
}

/// Lowering the ASCII letters of a text lowers those of its UTF-8 form, and no
/// other byte.
pub proof fn lemma_lower_encode_utf8(t: Seq<char>)
    ensures
        ascii_lower(encode_utf8(t)) == encode_utf8(lower_chars(t)),
    decreases t.len(),
{
    if t.len() > 0 {
        lemma_lower_encode_utf8(t.drop_first());
        lemma_lower_encode_scalar(t[0]);
        assert(lower_chars(t).drop_first() =~= lower_chars(t.drop_first()));
        let a = encode_scalar(t[0] as u32);
        let b = encode_utf8(t.drop_first());
        assert(ascii_lower(a + b) =~= ascii_lower(a) + ascii_lower(b));
    }
}

proof fn lemma_lower_of_upper(t: Seq<char>)
    ensures
        lower_chars(upper_chars(t)) == lower_chars(t),
{
    assert forall|k: int| 0 <= k < t.len() implies lower_char(upper_char(t[k])) == lower_char(t[k]) by {
        let c = t[k];
        if 'a' <= c <= 'z' {
            assert(upper_char(c) as u32 == c as u32 - 32);
            assert(lower_char(upper_char(c)) as u32 == c as u32);
        }
    }
    assert(lower_chars(upper_chars(t)) =~= lower_chars(t));
}

proof fn lemma_lower_of_lower(t: Seq<char>)
    ensures
        lower_chars(lower_chars(t)) == lower_chars(t),
{
    assert forall|k: int| 0 <= k < t.len() implies lower_char(lower_char(t[k])) == lower_char(t[k]) by {
        let c = t[k];
        if 'A' <= c <= 'Z' {
            assert(lower_char(c) as u32 == c as u32 + 32);
        }
    }
    assert(lower_chars(lower_chars(t)) =~= lower_chars(t));
}

/// Two texts that are no URLs with a path and that agree once their ASCII
/// letters are lowered give the same episode number.
pub proof fn law_link_episode_ignores_ascii_case(t1: Seq<char>, t2: Seq<char>)
    requires
        url_last_path_segment(t1) is None,
        url_last_path_segment(t2) is None,
        lower_chars(t1) == lower_chars(t2),
    ensures
        link_episode(t1) == link_episode(t2),
{
    lemma_lower_encode_utf8(t1);
    lemma_lower_encode_utf8(t2);
}

/// A text that is no URL with a path gives the same episode number as its
/// ASCII upper-case and lower-case forms, where those are no URLs with a path either.
pub proof fn law_link_episode_same_in_any_ascii_case(t: Seq<char>)
    requires
        url_last_path_segment(t) is None,
        url_last_path_segment(upper_chars(t)) is None,
        url_last_path_segment(lower_chars(t)) is None,
    ensures
        link_episode(t) == link_episode(upper_chars(t)),
        link_episode(t) == link_episode(lower_chars(t)),
{
    lemma_lower_of_upper(t);
    lemma_lower_of_lower(t);
    law_link_episode_ignores_ascii_case(t, upper_chars(t));
    law_link_episode_ignores_ascii_case(t, lower_chars(t));
}

proof fn lemma_lower_concat(a: Seq<u8>, b: Seq<u8>)
    ensures
        ascii_lower(a + b) == ascii_lower(a) + ascii_lower(b),
{
    assert(ascii_lower(a + b) =~= ascii_lower(a) + ascii_lower(b));
}

proof fn lemma_run_end(s: Seq<u8>, start: int, end: int, j: int)
    requires
        0 <= start <= j <= end <= s.len(),
        forall|i: int| start <= i < end ==> is_digit(#[trigger] s[i]),
        end == s.len() || !is_digit(s[end]),
    ensures
        digit_run_end(s, j) == end,
    decreases end - j,
{
    if j < end {
        lemma_run_end(s, start, end, j + 1);
    }
}

/// The decimal digits of `n`, written at index `p.len()` and followed by no
/// digit, read as `n` (capped at `u32::MAX`) and end where the digits end.
pub proof fn lemma_number_at_decimal(p: Seq<u8>, n: nat, q: Seq<u8>)
    requires
        q.len() > 0 ==> !is_digit(q[0]),
    ensures
        number_at(p + decimal_bytes(n) + q, p.len() as int) matches Some((v, e))
            && v == (if n > u32::MAX { u32::MAX as nat } else { n })
            && e == (p.len() + decimal_bytes(n).len()) as usize,
{
    let d = decimal_bytes(n);
    let s = p + d + q;
    lemma_decimal_bytes(n);
    let start = p.len() as int;
    let end = start + d.len();
    assert forall|i: int| start <= i < end implies is_digit(#[trigger] s[i]) by {
        assert(s[i] == d[i - start]);
    }
    if end < s.len() {
        assert(s[end] == q[0]);
    }
    lemma_run_end(s, start, end, start);
    assert(s.subrange(start, end) =~= d);
}

/// No byte of `s` is `b` or its ASCII upper-case form `B`.
pub open spec fn lacks_letter(s: Seq<u8>, lower: u8) -> bool {
    forall|i: int| 0 <= i < s.len() ==> #[trigger] s[i] != lower && s[i] != (lower - 32) as u8
}

proof fn lemma_lower_lacks(s: Seq<u8>, lower: u8)
    requires
        97 <= lower <= 122,
        lacks_letter(s, lower),
    ensures
        forall|i: int| 0 <= i < ascii_lower(s).len() ==> #[trigger] ascii_lower(s)[i] != lower,
{
}

proof fn lemma_no_p_no_episode(s: Seq<u8>)
    requires
        forall|i: int| 0 <= i < s.len() ==> #[trigger] s[i] != 112u8,
    ensures
        first_occurrence_from(s, episode_word(), 0) is None,
{
    lemma_first_occurrence(s, episode_word(), 0);
    match first_occurrence_from(s, episode_word(), 0) {
        Some(k) => {
            assert(s.subrange(k, k + 7)[1] == episode_word()[1]);
            assert(s[k + 1] == 112u8);
        },
        None => {},
    }
}

proof fn lemma_first_marker_skip(s: Seq<u8>, i: int, j: int)
    requires
        0 <= i <= j <= s.len(),
        forall|k: int| i <= k < j ==> #[trigger] s[k] != 101u8,
    ensures
        first_marker_episode(s, i) == first_marker_episode(s, j),
    decreases j - i,
{
    if i < j {
        lemma_first_marker_skip(s, i + 1, j);
    }
}

/// A name with an episode marker such as `.e1071` or `_E25` reads as that episode,
/// however many digits it has: before the marker there is no `e` and no `p` (in
/// either case) and the byte just before the `e` is no letter or digit; after the
/// digits comes the end or a byte that is no letter or digit, and no `p`.
pub proof fn law_marker_episode_reads_number(p: Seq<u8>, c: u8, e: u8, n: nat, q: Seq<u8>)
    requires
        0 < n <= u32::MAX,
        lacks_letter(p, 101u8),
        lacks_letter(p, 112u8),
        lacks_letter(q, 112u8),
        !is_alnum(c),
        e == 101u8 || e == 69u8,
        q.len() > 0 ==> !is_alnum(q[0]),
        p.len() + 2 + decimal_bytes(n).len() + q.len() <= usize::MAX,
    ensures
        episode_in_name(p + seq![c, e] + decimal_bytes(n) + q) == Some(n as u32),
{
    let d = decimal_bytes(n);
    lemma_decimal_bytes(n);
    let pre = p + seq![c, e];
    let name = pre + d + q;
    let lp = ascii_lower(p);
    let lq = ascii_lower(q);
    let lpre = lp + seq![c, 101u8];
    lemma_lower_concat(pre + d, q);
    lemma_lower_concat(pre, d);
    lemma_lower_concat(p, seq![c, e]);
    assert(ascii_lower(seq![c, e]) =~= seq![c, 101u8]);
    assert(ascii_lower(d) =~= d);
    let ls = ascii_lower(name);
    assert(ls =~= lpre + d + lq);
    lemma_lower_lacks(p, 101u8);
    lemma_lower_lacks(p, 112u8);
    lemma_lower_lacks(q, 112u8);
    assert forall|i: int| 0 <= i < ls.len() implies #[trigger] ls[i] != 112u8 by {
        if i < lp.len() {
            assert(ls[i] == lp[i]);
        } else if i < lpre.len() {
        } else if i < lpre.len() + d.len() {
            assert(ls[i] == d[i - lpre.len()]);
        } else {
            assert(ls[i] == lq[i - lpre.len() - d.len()]);
        }
    }
    lemma_no_p_no_episode(ls);
    let j = lp.len() + 1int;
    assert forall|k: int| 0 <= k < j implies #[trigger] ls[k] != 101u8 by {
        if k < lp.len() {
            assert(ls[k] == lp[k]);
        }
    }
    lemma_first_marker_skip(ls, 0, j);
    assert(ls[j] == 101u8);
    assert(ls[j - 1] == c);
    assert(marker_start(ls, j));
    if lq.len() > 0 {
        assert(lq[0] == lower_byte(q[0]));
    }
    lemma_number_at_decimal(lpre, n, lq);
    let end = lpre.len() + d.len() as int;
    if end < ls.len() {
        assert(ls[end] == lq[0]);
        assert(!is_alnum(lq[0]));
    }
    assert(number_at(ls, j + 1) matches Some((v, en)) && v == n && en == end);
    assert(marker_episode_at(ls, j) == Some(n as u32));
}

proof fn lemma_occurrence_has_p(s: Seq<u8>, j: int)
    requires
        occurs_at(s, episode_word(), j),
    ensures
        s[j + 1] == 112u8,
{
    assert(s.subrange(j, j + 7)[1] == s[j + 1]);
    assert(episode_word()[1] == 112u8);
}

proof fn lemma_first_occurrence_at(s: Seq<u8>, k0: int, i: int)
    requires
        0 <= i <= k0,
        occurs_at(s, episode_word(), k0),
        forall|j: int| i <= j < k0 ==> #[trigger] s[j + 1] != 112u8,
    ensures
        first_occurrence_from(s, episode_word(), i) == Some(k0),
    decreases k0 - i,
{
    if i < k0 {
        if occurs_at(s, episode_word(), i) {
            lemma_occurrence_has_p(s, i);
        }
        lemma_first_occurrence_at(s, k0, i + 1);
    }
}

proof fn lemma_first_episode_word(lp: Seq<u8>, rest: Seq<u8>)
    requires
        forall|i: int| 0 <= i < lp.len() ==> #[trigger] lp[i] != 112u8,
    ensures
        first_occurrence_from(lp + episode_word() + rest, episode_word(), 0) == Some(lp.len() as int),
{
    let w = episode_word();
    let ls = lp + w + rest;
    let k0 = lp.len() as int;
    assert(ls.subrange(k0, k0 + 7) =~= w);
    assert forall|j: int| 0 <= j < k0 implies #[trigger] ls[j + 1] != 112u8 by {
        if j + 1 < k0 {
            assert(ls[j + 1] == lp[j + 1]);
        } else {
            assert(ls[j + 1] == w[0]);
        }
    }
    lemma_first_occurrence_at(ls, k0, 0);
}

proof fn lemma_keyword_lowered(lp: Seq<u8>, sep: Seq<u8>, n: nat, lq: Seq<u8>)
    requires
        0 < n <= u32::MAX,
        forall|i: int| 0 <= i < lp.len() ==> #[trigger] lp[i] != 112u8,
        forall|i: int| 0 <= i < sep.len() ==> !is_digit(#[trigger] sep[i]),
        lq.len() > 0 ==> !is_digit(lq[0]),
        lp.len() + 7 + sep.len() + decimal_bytes(n).len() + lq.len() <= usize::MAX,
    ensures
        keyword_episode(lp + episode_word() + sep + decimal_bytes(n) + lq) == Some(n as u32),
{
    let d = decimal_bytes(n);
    lemma_decimal_bytes(n);
    let w = episode_word();
    let pre = lp + w + sep;
    let ls = pre + d + lq;
    assert(ls =~= lp + w + (sep + d + lq));
    lemma_first_episode_word(lp, sep + d + lq);
    let sstart = lp.len() + 7int;
    let dstart = pre.len() as int;
    assert(is_digit(ls[dstart])) by {
        assert(ls[dstart] == d[0]);
    }
    assert forall|i: int| sstart <= i < dstart implies !is_digit(#[trigger] ls[i]) by {
        assert(ls[i] == sep[i - sstart]);
    }
    lemma_next_digit_skip(ls, sstart, dstart);
    lemma_number_at_decimal(pre, n, lq);
}

/// A name that says `episode` (in any case), then a separator without digits,
/// then a positive number, reads as that number, however many digits it has,
/// when no `p` comes before the word and a non-digit or the end follows the number.
pub proof fn law_keyword_episode_reads_number(p: Seq<u8>, word: Seq<u8>, sep: Seq<u8>, n: nat, q: Seq<u8>)
    requires
        0 < n <= u32::MAX,
        ascii_lower(word) == episode_word(),
        lacks_letter(p, 112u8),
        forall|i: int| 0 <= i < sep.len() ==> !is_digit(#[trigger] sep[i]),
        q.len() > 0 ==> !is_digit(q[0]),
        p.len() + word.len() + sep.len() + decimal_bytes(n).len() + q.len() <= usize::MAX,
    ensures
        episode_in_name(p + word + sep + decimal_bytes(n) + q) == Some(n as u32),
{
    let d = decimal_bytes(n);
    lemma_decimal_bytes(n);
    let name = p + word + sep + d + q;
    let lp = ascii_lower(p);
    let lsep = ascii_lower(sep);
    let lq = ascii_lower(q);
    assert(ascii_lower(name) == lp + episode_word() + lsep + d + lq) by {
        lemma_lower_concat(p + word + sep + d, q);
        lemma_lower_concat(p + word + sep, d);
        lemma_lower_concat(p + word, sep);
        lemma_lower_concat(p, word);
        assert(ascii_lower(d) =~= d);
    }
    lemma_lower_lacks(p, 112u8);
    assert forall|i: int| 0 <= i < lsep.len() implies !is_digit(#[trigger] lsep[i]) by {
        assert(lsep[i] == lower_byte(sep[i]));
    }
    if lq.len() > 0 {
        assert(lq[0] == lower_byte(q[0]));
    }
    assert(word.len() == 7) by {
        assert(ascii_lower(word).len() == word.len());
    }
    lemma_keyword_lowered(lp, lsep, n, lq);
}

proof fn lemma_next_digit_skip(s: Seq<u8>, i: int, j: int)
    requires
        0 <= i <= j < s.len(),
        forall|k: int| i <= k < j ==> !is_digit(#[trigger] s[k]),
        is_digit(s[j]),
    ensures
        next_digit_from(s, i) == j,
    decreases j - i,
{
    if i < j {
        lemma_next_digit_skip(s, i + 1, j);
    }
}

/// The episode number a link gives (see `extract_episode_number`).
pub open spec fn link_episode(link: Seq<char>) -> Option<u32> {
    episode_in_name(encode_utf8(episode_candidate(link)))
}

/// The view of a list of numbered links.
pub open spec fn numbered_view(v: Seq<(u32, String)>) -> Seq<(u32, Seq<char>)> {
    v.map_values(|p: (u32, String)| (p.0, p.1@))
}

/// The links that give an episode number, with it, in order.
pub open spec fn numbered_links(links: Seq<Seq<char>>) -> Seq<(u32, Seq<char>)>
    decreases links.len(),
{
    if links.len() == 0 {
        Seq::empty()
    } else {
        let prev = numbered_links(links.drop_last());
        match link_episode(links.last()) {
            Some(e) => prev.push((e, links.last())),
            None => prev,
        }
    }
}

/// The links that name an episode, each with its number, in order.
pub fn number_links(links: &Vec<String>) -> (r: Vec<(u32, String)>)
    ensures
        numbered_view(r@) == numbered_links(links.deep_view()),
{
    let mut out: Vec<(u32, String)> = Vec::new();
    let mut i: usize = 0;
    while i < links.len()
        invariant
            i <= links.len(),
            numbered_view(out@) == numbered_links(links.deep_view().subrange(0, i as int)),
        decreases links.len() - i,
    {
        let ghost pre = links.deep_view().subrange(0, i as int);
        let ghost post = links.deep_view().subrange(0, i + 1);
        assert(post.drop_last() =~= pre);
        assert(post.last() == links@[i as int]@);
        match extract_episode_number(links[i].as_str()) {
            Some(e) => {
                let ghost b = out@;
                out.push((e, links[i].clone()));
                assert(numbered_view(out@) =~= numbered_view(b).push((e, links@[i as int]@)));
            },
            None => {},
        }
        i += 1;
    }
    assert(links.deep_view().subrange(0, i as int) =~= links.deep_view());
    out
}

/// The links numbered by their order: the first is episode 1, the next 2, and so on.
pub open spec fn numbered_by_order(links: Seq<Seq<char>>) -> Seq<(u32, Seq<char>)> {
    Seq::new(links.len(), |i: int| ((i + 1) as u32, links[i]))
}

/// The link that first gives episode `e` in `pages`.
pub open spec fn first_link_for(pages: Seq<(u32, Seq<char>)>, e: u32) -> Option<Seq<char>>
    decreases pages.len(),
{
    if pages.len() == 0 {
        None
    } else {
        match first_link_for(pages.drop_last(), e) {
            Some(l) => Some(l),
            None => if pages.last().0 == e {
                Some(pages.last().1)
            } else {
                None
            },
        }
    }
}

/// `out` lists each episode of `pages` once, in increasing order, with the
/// first link that gives it: what a stable sort by episode and the removal of
/// later duplicates leave.
pub open spec fn sorted_episodes(pages: Seq<(u32, Seq<char>)>, out: Seq<(u32, Seq<char>)>) -> bool {
    &&& forall|i: int, j: int| 0 <= i < j < out.len() ==> out[i].0 < out[j].0
    &&& forall|k: int| 0 <= k < out.len() ==> first_link_for(pages, #[trigger] out[k].0) == Some(out[k].1)
    &&& forall|k: int| 0 <= k < pages.len() ==> exists|m: int| 0 <= m < out.len() && out[m].0 == #[trigger] pages[k].0
}

proof fn lemma_first_link_push(pages: Seq<(u32, Seq<char>)>, x: (u32, Seq<char>), e: u32)
    ensures
        first_link_for(pages.push(x), e) == (match first_link_for(pages, e) {
            Some(l) => Some(l),
            None => if x.0 == e { Some(x.1) } else { None },
        }),
{
    assert(pages.push(x).drop_last() =~= pages);
}

proof fn lemma_first_link_none(pages: Seq<(u32, Seq<char>)>, e: u32)
    requires
        forall|k: int| 0 <= k < pages.len() ==> pages[k].0 != e,
    ensures
        first_link_for(pages, e) is None,
    decreases pages.len(),
{
    if pages.len() > 0 {
        lemma_first_link_none(pages.drop_last(), e);
    }
}

/// Sorts numbered links by episode, keeping for each episode only its first link.
pub fn sort_episodes(pages: &Vec<(u32, String)>) -> (r: Vec<(u32, String)>)
    ensures
        sorted_episodes(numbered_view(pages@), numbered_view(r@)),
{
    let ghost all = numbered_view(pages@);
    let mut out: Vec<(u32, String)> = Vec::new();
    let mut i: usize = 0;
    while i < pages.len()
        invariant
            i <= pages.len(),
            all == numbered_view(pages@),
            sorted_episodes(all.subrange(0, i as int), numbered_view(out@)),
        decreases pages.len() - i,
    {
        let ghost pre = all.subrange(0, i as int);
        let ghost post = all.subrange(0, i + 1);
        let ghost o = numbered_view(out@);
        assert(post =~= pre.push(all[i as int]));
        let e = pages[i].0;
        let mut p: usize = 0;
        while p < out.len() && out[p].0 < e
            invariant
                p <= out.len(),
                o == numbered_view(out@),
                forall|k: int| 0 <= k < p ==> o[k].0 < e,
            decreases out.len() - p,
        {
            p += 1;
        }
        proof {
            assert forall|e2: u32| true implies #[trigger] first_link_for(post, e2) == (match first_link_for(pre, e2) {
                Some(l) => Some(l),
                None => if all[i as int].0 == e2 { Some(all[i as int].1) } else { None },
            }) by {
                lemma_first_link_push(pre, all[i as int], e2);
            }
        }
        if p < out.len() && out[p].0 == e {
            proof {
                let m = p as int;
                assert(first_link_for(pre, o[m].0) is Some);
                assert forall|k: int| 0 <= k < post.len() implies exists|m: int| 0 <= m < o.len() && o[m].0 == #[trigger] post[k].0 by {
                    if k < pre.len() {
                        assert(post[k] == pre[k]);
                    } else {
                        assert(o[p as int].0 == post[k].0);
                    }
                }
            }
        } else {
            proof {
                assert forall|m: int| 0 <= m < o.len() implies o[m].0 != e by {
                    if m < p {
                    } else {
                        assert(o[p as int].0 > e);
                        if m > p {
                            assert(o[p as int].0 < o[m].0);
                        }
                    }
                }
                assert forall|k: int| 0 <= k < pre.len() implies pre[k].0 != e by {
                    let m = choose|m: int| 0 <= m < o.len() && o[m].0 == #[trigger] pre[k].0;
                }
                lemma_first_link_none(pre, e);
            }
            out.insert(p, (e, pages[i].1.clone()));
            proof {
                let n = numbered_view(out@);
                assert(n =~= o.insert(p as int, (e, all[i as int].1)));
                assert forall|a: int, b: int| 0 <= a < b < n.len() implies n[a].0 < n[b].0 by {
                    if b < p {
                    } else if b == p {
                    } else if a < p {
                        assert(o[a].0 < e);
                        assert(n[b] == o[b - 1]);
                        if (b - 1) > p as int {
                            assert(o[p as int].0 < o[b - 1].0);
                        }
                        assert(o[p as int].0 > e);
                    } else if a == p {
                        assert(n[b] == o[b - 1]);
                        if (b - 1) > p as int {
                            assert(o[p as int].0 < o[b - 1].0);
                        }
                    } else {
                        assert(n[a] == o[a - 1]);
                        assert(n[b] == o[b - 1]);
                    }
                }
                assert forall|k: int| 0 <= k < n.len() implies first_link_for(post, #[trigger] n[k].0) == Some(n[k].1) by {
                    if k < p {
                        assert(n[k] == o[k]);
                    } else if k > p {
                        assert(n[k] == o[k - 1]);
                    }
                }
                assert forall|k: int| 0 <= k < post.len() implies exists|m: int| 0 <= m < n.len() && n[m].0 == #[trigger] post[k].0 by {
                    if k < pre.len() {
                        assert(post[k] == pre[k]);
                        let m = choose|m: int| 0 <= m < o.len() && o[m].0 == #[trigger] pre[k].0;
                        if m < p {
                            assert(n[m] == o[m]);
                        } else {
                            assert(n[m + 1] == o[m]);
                        }
                    } else {
                        assert(n[p as int].0 == post[k].0);
                    }
                }
            }
        }
        i += 1;
    }
    assert(all.subrange(0, i as int) =~= all);
    out
}

/// The title of a post says `episode`, ASCII case ignored.
pub open spec fn title_mentions_episode(title: Seq<char>) -> bool {
    first_occurrence_from(ascii_lower(encode_utf8(title)), episode_word(), 0) is Some
}

/// The numbered links a post's download pages give, and whether they were
/// numbered by their order: the links' own numbers, unless fewer than two links
/// give one, the title says `episode` and there are at least two links, in which
/// case the links are numbered 1, 2, ... in order.
pub open spec fn episode_source(title: Seq<char>, links: Seq<Seq<char>>) -> (Seq<(u32, Seq<char>)>, bool) {
    let numbered = numbered_links(links);
    if numbered.len() < 2 && title_mentions_episode(title) && links.len() >= 2 {
        (numbered_by_order(links), true)
    } else {
        (numbered, false)
    }
}

/// How a post's download pages are treated.
pub enum EpisodePlan {
    /// Not as episodes: every page is followed.
    Plain,
    /// As episodes: one link per episode, in increasing order; `by_order` when the
    /// numbers come from the links' order.
    Episodes { pages: Vec<(u32, String)>, by_order: bool },
}

/// Whether a post's download pages are episodes, and which link stands for each.
/// Episode mode needs at least two numbered links.
pub fn plan_episodes(title: &str, links: &Vec<String>) -> (r: EpisodePlan)
    requires
        links.len() <= u32::MAX,
    ensures
        ({
            let (src, by_order) = episode_source(title@, links.deep_view());
            if src.len() >= 2 {
                r matches EpisodePlan::Episodes { pages, by_order: b } && b == by_order
                    && sorted_episodes(src, numbered_view(pages@))
            } else {
                r is Plain
            }
        }),
{
    let mut numbered = number_links(links);
    let mut by_order = false;
    let lower = lower_ascii_bytes(title.as_bytes());
    let word: [u8; 7] = [101, 112, 105, 115, 111, 100, 101];
    let w: &[u8] = word.as_slice();
    assert(w@ =~= episode_word());
    let mentions = find_bytes(lower.as_slice(), w).is_some();
    if numbered.len() < 2 && mentions && links.len() >= 2 {
        by_order = true;
        let mut v: Vec<(u32, String)> = Vec::new();
        let mut i: usize = 0;
        while i < links.len()
            invariant
                i <= links.len() <= u32::MAX,
                numbered_view(v@) =~= numbered_by_order(links.deep_view()).subrange(0, i as int),
            decreases links.len() - i,
        {
            let ghost b = numbered_view(v@);
            v.push(((i as u32) + 1, links[i].clone()));
            assert(numbered_view(v@) =~= b.push((((i as u32) + 1) as u32, links@[i as int]@)));
            i += 1;
        }
        assert(numbered_by_order(links.deep_view()).subrange(0, i as int) =~= numbered_by_order(links.deep_view()));
        numbered = v;
    }
    if numbered.len() >= 2 {
        let pages = sort_episodes(&numbered);
        EpisodePlan::Episodes { pages, by_order }
    } else {
        EpisodePlan::Plain
    }
}

/// The links of numbered pages, in order.
pub open spec fn all_links(pages: Seq<(u32, Seq<char>)>) -> Seq<Seq<char>> {
    pages.map_values(|p: (u32, Seq<char>)| p.1)
}

/// The links of the pages whose episode lies in `start..=end`, in order.
pub open spec fn links_in_range(pages: Seq<(u32, Seq<char>)>, start: u32, end: u32) -> Seq<Seq<char>>
    decreases pages.len(),
{
    if pages.len() == 0 {
        Seq::empty()
    } else {
        let prev = links_in_range(pages.drop_last(), start, end);
        if start <= pages.last().0 <= end {
            prev.push(pages.last().1)
        } else {
            prev
        }
    }
}

/// What an episode-range answer leads to.
pub enum RangeChoice {
    /// A 0 was given: stop without downloading.
    Stop,
    /// No range (blank or `all`): every episode.
    All(Vec<String>),
    /// The range reaches past the available episodes: every episode.
    Beyond(Vec<String>),
    /// The episodes in the range.
    Selected(Vec<String>),
    /// No episode lies in the range: stop without downloading.
    NoMatch,
}

/// The links an episode-range answer selects from the numbered pages, whose first
/// and last entries hold the lowest and highest episode.
pub fn choose_episode_links(pages: &Vec<(u32, String)>, range: Option<(u32, u32)>) -> (r: RangeChoice)
    requires
        pages.len() >= 1,
    ensures
        ({
            let v = numbered_view(pages@);
            let min = v[0].0;
            let max = v.last().0;
            match range {
                None => r matches RangeChoice::All(l) && l.deep_view() == all_links(v),
                Some((s, e)) => if s == 0 || e == 0 {
                    r is Stop
                } else if s < min || e > max || s > max {
                    r matches RangeChoice::Beyond(l) && l.deep_view() == all_links(v)
                } else if links_in_range(v, s, e).len() == 0 {
                    r is NoMatch
                } else {
                    r matches RangeChoice::Selected(l) && l.deep_view() == links_in_range(v, s, e)
                },
            }
        }),
{
    let ghost v = numbered_view(pages@);
    let min = pages[0].0;
    let max = pages[pages.len() - 1].0;
    let mut all: Vec<String> = Vec::new();
    let mut i: usize = 0;
    while i < pages.len()
        invariant
            i <= pages.len(),
            v == numbered_view(pages@),
            all.deep_view() =~= all_links(v).subrange(0, i as int),
        decreases pages.len() - i,
    {
        let ghost b = all.deep_view();
        all.push(pages[i].1.clone());
        assert(all.deep_view() =~= b.push(v[i as int].1));
        i += 1;
    }
    assert(all_links(v).subrange(0, i as int) =~= all_links(v));
    match range {
        None => RangeChoice::All(all),
        Some((s, e)) => {
            if s == 0 || e == 0 {
                return RangeChoice::Stop;
            }
            if s < min || e > max || s > max {
                return RangeChoice::Beyond(all);
            }
            let mut sel: Vec<String> = Vec::new();
            let mut k: usize = 0;
            while k < pages.len()
                invariant
                    k <= pages.len(),
                    v == numbered_view(pages@),
                    sel.deep_view() == links_in_range(v.subrange(0, k as int), s, e),
                decreases pages.len() - k,
            {
                assert(v.subrange(0, k + 1).drop_last() =~= v.subrange(0, k as int));
                let ep = pages[k].0;
                if s <= ep && ep <= e {
                    let ghost b = sel.deep_view();
                    sel.push(pages[k].1.clone());
                    assert(sel.deep_view() =~= b.push(v[k as int].1));
                }
                k += 1;
            }
            assert(v.subrange(0, k as int) =~= v);
            if sel.len() == 0 {
                RangeChoice::NoMatch
            } else {
                RangeChoice::Selected(sel)
            }
        },
    }
}

/// The first and last of the sorted episodes are the lowest and the highest
/// episode any link gives.
pub proof fn law_sorted_episode_bounds(src: Seq<(u32, Seq<char>)>, out: Seq<(u32, Seq<char>)>)
    requires
        sorted_episodes(src, out),
        out.len() >= 1,
    ensures
        forall|k: int| 0 <= k < src.len() ==> out[0].0 <= #[trigger] src[k].0 <= out.last().0,
{
    assert forall|k: int| 0 <= k < src.len() implies out[0].0 <= #[trigger] src[k].0 <= out.last().0 by {
        let m = choose|m: int| 0 <= m < out.len() && out[m].0 == #[trigger] src[k].0;
        if m > 0 {
            assert(out[0].0 < out[m].0);
        }
        if m < out.len() - 1 {
            assert(out[m].0 < out[out.len() - 1].0);
        }
    }
}

proof fn lemma_range_all(v: Seq<(u32, Seq<char>)>, s: u32, e: u32)
    requires
        forall|k: int| 0 <= k < v.len() ==> s <= #[trigger] v[k].0 <= e,
    ensures
        links_in_range(v, s, e) == all_links(v),
    decreases v.len(),
{
    if v.len() > 0 {
        let d = v.drop_last();
        assert forall|k: int| 0 <= k < d.len() implies s <= #[trigger] d[k].0 <= e by {
            assert(d[k] == v[k]);
        }
        lemma_range_all(d, s, e);
        assert(all_links(v) =~= all_links(d).push(v.last().1));
    }
}

/// Asking for exactly the available episodes, lowest to highest, selects the
/// link of every episode.
pub proof fn law_full_range_selects_all(src: Seq<(u32, Seq<char>)>, out: Seq<(u32, Seq<char>)>)
    requires
        sorted_episodes(src, out),
        out.len() >= 1,
    ensures
        links_in_range(out, out[0].0, out.last().0) == all_links(out),
{
    assert forall|k: int| 0 <= k < out.len() implies out[0].0 <= #[trigger] out[k].0 <= out.last().0 by {
        if k > 0 {
            assert(out[0].0 < out[k].0);
        }
        if k < out.len() - 1 {
            assert(out[k].0 < out[out.len() - 1].0);
        }
    }
    lemma_range_all(out, out[0].0, out.last().0);
}

} // verus!
