//! Byte and character level helpers: ASCII classes, lowering, searching.
use vstd::prelude::*;

verus! {

/// ASCII decimal digit.
pub open spec fn is_digit(b: u8) -> bool {
    48 <= b <= 57
}

/// ASCII letter or digit.
pub open spec fn is_alnum(b: u8) -> bool {
    ||| is_digit(b)
    ||| 65 <= b <= 90
    ||| 97 <= b <= 122
}

/// The value of a decimal digit byte.
pub open spec fn digit_value(b: u8) -> nat {
    (b - 48) as nat
}

/// The value of a sequence of decimal digits, most significant first.
pub open spec fn decimal_value(digits: Seq<u8>) -> nat
    decreases digits.len(),
{
    if digits.len() == 0 {
        0
    } else {
        decimal_value(digits.drop_last()) * 10 + digit_value(digits.last())
    }
}

pub fn byte_is_digit(b: u8) -> (r: bool)
    ensures
        r == is_digit(b),
{
    48 <= b && b <= 57
}

pub fn byte_is_alnum(b: u8) -> (r: bool)
    ensures
        r == is_alnum(b),
{
    (48 <= b && b <= 57) || (65 <= b && b <= 90) || (97 <= b && b <= 122)
}

/// ASCII upper-case letters lowered; every other byte kept.
pub open spec fn lower_byte(b: u8) -> u8 {
    if 65 <= b <= 90 {
        (b + 32) as u8
    } else {
        b
    }
}

/// A byte string with its ASCII letters lowered.
pub open spec fn ascii_lower(s: Seq<u8>) -> Seq<u8> {
    s.map_values(|b: u8| lower_byte(b))
}

/// `pat` occurs in `s` at index `i`.
pub open spec fn occurs_at<T>(s: Seq<T>, pat: Seq<T>, i: int) -> bool {
    0 <= i && i + pat.len() <= s.len() && s.subrange(i, i + pat.len()) == pat
}

/// The first index, not below `i`, at which `pat` occurs in `s`.
pub open spec fn first_occurrence_from<T>(s: Seq<T>, pat: Seq<T>, i: int) -> Option<int>
    decreases s.len() + 1 - i,
{
    if i < 0 || i + pat.len() > s.len() {
        None
    } else if occurs_at(s, pat, i) {
        Some(i)
    } else {
        first_occurrence_from(s, pat, i + 1)
    }
}

/// `pat` occurs somewhere in `s`.
pub open spec fn contains_seq<T>(s: Seq<T>, pat: Seq<T>) -> bool {
    exists|i: int| occurs_at(s, pat, i)
}

pub proof fn lemma_first_occurrence<T>(s: Seq<T>, pat: Seq<T>, i: int)
    requires
        0 <= i,
    ensures
        first_occurrence_from(s, pat, i) matches Some(k) ==> i <= k && occurs_at(s, pat, k)
            && forall|j: int| i <= j < k ==> !occurs_at(s, pat, j),
        first_occurrence_from(s, pat, i) is None ==> forall|j: int| i <= j ==> !occurs_at(s, pat, j),
    decreases s.len() + 1 - i,
{
    if i + pat.len() > s.len() {
    } else if occurs_at(s, pat, i) {
    } else {
        lemma_first_occurrence(s, pat, i + 1);
        assert forall|j: int| i <= j && !(i + 1 <= j) implies !occurs_at(s, pat, j) by {}
    }
}

pub fn lower_ascii_bytes(bytes: &[u8]) -> (r: Vec<u8>)
    ensures
        r@ == ascii_lower(bytes@),
{
    let mut out: Vec<u8> = Vec::new();
    let mut i: usize = 0;
    while i < bytes.len()
        invariant
            i <= bytes.len(),
            out@ =~= ascii_lower(bytes@.subrange(0, i as int)),
        decreases bytes.len() - i,
    {
        let b = bytes[i];
        let l = if 65 <= b && b <= 90 { b + 32 } else { b };
        out.push(l);
        i += 1;
        assert(bytes@.subrange(0, i as int) =~= bytes@.subrange(0, i - 1).push(b));
    }
    assert(bytes@.subrange(0, i as int) =~= bytes@);
    out
}

/// Whether `pat` occurs in `s` at `i`, for exec use.
pub fn occurs_at_bytes(s: &[u8], pat: &[u8], i: usize) -> (r: bool)
    ensures
        r == occurs_at(s@, pat@, i as int),
{
    if i > s.len() || pat.len() > s.len() - i {
        return false;
    }
    let mut k: usize = 0;
    while k < pat.len()
        invariant
            i + pat.len() <= s.len(),
            k <= pat.len(),
            forall|j: int| 0 <= j < k ==> s@[i + j] == pat@[j],
        decreases pat.len() - k,
    {
        if !(s[i + k] == pat[k]) {
            assert(s@.subrange(i as int, i + pat@.len())[k as int] != pat@[k as int]);
            return false;
        }
        k += 1;
    }
    assert(s@.subrange(i as int, i + pat@.len()) =~= pat@);
    true
}

/// The first index at which `pat` occurs in `s`.
pub fn find_bytes(s: &[u8], pat: &[u8]) -> (r: Option<usize>)
    ensures
        match r {
            Some(k) => first_occurrence_from(s@, pat@, 0) == Some(k as int),
            None => first_occurrence_from(s@, pat@, 0) is None,
        },
{
    if pat.len() > s.len() {
        return None;
    }
    if pat.len() == 0 {
        assert(s@.subrange(0, 0) =~= pat@);
        return Some(0);
    }
    let last = s.len() - pat.len();
    let mut i: usize = 0;
    while i <= last
        invariant
            last + pat.len() == s.len(),
            pat.len() > 0,
            i <= last + 1,
            first_occurrence_from(s@, pat@, 0) == first_occurrence_from(s@, pat@, i as int),
        decreases last + 1 - i,
    {
        if occurs_at_bytes(s, pat, i) {
            return Some(i);
        }
        i += 1;
    }
    None
}

/// A character with the Unicode `White_Space` property, what `char::is_whitespace`
/// and `str::trim` go by.
pub open spec fn is_white_space(c: char) -> bool {
    let u = c as u32;
    ||| 9 <= u <= 13
    ||| u == 32
    ||| u == 0x85
    ||| u == 0xA0
    ||| u == 0x1680
    ||| 0x2000 <= u <= 0x200A
    ||| u == 0x2028
    ||| u == 0x2029
    ||| u == 0x202F
    ||| u == 0x205F
    ||| u == 0x3000
}

pub fn char_is_white_space(c: char) -> (r: bool)
    ensures
        r == is_white_space(c),
{
    let u = c as u32;
    (9 <= u && u <= 13) || u == 32 || u == 0x85 || u == 0xA0 || u == 0x1680 || (0x2000 <= u && u
        <= 0x200A) || u == 0x2028 || u == 0x2029 || u == 0x202F || u == 0x205F || u == 0x3000
}

/// `s` without its leading white space.
pub open spec fn trim_front(s: Seq<char>) -> Seq<char>
    decreases s.len(),
{
    if s.len() > 0 && is_white_space(s[0]) {
        trim_front(s.drop_first())
    } else {
        s
    }
}

/// `s` without its trailing white space.
pub open spec fn trim_back(s: Seq<char>) -> Seq<char>
    decreases s.len(),
{
    if s.len() > 0 && is_white_space(s.last()) {
        trim_back(s.drop_last())
    } else {
        s
    }
}

/// `s` without leading and trailing white space, as `str::trim` gives it.
pub open spec fn trimmed(s: Seq<char>) -> Seq<char> {
    trim_back(trim_front(s))
}

/// ASCII upper-case letters lowered; every other character kept.
pub open spec fn lower_char(c: char) -> char {
    if 'A' <= c <= 'Z' {
        ((c as u32) + 32) as char
    } else {
        c
    }
}

/// ASCII lower-case letters raised; every other character kept.
pub open spec fn upper_char(c: char) -> char {
    if 'a' <= c <= 'z' {
        ((c as u32) - 32) as char
    } else {
        c
    }
}

/// The value of a sequence of decimal digit characters.
pub open spec fn char_digits_value(s: Seq<char>) -> nat
    decreases s.len(),
{
    if s.len() == 0 {
        0
    } else {
        char_digits_value(s.drop_last()) * 10 + ((s.last() as u32) - 48) as nat
    }
}

pub open spec fn is_digit_char(c: char) -> bool {
    '0' <= c <= '9'
}

/// The digits that `str::parse` reads for an unsigned integer: all of `s`,
/// or all but a leading `+`.
pub open spec fn unsigned_digits(s: Seq<char>) -> Seq<char> {
    if s.len() > 0 && s[0] == '+' {
        s.drop_first()
    } else {
        s
    }
}

/// What `str::parse` gives for an unsigned integer no larger than `max`:
/// a non-empty run of decimal digits after an optional `+`, whose value does not
/// exceed `max`; `None` otherwise.
pub open spec fn parse_unsigned(s: Seq<char>, max: nat) -> Option<nat> {
    let d = unsigned_digits(s);
    if d.len() > 0 && (forall|i: int| 0 <= i < d.len() ==> is_digit_char(#[trigger] d[i]))
        && char_digits_value(d) <= max {
        Some(char_digits_value(d))
    } else {
        None
    }
}

pub proof fn lemma_trim_front_idempotent(s: Seq<char>)
    ensures
        trim_front(trim_front(s)) == trim_front(s),
    decreases s.len(),
{
    if s.len() > 0 && is_white_space(s[0]) {
        lemma_trim_front_idempotent(s.drop_first());
    }
}

pub proof fn lemma_trim_back_idempotent(s: Seq<char>)
    ensures
        trim_back(trim_back(s)) == trim_back(s),
    decreases s.len(),
{
    if s.len() > 0 && is_white_space(s.last()) {
        lemma_trim_back_idempotent(s.drop_last());
    }
}

/// Leading white space, once dropped, no longer matters to what trimming the back leaves.
proof fn lemma_trim_back_then_front_skips(y: Seq<char>)
    requires
        y.len() > 0,
        is_white_space(y[0]),
    ensures
        trim_front(trim_back(y)) == trim_front(trim_back(y.drop_first())),
    decreases y.len(),
{
    let y1 = y.drop_first();
    if y.len() == 1 {
        assert(y1.len() == 0);
        assert(trim_back(y.drop_last()) == y.drop_last());
    } else if !is_white_space(y.last()) {
        assert(y1.last() == y.last());
    } else {
        let yd = y.drop_last();
        assert(yd.drop_first() =~= y1.drop_last());
        assert(y1.last() == y.last());
        lemma_trim_back_then_front_skips(yd);
    }
}

/// Trimming the front and trimming the back commute.
pub proof fn lemma_trims_commute(y: Seq<char>)
    ensures
        trim_front(trim_back(y)) == trim_back(trim_front(y)),
    decreases y.len(),
{
    if y.len() == 0 {
    } else if is_white_space(y[0]) {
        lemma_trims_commute(y.drop_first());
        lemma_trim_back_then_front_skips(y);
    } else if is_white_space(y.last()) {
        let yd = y.drop_last();
        assert(yd.len() > 0);
        assert(yd[0] == y[0]);
        lemma_trims_commute(yd);
    } else {
    }
}

/// Trimming what is already trimmed at the back changes nothing.
pub proof fn lemma_trimmed_of_trim_back(y: Seq<char>)
    ensures
        trimmed(trim_back(y)) == trimmed(y),
{
    lemma_trims_commute(y);
    lemma_trim_back_idempotent(trim_front(y));
}

/// Trimming what is already trimmed at the front changes nothing.
pub proof fn lemma_trimmed_of_trim_front(x: Seq<char>)
    ensures
        trimmed(trim_front(x)) == trimmed(x),
{
    lemma_trim_front_idempotent(x);
}

/// Leading white space stops at the first character that is not white space.
pub proof fn lemma_trim_front_concat(x: Seq<char>, r: Seq<char>)
    requires
        r.len() > 0,
        !is_white_space(r[0]),
    ensures
        trim_front(x + r) == trim_front(x) + r,
    decreases x.len(),
{
    if x.len() == 0 {
        assert(x + r =~= r);
    } else if is_white_space(x[0]) {
        assert((x + r).drop_first() =~= x.drop_first() + r);
        lemma_trim_front_concat(x.drop_first(), r);
    } else {
    }
}

/// Trailing white space stops at the last character that is not white space.
pub proof fn lemma_trim_back_concat(l: Seq<char>, y: Seq<char>)
    requires
        l.len() > 0,
        !is_white_space(l.last()),
    ensures
        trim_back(l + y) == l + trim_back(y),
    decreases y.len(),
{
    if y.len() == 0 {
        assert(l + y =~= l);
    } else if is_white_space(y.last()) {
        assert((l + y).drop_last() =~= l + y.drop_last());
        lemma_trim_back_concat(l, y.drop_last());
    } else {
    }
}

/// Leading white space is dropped whole.
pub proof fn lemma_trim_front_skips_space(w: Seq<char>, y: Seq<char>)
    requires
        forall|i: int| 0 <= i < w.len() ==> is_white_space(#[trigger] w[i]),
    ensures
        trim_front(w + y) == trim_front(y),
    decreases w.len(),
{
    if w.len() > 0 {
        assert((w + y).drop_first() =~= w.drop_first() + y);
        assert forall|i: int| 0 <= i < w.drop_first().len() implies is_white_space(#[trigger] w.drop_first()[i]) by {
            assert(w.drop_first()[i] == w[i + 1]);
        }
        lemma_trim_front_skips_space(w.drop_first(), y);
    } else {
        assert(w + y =~= y);
    }
}

/// Trailing white space is dropped whole.
pub proof fn lemma_trim_back_skips_space(y: Seq<char>, w: Seq<char>)
    requires
        forall|i: int| 0 <= i < w.len() ==> is_white_space(#[trigger] w[i]),
    ensures
        trim_back(y + w) == trim_back(y),
    decreases w.len(),
{
    if w.len() > 0 {
        assert((y + w).drop_last() =~= y + w.drop_last());
        assert((y + w).last() == w.last());
        assert(is_white_space(w[w.len() - 1]));
        lemma_trim_back_skips_space(y, w.drop_last());
    } else {
        assert(y + w =~= y);
    }
}

/// White space around a text does not change what trimming leaves.
pub proof fn lemma_trimmed_ignores_space(w1: Seq<char>, x: Seq<char>, w2: Seq<char>)
    requires
        forall|i: int| 0 <= i < w1.len() ==> is_white_space(#[trigger] w1[i]),
        forall|i: int| 0 <= i < w2.len() ==> is_white_space(#[trigger] w2[i]),
    ensures
        trimmed(w1 + x + w2) == trimmed(x),
{
    assert(w1 + x + w2 =~= w1 + (x + w2));
    lemma_trim_front_skips_space(w1, x + w2);
    lemma_trims_commute(x + w2);
    lemma_trim_back_skips_space(x, w2);
    lemma_trims_commute(x);
}

/// Trimming the front adds no character that was absent.
pub proof fn lemma_trim_front_keeps_absent(x: Seq<char>, c: char)
    requires
        !x.contains(c),
    ensures
        !trim_front(x).contains(c),
    decreases x.len(),
{
    if x.len() > 0 && is_white_space(x[0]) {
        assert forall|i: int| 0 <= i < x.drop_first().len() implies x.drop_first()[i] != c by {
            assert(x.drop_first()[i] == x[i + 1]);
        }
        lemma_trim_front_keeps_absent(x.drop_first(), c);
    }
}

/// Decimal notation of `n`, most significant digit first, no leading zeros.
pub open spec fn decimal(n: nat) -> Seq<char>
    decreases n,
{
    if n < 10 {
        seq![((48 + n) as u8) as char]
    } else {
        decimal(n / 10).push(((48 + n % 10) as u8) as char)
    }
}

/// The decimal notation of `n` read back gives `n`: it is a non-empty run of
/// digits, with no leading `+`, whose value is `n`.
pub proof fn lemma_decimal_reads_back(n: nat)
    ensures
        decimal(n).len() >= 1,
        forall|i: int| 0 <= i < decimal(n).len() ==> is_digit_char(#[trigger] decimal(n)[i]),
        decimal(n)[0] != '+',
        char_digits_value(decimal(n)) == n,
    decreases n,
{
    if n >= 10 {
        lemma_decimal_reads_back(n / 10);
        let p = decimal(n / 10);
        let c = ((48 + n % 10) as u8) as char;
        assert(decimal(n) == p.push(c));
        assert(p.push(c).drop_last() =~= p);
        assert(c as u32 == 48 + n % 10);
        assert(forall|i: int| 0 <= i < p.len() ==> p.push(c)[i] == p[i]);
        assert(p.push(c).last() == c);
        assert(char_digits_value(p.push(c)) == char_digits_value(p) * 10 + ((c as u32) - 48) as nat);
        assert(n == (n / 10) * 10 + n % 10);
    } else {
        let c = ((48 + n) as u8) as char;
        assert(c as u32 == 48 + n);
        assert(decimal(n).drop_last() =~= Seq::<char>::empty());
        assert(decimal(n).last() == c);
        assert(char_digits_value(Seq::<char>::empty()) == 0);
        assert(char_digits_value(decimal(n)) == ((c as u32) - 48) as nat);
    }
}

/// A decimal number within `max` is what `str::parse` reads from its notation.
pub proof fn lemma_parse_decimal(n: nat, max: nat)
    requires
        n <= max,
    ensures
        parse_unsigned(decimal(n), max) == Some(n),
{
    lemma_decimal_reads_back(n);
}

/// The decimal notation of `n` as ASCII bytes.
pub open spec fn decimal_bytes(n: nat) -> Seq<u8>
    decreases n,
{
    if n < 10 {
        seq![(48 + n) as u8]
    } else {
        decimal_bytes(n / 10).push((48 + n % 10) as u8)
    }
}

/// The decimal bytes of `n` are a non-empty run of digits whose value is `n`.
pub proof fn lemma_decimal_bytes(n: nat)
    ensures
        decimal_bytes(n).len() >= 1,
        forall|i: int| 0 <= i < decimal_bytes(n).len() ==> is_digit(#[trigger] decimal_bytes(n)[i]),
        decimal_value(decimal_bytes(n)) == n,
    decreases n,
{
    if n >= 10 {
        lemma_decimal_bytes(n / 10);
        let p = decimal_bytes(n / 10);
        let b = (48 + n % 10) as u8;
        assert(p.push(b).drop_last() =~= p);
        assert(forall|i: int| 0 <= i < p.len() ==> p.push(b)[i] == p[i]);
        assert(p.push(b).last() == b);
        assert(decimal_value(p.push(b)) == decimal_value(p) * 10 + digit_value(b));
        assert(n == (n / 10) * 10 + n % 10);
    } else {
        assert(decimal_bytes(n).drop_last() =~= Seq::<u8>::empty());
        assert(decimal_value(Seq::<u8>::empty()) == 0);
        assert(decimal_value(decimal_bytes(n)) == digit_value(decimal_bytes(n).last()));
    }
}

/// Calls `String::push`, which appends one character.
#[verifier::external_body]
pub(crate) fn push_char(s: &mut String, c: char)
    ensures
        final(s)@ == old(s)@.push(c),
{
    s.push(c);
}

/// Appends `tail` to `s`.
pub fn push_str(s: &mut String, tail: &str)
    ensures
        final(s)@ == old(s)@ + tail@,
{
    let chars = chars_of(tail);
    let mut i: usize = 0;
    while i < chars.len()
        invariant
            i <= chars.len(),
            chars@ == tail@,
            s@ == old(s)@ + chars@.subrange(0, i as int),
        decreases chars.len() - i,
    {
        push_char(s, chars[i]);
        i += 1;
        assert(chars@.subrange(0, i as int) =~= chars@.subrange(0, i - 1).push(chars@[i - 1]));
    }
    assert(chars@.subrange(0, i as int) =~= chars@);
}

/// Appends the decimal notation of `n` to `s`.
pub fn push_decimal(s: &mut String, n: u64)
    ensures
        final(s)@ == old(s)@ + decimal(n as nat),
    decreases n,
{
    if n >= 10 {
        push_decimal(s, n / 10);
    }
    let d = (n % 10) as u8;
    push_char(s, (48 + d) as char);
    proof {
        if n >= 10 {
            assert(old(s)@ + decimal((n / 10) as nat) + seq![((48 + n % 10) as u8) as char]
                =~= old(s)@ + decimal(n as nat));
        } else {
            assert(old(s)@ + seq![((48 + n) as u8) as char] =~= old(s)@ + decimal(n as nat));
        }
    }
}

/// The characters of `s`, in order.
pub fn chars_of(s: &str) -> (r: Vec<char>)
    ensures
        r@ == s@,
{
    let mut out: Vec<char> = Vec::new();
    for c in it: s.chars()
        invariant
            out@ == it.seq().subrange(0, it.index() as int),
    {
        out.push(c);
    }
    out
}

/// The bounds of `s[from..to]` without its leading and trailing white space.
pub fn trim_bounds(s: &Vec<char>, from: usize, to: usize) -> (r: (usize, usize))
    requires
        from <= to <= s.len(),
    ensures
        from <= r.0 <= r.1 <= to,
        s@.subrange(r.0 as int, r.1 as int) == trimmed(s@.subrange(from as int, to as int)),
{
    let ghost t = s@.subrange(from as int, to as int);
    let mut a = from;
    while a < to && char_is_white_space(s[a])
        invariant
            from <= a <= to <= s.len(),
            trim_front(t) == trim_front(s@.subrange(a as int, to as int)),
        decreases to - a,
    {
        assert(s@.subrange(a as int, to as int).drop_first() =~= s@.subrange(a + 1, to as int));
        a += 1;
    }
    assert(trim_front(t) == s@.subrange(a as int, to as int));
    let mut b = to;
    while b > a && char_is_white_space(s[b - 1])
        invariant
            from <= a <= b <= to <= s.len(),
            trimmed(t) == trim_back(s@.subrange(a as int, b as int)),
        decreases b - a,
    {
        assert(s@.subrange(a as int, b as int).drop_last() =~= s@.subrange(a as int, b - 1));
        b -= 1;
    }
    (a, b)
}

/// `str::parse::<u64>` on `s[from..to]`.
pub fn parse_u64_in(s: &Vec<char>, from: usize, to: usize) -> (r: Option<u64>)
    requires
        from <= to <= s.len(),
    ensures
        match parse_unsigned(s@.subrange(from as int, to as int), u64::MAX as nat) {
            Some(v) => r == Some(v as u64),
            None => r is None,
        },
{
    let ghost t = s@.subrange(from as int, to as int);
    let mut i = from;
    if i < to && s[i] == '+' {
        i += 1;
    }
    assert(unsigned_digits(t) =~= s@.subrange(i as int, to as int));
    if i == to {
        return None;
    }
    let start = i;
    let mut value: u64 = 0;
    while i < to
        invariant
            from <= start <= i <= to <= s.len(),
            t == s@.subrange(from as int, to as int),
            unsigned_digits(t) == s@.subrange(start as int, to as int),
            forall|k: int| start <= k < i ==> is_digit_char(#[trigger] s@[k]),
            value as nat == char_digits_value(s@.subrange(start as int, i as int)),
        decreases to - i,
    {
        let c = s[i];
        if !('0' <= c && c <= '9') {
            assert(unsigned_digits(t)[i - start] == c);
            assert(!is_digit_char(unsigned_digits(t)[i - start]));
            return None;
        }
        let d = ((c as u32) - 48) as u64;
        assert(s@.subrange(start as int, i + 1).drop_last() =~= s@.subrange(start as int, i as int));
        if value > 1844674407370955161 || (value == 1844674407370955161 && d > 5) {
            proof {
                lemma_char_digits_grow(s@.subrange(start as int, to as int), (i + 1 - start) as int);
                assert(s@.subrange(start as int, to as int).subrange(0, i + 1 - start) =~= s@.subrange(start as int, i + 1));
                assert(s@.subrange(start as int, i + 1).last() == c);
                assert(char_digits_value(s@.subrange(start as int, i + 1)) == value * 10 + d);
                assert(char_digits_value(unsigned_digits(t)) > u64::MAX);
            }
            return None;
        }
        value = value * 10 + d;
        i += 1;
    }
    assert(s@.subrange(start as int, to as int) =~= s@.subrange(start as int, i as int));
    Some(value)
}

/// `str::parse::<u32>` on `s[from..to]`.
pub fn parse_u32_in(s: &Vec<char>, from: usize, to: usize) -> (r: Option<u32>)
    requires
        from <= to <= s.len(),
    ensures
        match parse_unsigned(s@.subrange(from as int, to as int), u32::MAX as nat) {
            Some(v) => r == Some(v as u32),
            None => r is None,
        },
{
    match parse_u64_in(s, from, to) {
        Some(v) => if v <= 4294967295 { Some(v as u32) } else { None },
        None => None,
    }
}

/// `str::parse::<u64>` on all of `s`.
pub fn parse_u64(s: &str) -> (r: Option<u64>)
    ensures
        match parse_unsigned(s@, u64::MAX as nat) {
            Some(v) => r == Some(v as u64),
            None => r is None,
        },
{
    let chars = chars_of(s);
    assert(chars@.subrange(0, chars@.len() as int) =~= chars@);
    parse_u64_in(&chars, 0, chars.len())
}

/// A digit string's value is at least that of any of its prefixes.
pub proof fn lemma_char_digits_grow(s: Seq<char>, k: int)
    requires
        0 <= k <= s.len(),
    ensures
        char_digits_value(s.subrange(0, k)) <= char_digits_value(s),
    decreases s.len() - k,
{
    if k < s.len() {
        lemma_char_digits_grow(s, k + 1);
        assert(s.subrange(0, k + 1).drop_last() =~= s.subrange(0, k));
    } else {
        assert(s.subrange(0, k) =~= s);
    }
}

/// Whether `pat` occurs in `s` at `i`, on characters.
pub fn occurs_at_chars(s: &Vec<char>, pat: &Vec<char>, i: usize) -> (r: bool)
    ensures
        r == occurs_at(s@, pat@, i as int),
{
    if i > s.len() || pat.len() > s.len() - i {
        return false;
    }
    let mut k: usize = 0;
    while k < pat.len()
        invariant
            i + pat.len() <= s.len(),
            k <= pat.len(),
            forall|j: int| 0 <= j < k ==> s@[i + j] == pat@[j],
        decreases pat.len() - k,
    {
        if s[i + k] != pat[k] {
            assert(s@.subrange(i as int, i + pat@.len())[k as int] != pat@[k as int]);
            return false;
        }
        k += 1;
    }
    assert(s@.subrange(i as int, i + pat@.len()) =~= pat@);
    true
}

/// Whether `pat` occurs in `s`, on characters.
pub fn contains_chars(s: &Vec<char>, pat: &Vec<char>) -> (r: bool)
    ensures
        r == contains_seq(s@, pat@),
{
    proof {
        lemma_first_occurrence(s@, pat@, 0);
    }
    if pat.len() > s.len() {
        assert forall|j: int| !occurs_at(s@, pat@, j) by {}
        return false;
    }
    let last = s.len() - pat.len();
    let mut i: usize = 0;
    while i <= last
        invariant
            last + pat.len() == s.len(),
            i <= last + 1,
            forall|j: int| 0 <= j < i ==> !occurs_at(s@, pat@, j),
        decreases last + 1 - i,
    {
        if occurs_at_chars(s, pat, i) {
            return true;
        }
        if i == last {
            assert forall|j: int| !occurs_at(s@, pat@, j) by {
                if j > last as int {
                    assert(!(j + pat@.len() <= s@.len()));
                }
            }
            return false;
        }
        i += 1;
    }
    false
}

/// `str::contains` with a string pattern.
pub fn str_contains(s: &str, pat: &str) -> (r: bool)
    ensures
        r == contains_seq(s@, pat@),
{
    let a = chars_of(s);
    let b = chars_of(pat);
    contains_chars(&a, &b)
}

/// `str::starts_with` with a string prefix.
pub fn str_starts_with(s: &str, prefix: &str) -> (r: bool)
    ensures
        r == occurs_at(s@, prefix@, 0),
{
    let a = chars_of(s);
    let b = chars_of(prefix);
    occurs_at_chars(&a, &b, 0)
}

/// `pieces` joined with `sep` between each two.
pub open spec fn joined(pieces: Seq<Seq<char>>, sep: Seq<char>) -> Seq<char>
    decreases pieces.len(),
{
    if pieces.len() == 0 {
        Seq::empty()
    } else if pieces.len() == 1 {
        pieces[0]
    } else {
        joined(pieces.drop_last(), sep) + sep + pieces.last()
    }
}

/// `pieces` joined with single spaces, as `[&str]::join(" ")` gives it.
pub fn join_with_spaces(pieces: &Vec<String>) -> (r: String)
    ensures
        r@ == joined(pieces.deep_view(), " "@),
{
    let mut out = String::new();
    let mut i: usize = 0;
    while i < pieces.len()
        invariant
            i <= pieces.len(),
            out@ == joined(pieces.deep_view().subrange(0, i as int), " "@),
        decreases pieces.len() - i,
    {
        let ghost before = pieces.deep_view().subrange(0, i as int);
        if i > 0 {
            push_str(&mut out, " ");
        }
        push_str(&mut out, pieces[i].as_str());
        i += 1;
        proof {
            let now = pieces.deep_view().subrange(0, i as int);
            assert(now.drop_last() =~= before);
            assert(now.last() == pieces[i - 1]@);
            if i == 1 {
                assert(before.len() == 0);
            }
        }
    }
    assert(pieces.deep_view().subrange(0, i as int) =~= pieces.deep_view());
    out
}

/// `s` without leading and trailing white space, as a new string.
pub fn trim_to_string(s: &str) -> (r: String)
    ensures
        r@ == trimmed(s@),
{
    let chars = chars_of(s);
    assert(chars@.subrange(0, chars@.len() as int) =~= chars@);
    let (a, b) = trim_bounds(&chars, 0, chars.len());
    let mut out = String::new();
    let mut i = a;
    while i < b
        invariant
            a <= i <= b <= chars.len(),
            out@ == chars@.subrange(a as int, i as int),
        decreases b - i,
    {
        push_char(&mut out, chars[i]);
        i += 1;
        assert(chars@.subrange(a as int, i as int) =~= chars@.subrange(a as int, i - 1).push(chars@[i - 1]));
    }
    out
}

} // verus!
