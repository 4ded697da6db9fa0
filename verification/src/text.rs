use vstd::prelude::*;
use vstd::utf8::valid_utf8;

verus! {

/// Appends every byte of `bytes` to `out`.
pub fn push_bytes(out: &mut Vec<u8>, bytes: &[u8])
    ensures
        final(out)@ == old(out)@ + bytes@,
{
    let mut i: usize = 0;
    while i < bytes.len()
        invariant
            i <= bytes.len(),
            out@ == old(out)@ + bytes@.take(i as int),
        decreases bytes.len() - i,
    {
        out.push(bytes[i]);
        i = i + 1;
        assert(bytes@.take(i as int) == bytes@.take(i - 1).push(bytes@[i - 1]));
    }
    assert(bytes@.take(i as int) == bytes@);
}

/// The bytes of a string of ASCII characters.
pub open spec fn ascii(s: Seq<char>) -> Seq<u8> {
    s.map_values(|c: char| c as u8)
}

/// Appends the bytes of an ASCII string to `out`.
pub fn push_ascii(out: &mut Vec<u8>, s: &str)
    requires
        s.is_ascii(),
    ensures
        final(out)@ == old(out)@ + ascii(s@),
{
    broadcast use vstd::string::is_ascii_spec_bytes;
    let bytes = s.as_bytes();
    push_bytes(out, bytes);
    assert(bytes@ == ascii(s@));
}

/// The decimal digits of `n`, most significant first, without leading zeros.
pub open spec fn decimal(n: nat) -> Seq<u8>
    decreases n,
{
    if n < 10 {
        seq![(48 + n) as u8]
    } else {
        decimal(n / 10).push((48 + n % 10) as u8)
    }
}

/// Appends the decimal digits of `n` to `out`.
pub fn push_decimal(out: &mut Vec<u8>, n: u64)
    ensures
        final(out)@ == old(out)@ + decimal(n as nat),
    decreases n,
{
    if n >= 10 {
        push_decimal(out, n / 10);
    }
    out.push((48 + n % 10) as u8);
}

} // verus!

verus! {

/// ASCII letters folded to lower case.
pub open spec fn lower(b: u8) -> u8 {
    if 65 <= b <= 90 {
        (b + 32) as u8
    } else {
        b
    }
}

/// `text` equals `word` ignoring ASCII case.
pub open spec fn eq_ignore_case(text: Seq<u8>, word: Seq<u8>) -> bool {
    &&& text.len() == word.len()
    &&& forall|i: int| 0 <= i < text.len() ==> lower(#[trigger] text[i]) == lower(word[i])
}

/// Whether `text` equals the ASCII `word`, ignoring ASCII case.
pub fn equals_ignore_case(text: &[u8], word: &str) -> (r: bool)
    requires
        word.is_ascii(),
    ensures
        r == eq_ignore_case(text@, ascii(word@)),
{
    broadcast use vstd::string::is_ascii_spec_bytes;
    let w = word.as_bytes();
    assert(w@ == ascii(word@));
    if text.len() != w.len() {
        return false;
    }
    let mut i: usize = 0;
    while i < text.len()
        invariant
            text@.len() == w@.len(),
            w@ == ascii(word@),
            i <= text.len(),
            forall|j: int| 0 <= j < i ==> lower(#[trigger] text@[j]) == lower(w@[j]),
        decreases text.len() - i,
    {
        let a = text[i];
        let b = w[i];
        let la = if 65 <= a && a <= 90 { a + 32 } else { a };
        let lb = if 65 <= b && b <= 90 { b + 32 } else { b };
        if la != lb {
            return false;
        }
        i = i + 1;
    }
    true
}

/// The length of the whitespace character whose encoding starts at `i`, or
/// zero.  Whitespace is Unicode's White_Space set, in UTF-8.
pub open spec fn space_at(s: Seq<u8>, i: int) -> int {
    if 0 <= i < s.len() && (9 <= s[i] <= 13 || s[i] == 32) {
        1
    } else if 0 <= i && i + 1 < s.len() && s[i] == 0xC2 && (s[i + 1] == 0x85 || s[i + 1] == 0xA0) {
        2
    } else if 0 <= i && i + 2 < s.len() && space3(s[i], s[i + 1], s[i + 2]) {
        3
    } else {
        0
    }
}

/// The three-byte encodings of White_Space characters.
pub open spec fn space3(a: u8, b: u8, c: u8) -> bool {
    ||| a == 0xE1 && b == 0x9A && c == 0x80
    ||| a == 0xE2 && b == 0x80 && (0x80 <= c <= 0x8A || c == 0xA8 || c == 0xA9 || c == 0xAF)
    ||| a == 0xE2 && b == 0x81 && c == 0x9F
    ||| a == 0xE3 && b == 0x80 && c == 0x80
}

/// The length of the whitespace character whose encoding ends just before
/// `j` and starts no earlier than `lo`, or zero.
pub open spec fn space_before(s: Seq<u8>, lo: int, j: int) -> int {
    if lo <= j - 1 && j <= s.len() && (9 <= s[j - 1] <= 13 || s[j - 1] == 32) {
        1
    } else if lo <= j - 2 && j <= s.len() && s[j - 2] == 0xC2 && (s[j - 1] == 0x85 || s[j - 1] == 0xA0) {
        2
    } else if lo <= j - 3 && j <= s.len() && space3(s[j - 3], s[j - 2], s[j - 1]) {
        3
    } else {
        0
    }
}

/// Where the text starts once leading whitespace from `i` on is skipped.
pub open spec fn trim_start_from(s: Seq<u8>, i: int) -> int
    decreases s.len() - i,
{
    if 0 <= i && space_at(s, i) > 0 {
        trim_start_from(s, i + space_at(s, i))
    } else {
        i
    }
}

/// Where the text ends once trailing whitespace before `j`, down to `lo`, is skipped.
pub open spec fn trim_end_from(s: Seq<u8>, lo: int, j: int) -> int
    decreases j,
{
    if j > 0 && lo >= 0 && space_before(s, lo, j) > 0 {
        trim_end_from(s, lo, j - space_before(s, lo, j))
    } else {
        j
    }
}

/// `s` without leading and trailing whitespace.
pub open spec fn trim(s: Seq<u8>) -> Seq<u8> {
    let start = trim_start_from(s, 0);
    s.subrange(start, trim_end_from(s, start, s.len() as int))
}

proof fn lemma_trim_start_bounds(s: Seq<u8>, i: int)
    requires
        0 <= i <= s.len(),
    ensures
        i <= trim_start_from(s, i) <= s.len(),
    decreases s.len() - i,
{
    if space_at(s, i) > 0 {
        lemma_trim_start_bounds(s, i + space_at(s, i));
    }
}

proof fn lemma_trim_end_bounds(s: Seq<u8>, lo: int, j: int)
    requires
        0 <= lo <= j <= s.len(),
    ensures
        lo <= trim_end_from(s, lo, j) <= j,
    decreases j,
{
    if j > 0 && space_before(s, lo, j) > 0 {
        lemma_trim_end_bounds(s, lo, j - space_before(s, lo, j));
    }
}

fn space_len_at(s: &[u8], i: usize) -> (r: usize)
    ensures
        r == space_at(s@, i as int),
{
    let n = s.len();
    if i < n && ((9 <= s[i] && s[i] <= 13) || s[i] == 32) {
        1
    } else if i < n && n - i > 1 && s[i] == 0xC2 && (s[i + 1] == 0x85 || s[i + 1] == 0xA0) {
        2
    } else if i < n && n - i > 2 && is_space3(s[i], s[i + 1], s[i + 2]) {
        3
    } else {
        0
    }
}

fn is_space3(a: u8, b: u8, c: u8) -> (r: bool)
    ensures
        r == space3(a, b, c),
{
    (a == 0xE1 && b == 0x9A && c == 0x80) || (a == 0xE2 && b == 0x80 && ((0x80 <= c && c <= 0x8A) || c
        == 0xA8 || c == 0xA9 || c == 0xAF)) || (a == 0xE2 && b == 0x81 && c == 0x9F) || (a == 0xE3
        && b == 0x80 && c == 0x80)
}

fn space_len_before(s: &[u8], lo: usize, j: usize) -> (r: usize)
    requires
        lo <= j <= s.len(),
    ensures
        r == space_before(s@, lo as int, j as int),
{
    if j - lo >= 1 && ((9 <= s[j - 1] && s[j - 1] <= 13) || s[j - 1] == 32) {
        1
    } else if j - lo >= 2 && s[j - 2] == 0xC2 && (s[j - 1] == 0x85 || s[j - 1] == 0xA0) {
        2
    } else if j - lo >= 3 && is_space3(s[j - 3], s[j - 2], s[j - 1]) {
        3
    } else {
        0
    }
}

/// The bounds of `s` without its leading and trailing whitespace.
pub fn trim_bounds(s: &[u8]) -> (r: (usize, usize))
    ensures
        r.0 <= r.1 <= s.len(),
        s@.subrange(r.0 as int, r.1 as int) == trim(s@),
{
    let mut i: usize = 0;
    while i < s.len() && space_len_at(s, i) > 0
        invariant
            i <= s.len(),
            trim_start_from(s@, 0) == trim_start_from(s@, i as int),
        decreases s.len() - i,
    {
        i = i + space_len_at(s, i);
    }
    proof {
        lemma_trim_start_bounds(s@, i as int);
    }
    let mut j: usize = s.len();
    while j > i && space_len_before(s, i, j) > 0
        invariant
            i <= j <= s.len(),
            trim_start_from(s@, 0) == i,
            trim_end_from(s@, i as int, s.len() as int) == trim_end_from(s@, i as int, j as int),
        decreases j,
    {
        j = j - space_len_before(s, i, j);
    }
    (i, j)
}

/// The number a string of digits denotes, read left to right, with the
/// first character that is no digit, or the first digit that takes the
/// number above `max`, reported.
pub open spec fn scan_digits(s: Seq<u8>, max: nat) -> Result<nat, IntError>
    decreases s.len(),
{
    if s.len() == 0 {
        Ok(0)
    } else {
        match scan_digits(s.drop_last(), max) {
            Err(e) => Err(e),
            Ok(v) => if !(48 <= s.last() <= 57) {
                Err(IntError::InvalidDigit)
            } else if v * 10 + (s.last() - 48) > max {
                Err(IntError::PosOverflow)
            } else {
                Ok((v * 10 + (s.last() - 48)) as nat)
            },
        }
    }
}

/// Why text is not an unsigned integer, in the terms of `std::num::IntErrorKind`.
#[derive(Clone, Copy, PartialEq, Eq, Debug)]
pub enum IntError {
    Empty,
    InvalidDigit,
    PosOverflow,
}

/// Reading an unsigned integer no greater than `max` as Rust's `from_str`
/// does: an optional `+`, then at least one decimal digit.
pub open spec fn parse_uint(s: Seq<u8>, max: nat) -> Result<nat, IntError> {
    if s.len() == 0 {
        Err(IntError::Empty)
    } else if (s[0] == 43 || s[0] == 45) && s.len() == 1 {
        Err(IntError::InvalidDigit)
    } else if s[0] == 43 {
        scan_digits(s.skip(1), max)
    } else {
        scan_digits(s, max)
    }
}

/// Parses an unsigned integer no greater than `max`.
pub fn parse_uint_bytes(s: &[u8], max: u32) -> (r: Result<u32, IntError>)
    ensures
        match parse_uint(s@, max as nat) {
            Ok(v) => r == Ok::<u32, IntError>(v as u32),
            Err(e) => r == Err::<u32, IntError>(e),
        },
{
    if s.len() == 0 {
        return Err(IntError::Empty);
    }
    if (s[0] == 43 || s[0] == 45) && s.len() == 1 {
        return Err(IntError::InvalidDigit);
    }
    let start: usize = if s[0] == 43 { 1 } else { 0 };
    let ghost digits = s@.skip(start as int);
    proof {
        assert(s@.skip(0) == s@);
        assert(digits.take(0) == Seq::<u8>::empty());
    }
    let mut value: u32 = 0;
    let mut i: usize = start;
    while i < s.len()
        invariant
            start <= i <= s.len(),
            digits == s@.skip(start as int),
            parse_uint(s@, max as nat) == scan_digits(digits, max as nat),
            scan_digits(digits.take(i - start), max as nat) == Ok::<nat, IntError>(value as nat),
            value <= max,
        decreases s.len() - i,
    {
        let b = s[i];
        proof {
            assert(digits.take(i - start + 1).drop_last() == digits.take(i - start));
            assert(digits.take(i - start + 1).last() == b);
        }
        if b < 48 || b > 57 {
            proof {
                lemma_scan_digits_prefix_err(digits, (i - start + 1) as int, max as nat);
            }
            return Err(IntError::InvalidDigit);
        }
        let d = (b - 48) as u32;
        if d > max || value > (max - d) / 10 {
            assert(value * 10 + d > max) by (nonlinear_arith)
                requires d > max || value > (max - d) / 10;
            proof {
                lemma_scan_digits_prefix_err(digits, (i - start + 1) as int, max as nat);
            }
            return Err(IntError::PosOverflow);
        }
        assert(value * 10 + d <= max) by (nonlinear_arith)
            requires value <= (max - d) / 10, d <= max;
        value = value * 10 + d;
        i = i + 1;
    }
    proof {
        assert(digits.take(i - start) == digits);
        assert(s@.skip(0) == s@);
    }
    Ok(value)
}

proof fn lemma_scan_digits_prefix_err(s: Seq<u8>, k: int, max: nat)
    requires
        0 <= k <= s.len(),
        scan_digits(s.take(k), max) is Err,
    ensures
        scan_digits(s, max) == scan_digits(s.take(k), max),
    decreases s.len() - k,
{
    if k < s.len() {
        assert(s.take(k + 1).drop_last() == s.take(k));
        lemma_scan_digits_prefix_err(s, k + 1, max);
    } else {
        assert(s.take(k) == s);
    }
}

} // verus!

verus! {

/// Calls `std::str::from_utf8`, which succeeds exactly on valid UTF-8.
#[verifier::external_body]
pub(crate) fn is_utf8(bytes: &[u8]) -> (r: bool)
    ensures
        r == valid_utf8(bytes@),
{
    match std::str::from_utf8(bytes) {
        Ok(_) => true,
        Err(_) => false,
    }
}

} // verus!

verus! {

/// Bytes that are all digits, lower-case ASCII letters or points.
pub open spec fn word_text(s: Seq<u8>) -> bool {
    forall|i: int| 0 <= i < s.len() ==> (48 <= #[trigger] s[i] <= 57 || 97 <= s[i] <= 122 || s[i] == 46)
}

/// Such text has no whitespace to trim.
pub proof fn lemma_word_text_is_trimmed(s: Seq<u8>)
    requires
        word_text(s),
    ensures
        trim(s) == s,
{
    if s.len() > 0 {
        assert(space_at(s, 0) == 0);
        let n = s.len() as int;
        assert(space_before(s, 0, n) == 0) by {
            assert(48 <= s[n - 1] <= 57 || 97 <= s[n - 1] <= 122 || s[n - 1] == 46);
            if n >= 2 {
                assert(48 <= s[n - 2] <= 57 || 97 <= s[n - 2] <= 122 || s[n - 2] == 46);
            }
            if n >= 3 {
                assert(48 <= s[n - 3] <= 57 || 97 <= s[n - 3] <= 122 || s[n - 3] == 46);
            }
        }
    }
    assert(s.subrange(0, s.len() as int) =~= s);
}

/// Such text is valid UTF-8: every byte of it is ASCII.
pub proof fn lemma_word_text_is_utf8(s: Seq<u8>)
    requires
        word_text(s),
    ensures
        valid_utf8(s),
    decreases s.len(),
{
    if s.len() > 0 {
        let b = s[0];
        assert(b < 128);
        assert((b & 0x7f) as u32 <= 0x7f) by (bit_vector);
        let rest = s.subrange(1, s.len() as int);
        assert forall|i: int| 0 <= i < rest.len() implies (48 <= #[trigger] rest[i] <= 57 || 97 <= rest[i] <= 122
            || rest[i] == 46) by {
            assert(rest[i] == s[i + 1]);
        }
        lemma_word_text_is_utf8(rest);
        assert(vstd::utf8::pop_first_scalar(s) == rest);
    }
}

/// The decimal digits of a number read back as that number.
pub proof fn lemma_decimal_parses(n: nat, max: nat)
    requires
        n <= max,
    ensures
        parse_uint(decimal(n), max) == Ok::<nat, IntError>(n),
        decimal(n).len() > 0,
        word_text(decimal(n)),
    decreases n,
{
    let d = decimal(n);
    if n < 10 {
        assert(d.drop_last() =~= Seq::<u8>::empty());
        assert(scan_digits(d, max) == Ok::<nat, IntError>(n));
    } else {
        lemma_decimal_parses(n / 10, max);
        assert(d.drop_last() == decimal(n / 10));
        assert(n == (n / 10) * 10 + n % 10);
        assert(scan_digits(d, max) == Ok::<nat, IntError>(n));
        assert forall|i: int| 0 <= i < d.len() implies (48 <= #[trigger] d[i] <= 57 || 97 <= d[i] <= 122
            || d[i] == 46) by {
            if i < d.len() - 1 {
                assert(d[i] == decimal(n / 10)[i]);
            }
        }
    }
}

} // verus!

verus! {

/// A number below ten to the `k` has at most `k` decimal digits.
pub proof fn lemma_decimal_len(n: nat, k: nat)
    requires
        n < crate::money::pow10(k),
        k >= 1,
    ensures
        decimal(n).len() <= k,
    decreases n,
{
    if n >= 10 {
        let km = (k - 1) as nat;
        if k == 1 {
            assert(crate::money::pow10(1) == 10 * crate::money::pow10(0));
            assert(false);
        }
        assert(crate::money::pow10(k) == 10 * crate::money::pow10(km));
        let p = crate::money::pow10(km);
        assert(n / 10 < p) by (nonlinear_arith)
            requires n < 10 * p;
        lemma_decimal_len(n / 10, km);
    }
}

} // verus!
