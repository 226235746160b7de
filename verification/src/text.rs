//! Byte-string primitives.
//!
//! All text in this crate is a sequence of bytes holding UTF-8. The functions
//! here give the handful of operations that the parser and the renderers need
//! (trimming, splitting into lines and words, joining, decimal numbers), each
//! with a mathematical definition over `Seq<u8>` and an executable twin on
//! slices that is proved to compute it.
use vstd::prelude::*;

verus! {

pub const TAB: u8 = 9;

pub const NEWLINE: u8 = 10;

pub const SPACE: u8 = 32;

pub const SLASH: u8 = 47;

pub const BACKSLASH: u8 = 92;

pub const TILDE: u8 = 126;

/// The views of a vector of byte strings.
pub open spec fn texts(v: Seq<Vec<u8>>) -> Seq<Seq<u8>> {
    Seq::new(v.len(), |i: int| v[i]@)
}

/// True when the three bytes encode one of the white-space characters that
/// take three bytes in UTF-8 (U+1680, U+2000 to U+200A, U+2028, U+2029,
/// U+202F, U+205F, U+3000).
pub open spec fn is_wide_space(a: u8, b: u8, c: u8) -> bool {
    ||| a == 0xE1 && b == 0x9A && c == 0x80
    ||| a == 0xE2 && b == 0x80 && (0x80 <= c <= 0x8A || c == 0xA8 || c == 0xA9 || c == 0xAF)
    ||| a == 0xE2 && b == 0x81 && c == 0x9F
    ||| a == 0xE3 && b == 0x80 && c == 0x80
}

/// Number of bytes of the white-space character whose encoding starts at
/// index `i` of `s`, or 0 when none starts there. White space is what
/// Unicode calls `White_Space`: U+0009 to U+000D, U+0020, U+0085, U+00A0 and
/// the three-byte characters of [`is_wide_space`].
pub open spec fn space_width(s: Seq<u8>, i: int) -> int {
    if i < 0 || i >= s.len() {
        0
    } else if s[i] == 32 || 9 <= s[i] <= 13 {
        1
    } else if i + 1 < s.len() && s[i] == 0xC2 && (s[i + 1] == 0x85 || s[i + 1] == 0xA0) {
        2
    } else if i + 2 < s.len() && is_wide_space(s[i], s[i + 1], s[i + 2]) {
        3
    } else {
        0
    }
}

/// Number of bytes of the white-space character whose encoding ends just
/// before index `end` of `s` and starts at or after `lo`, or 0.
pub open spec fn space_width_back(s: Seq<u8>, lo: int, end: int) -> int {
    if lo <= end - 1 && space_width(s, end - 1) == 1 {
        1
    } else if lo <= end - 2 && space_width(s, end - 2) == 2 {
        2
    } else if lo <= end - 3 && space_width(s, end - 3) == 3 {
        3
    } else {
        0
    }
}

/// Index of the first byte at or after `i` that does not start a white-space
/// character (`s.len()` when there is none).
pub open spec fn skip_space(s: Seq<u8>, i: int) -> int
    decreases s.len() - i,
{
    if space_width(s, i) > 0 {
        skip_space(s, i + space_width(s, i))
    } else {
        i
    }
}

/// The end of `s[lo..end]` once its trailing white space is dropped.
pub open spec fn skip_space_back(s: Seq<u8>, lo: int, end: int) -> int
    decreases end,
{
    if space_width_back(s, lo, end) > 0 {
        skip_space_back(s, lo, end - space_width_back(s, lo, end))
    } else {
        end
    }
}

/// `s` without its leading and trailing white space.
pub open spec fn trimmed(s: Seq<u8>) -> Seq<u8> {
    let a = skip_space(s, 0);
    s.subrange(a, skip_space_back(s, a, s.len() as int))
}

/// Index of the first newline at or after `i` (`s.len()` when there is none).
pub open spec fn line_end(s: Seq<u8>, i: int) -> int
    decreases s.len() - i,
{
    if i < 0 || i >= s.len() || s[i] == NEWLINE {
        i
    } else {
        line_end(s, i + 1)
    }
}

/// The lines of `s` from index `i` on: the stretches between newlines, the
/// newlines themselves left out. A newline at the very end opens no further
/// line.
pub open spec fn lines_from(s: Seq<u8>, i: int) -> Seq<Seq<u8>>
    decreases s.len() - i,
{
    let e = line_end(s, i);
    if i < 0 || i >= s.len() || e < i {
        Seq::empty()
    } else if e >= s.len() {
        seq![s.subrange(i, s.len() as int)]
    } else {
        seq![s.subrange(i, e)] + lines_from(s, e + 1)
    }
}

/// The lines of `s`.
pub open spec fn lines(s: Seq<u8>) -> Seq<Seq<u8>> {
    lines_from(s, 0)
}

/// Index of the first byte at or after `i` that starts a white-space
/// character (`s.len()` when there is none).
pub open spec fn word_end(s: Seq<u8>, i: int) -> int
    decreases s.len() - i,
{
    if i < 0 || i >= s.len() || space_width(s, i) > 0 {
        i
    } else {
        word_end(s, i + 1)
    }
}

/// The words of `s` from index `i` on: the maximal stretches free of white
/// space, in order.
pub open spec fn words_from(s: Seq<u8>, i: int) -> Seq<Seq<u8>>
    decreases s.len() - i,
{
    let a = skip_space(s, i);
    let e = word_end(s, a + 1);
    if i < 0 || a >= s.len() || a < i || e <= a {
        Seq::empty()
    } else if e >= s.len() {
        seq![s.subrange(a, s.len() as int)]
    } else {
        seq![s.subrange(a, e)] + words_from(s, e)
    }
}

/// The words of `s`.
pub open spec fn words(s: Seq<u8>) -> Seq<Seq<u8>> {
    words_from(s, 0)
}

/// `n` copies of `s`, one after the other.
pub open spec fn repeated(s: Seq<u8>, n: nat) -> Seq<u8>
    decreases n,
{
    if n == 0 {
        Seq::empty()
    } else {
        s + repeated(s, (n - 1) as nat)
    }
}

/// The texts of `parts` from index `i` on, each preceded by `sep`.
pub open spec fn join_rest(parts: Seq<Seq<u8>>, sep: Seq<u8>, i: int) -> Seq<u8>
    decreases parts.len() - i,
{
    if i < 0 || i >= parts.len() {
        Seq::empty()
    } else {
        sep + parts[i] + join_rest(parts, sep, i + 1)
    }
}

/// The texts of `parts` with `sep` between each two neighbours.
pub open spec fn joined(parts: Seq<Seq<u8>>, sep: Seq<u8>) -> Seq<u8> {
    if parts.len() == 0 {
        Seq::empty()
    } else {
        parts[0] + join_rest(parts, sep, 1)
    }
}

/// The decimal digits of `n`, most significant first.
pub open spec fn decimal(n: nat) -> Seq<u8>
    decreases n,
{
    if n < 10 {
        seq![(48 + n) as u8]
    } else {
        decimal(n / 10).push((48 + n % 10) as u8)
    }
}

/// `decimal(n)` filled up from the left with the digit 0 to `width` bytes
/// (unchanged when it is that long already).
pub open spec fn zero_padded(n: nat, width: nat) -> Seq<u8> {
    let d = decimal(n);
    if d.len() >= width {
        d
    } else {
        repeated(seq![48u8], (width - d.len()) as nat) + d
    }
}

} // verus!

verus! {

/// `skip_space` moves forward, stays within `s` and stops where no white
/// space starts.
pub proof fn lemma_skip_space(s: Seq<u8>, i: int)
    requires
        0 <= i <= s.len(),
    ensures
        i <= skip_space(s, i) <= s.len(),
        space_width(s, skip_space(s, i)) == 0,
    decreases s.len() - i,
{
    if space_width(s, i) > 0 {
        lemma_skip_space(s, i + space_width(s, i));
    }
}

/// Repeating once more appends one more copy.
pub proof fn lemma_repeated_push(s: Seq<u8>, n: nat)
    ensures
        repeated(s, n + 1) == repeated(s, n) + s,
    decreases n,
{
    if n == 0 {
        assert(repeated(s, 1) == s + repeated(s, 0));
        assert(s + Seq::<u8>::empty() =~= Seq::<u8>::empty() + s);
    } else {
        lemma_repeated_push(s, (n - 1) as nat);
        assert(repeated(s, n + 1) == s + repeated(s, n));
        assert(s + (repeated(s, (n - 1) as nat) + s) =~= (s + repeated(s, (n - 1) as nat)) + s);
    }
}

} // verus!

verus! {

/// Ten to the power of `k`.
pub open spec fn pow10(k: nat) -> nat
    decreases k,
{
    if k == 0 {
        1
    } else {
        10 * pow10((k - 1) as nat)
    }
}

/// A number below ten to the `k` has at most `k` digits, and every number
/// has at least one.
pub proof fn lemma_decimal_len(n: nat, k: nat)
    requires
        k >= 1,
        n < pow10(k),
    ensures
        1 <= decimal(n).len() <= k,
    decreases k,
{
    reveal_with_fuel(pow10, 2);
    if n >= 10 {
        assert(k >= 2);
        assert(n / 10 < pow10((k - 1) as nat));
        lemma_decimal_len(n / 10, (k - 1) as nat);
    }
}

/// A number that fits 64 bits has at most twenty digits.
pub proof fn lemma_decimal_len_u64(n: nat)
    requires
        n <= u64::MAX,
    ensures
        1 <= decimal(n).len() <= 20,
{
    assert(pow10(20) == 100000000000000000000nat) by {
        reveal_with_fuel(pow10, 21);
    }
    lemma_decimal_len(n, 20);
}

/// Texts one after the other are the same however they are grouped.
pub proof fn lemma_add_assoc(a: Seq<u8>, b: Seq<u8>, c: Seq<u8>)
    ensures
        a + (b + c) == (a + b) + c,
{
    assert(a + (b + c) =~= (a + b) + c);
}

} // verus!
