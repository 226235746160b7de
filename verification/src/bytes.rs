//! Executable operations on byte strings, each proved to compute its
//! definition in [`crate::text`].
use crate::text::{
    decimal, join_rest, joined, lemma_repeated_push, lemma_skip_space, line_end, lines, lines_from,
    repeated, skip_space, skip_space_back, space_width, space_width_back, texts, trimmed, word_end,
    words, words_from, zero_padded, NEWLINE,
};
use vstd::prelude::*;
use vstd::slice::{slice_subrange, slice_to_vec};

verus! {

/// Appends the bytes of `s` to `out`.
pub fn append(out: &mut Vec<u8>, s: &[u8])
    ensures
        final(out)@ == old(out)@ + s@,
{
    let mut i: usize = 0;
    while i < s.len()
        invariant
            i <= s.len(),
            out@ == old(out)@ + s@.take(i as int),
        decreases s.len() - i,
    {
        out.push(s[i]);
        assert(s@.take(i as int + 1) =~= s@.take(i as int).push(s@[i as int]));
        i = i + 1;
    }
    assert(s@.take(i as int) =~= s@);
}

/// Appends `n` copies of `s` to `out`.
pub fn append_repeated(out: &mut Vec<u8>, s: &[u8], n: usize)
    ensures
        final(out)@ == old(out)@ + repeated(s@, n as nat),
{
    let mut k: usize = 0;
    while k < n
        invariant
            k <= n,
            out@ == old(out)@ + repeated(s@, k as nat),
        decreases n - k,
    {
        append(out, s);
        proof {
            lemma_repeated_push(s@, k as nat);
        }
        k = k + 1;
    }
}

/// Whether two byte strings are equal.
pub fn equal(a: &[u8], b: &[u8]) -> (r: bool)
    ensures
        r == (a@ == b@),
{
    if a.len() != b.len() {
        return false;
    }
    let mut i: usize = 0;
    while i < a.len()
        invariant
            i <= a.len(),
            a.len() == b.len(),
            a@.take(i as int) == b@.take(i as int),
        decreases a.len() - i,
    {
        if a[i] != b[i] {
            assert(a@[i as int] != b@[i as int]);
            return false;
        }
        assert(a@.take(i as int + 1) =~= a@.take(i as int).push(a@[i as int]));
        assert(b@.take(i as int + 1) =~= b@.take(i as int).push(b@[i as int]));
        i = i + 1;
    }
    assert(a@.take(i as int) =~= a@);
    assert(b@.take(i as int) =~= b@);
    true
}

/// Whether `s` begins with `prefix`.
pub fn starts_with(s: &[u8], prefix: &[u8]) -> (r: bool)
    ensures
        r == prefix@.is_prefix_of(s@),
{
    if prefix.len() > s.len() {
        return false;
    }
    let head = slice_subrange(s, 0, prefix.len());
    let r = equal(head, prefix);
    proof {
        if r {
            assert(prefix@ =~= s@.subrange(0, prefix@.len() as int));
        } else if prefix@.is_prefix_of(s@) {
            assert(prefix@ =~= s@.subrange(0, prefix@.len() as int));
        }
    }
    r
}

/// A copy of `s[from..to]`.
pub fn slice(s: &[u8], from: usize, to: usize) -> (r: Vec<u8>)
    requires
        from <= to <= s.len(),
    ensures
        r@ == s@.subrange(from as int, to as int),
{
    slice_to_vec(slice_subrange(s, from, to))
}

/// Width of the white-space character that starts at `i`, 0 if none does.
pub fn space_at(s: &[u8], i: usize) -> (w: usize)
    ensures
        w == space_width(s@, i as int),
{
    if i >= s.len() {
        return 0;
    }
    let a = s[i];
    let left = s.len() - i;
    if a == 32 || (9 <= a && a <= 13) {
        1
    } else if left > 1 && a == 0xC2 && (s[i + 1] == 0x85 || s[i + 1] == 0xA0) {
        2
    } else if left > 2 {
        let b = s[i + 1];
        let c = s[i + 2];
        if (a == 0xE1 && b == 0x9A && c == 0x80) || (a == 0xE2 && b == 0x80 && ((0x80 <= c && c
            <= 0x8A) || c == 0xA8 || c == 0xA9 || c == 0xAF)) || (a == 0xE2 && b == 0x81 && c
            == 0x9F) || (a == 0xE3 && b == 0x80 && c == 0x80) {
            3
        } else {
            0
        }
    } else {
        0
    }
}

/// Width of the white-space character that ends just before `end` and starts
/// at or after `lo`, 0 if none does.
pub fn space_before(s: &[u8], lo: usize, end: usize) -> (w: usize)
    requires
        lo <= end <= s.len(),
    ensures
        w == space_width_back(s@, lo as int, end as int),
{
    if end - lo >= 1 && space_at(s, end - 1) == 1 {
        1
    } else if end - lo >= 2 && space_at(s, end - 2) == 2 {
        2
    } else if end - lo >= 3 && space_at(s, end - 3) == 3 {
        3
    } else {
        0
    }
}

/// Index of the first byte at or after `i` that starts no white space.
pub fn after_space(s: &[u8], i: usize) -> (r: usize)
    requires
        i <= s.len(),
    ensures
        r == skip_space(s@, i as int),
        i <= r <= s.len(),
{
    let mut k = i;
    loop
        invariant
            i <= k <= s.len(),
            skip_space(s@, k as int) == skip_space(s@, i as int),
        decreases s.len() - k,
    {
        let w = space_at(s, k);
        if w == 0 {
            return k;
        }
        k = k + w;
    }
}

/// A copy of `s` without its leading and trailing white space.
pub fn trim(s: &[u8]) -> (r: Vec<u8>)
    ensures
        r@ == trimmed(s@),
{
    let a = after_space(s, 0);
    let mut b = s.len();
    loop
        invariant
            a <= b <= s.len(),
            skip_space_back(s@, a as int, b as int) == skip_space_back(
                s@,
                a as int,
                s@.len() as int,
            ),
        ensures
            b == skip_space_back(s@, a as int, s@.len() as int),
        decreases b,
    {
        let w = space_before(s, a, b);
        if w == 0 {
            break ;
        }
        b = b - w;
    }
    slice(s, a, b)
}

/// The lines of `s`, split at newlines.
pub fn split_lines(s: &[u8]) -> (r: Vec<Vec<u8>>)
    ensures
        texts(r@) == lines(s@),
{
    let mut out: Vec<Vec<u8>> = Vec::new();
    let mut i: usize = 0;
    assert(texts(out@) + lines_from(s@, 0) =~= lines(s@));
    while i < s.len()
        invariant
            i <= s.len(),
            texts(out@) + lines_from(s@, i as int) == lines(s@),
        decreases s.len() - i,
    {
        let mut e = i;
        while e < s.len() && s[e] != NEWLINE
            invariant
                i <= e <= s.len(),
                line_end(s@, e as int) == line_end(s@, i as int),
            decreases s.len() - e,
        {
            e = e + 1;
        }
        let ghost before = texts(out@);
        out.push(slice(s, i, e));
        proof {
            assert(texts(out@) =~= before.push(s@.subrange(i as int, e as int)));
            if e < s.len() {
                assert(before + (seq![s@.subrange(i as int, e as int)] + lines_from(
                    s@,
                    e as int + 1,
                )) =~= texts(out@) + lines_from(s@, e as int + 1));
            } else {
                assert(before + seq![s@.subrange(i as int, e as int)] =~= texts(out@)
                    + lines_from(s@, s@.len() as int));
            }
        }
        if e < s.len() {
            i = e + 1;
        } else {
            i = e;
        }
    }
    assert(texts(out@) + lines_from(s@, i as int) =~= texts(out@));
    out
}

/// The words of `s`, split at white space.
pub fn split_words(s: &[u8]) -> (r: Vec<Vec<u8>>)
    ensures
        texts(r@) == words(s@),
{
    let mut out: Vec<Vec<u8>> = Vec::new();
    let mut i: usize = 0;
    assert(texts(out@) + words_from(s@, 0) =~= words(s@));
    loop
        invariant
            i <= s.len(),
            texts(out@) + words_from(s@, i as int) == words(s@),
        decreases s.len() - i,
    {
        let a = after_space(s, i);
        if a >= s.len() {
            assert(texts(out@) + words_from(s@, i as int) =~= texts(out@));
            return out;
        }
        let mut e = a + 1;
        while e < s.len() && space_at(s, e) == 0
            invariant
                a < e <= s.len(),
                word_end(s@, e as int) == word_end(s@, a as int + 1),
            decreases s.len() - e,
        {
            e = e + 1;
        }
        let ghost before = texts(out@);
        out.push(slice(s, a, e));
        proof {
            assert(texts(out@) =~= before.push(s@.subrange(a as int, e as int)));
            if e < s.len() {
                assert(before + (seq![s@.subrange(a as int, e as int)] + words_from(s@, e as int))
                    =~= texts(out@) + words_from(s@, e as int));
            } else {
                lemma_skip_space(s@, e as int);
                assert(before + seq![s@.subrange(a as int, e as int)] =~= texts(out@)
                    + words_from(s@, e as int));
            }
        }
        i = e;
    }
}

/// The texts of `parts` with `sep` between each two neighbours.
pub fn join(parts: &Vec<Vec<u8>>, sep: &[u8]) -> (r: Vec<u8>)
    ensures
        r@ == joined(texts(parts@), sep@),
{
    let mut out: Vec<u8> = Vec::new();
    if parts.len() == 0 {
        return out;
    }
    append(&mut out, parts[0].as_slice());
    let mut i: usize = 1;
    assert(out@ =~= texts(parts@)[0]);
    while i < parts.len()
        invariant
            1 <= i <= parts.len(),
            out@ + join_rest(texts(parts@), sep@, i as int) == joined(texts(parts@), sep@),
        decreases parts.len() - i,
    {
        let ghost before = out@;
        append(&mut out, sep);
        append(&mut out, parts[i].as_slice());
        proof {
            let p = texts(parts@);
            assert(before + (sep@ + p[i as int] + join_rest(p, sep@, i as int + 1)) =~= out@
                + join_rest(p, sep@, i as int + 1));
        }
        i = i + 1;
    }
    assert(out@ + join_rest(texts(parts@), sep@, i as int) =~= out@);
    out
}

/// A copy of each text of `v`.
pub fn copy_all(v: &Vec<Vec<u8>>) -> (r: Vec<Vec<u8>>)
    ensures
        texts(r@) == texts(v@),
{
    let mut out: Vec<Vec<u8>> = Vec::new();
    let mut i: usize = 0;
    while i < v.len()
        invariant
            i <= v.len(),
            texts(out@) == texts(v@).take(i as int),
        decreases v.len() - i,
    {
        let ghost before = texts(out@);
        out.push(slice_to_vec(v[i].as_slice()));
        assert(texts(out@) =~= before.push(v@[i as int]@));
        assert(texts(v@).take(i as int + 1) =~= texts(v@).take(i as int).push(v@[i as int]@));
        i = i + 1;
    }
    assert(texts(v@).take(i as int) =~= texts(v@));
    out
}

/// The decimal digits of `n`.
pub fn digits(n: usize) -> (r: Vec<u8>)
    ensures
        r@ == decimal(n as nat),
    decreases n,
{
    if n < 10 {
        let mut out: Vec<u8> = Vec::new();
        out.push(48 + n as u8);
        assert(out@ =~= seq![(48 + n) as u8]);
        out
    } else {
        let mut out = digits(n / 10);
        out.push(48 + (n % 10) as u8);
        out
    }
}

/// Appends `n` in decimal, filled up from the left with zeros to `width`
/// digits.
pub fn append_zero_padded(out: &mut Vec<u8>, n: usize, width: usize)
    ensures
        final(out)@ == old(out)@ + zero_padded(n as nat, width as nat),
{
    let d = digits(n);
    if d.len() < width {
        let zero: [u8; 1] = [48];
        assert(zero@ =~= seq![48u8]);
        append_repeated(out, zero.as_slice(), width - d.len());
    }
    let ghost mid = out@;
    append(out, d.as_slice());
    proof {
        if d.len() < width {
            assert(old(out)@ + repeated(seq![48u8], (width - d.len()) as nat) + d@ =~= old(out)@
                + (repeated(seq![48u8], (width - d.len()) as nat) + d@));
        }
    }
}

} // verus!
