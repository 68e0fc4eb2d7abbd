//! Byte-level predicates and small executable helpers used by the document
//! engine: character classes of the configuration grammar, scanning runs,
//! equality and substring search on byte sequences, and ASCII lowercasing.

use vstd::prelude::*;

verus! {

// --- character classes -------------------------------------------------

/// Horizontal whitespace inside a line: space or tab.
pub open spec fn is_ws(b: u8) -> bool {
    b == 32 || b == 9
}

/// A decimal digit.
pub open spec fn is_digit(b: u8) -> bool {
    48 <= b <= 57
}

/// A byte allowed in a bare key: ASCII letters, digits, `-` and `_`.
pub open spec fn is_key_byte(b: u8) -> bool {
    is_digit(b) || (65 <= b <= 90) || (97 <= b <= 122) || b == 45 || b == 95
}

/// A byte allowed inside a quoted string literal: anything printable or
/// non-ASCII except the quote and the backslash, plus tab.
pub open spec fn is_str_byte(b: u8) -> bool {
    (b >= 32 || b == 9) && b != 34 && b != 92
}

/// No line-feed byte occurs in `s`; lines of a document hold their text
/// without the terminator.
pub open spec fn no_newline(s: Seq<u8>) -> bool {
    forall|i: int| 0 <= i < s.len() ==> s[i] != 10
}

/// Every byte of `s` is horizontal whitespace.
pub open spec fn all_ws(s: Seq<u8>) -> bool {
    forall|i: int| 0 <= i < s.len() ==> is_ws(s[i])
}

/// Every byte of `s` may stand in a bare key.
pub open spec fn all_key_bytes(s: Seq<u8>) -> bool {
    forall|i: int| 0 <= i < s.len() ==> is_key_byte(s[i])
}

/// Every byte of `s` may stand inside a quoted string literal.
pub open spec fn all_str_bytes(s: Seq<u8>) -> bool {
    forall|i: int| 0 <= i < s.len() ==> is_str_byte(s[i])
}

// --- scanning ----------------------------------------------------------

/// The first position at or after `i` whose byte fails `p`, or the length
/// of `s` if every byte from `i` on satisfies `p`.
pub open spec fn scan_while(s: Seq<u8>, i: int, p: spec_fn(u8) -> bool) -> int
    decreases s.len() - i when 0 <= i <= s.len()

{
    if 0 <= i < s.len() && p(s[i]) {
        scan_while(s, i + 1, p)
    } else {
        i
    }
}

/// What a completed scan means: it stays within bounds, every byte it
/// passed over satisfies `p`, and it stops at the end or at a failing byte.
pub proof fn lemma_scan_while(s: Seq<u8>, i: int, p: spec_fn(u8) -> bool)
    requires
        0 <= i <= s.len(),
    ensures
        i <= scan_while(s, i, p) <= s.len(),
        forall|j: int| i <= j < scan_while(s, i, p) ==> p(s[j]),
        scan_while(s, i, p) == s.len() || !p(s[scan_while(s, i, p)]),
    decreases s.len() - i,
{
    if i < s.len() && p(s[i]) {
        lemma_scan_while(s, i + 1, p);
    }
}

/// A scan from inside an already scanned run ends at the same place.
pub proof fn lemma_scan_while_shift(s: Seq<u8>, i: int, j: int, p: spec_fn(u8) -> bool)
    requires
        0 <= i <= j <= s.len(),
        forall|k: int| i <= k < j ==> p(s[k]),
    ensures
        scan_while(s, i, p) == scan_while(s, j, p),
    decreases j - i,
{
    if i < j {
        lemma_scan_while_shift(s, i + 1, j, p);
    }
}

/// Executable counterpart of [`scan_while`] for horizontal whitespace.
#[inline]
pub fn scan_ws(s: &[u8], from: usize) -> (r: usize)
    requires
        from <= s@.len(),
    ensures
        r == scan_while(s@, from as int, |b: u8| is_ws(b)),
{
    let ghost p = |b: u8| is_ws(b);
    let mut i: usize = from;
    proof {
        lemma_scan_while_shift(s@, from as int, i as int, p);
    }
    while i < s.len() && (s[i] == 32 || s[i] == 9)
        invariant
            from <= i <= s@.len(),
            scan_while(s@, from as int, p) == scan_while(s@, i as int, p),
            p == (|b: u8| is_ws(b)),
        decreases s@.len() - i,
    {
        proof {
            assert(p(s@[i as int]));
            lemma_scan_while_shift(s@, i as int, i + 1, p);
        }
        i = i + 1;
    }
    i
}

/// Executable counterpart of [`scan_while`] for bare-key bytes.
#[inline]
pub fn scan_key(s: &[u8], from: usize) -> (r: usize)
    requires
        from <= s@.len(),
    ensures
        r == scan_while(s@, from as int, |b: u8| is_key_byte(b)),
{
    let ghost p = |b: u8| is_key_byte(b);
    let mut i: usize = from;
    proof {
        lemma_scan_while_shift(s@, from as int, i as int, p);
    }
    while i < s.len()
        && (48 <= s[i] && s[i] <= 57 || 65 <= s[i] && s[i] <= 90 || 97 <= s[i] && s[i] <= 122
            || s[i] == 45 || s[i] == 95)
        invariant
            from <= i <= s@.len(),
            scan_while(s@, from as int, p) == scan_while(s@, i as int, p),
            p == (|b: u8| is_key_byte(b)),
        decreases s@.len() - i,
    {
        proof {
            assert(p(s@[i as int]));
            lemma_scan_while_shift(s@, i as int, i + 1, p);
        }
        i = i + 1;
    }
    i
}

/// Executable counterpart of [`scan_while`] for decimal digits.
#[inline]
pub fn scan_digits(s: &[u8], from: usize) -> (r: usize)
    requires
        from <= s@.len(),
    ensures
        r == scan_while(s@, from as int, |b: u8| is_digit(b)),
{
    let ghost p = |b: u8| is_digit(b);
    let mut i: usize = from;
    proof {
        lemma_scan_while_shift(s@, from as int, i as int, p);
    }
    while i < s.len() && 48 <= s[i] && s[i] <= 57
        invariant
            from <= i <= s@.len(),
            scan_while(s@, from as int, p) == scan_while(s@, i as int, p),
            p == (|b: u8| is_digit(b)),
        decreases s@.len() - i,
    {
        proof {
            assert(p(s@[i as int]));
            lemma_scan_while_shift(s@, i as int, i + 1, p);
        }
        i = i + 1;
    }
    i
}

/// Executable counterpart of [`scan_while`] for string-literal bytes.
#[inline]
pub fn scan_str(s: &[u8], from: usize) -> (r: usize)
    requires
        from <= s@.len(),
    ensures
        r == scan_while(s@, from as int, |b: u8| is_str_byte(b)),
{
    let ghost p = |b: u8| is_str_byte(b);
    let mut i: usize = from;
    proof {
        lemma_scan_while_shift(s@, from as int, i as int, p);
    }
    while i < s.len() && (s[i] >= 32 || s[i] == 9) && s[i] != 34 && s[i] != 92
        invariant
            from <= i <= s@.len(),
            scan_while(s@, from as int, p) == scan_while(s@, i as int, p),
            p == (|b: u8| is_str_byte(b)),
        decreases s@.len() - i,
    {
        proof {
            assert(p(s@[i as int]));
            lemma_scan_while_shift(s@, i as int, i + 1, p);
        }
        i = i + 1;
    }
    i
}

/// Executable counterpart of [`scan_while`] for bytes other than line feed.
#[inline]
pub fn scan_to_newline(s: &[u8], from: usize) -> (r: usize)
    requires
        from <= s@.len(),
    ensures
        r == scan_while(s@, from as int, |b: u8| b != 10),
{
    let ghost p = |b: u8| b != 10;
    let mut i: usize = from;
    proof {
        lemma_scan_while_shift(s@, from as int, i as int, p);
    }
    while i < s.len() && s[i] != 10
        invariant
            from <= i <= s@.len(),
            scan_while(s@, from as int, p) == scan_while(s@, i as int, p),
            p == (|b: u8| b != 10),
        decreases s@.len() - i,
    {
        proof {
            assert(p(s@[i as int]));
            lemma_scan_while_shift(s@, i as int, i + 1, p);
        }
        i = i + 1;
    }
    i
}

// --- equality and search -----------------------------------------------

/// Byte-for-byte equality of two byte slices.
pub fn bytes_eq(a: &[u8], b: &[u8]) -> (r: bool)
    ensures
        r == (a@ == b@),
{
    if a.len() != b.len() {
        proof {
            assert(a@.len() != b@.len());
        }
        return false;
    }
    let mut i: usize = 0;
    while i < a.len()
        invariant
            a@.len() == b@.len(),
            i <= a@.len(),
            forall|j: int| 0 <= j < i ==> a@[j] == b@[j],
        decreases a@.len() - i,
    {
        if a[i] != b[i] {
            return false;
        }
        i = i + 1;
    }
    proof {
        assert(a@ =~= b@);
    }
    true
}

/// The needle `n` occurs in the haystack `h` starting at position `i`.
pub open spec fn occurs_at(h: Seq<u8>, n: Seq<u8>, i: int) -> bool {
    0 <= i && i + n.len() <= h.len() && h.subrange(i, i + n.len() as int) == n
}

/// The needle `n` occurs somewhere in the haystack `h`.
pub open spec fn contains_seq(h: Seq<u8>, n: Seq<u8>) -> bool {
    exists|i: int| occurs_at(h, n, i)
}

/// Naive substring search: does `n` occur anywhere in `h`?
pub fn contains_bytes(h: &[u8], n: &[u8]) -> (r: bool)
    ensures
        r == contains_seq(h@, n@),
{
    if n.len() == 0 {
        proof {
            assert(h@.subrange(0, 0) =~= n@);
            assert(occurs_at(h@, n@, 0));
        }
        return true;
    }
    if n.len() > h.len() {
        proof {
            assert(forall|i: int| !occurs_at(h@, n@, i));
        }
        return false;
    }
    let mut i: usize = 0;
    while i <= h.len() - n.len()
        invariant
            1 <= n@.len() <= h@.len(),
            h@.len() <= usize::MAX,
            i <= h@.len() - n@.len() + 1,
            forall|k: int| 0 <= k < i ==> !occurs_at(h@, n@, k),
        decreases h@.len() - i,
    {
        let mut j: usize = 0;
        let mut ok: bool = true;
        proof {
            assert(h@.subrange(i as int, i as int) =~= n@.subrange(0, 0));
        }
        while j < n.len()
            invariant
                1 <= n@.len() <= h@.len(),
                h@.len() <= usize::MAX,
                i + n@.len() <= h@.len(),
                j <= n@.len(),
                ok ==> h@.subrange(i as int, i + j as int) == n@.subrange(0, j as int),
                !ok ==> h@.subrange(i as int, i + n@.len() as int) != n@,
            decreases n@.len() - j,
        {
            if ok {
                if h[i + j] != n[j] {
                    proof {
                        assert(h@.subrange(i as int, i + n@.len() as int)[j as int] == h@[i + j]);
                    }
                    ok = false;
                } else {
                    proof {
                        assert(h@.subrange(i as int, i + j + 1) =~= h@.subrange(
                            i as int,
                            i + j as int,
                        ).push(h@[i + j]));
                        assert(n@.subrange(0, j + 1) =~= n@.subrange(0, j as int).push(
                            n@[j as int],
                        ));
                    }
                }
            }
            j = j + 1;
        }
        if ok {
            proof {
                assert(n@.subrange(0, n@.len() as int) =~= n@);
                assert(occurs_at(h@, n@, i as int));
            }
            return true;
        }
        i = i + 1;
    }
    proof {
        assert(forall|k: int| occurs_at(h@, n@, k) ==> 0 <= k <= h@.len() - n@.len());
    }
    false
}

/// Check that every byte of `s` may stand inside a quoted string literal.
pub fn check_str_bytes(s: &[u8]) -> (r: bool)
    ensures
        r == all_str_bytes(s@),
{
    let mut i: usize = 0;
    while i < s.len()
        invariant
            i <= s@.len(),
            forall|j: int| 0 <= j < i ==> is_str_byte(s@[j]),
        decreases s@.len() - i,
    {
        let b = s[i];
        if !((b >= 32 || b == 9) && b != 34 && b != 92) {
            proof {
                assert(!is_str_byte(s@[i as int]));
            }
            return false;
        }
        i = i + 1;
    }
    true
}

// --- ASCII lowercasing -------------------------------------------------

/// ASCII lowercase of one byte: letters `A`..`Z` map to `a`..`z`, all other
/// bytes stay as they are.
pub open spec fn lower_byte(b: u8) -> u8 {
    if 65 <= b <= 90 {
        (b + 32) as u8
    } else {
        b
    }
}

/// ASCII lowercase of a byte sequence.
pub open spec fn lower_seq(s: Seq<u8>) -> Seq<u8> {
    s.map_values(|b: u8| lower_byte(b))
}

/// Executable ASCII lowercasing.
pub fn to_lower(s: &[u8]) -> (r: Vec<u8>)
    ensures
        r@ == lower_seq(s@),
{
    let mut out: Vec<u8> = Vec::new();
    let mut i: usize = 0;
    while i < s.len()
        invariant
            i <= s@.len(),
            out@ == lower_seq(s@.take(i as int)),
        decreases s@.len() - i,
    {
        let b = s[i];
        if 65 <= b && b <= 90 {
            out.push(b + 32);
        } else {
            out.push(b);
        }
        proof {
            assert(lower_seq(s@.take(i + 1)) =~= lower_seq(s@.take(i as int)).push(
                lower_byte(s@[i as int]),
            ));
        }
        i = i + 1;
    }
    proof {
        assert(s@.take(s@.len() as int) =~= s@);
    }
    out
}

} // verus!
