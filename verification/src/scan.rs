//! Byte-level scanning helpers: locating a delimiter, taking a sub-buffer,
//! trimming surrounding whitespace, and reading a decimal number.

use vstd::prelude::*;

verus! {

/// The line feed byte, which ends a header line; two in a row end the block.
pub const NL: u8 = 10;

/// The colon byte, which separates a header key from its value.
pub const COLON: u8 = 58;

/// First index at or after `start` whose byte equals `b`, if any.
pub open spec fn find_from(s: Seq<u8>, b: u8, start: int) -> Option<int>
    decreases s.len() - start when 0 <= start <= s.len()
{
    if start >= s.len() {
        None
    } else if s[start] == b {
        Some(start)
    } else {
        find_from(s, b, start + 1)
    }
}

/// What `find_from` returns: the first matching index in range, or a
/// guarantee that no byte in range matches.
pub proof fn lemma_find_from(s: Seq<u8>, b: u8, start: int)
    requires
        0 <= start <= s.len(),
    ensures
        match find_from(s, b, start) {
            Some(j) => start <= j < s.len() && s[j] == b && (forall|m: int|
                start <= m < j ==> #[trigger] s[m] != b),
            None => forall|m: int| start <= m < s.len() ==> #[trigger] s[m] != b,
        },
    decreases s.len() - start,
{
    if start < s.len() && s[start] != b {
        lemma_find_from(s, b, start + 1);
    }
}

/// The converse: an index that matches, with none matching before it, is
/// what `find_from` returns.
pub proof fn lemma_find_from_found(s: Seq<u8>, b: u8, start: int, j: int)
    requires
        0 <= start <= j < s.len(),
        s[j] == b,
        forall|m: int| start <= m < j ==> #[trigger] s[m] != b,
    ensures
        find_from(s, b, start) == Some(j),
    decreases j - start,
{
    if start < j {
        lemma_find_from_found(s, b, start + 1, j);
    }
}

/// First index at or after `start` whose byte equals `b`, by a scan.
pub fn find_byte_from(v: &Vec<u8>, b: u8, start: usize) -> (r: Option<usize>)
    requires
        start <= v@.len(),
    ensures
        match r {
            Some(j) => find_from(v@, b, start as int) == Some(j as int),
            None => find_from(v@, b, start as int) is None,
        },
{
    let mut i: usize = start;
    while i < v.len()
        invariant
            start <= i <= v@.len(),
            find_from(v@, b, start as int) == find_from(v@, b, i as int),
        decreases v@.len() - i,
    {
        if v[i] == b {
            return Some(i);
        }
        i += 1;
    }
    None
}

/// Copy of the bytes of `v` from `start` (inclusive) to `end` (exclusive).
pub fn subvec(v: &Vec<u8>, start: usize, end: usize) -> (r: Vec<u8>)
    requires
        start <= end <= v@.len(),
    ensures
        r@ == v@.subrange(start as int, end as int),
{
    let mut r: Vec<u8> = Vec::new();
    proof {
        assert(r@ =~= v@.subrange(start as int, start as int));
    }
    let mut i: usize = start;
    while i < end
        invariant
            start <= i <= end <= v@.len(),
            r@ == v@.subrange(start as int, i as int),
        decreases end - i,
    {
        r.push(v[i]);
        proof {
            assert(r@ =~= v@.subrange(start as int, i + 1));
        }
        i += 1;
    }
    r
}

/// Whether two byte vectors hold the same bytes.
pub fn bytes_eq(a: &Vec<u8>, b: &Vec<u8>) -> (r: bool)
    ensures
        r == (a@ == b@),
{
    if a.len() != b.len() {
        return false;
    }
    let mut i: usize = 0;
    while i < a.len()
        invariant
            i <= a@.len(),
            a@.len() == b@.len(),
            forall|m: int| 0 <= m < i ==> a@[m] == b@[m],
        decreases a@.len() - i,
    {
        if a[i] != b[i] {
            return false;
        }
        i += 1;
    }
    proof {
        assert(a@ =~= b@);
    }
    true
}

/// The bytes that count as surrounding whitespace of a header key or value:
/// tab, line feed, vertical tab, form feed, carriage return and space.
pub open spec fn is_ws(b: u8) -> bool {
    b == 9 || b == 10 || b == 11 || b == 12 || b == 13 || b == 32
}

/// `s` without its leading whitespace bytes.
pub open spec fn trim_front(s: Seq<u8>) -> Seq<u8>
    decreases s.len(),
{
    if s.len() > 0 && is_ws(s[0]) {
        trim_front(s.skip(1))
    } else {
        s
    }
}

/// `s` without its trailing whitespace bytes.
pub open spec fn trim_back(s: Seq<u8>) -> Seq<u8>
    decreases s.len(),
{
    if s.len() > 0 && is_ws(s.last()) {
        trim_back(s.drop_last())
    } else {
        s
    }
}

/// `s` without leading and trailing whitespace bytes.
pub open spec fn trim_spec(s: Seq<u8>) -> Seq<u8> {
    trim_back(trim_front(s))
}

fn is_ws_byte(b: u8) -> (r: bool)
    ensures
        r == is_ws(b),
{
    b == 9 || b == 10 || b == 11 || b == 12 || b == 13 || b == 32
}

/// Copy of `v` without leading and trailing whitespace bytes.
pub fn trim(v: &Vec<u8>) -> (r: Vec<u8>)
    ensures
        r@ == trim_spec(v@),
{
    let mut lo: usize = 0;
    proof {
        assert(v@.skip(0) =~= v@);
    }
    while lo < v.len() && is_ws_byte(v[lo])
        invariant
            lo <= v@.len(),
            trim_front(v@) == trim_front(v@.skip(lo as int)),
        decreases v@.len() - lo,
    {
        proof {
            assert(v@.skip(lo as int).skip(1) =~= v@.skip(lo as int + 1));
        }
        lo += 1;
    }
    proof {
        assert(trim_front(v@) == v@.skip(lo as int));
    }
    let mut hi: usize = v.len();
    proof {
        assert(v@.skip(lo as int) =~= v@.subrange(lo as int, hi as int));
    }
    while hi > lo && is_ws_byte(v[hi - 1])
        invariant
            lo <= hi <= v@.len(),
            trim_front(v@) == v@.skip(lo as int),
            trim_back(v@.skip(lo as int)) == trim_back(v@.subrange(lo as int, hi as int)),
        decreases hi,
    {
        proof {
            assert(v@.subrange(lo as int, hi as int).drop_last() =~= v@.subrange(
                lo as int,
                hi as int - 1,
            ));
        }
        hi -= 1;
    }
    proof {
        assert(trim_back(v@.skip(lo as int)) == v@.subrange(lo as int, hi as int));
    }
    subvec(v, lo, hi)
}

/// Whether `b` is an ASCII decimal digit.
pub open spec fn is_digit(b: u8) -> bool {
    48 <= b <= 57
}

/// Whether every byte of `s` is an ASCII decimal digit.
pub open spec fn all_digits(s: Seq<u8>) -> bool {
    forall|i: int| 0 <= i < s.len() ==> is_digit(#[trigger] s[i])
}

/// The number that a sequence of decimal digit bytes denotes.
pub open spec fn digits_val(s: Seq<u8>) -> int
    decreases s.len(),
{
    if s.len() == 0 {
        0
    } else {
        digits_val(s.drop_last()) * 10 + (s.last() - 48)
    }
}

/// What parsing `s` as a `usize` yields: an optional plus sign, then at
/// least one decimal digit, denoting a value that fits.
pub open spec fn parse_usize_spec(s: Seq<u8>) -> Option<int> {
    let d = if s.len() > 0 && s[0] == 43 {
        s.skip(1)
    } else {
        s
    };
    if d.len() > 0 && all_digits(d) && digits_val(d) <= usize::MAX {
        Some(digits_val(d))
    } else {
        None
    }
}

pub proof fn lemma_digits_val_nonneg(s: Seq<u8>)
    requires
        all_digits(s),
    ensures
        digits_val(s) >= 0,
    decreases s.len(),
{
    if s.len() > 0 {
        assert(forall|i: int|
            0 <= i < s.drop_last().len() ==> is_digit(#[trigger] s.drop_last()[i]));
        lemma_digits_val_nonneg(s.drop_last());
        assert(is_digit(s.last()));
    }
}

/// A prefix of a digit string never denotes more than the whole string.
pub proof fn lemma_digits_val_prefix(s: Seq<u8>, m: int)
    requires
        all_digits(s),
        0 <= m <= s.len(),
    ensures
        digits_val(s.take(m)) <= digits_val(s),
    decreases s.len() - m,
{
    if m < s.len() {
        lemma_digits_val_prefix(s, m + 1);
        assert(s.take(m + 1).drop_last() =~= s.take(m));
        assert(s.take(m + 1).last() == s[m]);
        assert(forall|i: int| 0 <= i < s.take(m).len() ==> is_digit(#[trigger] s.take(m)[i]));
        lemma_digits_val_nonneg(s.take(m));
        assert(is_digit(s[m]));
        assert(digits_val(s.take(m)) <= digits_val(s.take(m + 1)));
    } else {
        assert(s.take(m) =~= s);
    }
}

/// Parse `v` as a `usize`: an optional plus sign, then decimal digits, with
/// the value required to fit.
pub fn parse_usize_bytes(v: &Vec<u8>) -> (r: Option<usize>)
    ensures
        match r {
            Some(n) => parse_usize_spec(v@) == Some(n as int),
            None => parse_usize_spec(v@) is None,
        },
{
    let offset: usize = if v.len() > 0 && v[0] == 43 {
        1
    } else {
        0
    };
    let ghost d: Seq<u8> = if offset == 1 {
        v@.skip(1)
    } else {
        v@
    };
    proof {
        assert(v@.skip(0) =~= v@);
        assert(d == v@.skip(offset as int));
    }
    if v.len() == offset {
        return None;
    }
    let mut acc: usize = 0;
    let mut i: usize = offset;
    while i < v.len()
        invariant
            offset <= i <= v@.len(),
            (offset == 1) == (v@.len() > 0 && v@[0] == 43),
            d == (if v@.len() > 0 && v@[0] == 43 {
                v@.skip(1)
            } else {
                v@
            }),
            d == v@.skip(offset as int),
            all_digits(d.take(i - offset)),
            acc as int == digits_val(d.take(i - offset)),
        decreases v@.len() - i,
    {
        let c = v[i];
        proof {
            assert(d[i - offset] == v@[i as int]);
        }
        if c < 48 || c > 57 {
            proof {
                assert(!is_digit(d[i - offset]));
                assert(!all_digits(d));
            }
            return None;
        }
        let digit = (c - 48) as usize;
        let ghost next = d.take(i + 1 - offset);
        proof {
            assert(next.drop_last() =~= d.take(i - offset));
            assert(next.last() == d[i - offset]);
            assert(all_digits(next));
            assert(digits_val(next) == acc as int * 10 + digit as int);
        }
        let stepped = match acc.checked_mul(10) {
            Some(x) => x.checked_add(digit),
            None => None,
        };
        match stepped {
            Some(y) => {
                acc = y;
            },
            None => {
                proof {
                    if all_digits(d) {
                        lemma_digits_val_prefix(d, i + 1 - offset);
                        assert(digits_val(d) >= digits_val(next));
                        assert(digits_val(next) > usize::MAX);
                    }
                }
                return None;
            },
        }
        i += 1;
    }
    proof {
        assert(d.take(i - offset) =~= d);
        assert(d.len() > 0);
    }
    Some(acc)
}


/// A value that parses is a machine-word number.
pub proof fn lemma_parse_usize_spec_bounds(s: Seq<u8>)
    ensures
        parse_usize_spec(s) matches Some(n) ==> 0 <= n <= usize::MAX,
{
    let d = if s.len() > 0 && s[0] == 43 {
        s.skip(1)
    } else {
        s
    };
    if d.len() > 0 && all_digits(d) {
        lemma_digits_val_nonneg(d);
    }
}

} // verus!
