//! Byte-level text utilities: whitespace splitting and integer parsing.
//!
//! The realtime command protocol and the page-count header are both plain
//! ASCII text.  Both are handled here over byte sequences: a message is
//! split on whitespace into tokens, and a token is read as a signed 32-bit
//! decimal integer with an optional leading sign, rejecting any other shape
//! and any value out of range.

use vstd::prelude::*;

verus! {

/// ASCII whitespace: space, tab, line feed, vertical tab, form feed,
/// carriage return.
pub open spec fn is_space(b: u8) -> bool {
    b == 32 || (9 <= b && b <= 13)
}

/// ASCII decimal digit.
pub open spec fn is_ascii_digit(b: u8) -> bool {
    48 <= b && b <= 57
}

pub open spec fn all_digits(s: Seq<u8>) -> bool {
    forall|k: int| 0 <= k < s.len() ==> is_ascii_digit(#[trigger] s[k])
}

/// Value of a digit string, most significant digit first.
pub open spec fn digits_val(s: Seq<u8>) -> int
    decreases s.len(),
{
    if s.len() == 0 {
        0
    } else {
        digits_val(s.drop_last()) * 10 + (s.last() - 48)
    }
}

/// The digit part of an integer literal: everything after one optional
/// leading `+` or `-`.
pub open spec fn int_digits(s: Seq<u8>) -> Seq<u8> {
    if s.len() > 0 && (s[0] == 43 || s[0] == 45) {
        s.skip(1)
    } else {
        s
    }
}

pub open spec fn int_negative(s: Seq<u8>) -> bool {
    s.len() > 0 && s[0] == 45
}

/// The value `s` denotes as a signed 32-bit decimal integer: an optional
/// sign, then one or more digits and nothing else, with the value in range;
/// any other input denotes nothing.
pub open spec fn parse_i32_spec(s: Seq<u8>) -> Option<i32> {
    let ds = int_digits(s);
    if ds.len() > 0 && all_digits(ds) {
        if !int_negative(s) && digits_val(ds) <= 0x7fff_ffff {
            Some(digits_val(ds) as i32)
        } else if int_negative(s) && digits_val(ds) <= 0x8000_0000 {
            Some((-digits_val(ds)) as i32)
        } else {
            None
        }
    } else {
        None
    }
}

/// The whitespace-separated tokens of `s`, in order; never empty tokens.
pub open spec fn tokens_of(s: Seq<u8>) -> Seq<Seq<u8>>
    decreases s.len(),
{
    if s.len() == 0 {
        Seq::empty()
    } else {
        let t = tokens_of(s.drop_last());
        let c = s.last();
        if is_space(c) {
            t
        } else if s.len() >= 2 && !is_space(s[s.len() - 2]) {
            t.update(t.len() - 1, t.last().push(c))
        } else {
            t.push(seq![c])
        }
    }
}

/// The views of a list of byte vectors.
pub open spec fn token_views(ts: Seq<Vec<u8>>) -> Seq<Seq<u8>> {
    ts.map_values(|v: Vec<u8>| v@)
}

/// Text ending in a non-space byte has at least one token.
proof fn lemma_tokens_of_nonempty(s: Seq<u8>)
    requires
        s.len() > 0,
        !is_space(s.last()),
    ensures
        tokens_of(s).len() >= 1,
    decreases s.len(),
{
    if s.len() >= 2 && !is_space(s[s.len() - 2]) {
        lemma_tokens_of_nonempty(s.drop_last());
    }
}

fn is_space_byte(b: u8) -> (r: bool)
    ensures
        r == is_space(b),
{
    b == 32 || (b >= 9 && b <= 13)
}

/// Splits `s` on runs of ASCII whitespace into its tokens.
pub fn tokenize(s: &[u8]) -> (r: Vec<Vec<u8>>)
    ensures
        token_views(r@) == tokens_of(s@),
{
    let mut toks: Vec<Vec<u8>> = Vec::new();
    let mut i: usize = 0;
    while i < s.len()
        invariant
            i <= s@.len(),
            token_views(toks@) == tokens_of(s@.take(i as int)),
        decreases s@.len() - i,
    {
        let ghost prefix = s@.take(i as int);
        proof {
            assert(s@.take(i + 1) =~= prefix.push(s@[i as int]));
            assert(prefix.push(s@[i as int]).drop_last() =~= prefix);
        }
        let c = s[i];
        if is_space_byte(c) {
            // a separator: tokens unchanged
        } else if i > 0 && !is_space_byte(s[i - 1]) {
            // continue the current token
            proof {
                lemma_tokens_of_nonempty(prefix);
                assert(toks@.len() == token_views(toks@).len());
            }
            let mut last = toks.pop().unwrap();
            let ghost old_toks = toks@.push(last);
            last.push(c);
            toks.push(last);
            proof {
                assert(token_views(toks@) =~= token_views(old_toks).update(
                    token_views(old_toks).len() - 1,
                    token_views(old_toks).last().push(s@[i as int]),
                ));
            }
        } else {
            // start a new token
            let mut nt: Vec<u8> = Vec::new();
            nt.push(c);
            let ghost old_toks = toks@;
            toks.push(nt);
            proof {
                assert(token_views(toks@) =~= token_views(old_toks).push(seq![s@[i as int]]));
            }
        }
        i += 1;
    }
    proof {
        assert(s@.take(s@.len() as int) =~= s@);
    }
    toks
}

/// Reads `s` as a signed 32-bit decimal integer; mirrors `parse_i32_spec`
/// exactly, so it accepts one optional sign followed by one or more digits
/// with the value in range, and nothing else.
pub fn parse_i32(s: &[u8]) -> (r: Option<i32>)
    ensures
        r == parse_i32_spec(s@),
{
    let n = s.len();
    if n == 0 {
        return None;
    }
    let first = s[0];
    let neg = first == 45;
    let start: usize = if first == 45 || first == 43 {
        1
    } else {
        0
    };
    if start >= n {
        // a bare sign has no digits
        return None;
    }
    let ghost ds = int_digits(s@);
    proof {
        assert(ds =~= s@.skip(start as int));
    }
    let mut i = start;
    let mut acc: i64 = 0;
    let mut overflow = false;
    while i < n
        invariant
            start <= i <= n,
            n == s@.len(),
            start < n,
            ds == s@.skip(start as int),
            ds == int_digits(s@),
            ds.len() == n - start,
            all_digits(ds.take(i - start)),
            !overflow ==> 0 <= acc <= 0x8000_0000 && acc == digits_val(ds.take(i - start)),
            overflow ==> digits_val(ds.take(i - start)) > 0x8000_0000,
        decreases n - i,
    {
        let c = s[i];
        if c < 48 || c > 57 {
            proof {
                assert(ds[i - start] == s@[i as int]);
                assert(!is_ascii_digit(ds[i - start]));
            }
            return None;
        }
        let ghost q = ds.take(i - start);
        proof {
            assert(ds.take(i - start + 1) =~= q.push(ds[i - start]));
            assert(q.push(ds[i - start]).drop_last() =~= q);
            assert(ds[i - start] == s@[i as int]);
        }
        let d = (c - 48) as i64;
        if !overflow {
            let next = acc * 10 + d;
            if next > 0x8000_0000 {
                overflow = true;
            } else {
                acc = next;
            }
        }
        i += 1;
    }
    proof {
        assert(ds.take(n - start) =~= ds);
    }
    if overflow {
        return None;
    }
    if neg {
        proof {
            assert(-acc >= -0x8000_0000);
        }
        Some((-acc) as i32)
    } else {
        if acc > 0x7fff_ffff {
            None
        } else {
            Some(acc as i32)
        }
    }
}

/// `needle` occurs contiguously somewhere in `hay`.
pub open spec fn contains_seq(hay: Seq<u8>, needle: Seq<u8>) -> bool {
    exists|off: int|
        0 <= off && off + needle.len() <= hay.len() && #[trigger] hay.subrange(
            off,
            off + needle.len(),
        ) == needle
}

fn window_eq(hay: &[u8], needle: &[u8], off: usize) -> (r: bool)
    requires
        off + needle@.len() <= hay@.len(),
    ensures
        r == (hay@.subrange(off as int, off + needle@.len()) == needle@),
{
    let hn = hay.len();
    let mut k: usize = 0;
    while k < needle.len()
        invariant
            off + needle@.len() <= hay@.len(),
            hn == hay@.len(),
            k <= needle@.len(),
            forall|q: int| 0 <= q < k ==> hay@[off + q] == needle@[q],
        decreases needle@.len() - k,
    {
        if hay[off + k] != needle[k] {
            proof {
                assert(hay@.subrange(off as int, off + needle@.len())[k as int] != needle@[
                    k as int]);
            }
            return false;
        }
        k += 1;
    }
    proof {
        assert(hay@.subrange(off as int, off + needle@.len()) =~= needle@);
    }
    true
}

/// Whether `needle` occurs contiguously in `hay`.
pub fn contains_sub(hay: &[u8], needle: &[u8]) -> (r: bool)
    ensures
        r == contains_seq(hay@, needle@),
{
    if needle.len() == 0 {
        proof {
            assert(hay@.subrange(0, 0 + needle@.len() as int) =~= needle@);
        }
        return true;
    }
    if needle.len() > hay.len() {
        return false;
    }
    let limit = hay.len() - needle.len();
    let mut off: usize = 0;
    while off <= limit
        invariant
            1 <= needle@.len() <= hay@.len(),
            hay@.len() <= usize::MAX,
            limit == hay@.len() - needle@.len(),
            off <= limit + 1,
            forall|o: int|
                0 <= o < off ==> #[trigger] hay@.subrange(o, o + needle@.len()) != needle@,
        decreases limit - off + 1,
    {
        if window_eq(hay, needle, off) {
            return true;
        }
        off += 1;
    }
    false
}

/// Byte-wise equality of two slices.
pub fn slice_eq(a: &[u8], b: &[u8]) -> (r: bool)
    ensures
        r == (a@ == b@),
{
    if a.len() != b.len() {
        return false;
    }
    let mut i: usize = 0;
    while i < a.len()
        invariant
            i <= a@.len(),
            a@.len() == b@.len(),
            forall|k: int| 0 <= k < i ==> a@[k] == b@[k],
        decreases a@.len() - i,
    {
        if a[i] != b[i] {
            return false;
        }
        i += 1;
    }
    proof {
        assert(a@ =~= b@);
    }
    true
}

} // verus!
