//! Byte-sequence foundations: substring occurrences, whitespace trimming,
//! and decimal rendering.

use vstd::prelude::*;

verus! {

/// `pat` occurs in `s` starting at position `i`.
pub open spec fn occurs_at(s: Seq<u8>, pat: Seq<u8>, i: int) -> bool {
    0 <= i && i + pat.len() <= s.len() && s.subrange(i, i + pat.len()) == pat
}

/// `pat` occurs somewhere in `s`.
pub open spec fn occurs(s: Seq<u8>, pat: Seq<u8>) -> bool {
    exists|i: int| occurs_at(s, pat, i)
}

/// Position of the leftmost occurrence of `pat` at or after `i`, if any.
pub open spec fn first_occurrence_from(s: Seq<u8>, pat: Seq<u8>, i: int) -> Option<int>
    decreases s.len() - i,
{
    if i < 0 || i + pat.len() > s.len() {
        None
    } else if pat.len() == 0 || occurs_at(s, pat, i) {
        Some(i)
    } else {
        first_occurrence_from(s, pat, i + 1)
    }
}

/// Position of the leftmost occurrence of `pat` in `s`, if any.
pub open spec fn first_occurrence(s: Seq<u8>, pat: Seq<u8>) -> Option<int> {
    first_occurrence_from(s, pat, 0)
}

/// ASCII whitespace, the byte-level counterpart of the characters trimmed
/// from the end of captured output.
pub open spec fn is_ascii_ws(b: u8) -> bool {
    b == 32 || b == 9 || b == 10 || b == 11 || b == 12 || b == 13
}

/// `s` with every trailing ASCII-whitespace byte removed.
pub open spec fn trim_end_spec(s: Seq<u8>) -> Seq<u8>
    decreases s.len(),
{
    if s.len() > 0 && is_ascii_ws(s.last()) {
        trim_end_spec(s.drop_last())
    } else {
        s
    }
}

/// Decimal digits of `n`, most significant first.
pub open spec fn dec_bytes(n: nat) -> Seq<u8>
    decreases n,
{
    if n < 10 {
        seq![(48 + n) as u8]
    } else {
        dec_bytes(n / 10).push((48 + n % 10) as u8)
    }
}

/// An occurrence inside a prefix of `s` is an occurrence in `s`.
pub proof fn lemma_occurrence_in_prefix(s: Seq<u8>, pat: Seq<u8>, p: int, i: int)
    requires
        0 <= p <= s.len(),
        occurs_at(s.subrange(0, p), pat, i),
    ensures
        occurs_at(s, pat, i),
{
    assert(s.subrange(0, p).subrange(i, i + pat.len() as int) =~= s.subrange(
        i,
        i + pat.len() as int,
    ));
}

/// An occurrence of a window of `s` is an occurrence of `s`, shifted.
pub proof fn lemma_window_occurrence_lifts(s: Seq<u8>, pat: Seq<u8>, lo: int, hi: int, j: int)
    requires
        0 <= lo <= hi <= s.len(),
        occurs_at(s.subrange(lo, hi), pat, j),
    ensures
        occurs_at(s, pat, lo + j),
{
    assert(s.subrange(lo, hi).subrange(j, j + pat.len() as int) =~= s.subrange(
        lo + j,
        lo + j + pat.len() as int,
    ));
}

/// The trimmed sequence is a prefix of the original.
pub proof fn lemma_trim_end_is_prefix(s: Seq<u8>)
    ensures
        trim_end_spec(s).len() <= s.len(),
        trim_end_spec(s) == s.subrange(0, trim_end_spec(s).len() as int),
    decreases s.len(),
{
    if s.len() > 0 && is_ascii_ws(s.last()) {
        lemma_trim_end_is_prefix(s.drop_last());
        assert(s.drop_last() =~= s.subrange(0, s.len() - 1));
        assert(s.subrange(0, s.len() - 1).subrange(0, trim_end_spec(s).len() as int) =~= s.subrange(
            0,
            trim_end_spec(s).len() as int,
        ));
    } else {
        assert(s =~= s.subrange(0, s.len() as int));
    }
}

/// Trimming never leaves a trailing whitespace byte.
pub proof fn lemma_trim_end_no_trailing_ws(s: Seq<u8>)
    ensures
        trim_end_spec(s).len() > 0 ==> !is_ascii_ws(trim_end_spec(s).last()),
    decreases s.len(),
{
    if s.len() > 0 && is_ascii_ws(s.last()) {
        lemma_trim_end_no_trailing_ws(s.drop_last());
    }
}

/// Whether the byte region of `s` starting at `i` equals `pat`.
pub fn match_at(s: &[u8], pat: &[u8], i: usize) -> (r: bool)
    requires
        i + pat@.len() <= s@.len(),
    ensures
        r == occurs_at(s@, pat@, i as int),
{
    let n: usize = s.len();
    let mut j: usize = 0;
    while j < pat.len()
        invariant
            n == s@.len(),
            i + pat@.len() <= n,
            0 <= j <= pat@.len(),
            forall|k: int| 0 <= k < j ==> s@[i + k] == pat@[k],
        decreases pat@.len() - j,
    {
        if s[i + j] != pat[j] {
            assert(s@.subrange(i as int, i + pat@.len() as int)[j as int] != pat@[j as int]);
            return false;
        }
        j += 1;
    }
    assert(s@.subrange(i as int, i + pat@.len() as int) =~= pat@);
    true
}

/// Leftmost occurrence of `pat` in `s`, if any.
pub fn find_first(s: &[u8], pat: &[u8]) -> (r: Option<usize>)
    ensures
        match r {
            Some(i) => first_occurrence(s@, pat@) == Some(i as int),
            None => first_occurrence(s@, pat@) is None,
        },
{
    if pat.len() > s.len() {
        return None;
    }
    if pat.len() == 0 {
        assert(s@.subrange(0, 0) =~= pat@);
        assert(occurs_at(s@, pat@, 0));
        return Some(0);
    }
    let n: usize = s.len();
    let bound: usize = n - pat.len();
    let mut i: usize = 0;
    while i <= bound
        invariant
            n == s@.len(),
            1 <= pat@.len() <= s@.len(),
            bound == s@.len() - pat@.len(),
            0 <= i <= bound + 1,
            first_occurrence(s@, pat@) == first_occurrence_from(s@, pat@, i as int),
            forall|k: int| 0 <= k < i ==> !occurs_at(s@, pat@, k),
        decreases bound + 1 - i,
    {
        if match_at(s, pat, i) {
            return Some(i);
        }
        i += 1;
    }
    None
}

/// What `first_occurrence_from` returns is the leftmost occurrence.
pub proof fn lemma_first_occurrence_some(s: Seq<u8>, pat: Seq<u8>, i: int)
    requires
        i >= 0,
    ensures
        first_occurrence_from(s, pat, i) matches Some(j) ==> occurs_at(s, pat, j) && i <= j
            && forall|k: int| i <= k < j ==> !occurs_at(s, pat, k),
        first_occurrence_from(s, pat, i) is None ==> forall|k: int|
            k >= i ==> !occurs_at(s, pat, k),
    decreases s.len() - i,
{
    if i + pat.len() > s.len() {
    } else if pat.len() == 0 {
        assert(s.subrange(i, i + pat.len() as int) =~= pat);
        assert(occurs_at(s, pat, i));
    } else if occurs_at(s, pat, i) {
    } else {
        lemma_first_occurrence_some(s, pat, i + 1);
    }
}

/// Remove trailing ASCII whitespace from `v`.
pub fn trim_end_bytes(v: &mut Vec<u8>)
    ensures
        final(v)@ == trim_end_spec(old(v)@),
{
    loop
        invariant
            trim_end_spec(v@) == trim_end_spec(old(v)@),
        ensures
            v@ == trim_end_spec(old(v)@),
        decreases v@.len(),
    {
        let n: usize = v.len();
        if n == 0 {
            break;
        }
        let b: u8 = v[n - 1];
        if b == 32 || b == 9 || b == 10 || b == 11 || b == 12 || b == 13 {
            assert(is_ascii_ws(v@.last()));
            v.pop();
        } else {
            assert(!is_ascii_ws(v@.last()));
            break;
        }
    }
}

/// Append the decimal rendering of `n` to `out`.
pub fn push_decimal(n: u128, out: &mut Vec<u8>)
    ensures
        final(out)@ == old(out)@ + dec_bytes(n as nat),
    decreases n,
{
    if n < 10 {
        out.push(48 + n as u8);
        assert(out@ =~= old(out)@ + dec_bytes(n as nat));
    } else {
        push_decimal(n / 10, out);
        out.push(48 + (n % 10) as u8);
        assert(out@ =~= old(out)@ + dec_bytes(n as nat));
    }
}

/// Every byte of a decimal rendering is an ASCII digit.
pub proof fn lemma_dec_bytes_ascii(n: nat)
    ensures
        forall|i: int| 0 <= i < dec_bytes(n).len() ==> 48 <= #[trigger] dec_bytes(n)[i] <= 57,
    decreases n,
{
    if n < 10 {
        assert(dec_bytes(n)[0] == (48 + n) as u8);
    } else {
        lemma_dec_bytes_ascii(n / 10);
        assert forall|i: int| 0 <= i < dec_bytes(n).len() implies 48 <= #[trigger] dec_bytes(
            n,
        )[i] <= 57 by {
            if i < dec_bytes(n / 10).len() {
                assert(dec_bytes(n)[i] == dec_bytes(n / 10)[i]);
            } else {
                assert(dec_bytes(n)[i] == (48 + n % 10) as u8);
            }
        }
    }
}

} // verus!
