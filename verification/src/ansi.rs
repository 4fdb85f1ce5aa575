//! Stripping of terminal escape sequences from captured PTY output.
//!
//! Three passes remove, in order: CSI sequences (`ESC [`, parameter bytes,
//! one terminating letter), OSC sequences (`ESC ]` up to a BEL), and
//! DCS/APC/PM sequences (`ESC` plus `P`, `^` or `_`, up to the earliest
//! `ESC \` with no intervening newline). Each pass scans left to right and
//! removes non-overlapping matches, leaving unmatched bytes in place.

use vstd::prelude::*;

verus! {

pub const ESC: u8 = 27;

/// Parameter bytes allowed inside a CSI sequence: digits and `;`.
pub open spec fn is_csi_body(b: u8) -> bool {
    (48 <= b <= 57) || b == 59
}

/// ASCII letter, the terminator class of a CSI sequence.
pub open spec fn is_alpha(b: u8) -> bool {
    (65 <= b <= 90) || (97 <= b <= 122)
}

/// Introducer byte of a DCS, APC or PM sequence: `P`, `^` or `_`.
pub open spec fn is_dcs_intro(b: u8) -> bool {
    b == 80 || b == 94 || b == 95
}

/// Length of the maximal run of CSI parameter bytes starting at `j`.
pub open spec fn csi_run_len(s: Seq<u8>, j: int) -> nat
    decreases s.len() - j,
{
    if 0 <= j < s.len() && is_csi_body(s[j]) {
        1 + csi_run_len(s, j + 1)
    } else {
        0
    }
}

/// Length of the CSI sequence starting at position `i`, if one starts there.
pub open spec fn csi_match_len(s: Seq<u8>, i: int) -> Option<nat> {
    if 0 <= i && i + 1 < s.len() && s[i] == ESC && s[i + 1] == 91 {
        let j = i + 2 + csi_run_len(s, i + 2);
        if j < s.len() && is_alpha(s[j]) {
            Some((j - i + 1) as nat)
        } else {
            None
        }
    } else {
        None
    }
}

/// Distance from `j` to the first BEL at or after `j`, if any.
pub open spec fn osc_body_len(s: Seq<u8>, j: int) -> Option<nat>
    decreases s.len() - j,
{
    if j < 0 || j >= s.len() {
        None
    } else if s[j] == 7 {
        Some(0)
    } else {
        match osc_body_len(s, j + 1) {
            Some(k) => Some(k + 1),
            None => None,
        }
    }
}

/// Length of the OSC sequence starting at position `i`, if one starts there.
pub open spec fn osc_match_len(s: Seq<u8>, i: int) -> Option<nat> {
    if 0 <= i && i + 1 < s.len() && s[i] == ESC && s[i + 1] == 93 {
        match osc_body_len(s, i + 2) {
            Some(k) => Some(k + 3),
            None => None,
        }
    } else {
        None
    }
}

/// Distance from `j` to the earliest `ESC \` at or after `j`, provided no
/// newline intervenes (a newline before the terminator means no match).
pub open spec fn dcs_body_len(s: Seq<u8>, j: int) -> Option<nat>
    decreases s.len() - j,
{
    if j < 0 || j >= s.len() {
        None
    } else if j + 1 < s.len() && s[j] == ESC && s[j + 1] == 92 {
        Some(0)
    } else if s[j] != 10 {
        match dcs_body_len(s, j + 1) {
            Some(k) => Some(k + 1),
            None => None,
        }
    } else {
        None
    }
}

/// Length of the DCS/APC/PM sequence starting at position `i`, if one starts
/// there.
pub open spec fn dcs_match_len(s: Seq<u8>, i: int) -> Option<nat> {
    if 0 <= i && i + 1 < s.len() && s[i] == ESC && is_dcs_intro(s[i + 1]) {
        match dcs_body_len(s, i + 2) {
            Some(k) => Some(k + 4),
            None => None,
        }
    } else {
        None
    }
}

/// Where `osc_body_len` finds a BEL, the bytes before it are BEL-free and in
/// range.
pub proof fn lemma_osc_body_props(s: Seq<u8>, j: int)
    requires
        osc_body_len(s, j) is Some,
    ensures
        ({
            let k = osc_body_len(s, j)->Some_0;
            &&& 0 <= j
            &&& j + k < s.len()
            &&& s[j + k] == 7
            &&& forall|m: int| j <= m < j + k ==> #[trigger] s[m] != 7
        }),
    decreases s.len() - j,
{
    if j < 0 || j >= s.len() {
    } else if s[j] == 7 {
    } else {
        lemma_osc_body_props(s, j + 1);
    }
}

/// The converse: a BEL at distance `k` with none before it determines the
/// body length.
pub proof fn lemma_osc_body_scan(s: Seq<u8>, j: int, k: int)
    requires
        0 <= j,
        0 <= k,
        j + k < s.len(),
        s[j + k] == 7,
        forall|m: int| j <= m < j + k ==> #[trigger] s[m] != 7,
    ensures
        osc_body_len(s, j) == Some(k as nat),
    decreases k,
{
    if k > 0 {
        lemma_osc_body_scan(s, j + 1, k - 1);
    }
}

/// Where `dcs_body_len` finds a terminator, the bytes before it contain no
/// newline and no terminator start.
pub proof fn lemma_dcs_body_props(s: Seq<u8>, j: int)
    requires
        dcs_body_len(s, j) is Some,
    ensures
        ({
            let k = dcs_body_len(s, j)->Some_0;
            &&& 0 <= j
            &&& j + k + 1 < s.len()
            &&& s[j + k] == ESC
            &&& s[j + k + 1] == 92
            &&& forall|m: int| j <= m < j + k ==> #[trigger] s[m] != 10
            &&& forall|m: int| j <= m < j + k ==> !(#[trigger] s[m] == ESC && s[m + 1] == 92)
        }),
    decreases s.len() - j,
{
    if j < 0 || j >= s.len() {
    } else if j + 1 < s.len() && s[j] == ESC && s[j + 1] == 92 {
    } else {
        lemma_dcs_body_props(s, j + 1);
    }
}

/// The converse: the earliest terminator with clean bytes before it
/// determines the body length.
pub proof fn lemma_dcs_body_scan(s: Seq<u8>, j: int, k: int)
    requires
        0 <= j,
        0 <= k,
        j + k + 1 < s.len(),
        s[j + k] == ESC,
        s[j + k + 1] == 92,
        forall|m: int| j <= m < j + k ==> #[trigger] s[m] != 10,
        forall|m: int| j <= m < j + k ==> !(#[trigger] s[m] == ESC && s[m + 1] == 92),
    ensures
        dcs_body_len(s, j) == Some(k as nat),
    decreases k,
{
    if k > 0 {
        lemma_dcs_body_scan(s, j + 1, k - 1);
    }
}

/// Every run byte is a CSI parameter byte, and the run is maximal.
pub proof fn lemma_csi_run_props(s: Seq<u8>, j: int)
    requires
        0 <= j <= s.len(),
    ensures
        j + csi_run_len(s, j) <= s.len(),
        forall|m: int| j <= m < j + csi_run_len(s, j) ==> is_csi_body(#[trigger] s[m]),
        j + csi_run_len(s, j) < s.len() ==> !is_csi_body(s[j + csi_run_len(s, j)]),
    decreases s.len() - j,
{
    if j < s.len() && is_csi_body(s[j]) {
        lemma_csi_run_props(s, j + 1);
    }
}

/// A match, of any of the three forms, fits inside `s` and is at least three
/// bytes long.
pub proof fn lemma_match_bounds(s: Seq<u8>, i: int)
    ensures
        csi_match_len(s, i) matches Some(l) ==> 3 <= l && i + l <= s.len(),
        osc_match_len(s, i) matches Some(l) ==> 3 <= l && i + l <= s.len(),
        dcs_match_len(s, i) matches Some(l) ==> 4 <= l && i + l <= s.len(),
{
    if csi_match_len(s, i) is Some {
        lemma_csi_run_props(s, i + 2);
    }
    if osc_match_len(s, i) is Some {
        lemma_osc_body_props(s, i + 2);
    }
    if dcs_match_len(s, i) is Some {
        lemma_dcs_body_props(s, i + 2);
    }
}

/// `s` after removal of every CSI sequence, scanning left to right.
pub open spec fn strip_csi(s: Seq<u8>) -> Seq<u8>
    decreases s.len(),
    via strip_csi_decreases
{
    if s.len() == 0 {
        Seq::empty()
    } else {
        match csi_match_len(s, 0) {
            Some(l) => strip_csi(s.skip(l as int)),
            None => seq![s[0]] + strip_csi(s.skip(1)),
        }
    }
}

#[via_fn]
proof fn strip_csi_decreases(s: Seq<u8>) {
    lemma_match_bounds(s, 0);
}

/// `s` after removal of every OSC sequence, scanning left to right.
pub open spec fn strip_osc(s: Seq<u8>) -> Seq<u8>
    decreases s.len(),
    via strip_osc_decreases
{
    if s.len() == 0 {
        Seq::empty()
    } else {
        match osc_match_len(s, 0) {
            Some(l) => strip_osc(s.skip(l as int)),
            None => seq![s[0]] + strip_osc(s.skip(1)),
        }
    }
}

#[via_fn]
proof fn strip_osc_decreases(s: Seq<u8>) {
    lemma_match_bounds(s, 0);
}

/// `s` after removal of every DCS/APC/PM sequence, scanning left to right.
pub open spec fn strip_dcs(s: Seq<u8>) -> Seq<u8>
    decreases s.len(),
    via strip_dcs_decreases
{
    if s.len() == 0 {
        Seq::empty()
    } else {
        match dcs_match_len(s, 0) {
            Some(l) => strip_dcs(s.skip(l as int)),
            None => seq![s[0]] + strip_dcs(s.skip(1)),
        }
    }
}

#[via_fn]
proof fn strip_dcs_decreases(s: Seq<u8>) {
    lemma_match_bounds(s, 0);
}

/// All three passes, in the order they are applied.
pub open spec fn clean_spec(s: Seq<u8>) -> Seq<u8> {
    strip_dcs(strip_osc(strip_csi(s)))
}

/// No ESC byte anywhere in `s`.
pub open spec fn esc_free(s: Seq<u8>) -> bool {
    forall|i: int| 0 <= i < s.len() ==> s[i] != ESC
}


/// A run of parameter bytes bounded on the right determines `csi_run_len`.
pub proof fn lemma_csi_run_scan(s: Seq<u8>, j: int, r: int)
    requires
        0 <= j,
        0 <= r,
        j + r <= s.len(),
        forall|m: int| j <= m < j + r ==> is_csi_body(#[trigger] s[m]),
        j + r == s.len() || !is_csi_body(s[j + r]),
    ensures
        csi_run_len(s, j) == r,
    decreases r,
{
    if r > 0 {
        lemma_csi_run_scan(s, j + 1, r - 1);
    }
}

/// A BEL-free tail yields no OSC body.
pub proof fn lemma_osc_body_none(s: Seq<u8>, j: int)
    requires
        0 <= j,
        forall|m: int| j <= m < s.len() ==> #[trigger] s[m] != 7,
    ensures
        osc_body_len(s, j) is None,
    decreases s.len() - j,
{
    if j < s.len() {
        lemma_osc_body_none(s, j + 1);
    }
}

/// Bytes free of terminators up to a newline or the end yield no DCS body.
pub proof fn lemma_dcs_body_none(s: Seq<u8>, j: int, stop: int)
    requires
        0 <= j <= stop <= s.len(),
        forall|m: int| j <= m < stop ==> #[trigger] s[m] != 10,
        forall|m: int| j <= m < stop ==> !(#[trigger] s[m] == ESC && m + 1 < s.len() && s[m + 1]
            == 92),
        stop < s.len() ==> s[stop] == 10,
    ensures
        dcs_body_len(s, j) is None,
    decreases stop - j,
{
    if j < stop {
        lemma_dcs_body_none(s, j + 1, stop);
    }
}

/// Remove every CSI sequence from `s`.
pub fn strip_csi_exec(s: &[u8]) -> (r: Vec<u8>)
    ensures
        r@ == strip_csi(s@),
{
    let n: usize = s.len();
    let mut out: Vec<u8> = Vec::new();
    let mut i: usize = 0;
    proof {
        assert(s@.skip(0) =~= s@);
        assert(Seq::<u8>::empty() + strip_csi(s@) =~= strip_csi(s@));
    }
    while i < n
        invariant
            n == s@.len(),
            0 <= i <= n,
            strip_csi(s@) == out@ + strip_csi(s@.skip(i as int)),
        decreases n - i,
    {
        let ghost sk = s@.skip(i as int);
        proof {
            assert(forall|m: int| 0 <= m < sk.len() ==> sk[m] == s@[m + i]);
        }
        if s[i] == 27 && i + 1 < n && s[i + 1] == 91 {
            let mut j: usize = i + 2;
            while j < n && (48 <= s[j] && s[j] <= 57 || s[j] == 59)
                invariant
                    n == s@.len(),
                    i + 2 <= j <= n,
                    forall|m: int| i + 2 <= m < j ==> is_csi_body(#[trigger] s@[m]),
                decreases n - j,
            {
                j += 1;
            }
            proof {
                assert forall|m: int| 2 <= m < j - i implies is_csi_body(#[trigger] sk[m]) by {
                    assert(sk[m] == s@[m + i]);
                }
                if (j as int) - (i as int) < sk.len() {
                    assert(sk[j - i] == s@[j as int]);
                }
                lemma_csi_run_scan(sk, 2, j - i - 2);
            }
            if j < n && (65 <= s[j] && s[j] <= 90 || 97 <= s[j] && s[j] <= 122) {
                proof {
                    assert(sk[j - i] == s@[j as int]);
                    assert(csi_match_len(sk, 0) == Some((j - i + 1) as nat));
                    assert(strip_csi(sk) == strip_csi(sk.skip(j - i + 1)));
                    assert(sk.skip(j - i + 1) =~= s@.skip(j + 1));
                }
                i = j + 1;
            } else {
                proof {
                    assert(csi_match_len(sk, 0) is None);
                    assert(strip_csi(sk) == seq![sk[0]] + strip_csi(sk.skip(1)));
                    assert(sk.skip(1) =~= s@.skip(i + 1));
                    assert((out@ + strip_csi(sk)) =~= (out@.push(s@[i as int]) + strip_csi(
                        s@.skip(i + 1),
                    )));
                }
                out.push(s[i]);
                i += 1;
            }
        } else {
            proof {
                assert(csi_match_len(sk, 0) is None);
                assert(strip_csi(sk) == seq![sk[0]] + strip_csi(sk.skip(1)));
                assert(sk.skip(1) =~= s@.skip(i + 1));
                assert((out@ + strip_csi(sk)) =~= (out@.push(s@[i as int]) + strip_csi(
                    s@.skip(i + 1),
                )));
            }
            out.push(s[i]);
            i += 1;
        }
    }
    proof {
        assert(s@.skip(n as int) =~= Seq::<u8>::empty());
        assert(out@ =~= out@ + strip_csi(s@.skip(n as int)));
    }
    out
}

/// Remove every OSC sequence from `s`.
pub fn strip_osc_exec(s: &[u8]) -> (r: Vec<u8>)
    ensures
        r@ == strip_osc(s@),
{
    let n: usize = s.len();
    let mut out: Vec<u8> = Vec::new();
    let mut i: usize = 0;
    proof {
        assert(s@.skip(0) =~= s@);
        assert(Seq::<u8>::empty() + strip_osc(s@) =~= strip_osc(s@));
    }
    while i < n
        invariant
            n == s@.len(),
            0 <= i <= n,
            strip_osc(s@) == out@ + strip_osc(s@.skip(i as int)),
        decreases n - i,
    {
        let ghost sk = s@.skip(i as int);
        proof {
            assert(forall|m: int| 0 <= m < sk.len() ==> sk[m] == s@[m + i]);
        }
        if s[i] == 27 && i + 1 < n && s[i + 1] == 93 {
            let mut j: usize = i + 2;
            while j < n && s[j] != 7
                invariant
                    n == s@.len(),
                    i + 2 <= j <= n,
                    forall|m: int| i + 2 <= m < j ==> #[trigger] s@[m] != 7,
                decreases n - j,
            {
                j += 1;
            }
            if j < n {
                proof {
                    assert forall|m: int| 2 <= m < j - i implies #[trigger] sk[m] != 7 by {
                        assert(sk[m] == s@[m + i]);
                    }
                    assert(sk[j - i] == s@[j as int]);
                    lemma_osc_body_scan(sk, 2, j - i - 2);
                    assert(osc_match_len(sk, 0) == Some((j - i + 1) as nat));
                    assert(strip_osc(sk) == strip_osc(sk.skip(j - i + 1)));
                    assert(sk.skip(j - i + 1) =~= s@.skip(j + 1));
                }
                i = j + 1;
            } else {
                proof {
                    assert forall|m: int| 2 <= m < sk.len() implies #[trigger] sk[m] != 7 by {
                        assert(sk[m] == s@[m + i]);
                    }
                    lemma_osc_body_none(sk, 2);
                    assert(osc_match_len(sk, 0) is None);
                    assert(strip_osc(sk) == seq![sk[0]] + strip_osc(sk.skip(1)));
                    assert(sk.skip(1) =~= s@.skip(i + 1));
                    assert((out@ + strip_osc(sk)) =~= (out@.push(s@[i as int]) + strip_osc(
                        s@.skip(i + 1),
                    )));
                }
                out.push(s[i]);
                i += 1;
            }
        } else {
            proof {
                assert(osc_match_len(sk, 0) is None);
                assert(strip_osc(sk) == seq![sk[0]] + strip_osc(sk.skip(1)));
                assert(sk.skip(1) =~= s@.skip(i + 1));
                assert((out@ + strip_osc(sk)) =~= (out@.push(s@[i as int]) + strip_osc(
                    s@.skip(i + 1),
                )));
            }
            out.push(s[i]);
            i += 1;
        }
    }
    proof {
        assert(s@.skip(n as int) =~= Seq::<u8>::empty());
        assert(out@ =~= out@ + strip_osc(s@.skip(n as int)));
    }
    out
}

/// Remove every DCS/APC/PM sequence from `s`.
pub fn strip_dcs_exec(s: &[u8]) -> (r: Vec<u8>)
    ensures
        r@ == strip_dcs(s@),
{
    let n: usize = s.len();
    let mut out: Vec<u8> = Vec::new();
    let mut i: usize = 0;
    proof {
        assert(s@.skip(0) =~= s@);
        assert(Seq::<u8>::empty() + strip_dcs(s@) =~= strip_dcs(s@));
    }
    while i < n
        invariant
            n == s@.len(),
            0 <= i <= n,
            strip_dcs(s@) == out@ + strip_dcs(s@.skip(i as int)),
        decreases n - i,
    {
        let ghost sk = s@.skip(i as int);
        proof {
            assert(forall|m: int| 0 <= m < sk.len() ==> sk[m] == s@[m + i]);
        }
        if s[i] == 27 && i + 1 < n && (s[i + 1] == 80 || s[i + 1] == 94 || s[i + 1] == 95) {
            let mut j: usize = i + 2;
            while j < n && s[j] != 10 && !(s[j] == 27 && j + 1 < n && s[j + 1] == 92)
                invariant
                    n == s@.len(),
                    i + 2 <= j <= n,
                    forall|m: int| i + 2 <= m < j ==> #[trigger] s@[m] != 10,
                    forall|m: int|
                        i + 2 <= m < j ==> !(#[trigger] s@[m] == ESC && m + 1 < n && s@[m + 1]
                            == 92),
                decreases n - j,
            {
                j += 1;
            }
            if j < n && s[j] == 27 && j + 1 < n && s[j + 1] == 92 {
                proof {
                    assert forall|m: int| 2 <= m < j - i implies #[trigger] sk[m] != 10 by {
                        assert(sk[m] == s@[m + i]);
                    }
                    assert forall|m: int| 2 <= m < j - i implies !(#[trigger] sk[m] == ESC && sk[m
                        + 1] == 92) by {
                        assert(sk[m] == s@[m + i]);
                        assert(sk[m + 1] == s@[m + 1 + i]);
                    }
                    assert(sk[j - i] == s@[j as int]);
                    assert(sk[j - i + 1] == s@[j + 1]);
                    lemma_dcs_body_scan(sk, 2, j - i - 2);
                    assert(dcs_match_len(sk, 0) == Some((j - i + 2) as nat));
                    assert(strip_dcs(sk) == strip_dcs(sk.skip(j - i + 2)));
                    assert(sk.skip(j - i + 2) =~= s@.skip(j + 2));
                }
                i = j + 2;
            } else {
                proof {
                    assert forall|m: int| 2 <= m < j - i implies #[trigger] sk[m] != 10 by {
                        assert(sk[m] == s@[m + i]);
                    }
                    assert forall|m: int|
                        2 <= m < j - i implies !(#[trigger] sk[m] == ESC && m + 1 < sk.len()
                        && sk[m + 1] == 92) by {
                        assert(sk[m] == s@[m + i]);
                        if m + 1 < sk.len() {
                            assert(sk[m + 1] == s@[m + 1 + i]);
                        }
                    }
                    if j < n {
                        assert(sk[j - i] == s@[j as int]);
                        if (j as int) + 1 < n {
                            assert(sk[j - i + 1] == s@[j + 1]);
                        }
                    }
                    lemma_dcs_body_none(sk, 2, j - i);
                    assert(dcs_match_len(sk, 0) is None);
                    assert(strip_dcs(sk) == seq![sk[0]] + strip_dcs(sk.skip(1)));
                    assert(sk.skip(1) =~= s@.skip(i + 1));
                    assert((out@ + strip_dcs(sk)) =~= (out@.push(s@[i as int]) + strip_dcs(
                        s@.skip(i + 1),
                    )));
                }
                out.push(s[i]);
                i += 1;
            }
        } else {
            proof {
                assert(dcs_match_len(sk, 0) is None);
                assert(strip_dcs(sk) == seq![sk[0]] + strip_dcs(sk.skip(1)));
                assert(sk.skip(1) =~= s@.skip(i + 1));
                assert((out@ + strip_dcs(sk)) =~= (out@.push(s@[i as int]) + strip_dcs(
                    s@.skip(i + 1),
                )));
            }
            out.push(s[i]);
            i += 1;
        }
    }
    proof {
        assert(s@.skip(n as int) =~= Seq::<u8>::empty());
        assert(out@ =~= out@ + strip_dcs(s@.skip(n as int)));
    }
    out
}

/// All three passes, applied in order, over a byte buffer.
pub fn clean_ansi_sequences(s: &[u8]) -> (r: Vec<u8>)
    ensures
        r@ == clean_spec(s@),
{
    let a = strip_csi_exec(s);
    let b = strip_osc_exec(a.as_slice());
    strip_dcs_exec(b.as_slice())
}


/// On escape-free input the CSI pass changes nothing.
pub proof fn lemma_strip_csi_id(s: Seq<u8>)
    requires
        esc_free(s),
    ensures
        strip_csi(s) == s,
    decreases s.len(),
{
    if s.len() == 0 {
        assert(s =~= Seq::<u8>::empty());
    } else {
        assert(s[0] != ESC);
        assert(csi_match_len(s, 0) is None);
        assert forall|m: int| 0 <= m < s.skip(1).len() implies #[trigger] s.skip(1)[m] != ESC by {
            assert(s.skip(1)[m] == s[m + 1]);
        }
        lemma_strip_csi_id(s.skip(1));
        assert(seq![s[0]] + s.skip(1) =~= s);
    }
}

/// On escape-free input the OSC pass changes nothing.
pub proof fn lemma_strip_osc_id(s: Seq<u8>)
    requires
        esc_free(s),
    ensures
        strip_osc(s) == s,
    decreases s.len(),
{
    if s.len() == 0 {
        assert(s =~= Seq::<u8>::empty());
    } else {
        assert(s[0] != ESC);
        assert(osc_match_len(s, 0) is None);
        assert forall|m: int| 0 <= m < s.skip(1).len() implies #[trigger] s.skip(1)[m] != ESC by {
            assert(s.skip(1)[m] == s[m + 1]);
        }
        lemma_strip_osc_id(s.skip(1));
        assert(seq![s[0]] + s.skip(1) =~= s);
    }
}

/// On escape-free input the DCS pass changes nothing.
pub proof fn lemma_strip_dcs_id(s: Seq<u8>)
    requires
        esc_free(s),
    ensures
        strip_dcs(s) == s,
    decreases s.len(),
{
    if s.len() == 0 {
        assert(s =~= Seq::<u8>::empty());
    } else {
        assert(s[0] != ESC);
        assert(dcs_match_len(s, 0) is None);
        assert forall|m: int| 0 <= m < s.skip(1).len() implies #[trigger] s.skip(1)[m] != ESC by {
            assert(s.skip(1)[m] == s[m + 1]);
        }
        lemma_strip_dcs_id(s.skip(1));
        assert(seq![s[0]] + s.skip(1) =~= s);
    }
}

/// Cleaning is the identity on escape-free input.
pub proof fn lemma_clean_esc_free_id(s: Seq<u8>)
    requires
        esc_free(s),
    ensures
        clean_spec(s) == s,
{
    lemma_strip_csi_id(s);
    lemma_strip_osc_id(s);
    lemma_strip_dcs_id(s);
}

/// A region in which no CSI sequence starts is copied through by the CSI
/// pass.
pub proof fn lemma_strip_csi_block(s: Seq<u8>, j: int)
    requires
        0 <= j <= s.len(),
        forall|m: int| 0 <= m < j ==> csi_match_len(#[trigger] s.skip(m), 0) is None,
    ensures
        strip_csi(s) == s.subrange(0, j) + strip_csi(s.skip(j)),
    decreases j,
{
    if j == 0 {
        assert(s.subrange(0, 0) =~= Seq::<u8>::empty());
        assert(s.skip(0) =~= s);
        assert(Seq::<u8>::empty() + strip_csi(s) =~= strip_csi(s));
    } else {
        assert(s.skip(0) =~= s);
        assert(csi_match_len(s.skip(0), 0) is None);
        assert(csi_match_len(s, 0) is None);
        let s1 = s.skip(1);
        assert forall|m: int| 0 <= m < j - 1 implies csi_match_len(
            #[trigger] s1.skip(m),
            0,
        ) is None by {
            assert(s1.skip(m) =~= s.skip(m + 1));
            assert(csi_match_len(s.skip(m + 1), 0) is None);
        }
        lemma_strip_csi_block(s1, j - 1);
        assert(s1.skip(j - 1) =~= s.skip(j));
        assert((seq![s[0]] + (s1.subrange(0, j - 1) + strip_csi(s.skip(j)))) =~= (s.subrange(0, j)
            + strip_csi(s.skip(j))));
    }
}

/// A region in which no OSC sequence starts is copied through by the OSC
/// pass.
pub proof fn lemma_strip_osc_block(s: Seq<u8>, j: int)
    requires
        0 <= j <= s.len(),
        forall|m: int| 0 <= m < j ==> osc_match_len(#[trigger] s.skip(m), 0) is None,
    ensures
        strip_osc(s) == s.subrange(0, j) + strip_osc(s.skip(j)),
    decreases j,
{
    if j == 0 {
        assert(s.subrange(0, 0) =~= Seq::<u8>::empty());
        assert(s.skip(0) =~= s);
        assert(Seq::<u8>::empty() + strip_osc(s) =~= strip_osc(s));
    } else {
        assert(s.skip(0) =~= s);
        assert(osc_match_len(s.skip(0), 0) is None);
        assert(osc_match_len(s, 0) is None);
        let s1 = s.skip(1);
        assert forall|m: int| 0 <= m < j - 1 implies osc_match_len(
            #[trigger] s1.skip(m),
            0,
        ) is None by {
            assert(s1.skip(m) =~= s.skip(m + 1));
            assert(osc_match_len(s.skip(m + 1), 0) is None);
        }
        lemma_strip_osc_block(s1, j - 1);
        assert(s1.skip(j - 1) =~= s.skip(j));
        assert((seq![s[0]] + (s1.subrange(0, j - 1) + strip_osc(s.skip(j)))) =~= (s.subrange(0, j)
            + strip_osc(s.skip(j))));
    }
}

/// A well-formed stream: a concatenation of non-escape bytes and complete
/// CSI, OSC and DCS sequences whose interiors are themselves escape-free.
pub open spec fn wf_stream(s: Seq<u8>) -> bool
    decreases s.len(),
    via wf_stream_decreases
{
    if s.len() == 0 {
        true
    } else if s[0] != ESC {
        wf_stream(s.skip(1))
    } else if csi_match_len(s, 0) is Some {
        wf_stream(s.skip(csi_match_len(s, 0)->Some_0 as int))
    } else if osc_match_len(s, 0) is Some {
        esc_free(s.subrange(2, osc_match_len(s, 0)->Some_0 as int - 1)) && wf_stream(
            s.skip(osc_match_len(s, 0)->Some_0 as int),
        )
    } else if dcs_match_len(s, 0) is Some {
        esc_free(s.subrange(2, dcs_match_len(s, 0)->Some_0 as int - 2)) && wf_stream(
            s.skip(dcs_match_len(s, 0)->Some_0 as int),
        )
    } else {
        false
    }
}

#[via_fn]
proof fn wf_stream_decreases(s: Seq<u8>) {
    lemma_match_bounds(s, 0);
}

/// Cleaning a well-formed stream leaves no escape byte, hence no CSI, OSC
/// or DCS sequence, in the result.
pub proof fn lemma_wf_clean_esc_free(s: Seq<u8>)
    requires
        wf_stream(s),
    ensures
        esc_free(clean_spec(s)),
    decreases s.len(),
{
    lemma_match_bounds(s, 0);
    if s.len() == 0 {
        assert(strip_csi(s) == Seq::<u8>::empty());
        assert(strip_osc(Seq::<u8>::empty()) == Seq::<u8>::empty());
        assert(strip_dcs(Seq::<u8>::empty()) == Seq::<u8>::empty());
    } else if s[0] != ESC {
        let s1 = s.skip(1);
        lemma_wf_clean_esc_free(s1);
        assert(csi_match_len(s, 0) is None);
        assert(strip_csi(s) == seq![s[0]] + strip_csi(s1));
        let t = seq![s[0]] + strip_csi(s1);
        assert(t[0] == s[0]);
        assert(osc_match_len(t, 0) is None);
        assert(strip_osc(t) == seq![t[0]] + strip_osc(t.skip(1)));
        assert(t.skip(1) =~= strip_csi(s1));
        let u = seq![s[0]] + strip_osc(strip_csi(s1));
        assert(strip_osc(t) =~= u);
        assert(u[0] == s[0]);
        assert(dcs_match_len(u, 0) is None);
        assert(strip_dcs(u) == seq![u[0]] + strip_dcs(u.skip(1)));
        assert(u.skip(1) =~= strip_osc(strip_csi(s1)));
        assert(clean_spec(s) =~= seq![s[0]] + clean_spec(s1));
        assert forall|q: int| 0 <= q < clean_spec(s).len() implies #[trigger] clean_spec(s)[q]
            != ESC by {
            if q > 0 {
                assert(clean_spec(s)[q] == clean_spec(s1)[q - 1]);
            }
        }
    } else if csi_match_len(s, 0) is Some {
        let l = csi_match_len(s, 0)->Some_0 as int;
        lemma_wf_clean_esc_free(s.skip(l));
        assert(strip_csi(s) == strip_csi(s.skip(l)));
    } else if osc_match_len(s, 0) is Some {
        let l = osc_match_len(s, 0)->Some_0 as int;
        lemma_osc_body_props(s, 2);
        let rest = s.skip(l);
        lemma_wf_clean_esc_free(rest);
        let body = s.subrange(2, l - 1);
        assert forall|m: int| 0 <= m < l implies csi_match_len(
            #[trigger] s.skip(m),
            0,
        ) is None by {
            let sm = s.skip(m);
            assert(forall|q: int| 0 <= q < sm.len() ==> sm[q] == s[q + m]);
            if m == 0 {
                assert(sm[1] == s[1]);
            } else if m == 1 {
                assert(sm[0] == s[1]);
            } else if m < l - 1 {
                assert(body[m - 2] == s[m]);
                assert(sm[0] == s[m]);
            } else {
                assert(sm[0] == s[l - 1]);
            }
        }
        lemma_strip_csi_block(s, l);
        let b = s.subrange(0, l);
        let tt = strip_csi(rest);
        let t = b + tt;
        assert(strip_csi(s) == t);
        assert(t[0] == s[0] && t[1] == s[1]);
        assert forall|m: int| 2 <= m < l - 1 implies #[trigger] t[m] != 7 by {
            assert(t[m] == s[m]);
        }
        assert(t[l - 1] == s[l - 1]);
        lemma_osc_body_scan(t, 2, l - 3);
        assert(osc_match_len(t, 0) == Some(l as nat));
        assert(strip_osc(t) == strip_osc(t.skip(l)));
        assert(t.skip(l) =~= tt);
        assert(clean_spec(s) == clean_spec(rest));
    } else if dcs_match_len(s, 0) is Some {
        let l = dcs_match_len(s, 0)->Some_0 as int;
        lemma_dcs_body_props(s, 2);
        let rest = s.skip(l);
        lemma_wf_clean_esc_free(rest);
        let body = s.subrange(2, l - 2);
        assert forall|m: int| 0 <= m < l implies csi_match_len(
            #[trigger] s.skip(m),
            0,
        ) is None by {
            let sm = s.skip(m);
            assert(forall|q: int| 0 <= q < sm.len() ==> sm[q] == s[q + m]);
            if m == 0 {
                assert(sm[1] == s[1]);
            } else if m == 1 {
                assert(sm[0] == s[1]);
            } else if m < l - 2 {
                assert(body[m - 2] == s[m]);
                assert(sm[0] == s[m]);
            } else if m == l - 2 {
                assert(sm[0] == s[l - 2] && sm[1] == s[l - 1]);
            } else {
                assert(sm[0] == s[l - 1]);
            }
        }
        lemma_strip_csi_block(s, l);
        let b = s.subrange(0, l);
        let tt = strip_csi(rest);
        let t = b + tt;
        assert(strip_csi(s) == t);
        assert forall|m: int| 0 <= m < l implies osc_match_len(
            #[trigger] t.skip(m),
            0,
        ) is None by {
            let tm = t.skip(m);
            assert(forall|q: int| 0 <= q < tm.len() ==> tm[q] == t[q + m]);
            assert(forall|q: int| 0 <= q < l ==> t[q] == s[q]);
            if m == 0 {
                assert(tm[1] == s[1]);
            } else if m == 1 {
                assert(tm[0] == s[1]);
            } else if m < l - 2 {
                assert(body[m - 2] == s[m]);
                assert(tm[0] == s[m]);
            } else if m == l - 2 {
                assert(tm[0] == s[l - 2] && tm[1] == s[l - 1]);
            } else {
                assert(tm[0] == s[l - 1]);
            }
        }
        lemma_strip_osc_block(t, l);
        assert(t.subrange(0, l) =~= b);
        let uu = strip_osc(tt);
        assert(t.skip(l) =~= tt);
        let u = b + uu;
        assert(strip_osc(t) == u);
        assert(u[0] == s[0] && u[1] == s[1]);
        assert forall|m: int| 2 <= m < l - 2 implies #[trigger] u[m] != 10 && !(u[m] == ESC && u[m
            + 1] == 92) by {
            assert(u[m] == s[m]);
            assert(m + 1 < l);
            assert(u[m + 1] == s[m + 1]);
        }
        assert(u[l - 2] == s[l - 2] && u[l - 1] == s[l - 1]);
        lemma_dcs_body_scan(u, 2, l - 4);
        assert(dcs_match_len(u, 0) == Some(l as nat));
        assert(strip_dcs(u) == strip_dcs(u.skip(l)));
        assert(u.skip(l) =~= uu);
        assert(clean_spec(s) == clean_spec(rest));
    }
}

} // verus!
