//! Locating the completion marker in a captured PTY stream, removing the
//! echoed command line, and cleaning the remaining output.

use vstd::prelude::*;

use crate::ansi::{clean_ansi_sequences, clean_spec, esc_free, lemma_clean_esc_free_id};
use crate::text::{
    find_first, first_occurrence, is_ascii_ws, lemma_first_occurrence_some,
    lemma_occurrence_in_prefix, lemma_trim_end_is_prefix, lemma_trim_end_no_trailing_ws,
    lemma_window_occurrence_lifts, match_at, occurs, occurs_at, trim_end_bytes, trim_end_spec,
};

verus! {

/// The bytes of `; echo ` placed between a command and its marker.
pub open spec fn echo_sep_bytes() -> Seq<u8> {
    seq![59u8, 32u8, 101u8, 99u8, 104u8, 111u8, 32u8]
}

/// The echoed line the shell repeats back: `<command>; echo <marker>`.
pub open spec fn full_command_spec(command: Seq<u8>, marker: Seq<u8>) -> Seq<u8> {
    command + echo_sep_bytes() + marker
}

/// Build `<command>; echo <marker>` as bytes.
pub fn full_command_bytes(command: &[u8], marker: &[u8]) -> (r: Vec<u8>)
    ensures
        r@ == full_command_spec(command@, marker@),
{
    let mut out: Vec<u8> = Vec::new();
    out.extend_from_slice(command);
    out.push(59);
    out.push(32);
    out.push(101);
    out.push(99);
    out.push(104);
    out.push(111);
    out.push(32);
    out.extend_from_slice(marker);
    proof {
        assert(out@ =~= full_command_spec(command@, marker@));
    }
    out
}

/// Build the line actually written to the shell: the echoed line plus a
/// trailing newline.
pub fn command_line_bytes(command: &[u8], marker: &[u8]) -> (r: Vec<u8>)
    ensures
        r@ == full_command_spec(command@, marker@) + seq![10u8],
{
    let mut out = full_command_bytes(command, marker);
    out.push(10);
    out
}

/// An occurrence of `pat` that sits on its own line: preceded by a newline
/// or at the very start of the stream.
pub open spec fn on_line_at(s: Seq<u8>, pat: Seq<u8>, i: int) -> bool {
    occurs_at(s, pat, i) && (i == 0 || s[i - 1] == 10)
}

/// The rightmost on-own-line occurrence of `pat` strictly below `hi`.
pub open spec fn last_line_occurrence_before(s: Seq<u8>, pat: Seq<u8>, hi: int) -> Option<int>
    decreases hi,
{
    if hi <= 0 {
        None
    } else if on_line_at(s, pat, hi - 1) {
        Some(hi - 1)
    } else {
        last_line_occurrence_before(s, pat, hi - 1)
    }
}

/// The rightmost on-own-line occurrence of `pat` in `s`.
pub open spec fn last_line_occurrence(s: Seq<u8>, pat: Seq<u8>) -> Option<int> {
    last_line_occurrence_before(s, pat, s.len() - pat.len() + 1)
}

/// What `last_line_occurrence_before` returns is the rightmost on-own-line
/// occurrence below the bound.
pub proof fn lemma_last_line_occurrence_props(s: Seq<u8>, pat: Seq<u8>, hi: int)
    ensures
        last_line_occurrence_before(s, pat, hi) matches Some(j) ==> on_line_at(s, pat, j) && j < hi
            && forall|k: int| j < k < hi ==> !on_line_at(s, pat, k),
        last_line_occurrence_before(s, pat, hi) is None ==> forall|k: int|
            0 <= k < hi ==> !on_line_at(s, pat, k),
    decreases hi,
{
    if hi > 0 && !on_line_at(s, pat, hi - 1) {
        lemma_last_line_occurrence_props(s, pat, hi - 1);
    }
}

/// Returns the position of the last occurrence of `marker` in `output` that
/// sits on its own line, the occurrence taken as the true completion marker.
///
/// The marker is never empty: generated markers always carry their fixed
/// frame around the timestamp.
pub fn find_last_marker_position(output: &[u8], marker: &[u8]) -> (r: Option<usize>)
    requires
        marker@.len() >= 1,
    ensures
        match r {
            Some(i) => last_line_occurrence(output@, marker@) == Some(i as int),
            None => last_line_occurrence(output@, marker@) is None,
        },
{
    let n: usize = output.len();
    if marker.len() > n {
        proof {
            assert(output@.len() - marker@.len() + 1 <= 0);
        }
        return None;
    }
    let hi0: usize = n - marker.len() + 1;
    let mut hi: usize = hi0;
    while hi > 0
        invariant
            n == output@.len(),
            marker@.len() >= 1,
            hi0 == n - marker.len() + 1,
            0 <= hi <= hi0,
            last_line_occurrence(output@, marker@) == last_line_occurrence_before(
                output@,
                marker@,
                hi as int,
            ),
        decreases hi,
    {
        let i: usize = hi - 1;
        let hit = match_at(output, marker, i);
        if hit && (i == 0 || output[i - 1] == 10) {
            proof {
                assert(on_line_at(output@, marker@, i as int));
            }
            return Some(i);
        }
        proof {
            assert(!on_line_at(output@, marker@, i as int));
        }
        hi = i;
    }
    None
}

/// `s` with every occurrence of `pat` removed, the scan restarting from the
/// left after each removal.
pub open spec fn remove_all_spec(s: Seq<u8>, pat: Seq<u8>) -> Seq<u8>
    decreases s.len(),
    when pat.len() >= 1
    via remove_all_spec_decreases
{
    match first_occurrence(s, pat) {
        Some(i) => remove_all_spec(s.subrange(0, i) + s.skip(i + pat.len()), pat),
        None => s,
    }
}

#[via_fn]
proof fn remove_all_spec_decreases(s: Seq<u8>, pat: Seq<u8>) {
    lemma_first_occurrence_some(s, pat, 0);
}

/// After removal nothing of the pattern is left.
pub proof fn lemma_remove_all_no_occurrence(s: Seq<u8>, pat: Seq<u8>)
    requires
        pat.len() >= 1,
    ensures
        !occurs(remove_all_spec(s, pat), pat),
    decreases s.len(),
{
    lemma_first_occurrence_some(s, pat, 0);
    match first_occurrence(s, pat) {
        Some(i) => {
            lemma_remove_all_no_occurrence(s.subrange(0, i) + s.skip(i + pat.len()), pat);
        },
        None => {
            assert(forall|k: int| !occurs_at(s, pat, k));
        },
    }
}

/// A pattern with no occurrence is not removed at all.
pub proof fn lemma_remove_all_id(s: Seq<u8>, pat: Seq<u8>)
    requires
        pat.len() >= 1,
        !occurs(s, pat),
    ensures
        remove_all_spec(s, pat) == s,
{
    lemma_first_occurrence_some(s, pat, 0);
    if first_occurrence(s, pat) is Some {
        let i = first_occurrence(s, pat)->Some_0;
        assert(occurs_at(s, pat, i));
    }
}

/// Copy `v[i..j]` into a fresh vector, leaving out the range `[i, j)`.
fn remove_range(v: &Vec<u8>, i: usize, j: usize) -> (r: Vec<u8>)
    requires
        i <= j <= v@.len(),
    ensures
        r@ == v@.subrange(0, i as int) + v@.skip(j as int),
{
    let mut out: Vec<u8> = Vec::new();
    out.extend_from_slice(&v.as_slice()[0..i]);
    out.extend_from_slice(&v.as_slice()[j..v.len()]);
    proof {
        assert(v@.skip(j as int) =~= v@.subrange(j as int, v@.len() as int));
        assert(out@ =~= v@.subrange(0, i as int) + v@.skip(j as int));
    }
    out
}

/// Removes every occurrence of the echoed `<command>; echo <marker>` line
/// from `output`; the terminal may have echoed it more than once.
pub fn remove_command_echo(output: &mut Vec<u8>, command: &[u8], marker: &[u8])
    ensures
        final(output)@ == remove_all_spec(old(output)@, full_command_spec(command@, marker@)),
        !occurs(final(output)@, full_command_spec(command@, marker@)),
{
    let fc = full_command_bytes(command, marker);
    proof {
        lemma_remove_all_no_occurrence(output@, fc@);
    }
    loop
        invariant
            fc@ == full_command_spec(command@, marker@),
            fc@.len() >= 1,
            remove_all_spec(output@, fc@) == remove_all_spec(old(output)@, fc@),
        ensures
            output@ == remove_all_spec(old(output)@, fc@),
            first_occurrence(output@, fc@) is None,
        decreases output@.len(),
    {
        let olen: usize = output.len();
        match find_first(output.as_slice(), fc.as_slice()) {
            None => {
                break;
            },
            Some(i) => {
                proof {
                    lemma_first_occurrence_some(output@, fc@, 0);
                    assert(i + fc@.len() <= olen);
                }
                let next = remove_range(output, i, i + fc.len());
                *output = next;
            },
        }
    }
    proof {
        lemma_first_occurrence_some(output@, fc@, 0);
    }
}

/// The cleaned output extracted from a raw capture `buf`: everything before
/// the last on-own-line marker, with echoed command lines removed, escape
/// sequences stripped, and trailing whitespace trimmed. `None` when no
/// on-own-line marker is present.
pub open spec fn extract_bytes_spec(buf: Seq<u8>, command: Seq<u8>, marker: Seq<u8>) -> Option<
    Seq<u8>,
> {
    match last_line_occurrence(buf, marker) {
        Some(p) => Some(
            trim_end_spec(
                clean_spec(
                    remove_all_spec(buf.subrange(0, p), full_command_spec(command, marker)),
                ),
            ),
        ),
        None => None,
    }
}

/// Extract the cleaned output from a raw capture, if the completion marker
/// has arrived on its own line.
pub fn extract_output(buf: &Vec<u8>, command: &[u8], marker: &[u8]) -> (r: Option<Vec<u8>>)
    requires
        marker@.len() >= 1,
    ensures
        match r {
            Some(v) => extract_bytes_spec(buf@, command@, marker@) == Some(v@),
            None => extract_bytes_spec(buf@, command@, marker@) is None,
        },
{
    match find_last_marker_position(buf.as_slice(), marker) {
        None => None,
        Some(p) => {
            proof {
                lemma_last_line_occurrence_props(buf@, marker@, buf@.len() - marker@.len() + 1);
            }
            let mut pre: Vec<u8> = Vec::new();
            pre.extend_from_slice(&buf.as_slice()[0..p]);
            proof {
                assert(pre@ =~= buf@.subrange(0, p as int));
            }
            remove_command_echo(&mut pre, command, marker);
            let mut cleaned = clean_ansi_sequences(pre.as_slice());
            trim_end_bytes(&mut cleaned);
            Some(cleaned)
        },
    }
}

/// Clean a whole capture without marker framing: strip escape sequences and
/// trim trailing whitespace. Used when a command is cut off without its
/// completion marker.
pub fn clean_capture(buf: &Vec<u8>) -> (r: Vec<u8>)
    ensures
        r@ == trim_end_spec(clean_spec(buf@)),
{
    let mut cleaned = clean_ansi_sequences(buf.as_slice());
    trim_end_bytes(&mut cleaned);
    cleaned
}


/// Law: whatever the raw capture held, extracted output never ends in
/// ASCII whitespace.
pub proof fn lemma_extract_trimmed(buf: Seq<u8>, command: Seq<u8>, marker: Seq<u8>)
    ensures
        extract_bytes_spec(buf, command, marker) matches Some(v) ==> (v.len() > 0
            ==> !is_ascii_ws(v.last())),
{
    if extract_bytes_spec(buf, command, marker) is Some {
        let p = last_line_occurrence(buf, marker)->Some_0;
        lemma_trim_end_no_trailing_ws(
            clean_spec(remove_all_spec(buf.subrange(0, p), full_command_spec(command, marker))),
        );
    }
}

/// Law: when what precedes the completion marker is, after echo removal, a
/// well-formed mixture of plain bytes and complete escape sequences, the
/// extracted output holds no escape byte at all, hence no CSI, OSC or DCS
/// sequence.
pub proof fn lemma_extract_escape_free(buf: Seq<u8>, command: Seq<u8>, marker: Seq<u8>)
    requires
        marker.len() >= 1,
        last_line_occurrence(buf, marker) matches Some(p) && crate::ansi::wf_stream(
            remove_all_spec(buf.subrange(0, p), full_command_spec(command, marker)),
        ),
    ensures
        extract_bytes_spec(buf, command, marker) matches Some(v) ==> esc_free(v),
{
    let p = last_line_occurrence(buf, marker)->Some_0;
    let ra = remove_all_spec(buf.subrange(0, p), full_command_spec(command, marker));
    crate::ansi::lemma_wf_clean_esc_free(ra);
    let cl = clean_spec(ra);
    let v = trim_end_spec(cl);
    lemma_trim_end_is_prefix(cl);
    assert forall|q: int| 0 <= q < v.len() implies #[trigger] v[q] != 27 by {
        assert(v[q] == cl[q]);
    }
}

/// Law: the round trip. A command whose deterministic output `out` reaches
/// the caller as `out`, then the marker on its own line, then anything
/// marker-free, extracts to exactly `out` with trailing whitespace trimmed,
/// however the transport chunked the bytes; and the result holds neither the
/// marker nor the echoed command line.
pub proof fn lemma_round_trip(
    buf: Seq<u8>,
    command: Seq<u8>,
    marker: Seq<u8>,
    out: Seq<u8>,
    rest: Seq<u8>,
)
    requires
        marker.len() >= 1,
        buf == out + marker + rest,
        out.len() == 0 || out[out.len() - 1] == 10,
        forall|i: int| occurs_at(buf, marker, i) ==> i == out.len(),
        !occurs(out, full_command_spec(command, marker)),
        esc_free(out),
    ensures
        extract_bytes_spec(buf, command, marker) == Some(trim_end_spec(out)),
        !occurs(trim_end_spec(out), marker),
        !occurs(trim_end_spec(out), full_command_spec(command, marker)),
        trim_end_spec(out).len() > 0 ==> !is_ascii_ws(trim_end_spec(out).last()),
        esc_free(trim_end_spec(out)),
{
    let p = out.len() as int;
    let fc = full_command_spec(command, marker);
    assert(buf.subrange(p, p + marker.len() as int) =~= marker);
    assert(occurs_at(buf, marker, p));
    assert(on_line_at(buf, marker, p));
    let hi = buf.len() - marker.len() + 1;
    lemma_last_line_occurrence_props(buf, marker, hi);
    match last_line_occurrence(buf, marker) {
        Some(j) => {
            assert(occurs_at(buf, marker, j));
            assert(j == p);
        },
        None => {
            assert(!on_line_at(buf, marker, p));
        },
    }
    assert(last_line_occurrence(buf, marker) == Some(p));
    let pre = buf.subrange(0, p);
    assert(pre =~= out);
    assert(fc.len() >= 8);
    lemma_remove_all_id(out, fc);
    lemma_clean_esc_free_id(out);
    assert(extract_bytes_spec(buf, command, marker) == Some(trim_end_spec(out)));
    let v = trim_end_spec(out);
    lemma_trim_end_is_prefix(out);
    lemma_trim_end_no_trailing_ws(out);
    assert forall|i: int| !occurs_at(v, marker, i) by {
        if occurs_at(v, marker, i) {
            lemma_occurrence_in_prefix(out, marker, v.len() as int, i);
            lemma_occurrence_in_prefix(buf, marker, p, i);
            assert(i == p);
            assert(i + marker.len() <= p);
        }
    }
    assert forall|i: int| !occurs_at(v, fc, i) by {
        if occurs_at(v, fc, i) {
            lemma_occurrence_in_prefix(out, fc, v.len() as int, i);
            assert(occurs_at(out, fc, i));
        }
    }
    assert forall|q: int| 0 <= q < v.len() implies #[trigger] v[q] != 27 by {
        assert(v[q] == out[q]);
    }
}

/// Law: with the echoed command line at the head of the capture, the echo
/// and both marker occurrences are removed: the result is the output alone
/// (behind the echo's line break), free of the marker and of the echoed
/// line.
pub proof fn lemma_extract_after_echo(
    buf: Seq<u8>,
    command: Seq<u8>,
    marker: Seq<u8>,
    out: Seq<u8>,
    rest: Seq<u8>,
)
    requires
        marker.len() >= 1,
        buf == full_command_spec(command, marker) + seq![13u8, 10u8] + out + marker + rest,
        out.len() == 0 || out[out.len() - 1] == 10,
        forall|i: int|
            occurs_at(buf, marker, i) ==> i == command.len() + 7 || i == full_command_spec(
                command,
                marker,
            ).len() + 2 + out.len(),
        forall|i: int| occurs_at(buf, full_command_spec(command, marker), i) ==> i == 0,
        esc_free(out),
    ensures
        extract_bytes_spec(buf, command, marker) == Some(trim_end_spec(seq![13u8, 10u8] + out)),
        !occurs(trim_end_spec(seq![13u8, 10u8] + out), marker),
        !occurs(trim_end_spec(seq![13u8, 10u8] + out), full_command_spec(command, marker)),
        trim_end_spec(seq![13u8, 10u8] + out).len() > 0 ==> !is_ascii_ws(
            trim_end_spec(seq![13u8, 10u8] + out).last(),
        ),
{
    let fc = full_command_spec(command, marker);
    let nl = seq![13u8, 10u8];
    let e = command.len() as int + 7;
    let p = fc.len() as int + 2 + out.len() as int;
    assert(fc.len() == command.len() + 7 + marker.len());
    assert(buf.subrange(p, p + marker.len() as int) =~= marker);
    assert(occurs_at(buf, marker, p));
    assert(buf[p - 1] == 10) by {
        if out.len() == 0 {
            assert(buf[p - 1] == nl[1]);
        } else {
            assert(buf[p - 1] == out[out.len() - 1]);
        }
    }
    assert(on_line_at(buf, marker, p));
    assert(buf[e - 1] == echo_sep_bytes()[6]);
    assert(!on_line_at(buf, marker, e));
    let hi = buf.len() - marker.len() + 1;
    lemma_last_line_occurrence_props(buf, marker, hi);
    match last_line_occurrence(buf, marker) {
        Some(j) => {
            assert(occurs_at(buf, marker, j));
            assert(j == p);
        },
        None => {
            assert(!on_line_at(buf, marker, p));
        },
    }
    assert(last_line_occurrence(buf, marker) == Some(p));
    let pre = buf.subrange(0, p);
    assert(pre =~= fc + nl + out);
    assert(pre.subrange(0, fc.len() as int) =~= fc);
    assert(occurs_at(pre, fc, 0));
    assert(first_occurrence(pre, fc) == Some(0int));
    let mid = pre.subrange(0, 0) + pre.skip(fc.len() as int);
    assert(mid =~= nl + out);
    assert(remove_all_spec(pre, fc) == remove_all_spec(mid, fc));
    assert((nl + out) =~= buf.subrange(fc.len() as int, p));
    assert forall|i: int| !occurs_at(nl + out, fc, i) by {
        if occurs_at(nl + out, fc, i) {
            lemma_window_occurrence_lifts(buf, fc, fc.len() as int, p, i);
            assert(fc.len() as int + i == 0);
        }
    }
    lemma_remove_all_id(nl + out, fc);
    assert(remove_all_spec(mid, fc) == nl + out) by {
        assert(mid == nl + out);
    }
    assert forall|q: int| 0 <= q < (nl + out).len() implies #[trigger] (nl + out)[q] != 27 by {
        if q >= 2 {
            assert((nl + out)[q] == out[q - 2]);
        }
    }
    lemma_clean_esc_free_id(nl + out);
    assert(extract_bytes_spec(buf, command, marker) == Some(trim_end_spec(nl + out)));
    let v = trim_end_spec(nl + out);
    lemma_trim_end_is_prefix(nl + out);
    lemma_trim_end_no_trailing_ws(nl + out);
    assert forall|i: int| !occurs_at(v, marker, i) by {
        if occurs_at(v, marker, i) {
            lemma_occurrence_in_prefix(nl + out, marker, v.len() as int, i);
            lemma_window_occurrence_lifts(buf, marker, fc.len() as int, p, i);
            assert(fc.len() as int + i == e || fc.len() as int + i == p);
            assert(e < fc.len() as int);
            assert(fc.len() as int + i + marker.len() <= p);
        }
    }
    assert forall|i: int| !occurs_at(v, fc, i) by {
        if occurs_at(v, fc, i) {
            lemma_occurrence_in_prefix(nl + out, fc, v.len() as int, i);
            assert(occurs_at(nl + out, fc, i));
        }
    }
}


/// Law: the round trip, seen as characters. When the deterministic output
/// is ASCII, the extracted bytes are valid UTF-8 and decode one character
/// per byte, so the string handed to the caller is exactly the trimmed
/// output.
pub proof fn lemma_round_trip_chars(
    buf: Seq<u8>,
    command: Seq<u8>,
    marker: Seq<u8>,
    out: Seq<u8>,
    rest: Seq<u8>,
)
    requires
        marker.len() >= 1,
        buf == out + marker + rest,
        out.len() == 0 || out[out.len() - 1] == 10,
        forall|i: int| occurs_at(buf, marker, i) ==> i == out.len(),
        !occurs(out, full_command_spec(command, marker)),
        esc_free(out),
        crate::marker::ascii_bytes(out),
    ensures
        extract_bytes_spec(buf, command, marker) == Some(trim_end_spec(out)),
        vstd::utf8::valid_utf8(trim_end_spec(out)),
        vstd::utf8::decode_utf8(trim_end_spec(out)) == Seq::new(
            trim_end_spec(out).len(),
            |i: int| trim_end_spec(out)[i] as char,
        ),
{
    lemma_round_trip(buf, command, marker, out, rest);
    let v = trim_end_spec(out);
    lemma_trim_end_is_prefix(out);
    assert(crate::marker::ascii_bytes(v)) by {
        assert forall|i: int| 0 <= i < v.len() implies #[trigger] v[i] < 128 by {
            assert(v[i] == out[i]);
        }
    }
    crate::marker::lemma_ascii_bytes_decode(v);
}

} // verus!
