//! Per-command completion markers, and conversion of cleaned byte output
//! into strings.
//!
//! A marker is `__SSH_CMD_DONE_<nanoseconds-since-epoch>__`. Uniqueness is
//! only needed within one command's execution window; the nanosecond
//! timestamp provides it.

use vstd::prelude::*;

use crate::text::{dec_bytes, lemma_dec_bytes_ascii, push_decimal};
use vstd::utf8::{
    decode_utf8, encode_utf8, encode_utf8_decode_utf8, encode_utf8_valid_utf8, is_ascii_chars,
    is_ascii_chars_encode_utf8, valid_utf8,
};

verus! {

/// What `String::from_utf8_lossy` returns on the given bytes: a function of
/// the bytes alone.
pub uninterp spec fn lossy_of(bytes: Seq<u8>) -> Seq<char>;

/// Relies on `String::from_utf8_lossy`: it decodes valid UTF-8 exactly and
/// substitutes U+FFFD for invalid sequences, a function of the bytes alone.
#[verifier::external_body]
pub(crate) fn bytes_to_string_lossy(v: &Vec<u8>) -> (r: String)
    ensures
        r@ == lossy_of(v@),
        valid_utf8(v@) ==> r@ == decode_utf8(v@),
{
    String::from_utf8_lossy(v.as_slice()).into_owned()
}

#[verifier::external_type_specification]
#[verifier::external_body]
pub struct ExSystemTime(std::time::SystemTime);

/// Relies on `SystemTime::now`: the wall clock. Nothing is promised of the
/// value: it depends on the machine's clock.
#[verifier::external_body]
fn system_time_now() -> std::time::SystemTime {
    std::time::SystemTime::now()
}

/// Relies on `SystemTime::duration_since`, measured against the epoch: the
/// span since the epoch, `None` when the clock reads earlier than it.
#[verifier::external_body]
fn duration_since_epoch(t: &std::time::SystemTime) -> Option<core::time::Duration> {
    t.duration_since(std::time::UNIX_EPOCH).ok()
}

/// Relies on `Duration::as_nanos`: the span in whole nanoseconds.
#[verifier::external_body]
fn duration_as_nanos(d: &core::time::Duration) -> u128 {
    d.as_nanos()
}

/// The wall-clock time in nanoseconds since the epoch, zero when the clock
/// reads earlier than the epoch.
fn unix_nanos() -> u128 {
    match duration_since_epoch(&system_time_now()) {
        Some(d) => duration_as_nanos(&d),
        None => 0,
    }
}

/// The fixed bytes of `__SSH_CMD_DONE_`.
pub open spec fn marker_prefix_bytes() -> Seq<u8> {
    seq![
        95u8,
        95u8,
        83u8,
        83u8,
        72u8,
        95u8,
        67u8,
        77u8,
        68u8,
        95u8,
        68u8,
        79u8,
        78u8,
        69u8,
        95u8,
    ]
}

/// The marker for timestamp `ts`: `__SSH_CMD_DONE_<ts>__`.
pub open spec fn marker_bytes_spec(ts: nat) -> Seq<u8> {
    marker_prefix_bytes() + dec_bytes(ts) + seq![95u8, 95u8]
}

/// `s` is a marker for some timestamp.
pub open spec fn is_marker_bytes(s: Seq<u8>) -> bool {
    exists|ts: nat| s == marker_bytes_spec(ts)
}

/// Every byte of `s` is ASCII.
pub open spec fn ascii_bytes(s: Seq<u8>) -> bool {
    forall|i: int| 0 <= i < s.len() ==> #[trigger] s[i] < 128
}

/// A marker is ASCII and at least 18 bytes long.
pub proof fn lemma_marker_bytes_props(ts: nat)
    ensures
        marker_bytes_spec(ts).len() >= 18,
        ascii_bytes(marker_bytes_spec(ts)),
{
    lemma_dec_bytes_ascii(ts);
    assert(dec_bytes(ts).len() >= 1);
    assert forall|i: int| 0 <= i < marker_bytes_spec(ts).len() implies #[trigger] marker_bytes_spec(
        ts,
    )[i] < 128 by {
        let m = marker_bytes_spec(ts);
        if i < 15 {
            assert(m[i] == marker_prefix_bytes()[i]);
        } else if i < 15 + dec_bytes(ts).len() {
            assert(m[i] == dec_bytes(ts)[i - 15]);
        } else {
            assert(m[i] == 95u8);
        }
    }
}

/// ASCII bytes are valid UTF-8 and decode to themselves, one character per
/// byte.
pub proof fn lemma_ascii_bytes_decode(b: Seq<u8>)
    requires
        ascii_bytes(b),
    ensures
        valid_utf8(b),
        decode_utf8(b) == Seq::new(b.len(), |i: int| b[i] as char),
{
    let chars = Seq::new(b.len(), |i: int| b[i] as char);
    assert(is_ascii_chars(chars)) by {
        assert forall|i: int| 0 <= i < chars.len() implies '\0' <= #[trigger] chars[i]
            <= '\u{7f}' by {
            assert(b[i] < 128);
        }
    }
    is_ascii_chars_encode_utf8(chars);
    assert(encode_utf8(chars) =~= b);
    encode_utf8_valid_utf8(chars);
    encode_utf8_decode_utf8(chars);
}

/// Generate a fresh completion marker from the wall clock, as bytes.
pub fn generate_marker_bytes() -> (r: Vec<u8>)
    ensures
        is_marker_bytes(r@),
        r@.len() >= 18,
        ascii_bytes(r@),
{
    let ts = unix_nanos();
    let mut out: Vec<u8> = Vec::new();
    out.push(95);
    out.push(95);
    out.push(83);
    out.push(83);
    out.push(72);
    out.push(95);
    out.push(67);
    out.push(77);
    out.push(68);
    out.push(95);
    out.push(68);
    out.push(79);
    out.push(78);
    out.push(69);
    out.push(95);
    push_decimal(ts, &mut out);
    out.push(95);
    out.push(95);
    proof {
        assert(out@ =~= marker_bytes_spec(ts as nat));
        lemma_marker_bytes_props(ts as nat);
    }
    out
}

/// Generate a fresh completion marker from the wall clock, as a string.
pub fn generate_marker() -> (r: String)
    ensures
        is_marker_bytes(Seq::new(r@.len(), |i: int| r@[i] as u8)),
        r@.len() >= 18,
{
    let bytes = generate_marker_bytes();
    proof {
        lemma_ascii_bytes_decode(bytes@);
    }
    let s = bytes_to_string_lossy(&bytes);
    proof {
        let ts = choose|ts: nat| bytes@ == marker_bytes_spec(ts);
        assert(s@ == decode_utf8(bytes@));
        assert(Seq::new(s@.len(), |i: int| s@[i] as u8) =~= bytes@);
    }
    s
}

} // verus!
