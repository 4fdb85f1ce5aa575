//! Character-level text utilities: whitespace trimming, case-insensitive
//! comparison, line and word splitting, and decimal digits.

use vstd::prelude::*;

verus! {

/// ASCII whitespace at the character level.
pub open spec fn is_ws_char(c: char) -> bool {
    c == ' ' || c == '\t' || c == '\n' || c == '\r' || c == '\u{b}' || c == '\u{c}'
}

/// Every character of `s` is whitespace (so `s` trims to nothing).
pub open spec fn all_ws(s: Seq<char>) -> bool {
    forall|i: int| 0 <= i < s.len() ==> is_ws_char(#[trigger] s[i])
}

/// Whether every character of `s` is ASCII whitespace.
pub fn str_all_ws(s: &str) -> (r: bool)
    ensures
        r == all_ws(s@),
{
    let n: usize = s.unicode_len();
    let mut i: usize = 0;
    while i < n
        invariant
            n == s@.len(),
            0 <= i <= n,
            forall|k: int| 0 <= k < i ==> is_ws_char(#[trigger] s@[k]),
        decreases n - i,
    {
        let c: char = s.get_char(i);
        if !(c == ' ' || c == '\t' || c == '\n' || c == '\r' || c == '\u{b}' || c == '\u{c}') {
            return false;
        }
        i += 1;
    }
    true
}


/// Whitespace test on one character.
pub fn is_ws(c: char) -> (r: bool)
    ensures
        r == is_ws_char(c),
{
    c == ' ' || c == '\t' || c == '\n' || c == '\r' || c == '\u{b}' || c == '\u{c}'
}

/// Length of the whitespace run at the front of `s`.
pub open spec fn ws_prefix_len(s: Seq<char>) -> nat
    decreases s.len(),
{
    if s.len() > 0 && is_ws_char(s[0]) {
        1 + ws_prefix_len(s.skip(1))
    } else {
        0
    }
}

/// Length of the whitespace run at the back of `s`.
pub open spec fn ws_suffix_len(s: Seq<char>) -> nat
    decreases s.len(),
{
    if s.len() > 0 && is_ws_char(s.last()) {
        1 + ws_suffix_len(s.drop_last())
    } else {
        0
    }
}

/// `s` with leading and trailing whitespace removed.
pub open spec fn trim_spec(s: Seq<char>) -> Seq<char> {
    if all_ws(s) {
        Seq::empty()
    } else {
        s.subrange(ws_prefix_len(s) as int, s.len() - ws_suffix_len(s))
    }
}

/// The whitespace runs at the two ends are bounded, whitespace throughout,
/// and maximal.
pub proof fn lemma_ws_prefix_props(s: Seq<char>)
    ensures
        ws_prefix_len(s) <= s.len(),
        forall|i: int| 0 <= i < ws_prefix_len(s) ==> is_ws_char(#[trigger] s[i]),
        ws_prefix_len(s) < s.len() ==> !is_ws_char(s[ws_prefix_len(s) as int]),
    decreases s.len(),
{
    if s.len() > 0 && is_ws_char(s[0]) {
        lemma_ws_prefix_props(s.skip(1));
        assert forall|i: int| 0 <= i < ws_prefix_len(s) implies is_ws_char(#[trigger] s[i]) by {
            if i > 0 {
                assert(s.skip(1)[i - 1] == s[i]);
                assert(is_ws_char(s.skip(1)[i - 1]));
            }
        }
        if ws_prefix_len(s) < s.len() {
            assert(s.skip(1)[ws_prefix_len(s) - 1] == s[ws_prefix_len(s) as int]);
        }
    }
}

pub proof fn lemma_ws_suffix_props(s: Seq<char>)
    ensures
        ws_suffix_len(s) <= s.len(),
        forall|i: int| s.len() - ws_suffix_len(s) <= i < s.len() ==> is_ws_char(#[trigger] s[i]),
        ws_suffix_len(s) < s.len() ==> !is_ws_char(s[s.len() - ws_suffix_len(s) - 1]),
    decreases s.len(),
{
    if s.len() > 0 && is_ws_char(s.last()) {
        lemma_ws_suffix_props(s.drop_last());
        assert(forall|i: int| 0 <= i < s.drop_last().len() ==> s.drop_last()[i] == s[i]);
    }
}

/// Trim leading and trailing ASCII whitespace from a string slice.
pub fn trim_str<'a>(s: &'a str) -> (r: &'a str)
    ensures
        r@ == trim_spec(s@),
{
    let n: usize = s.unicode_len();
    proof {
        lemma_ws_prefix_props(s@);
        lemma_ws_suffix_props(s@);
    }
    let mut a: usize = 0;
    while a < n && is_ws(s.get_char(a))
        invariant
            n == s@.len(),
            0 <= a <= n,
            forall|k: int| 0 <= k < a ==> is_ws_char(#[trigger] s@[k]),
        decreases n - a,
    {
        a += 1;
    }
    if a == n {
        proof {
            assert(all_ws(s@));
        }
        let r = s.substring_char(0, 0);
        proof {
            assert(r@ =~= trim_spec(s@));
        }
        return r;
    }
    proof {
        assert(!is_ws_char(s@[a as int]));
        assert(!all_ws(s@));
        assert(ws_prefix_len(s@) == a) by {
            if ws_prefix_len(s@) < a {
                assert(is_ws_char(s@[ws_prefix_len(s@) as int]));
            }
            if ws_prefix_len(s@) > a {
                assert(is_ws_char(s@[a as int]));
            }
        }
    }
    let mut b: usize = n;
    while b > 0 && is_ws(s.get_char(b - 1))
        invariant
            n == s@.len(),
            0 <= b <= n,
            forall|k: int| b <= k < n ==> is_ws_char(#[trigger] s@[k]),
        decreases b,
    {
        b -= 1;
    }
    proof {
        assert(b > 0 && !is_ws_char(s@[b - 1])) by {
            if b == 0 {
                assert(is_ws_char(s@[a as int]));
            }
        }
        assert(ws_suffix_len(s@) == n - b) by {
            if ws_suffix_len(s@) < n - b {
                assert(is_ws_char(s@[s@.len() - ws_suffix_len(s@) - 1]));
            }
            if ws_suffix_len(s@) > n - b {
                assert(is_ws_char(s@[b - 1]));
            }
        }
        assert(a <= b) by {
            if b < a {
                assert(is_ws_char(s@[a as int]));
            }
        }
    }
    s.substring_char(a, b)
}

/// Case-insensitive match of one character against a pattern character;
/// an ASCII letter in the pattern also accepts its upper-case form.
pub open spec fn eq_ci(c: char, pat: char) -> bool {
    c == pat || ('a' <= pat <= 'z' && c as u32 == pat as u32 - 32)
}

/// Case-insensitive equality against a lower-case pattern.
pub open spec fn ci_eq(s: Seq<char>, pat: Seq<char>) -> bool {
    s.len() == pat.len() && forall|i: int| 0 <= i < pat.len() ==> eq_ci(#[trigger] s[i], pat[i])
}

/// Case-insensitive prefix against a lower-case pattern.
pub open spec fn ci_prefix(s: Seq<char>, pat: Seq<char>) -> bool {
    s.len() >= pat.len() && forall|i: int| 0 <= i < pat.len() ==> eq_ci(#[trigger] s[i], pat[i])
}

fn eq_ci_at(c: char, d: char) -> (r: bool)
    ensures
        r == eq_ci(c, d),
{
    let cu: u32 = c as u32;
    let du: u32 = d as u32;
    cu == du || (97 <= du && du <= 122 && cu == du - 32)
}

/// Whether `s` equals `pat` up to ASCII case, `pat` given in lower case.
pub fn ci_eq_str(s: &str, pat: &str) -> (r: bool)
    ensures
        r == ci_eq(s@, pat@),
{
    let n: usize = s.unicode_len();
    let m: usize = pat.unicode_len();
    if n != m {
        return false;
    }
    let mut i: usize = 0;
    while i < m
        invariant
            n == s@.len(),
            m == pat@.len(),
            n == m,
            0 <= i <= m,
            forall|k: int| 0 <= k < i ==> eq_ci(#[trigger] s@[k], pat@[k]),
        decreases m - i,
    {
        if !eq_ci_at(s.get_char(i), pat.get_char(i)) {
            return false;
        }
        i += 1;
    }
    true
}

/// Whether `s` starts with `pat` up to ASCII case, `pat` given in lower
/// case.
pub fn ci_prefix_str(s: &str, pat: &str) -> (r: bool)
    ensures
        r == ci_prefix(s@, pat@),
{
    let n: usize = s.unicode_len();
    let m: usize = pat.unicode_len();
    if n < m {
        return false;
    }
    let mut i: usize = 0;
    while i < m
        invariant
            n == s@.len(),
            m == pat@.len(),
            m <= n,
            0 <= i <= m,
            forall|k: int| 0 <= k < i ==> eq_ci(#[trigger] s@[k], pat@[k]),
        decreases m - i,
    {
        if !eq_ci_at(s.get_char(i), pat.get_char(i)) {
            return false;
        }
        i += 1;
    }
    true
}

/// Exact prefix.
pub open spec fn has_prefix(s: Seq<char>, pat: Seq<char>) -> bool {
    s.len() >= pat.len() && s.subrange(0, pat.len() as int) == pat
}

/// Whether `s` starts with `pat`, case-sensitively.
pub fn prefix_str(s: &str, pat: &str) -> (r: bool)
    ensures
        r == has_prefix(s@, pat@),
{
    let n: usize = s.unicode_len();
    let m: usize = pat.unicode_len();
    if n < m {
        return false;
    }
    let mut i: usize = 0;
    while i < m
        invariant
            n == s@.len(),
            m == pat@.len(),
            m <= n,
            0 <= i <= m,
            forall|k: int| 0 <= k < i ==> s@[k] == pat@[k],
        decreases m - i,
    {
        if s.get_char(i) != pat.get_char(i) {
            proof {
                assert(s@.subrange(0, pat@.len() as int)[i as int] != pat@[i as int]);
            }
            return false;
        }
        i += 1;
    }
    proof {
        assert(s@.subrange(0, pat@.len() as int) =~= pat@);
    }
    true
}

/// Compare two string slices for character equality.
pub fn str_eq(a: &str, b: &str) -> (r: bool)
    ensures
        r == (a@ == b@),
{
    let na: usize = a.unicode_len();
    let nb: usize = b.unicode_len();
    if na != nb {
        return false;
    }
    let mut i: usize = 0;
    while i < na
        invariant
            na == a@.len(),
            nb == b@.len(),
            na == nb,
            0 <= i <= na,
            forall|j: int| 0 <= j < i ==> a@[j] == b@[j],
        decreases na - i,
    {
        if a.get_char(i) != b.get_char(i) {
            return false;
        }
        i += 1;
    }
    proof {
        assert(a@ =~= b@);
    }
    true
}

/// An ASCII decimal digit.
pub open spec fn is_digit_char(c: char) -> bool {
    '0' <= c <= '9'
}

/// The numeric value of a digit string, most significant first.
pub open spec fn digits_val(s: Seq<char>) -> nat
    decreases s.len(),
{
    if s.len() == 0 {
        0
    } else {
        digits_val(s.drop_last()) * 10 + (s.last() as u32 - 48) as nat
    }
}

/// A longer digit prefix never has a smaller value.
pub proof fn lemma_digits_val_monotone(s: Seq<char>, i: int, j: int)
    requires
        0 <= i <= j <= s.len(),
    ensures
        digits_val(s.subrange(0, i)) <= digits_val(s.subrange(0, j)),
    decreases j - i,
{
    if i < j {
        lemma_digits_val_monotone(s, i, j - 1);
        assert(s.subrange(0, j).drop_last() =~= s.subrange(0, j - 1));
    }
}

/// The length of the word (maximal non-whitespace run) at the front of `s`.
pub open spec fn word_len(s: Seq<char>) -> nat
    decreases s.len(),
{
    if s.len() > 0 && !is_ws_char(s[0]) {
        1 + word_len(s.skip(1))
    } else {
        0
    }
}

pub proof fn lemma_word_len_props(s: Seq<char>)
    ensures
        word_len(s) <= s.len(),
        forall|i: int| 0 <= i < word_len(s) ==> !is_ws_char(#[trigger] s[i]),
        word_len(s) < s.len() ==> is_ws_char(s[word_len(s) as int]),
    decreases s.len(),
{
    if s.len() > 0 && !is_ws_char(s[0]) {
        lemma_word_len_props(s.skip(1));
        assert forall|i: int| 0 <= i < word_len(s) implies !is_ws_char(#[trigger] s[i]) by {
            if i > 0 {
                assert(s.skip(1)[i - 1] == s[i]);
                assert(!is_ws_char(s.skip(1)[i - 1]));
            }
        }
        if word_len(s) < s.len() {
            assert(s.skip(1)[word_len(s) - 1] == s[word_len(s) as int]);
        }
    }
}

/// The whitespace-separated words of `s`, in order.
pub open spec fn split_ws(s: Seq<char>) -> Seq<Seq<char>>
    decreases s.len(),
    via split_ws_decreases
{
    if s.len() == 0 {
        Seq::empty()
    } else if is_ws_char(s[0]) {
        split_ws(s.skip(1))
    } else {
        seq![s.subrange(0, word_len(s) as int)] + split_ws(s.skip(word_len(s) as int))
    }
}

#[via_fn]
proof fn split_ws_decreases(s: Seq<char>) {
    lemma_word_len_props(s);
}

/// The views of a vector of strings.
pub open spec fn strs_views(s: Seq<String>) -> Seq<Seq<char>> {
    s.map_values(|x: String| x@)
}

/// Split `s` into its whitespace-separated words.
pub fn split_whitespace_str(s: &str) -> (r: Vec<String>)
    ensures
        strs_views(r@) == split_ws(s@),
{
    let n: usize = s.unicode_len();
    let mut out: Vec<String> = Vec::new();
    let mut i: usize = 0;
    proof {
        assert(s@.skip(0) =~= s@);
        assert(strs_views(out@) =~= Seq::<Seq<char>>::empty());
        assert(Seq::<Seq<char>>::empty() + split_ws(s@) =~= split_ws(s@));
    }
    while i < n
        invariant
            n == s@.len(),
            0 <= i <= n,
            split_ws(s@) == strs_views(out@) + split_ws(s@.skip(i as int)),
        decreases n - i,
    {
        let ghost sk = s@.skip(i as int);
        proof {
            assert(forall|m: int| 0 <= m < sk.len() ==> sk[m] == s@[m + i]);
        }
        let c: char = s.get_char(i);
        if is_ws(c) {
            proof {
                assert(is_ws_char(sk[0]));
                assert(split_ws(sk) == split_ws(sk.skip(1)));
                assert(sk.skip(1) =~= s@.skip(i + 1));
            }
            i += 1;
        } else {
            let mut j: usize = i + 1;
            while j < n && !is_ws(s.get_char(j))
                invariant
                    n == s@.len(),
                    i < j <= n,
                    forall|k: int| i <= k < j ==> !is_ws_char(#[trigger] s@[k]),
                decreases n - j,
            {
                j += 1;
            }
            proof {
                assert(!is_ws_char(sk[0]));
                assert forall|m: int| 0 <= m < j - i implies !is_ws_char(#[trigger] sk[m]) by {
                    assert(sk[m] == s@[m + i]);
                }
                if (j as int) - (i as int) < sk.len() {
                    assert(sk[j - i] == s@[j as int]);
                }
                lemma_word_len_props(sk);
                assert(word_len(sk) == j - i) by {
                    if word_len(sk) < j - i {
                        assert(is_ws_char(sk[word_len(sk) as int]));
                    }
                    if word_len(sk) > j - i {
                        assert(!is_ws_char(sk[(j - i) as int]));
                    }
                }
                assert(split_ws(sk) == seq![sk.subrange(0, (j - i) as int)] + split_ws(
                    sk.skip((j - i) as int),
                ));
                assert(sk.subrange(0, (j - i) as int) =~= s@.subrange(i as int, j as int));
                assert(sk.skip((j - i) as int) =~= s@.skip(j as int));
            }
            let word = s.substring_char(i, j);
            let ghost pre = out@;
            out.push(String::from_str(word));
            proof {
                assert(strs_views(out@) =~= strs_views(pre) + seq![s@.subrange(
                    i as int,
                    j as int,
                )]);
                assert(strs_views(pre) + (seq![s@.subrange(i as int, j as int)] + split_ws(
                    s@.skip(j as int),
                )) =~= (strs_views(pre) + seq![s@.subrange(i as int, j as int)]) + split_ws(
                    s@.skip(j as int),
                ));
            }
            i = j;
        }
    }
    proof {
        assert(s@.skip(n as int) =~= Seq::<char>::empty());
        assert(strs_views(out@) + split_ws(s@.skip(n as int)) =~= strs_views(out@));
    }
    out
}

/// Distance to the first newline at or after the front of `s`, or the
/// length of `s` if none remains.
pub open spec fn nl_dist(s: Seq<char>) -> nat
    decreases s.len(),
{
    if s.len() == 0 {
        0
    } else if s[0] == '\n' {
        0
    } else {
        1 + nl_dist(s.skip(1))
    }
}

pub proof fn lemma_nl_dist_props(s: Seq<char>)
    ensures
        nl_dist(s) <= s.len(),
        forall|i: int| 0 <= i < nl_dist(s) ==> #[trigger] s[i] != '\n',
        nl_dist(s) < s.len() ==> s[nl_dist(s) as int] == '\n',
    decreases s.len(),
{
    if s.len() > 0 && s[0] != '\n' {
        lemma_nl_dist_props(s.skip(1));
        assert forall|i: int| 0 <= i < nl_dist(s) implies #[trigger] s[i] != '\n' by {
            if i > 0 {
                assert(s.skip(1)[i - 1] == s[i]);
                assert(s.skip(1)[i - 1] != '\n');
            }
        }
        if nl_dist(s) < s.len() {
            assert(s.skip(1)[nl_dist(s) - 1] == s[nl_dist(s) as int]);
        }
    }
}

/// One line's content: the text up to the next newline, with one carriage
/// return before the newline removed, as `str::lines` does.
pub open spec fn line_content(raw: Seq<char>) -> Seq<char> {
    if raw.len() > 0 && raw.last() == '\r' {
        raw.drop_last()
    } else {
        raw
    }
}

/// The lines of `s`, split at newlines, a final line ending optional.
pub open spec fn split_lines(s: Seq<char>) -> Seq<Seq<char>>
    decreases s.len(),
    via split_lines_decreases
{
    if s.len() == 0 {
        Seq::empty()
    } else {
        let d = nl_dist(s) as int;
        if d < s.len() {
            seq![line_content(s.subrange(0, d))] + split_lines(s.skip(d + 1))
        } else {
            seq![line_content(s)]
        }
    }
}

#[via_fn]
proof fn split_lines_decreases(s: Seq<char>) {
    lemma_nl_dist_props(s);
}

/// Split `s` into lines as `str::lines` does: at each newline, dropping one
/// carriage return before it, without a final empty line.
pub fn split_lines_str(s: &str) -> (r: Vec<String>)
    ensures
        strs_views(r@) == split_lines(s@),
{
    let n: usize = s.unicode_len();
    let mut out: Vec<String> = Vec::new();
    let mut i: usize = 0;
    proof {
        assert(s@.skip(0) =~= s@);
        assert(strs_views(out@) =~= Seq::<Seq<char>>::empty());
        assert(Seq::<Seq<char>>::empty() + split_lines(s@) =~= split_lines(s@));
    }
    while i < n
        invariant
            n == s@.len(),
            0 <= i <= n,
            split_lines(s@) == strs_views(out@) + split_lines(s@.skip(i as int)),
        decreases n - i,
    {
        let ghost sk = s@.skip(i as int);
        proof {
            assert(forall|m: int| 0 <= m < sk.len() ==> sk[m] == s@[m + i]);
        }
        let mut j: usize = i;
        while j < n && s.get_char(j) != '\n'
            invariant
                n == s@.len(),
                i <= j <= n,
                forall|k: int| i <= k < j ==> #[trigger] s@[k] != '\n',
            decreases n - j,
        {
            j += 1;
        }
        proof {
            assert forall|m: int| 0 <= m < j - i implies #[trigger] sk[m] != '\n' by {
                assert(sk[m] == s@[m + i]);
            }
            if (j as int) - (i as int) < sk.len() {
                assert(sk[j - i] == s@[j as int]);
            }
            lemma_nl_dist_props(sk);
            assert(nl_dist(sk) == j - i) by {
                if nl_dist(sk) < j - i {
                    assert(sk[nl_dist(sk) as int] != '\n');
                }
                if nl_dist(sk) > j - i {
                    assert((j as int) - (i as int) < sk.len());
                    assert(sk[j - i] != '\n');
                }
            }
        }
        let line_end: usize = if j > i && s.get_char(j - 1) == '\r' {
            j - 1
        } else {
            j
        };
        let line = s.substring_char(i, line_end);
        let ghost pre = out@;
        out.push(String::from_str(line));
        proof {
            let raw = sk.subrange(0, (j - i) as int);
            assert(raw =~= s@.subrange(i as int, j as int));
            if j > i && s@[j - 1] == '\r' {
                assert(raw.last() == '\r');
                assert(line@ =~= line_content(raw));
            } else {
                assert(raw.len() == 0 || raw.last() != '\r');
                assert(line@ =~= line_content(raw));
            }
            if (j as int) < n {
                assert(nl_dist(sk) < sk.len());
                assert(split_lines(sk) == seq![line_content(raw)] + split_lines(
                    sk.skip((j - i) as int + 1),
                )) by {
                    assert(sk.subrange(0, nl_dist(sk) as int) == raw);
                }
                assert(sk.skip((j - i) as int + 1) =~= s@.skip(j + 1));
            } else {
                assert(j == n);
                assert(nl_dist(sk) == sk.len());
                assert(raw =~= sk);
                assert(split_lines(sk) == seq![line_content(sk)]);
                assert(s@.skip(n as int) =~= Seq::<char>::empty());
            }
            assert(strs_views(out@) =~= strs_views(pre) + seq![line_content(raw)]);
            assert(strs_views(pre) + (seq![line_content(raw)] + split_lines(
                s@.skip(j + 1),
            )) =~= (strs_views(pre) + seq![line_content(raw)]) + split_lines(s@.skip(j + 1)));
        }
        if j < n {
            i = j + 1;
        } else {
            i = n;
            proof {
                assert(strs_views(out@) + split_lines(s@.skip(n as int)) =~= strs_views(out@));
            }
        }
    }
    proof {
        assert(s@.skip(i as int) =~= Seq::<char>::empty());
        assert(strs_views(out@) + split_lines(s@.skip(i as int)) =~= strs_views(out@));
    }
    out
}

} // verus!
