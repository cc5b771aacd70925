//! Byte-sequence helpers shared by the codec, the multipart decoder and the
//! router: substring search, slicing, and decimal formatting and parsing.

use vstd::prelude::*;
use vstd::string::StringSliceAdditionalSpecFns;

verus! {

/// The line break of the wire format, `\r\n`.
pub open spec fn crlf() -> Seq<u8> {
    seq![13u8, 10u8]
}

/// The blank line that separates a head from a body, `\r\n\r\n`.
pub open spec fn crlfcrlf() -> Seq<u8> {
    seq![13u8, 10u8, 13u8, 10u8]
}

/// The separator between a header name and its value, `: `.
pub open spec fn colon_sp() -> Seq<u8> {
    seq![58u8, 32u8]
}

/// `\r\n` as a fresh vector.
pub fn crlf_vec() -> (v: Vec<u8>)
    ensures
        v@ == crlf(),
{
    let mut v: Vec<u8> = Vec::new();
    v.push(13);
    v.push(10);
    proof {
        assert(v@ =~= crlf());
    }
    v
}

/// `\r\n\r\n` as a fresh vector.
pub fn crlfcrlf_vec() -> (v: Vec<u8>)
    ensures
        v@ == crlfcrlf(),
{
    let mut v: Vec<u8> = Vec::new();
    v.push(13);
    v.push(10);
    v.push(13);
    v.push(10);
    proof {
        assert(v@ =~= crlfcrlf());
    }
    v
}

/// `: ` as a fresh vector.
pub fn colon_sp_vec() -> (v: Vec<u8>)
    ensures
        v@ == colon_sp(),
{
    let mut v: Vec<u8> = Vec::new();
    v.push(58);
    v.push(32);
    proof {
        assert(v@ =~= colon_sp());
    }
    v
}

/// The bytes of a string slice as a fresh vector.
pub fn str_bytes(s: &str) -> (v: Vec<u8>)
    ensures
        v@ == s.spec_bytes(),
{
    vstd::slice::slice_to_vec(s.as_bytes())
}

/// `pat` occurs inside `s` starting at index `i`.
pub open spec fn match_at(s: Seq<u8>, pat: Seq<u8>, i: int) -> bool {
    &&& 0 <= i
    &&& i + pat.len() <= s.len()
    &&& forall|j: int| 0 <= j < pat.len() ==> s[i + j] == pat[j]
}

/// Index of the first occurrence of `pat` inside `s` at or after `i`, if any.
pub open spec fn find_from(s: Seq<u8>, pat: Seq<u8>, i: int) -> Option<int>
    decreases s.len() - i when 0 <= i <= s.len()
{
    if i + pat.len() > s.len() {
        None
    } else if match_at(s, pat, i) {
        Some(i)
    } else {
        find_from(s, pat, i + 1)
    }
}

/// Index of the first occurrence of `pat` inside `s`, if any.
pub open spec fn find_first(s: Seq<u8>, pat: Seq<u8>) -> Option<int> {
    find_from(s, pat, 0)
}

/// `find_from` returns the first match at or after `i`: a found index matches,
/// nothing before it does, and `None` means nothing matches at all.
pub proof fn lemma_find_from_props(s: Seq<u8>, pat: Seq<u8>, i: int)
    requires
        0 <= i <= s.len(),
    ensures
        match find_from(s, pat, i) {
            Some(k) => i <= k && match_at(s, pat, k) && forall|j: int|
                i <= j < k ==> !match_at(s, pat, j),
            None => forall|j: int| j >= i ==> !match_at(s, pat, j),
        },
    decreases s.len() - i,
{
    if i + pat.len() > s.len() {
        assert(forall|j: int| j >= i ==> !match_at(s, pat, j));
    } else if match_at(s, pat, i) {
    } else {
        lemma_find_from_props(s, pat, i + 1);
    }
}

/// If `pat` matches at `k` and nowhere before, the search finds exactly `k`.
pub proof fn lemma_find_first_is(s: Seq<u8>, pat: Seq<u8>, k: int)
    requires
        match_at(s, pat, k),
        forall|j: int| 0 <= j < k ==> !match_at(s, pat, j),
    ensures
        find_first(s, pat) == Some(k),
{
    lemma_find_from_props(s, pat, 0);
    if find_first(s, pat) is None {
        assert(!match_at(s, pat, k));
    } else {
        let k2 = find_first(s, pat)->Some_0;
        if k2 < k {
            assert(!match_at(s, pat, k2));
        } else if k < k2 {
            assert(!match_at(s, pat, k));
        }
    }
}

/// If `pat` matches nowhere in `s`, the search reports `None`.
pub proof fn lemma_find_first_none(s: Seq<u8>, pat: Seq<u8>)
    requires
        forall|j: int| 0 <= j ==> !match_at(s, pat, j),
    ensures
        find_first(s, pat) is None,
{
    lemma_find_from_props(s, pat, 0);
}

/// Whether `pat` occurs at position `i` of `s`, by direct comparison.
pub fn is_match_at(s: &[u8], pat: &[u8], i: usize) -> (b: bool)
    requires
        i + pat.len() <= s.len(),
    ensures
        b == match_at(s@, pat@, i as int),
{
    let mut j: usize = 0;
    while j < pat.len()
        invariant
            i + pat.len() <= s.len(),
            0 <= j <= pat.len(),
            forall|jj: int| 0 <= jj < j ==> s@[i + jj] == pat@[jj],
        decreases pat.len() - j,
    {
        if s[i + j] != pat[j] {
            return false;
        }
        j += 1;
    }
    true
}

/// First occurrence of `pat` inside `s`, scanning left to right.
pub fn find_subslice(s: &[u8], pat: &[u8]) -> (r: Option<usize>)
    ensures
        match r {
            Some(k) => find_first(s@, pat@) == Some(k as int),
            None => find_first(s@, pat@) is None,
        },
{
    if pat.len() > s.len() {
        proof {
            lemma_find_first_none(s@, pat@);
        }
        return None;
    }
    let end = s.len() - pat.len();
    let mut i: usize = 0;
    while i <= end
        invariant
            pat.len() <= s.len(),
            end == s.len() - pat.len(),
            0 <= i <= end + 1,
            forall|j: int| 0 <= j < i ==> !match_at(s@, pat@, j),
        decreases end + 1 - i,
    {
        if is_match_at(s, pat, i) {
            proof {
                lemma_find_first_is(s@, pat@, i as int);
            }
            return Some(i);
        }
        i += 1;
    }
    proof {
        lemma_find_first_none(s@, pat@);
    }
    None
}

/// Byte-wise equality of two slices.
pub fn bytes_eq(a: &[u8], b: &[u8]) -> (r: bool)
    ensures
        r == (a@ == b@),
{
    if a.len() != b.len() {
        assert(a@ != b@) by {
            assert(a@.len() != b@.len());
        }
        return false;
    }
    let eq = is_match_at(a, b, 0);
    proof {
        if eq {
            assert(a@ =~= b@);
        } else {
            assert(a@ != b@);
        }
    }
    eq
}

/// `s` begins with `pat`.
pub fn starts_with(s: &[u8], pat: &[u8]) -> (r: bool)
    ensures
        r == (pat@.len() <= s@.len() && s@.take(pat@.len() as int) == pat@),
{
    if pat.len() > s.len() {
        assert(!(pat@.len() <= s@.len()));
        return false;
    }
    let m = is_match_at(s, pat, 0);
    proof {
        if m {
            assert(s@.take(pat@.len() as int) =~= pat@);
        } else {
            assert(s@.take(pat@.len() as int) != pat@) by {
                let j = choose|j: int|
                    0 <= j < pat@.len() && s@[0 + j] != pat@[j];
                assert(s@.take(pat@.len() as int)[j] != pat@[j]);
            }
        }
    }
    m
}

/// Copy of `s[from..to]` as a fresh vector.
pub fn subvec(s: &[u8], from: usize, to: usize) -> (v: Vec<u8>)
    requires
        from <= to <= s.len(),
    ensures
        v@ == s@.subrange(from as int, to as int),
{
    let mut v: Vec<u8> = Vec::new();
    let mut i: usize = from;
    while i < to
        invariant
            from <= i <= to <= s.len(),
            v@ =~= s@.subrange(from as int, i as int),
        decreases to - i,
    {
        v.push(s[i]);
        assert(v@ =~= s@.subrange(from as int, i + 1));
        i += 1;
    }
    assert(v@ =~= s@.subrange(from as int, to as int));
    v
}

/// Append every byte of `src` to `dst`.
pub fn push_all(dst: &mut Vec<u8>, src: &[u8])
    ensures
        final(dst)@ == old(dst)@ + src@,
{
    let mut i: usize = 0;
    while i < src.len()
        invariant
            0 <= i <= src.len(),
            dst@ =~= old(dst)@ + src@.take(i as int),
        decreases src.len() - i,
    {
        dst.push(src[i]);
        assert(dst@ =~= old(dst)@ + src@.take(i + 1));
        i += 1;
    }
    assert(dst@ =~= old(dst)@ + src@);
}

/// Decimal digit bytes of a non-negative integer, most significant first.
pub open spec fn dec_digits(n: int) -> Seq<u8>
    decreases n when n >= 0
{
    if n < 10 {
        seq![(48 + n) as u8]
    } else {
        dec_digits(n / 10).push((48 + n % 10) as u8)
    }
}

/// Every byte of `s` is a decimal digit, and there is at least one.
pub open spec fn is_digits(s: Seq<u8>) -> bool {
    s.len() > 0 && forall|i: int| 0 <= i < s.len() ==> 48 <= #[trigger] s[i] <= 57
}

/// Numeric value of a sequence of decimal digit bytes.
pub open spec fn dec_value(s: Seq<u8>) -> int
    decreases s.len(),
{
    if s.len() == 0 {
        0
    } else {
        dec_value(s.drop_last()) * 10 + (s.last() - 48)
    }
}

/// The value of a digit string is non-negative.
pub proof fn lemma_dec_value_nonneg(s: Seq<u8>)
    requires
        forall|i: int| 0 <= i < s.len() ==> 48 <= #[trigger] s[i] <= 57,
    ensures
        dec_value(s) >= 0,
    decreases s.len(),
{
    if s.len() > 0 {
        lemma_dec_value_nonneg(s.drop_last());
    }
}

/// Formatting a number yields digits whose value is the number again.
pub proof fn lemma_dec_digits_value(n: int)
    requires
        n >= 0,
    ensures
        is_digits(dec_digits(n)),
        dec_value(dec_digits(n)) == n,
    decreases n,
{
    if n < 10 {
        let d = dec_digits(n);
        assert(d =~= seq![(48 + n) as u8]);
        assert(d.drop_last() =~= Seq::<u8>::empty());
        assert(dec_value(d.drop_last()) == 0);
        assert(dec_value(d) == (d.last() - 48));
        assert(dec_value(dec_digits(n)) == n);
    } else {
        lemma_dec_digits_value(n / 10);
        let d = dec_digits(n / 10);
        assert(dec_digits(n) == d.push((48 + n % 10) as u8));
        assert(dec_digits(n).drop_last() =~= d);
        assert(dec_value(dec_digits(n)) == dec_value(d) * 10 + n % 10);
        assert((n / 10) * 10 + n % 10 == n) by {
            vstd::arithmetic::div_mod::lemma_fundamental_div_mod(n, 10);
        }
    }
}

/// A prefix of a digit string never exceeds the whole string's value.
pub proof fn lemma_dec_value_prefix_le(s: Seq<u8>, i: int)
    requires
        forall|k: int| 0 <= k < s.len() ==> 48 <= #[trigger] s[k] <= 57,
        0 <= i <= s.len(),
    ensures
        dec_value(s.take(i)) <= dec_value(s),
    decreases s.len(),
{
    if i == s.len() {
        assert(s.take(i) =~= s);
    } else {
        let d = s.drop_last();
        lemma_dec_value_prefix_le(d, i);
        assert(s.take(i) =~= d.take(i));
        lemma_dec_value_nonneg(d);
        assert(dec_value(s) == dec_value(d) * 10 + (s.last() - 48));
        assert(dec_value(d) * 10 + (s.last() - 48) >= dec_value(d));
    }
}

/// Decimal digit bytes of `n`, most significant first.
pub fn u64_to_dec(n: u64) -> (v: Vec<u8>)
    ensures
        v@ == dec_digits(n as int),
    decreases n,
{
    if n < 10 {
        let mut v: Vec<u8> = Vec::new();
        v.push(48 + n as u8);
        assert(v@ =~= dec_digits(n as int));
        v
    } else {
        let mut v = u64_to_dec(n / 10);
        v.push(48 + (n % 10) as u8);
        assert(v@ =~= dec_digits(n as int));
        v
    }
}

/// Parse a decimal number, refusing empty input, non-digit bytes and values
/// beyond `usize::MAX`.
pub fn parse_dec_usize(s: &[u8]) -> (r: Option<usize>)
    ensures
        match r {
            Some(v) => is_digits(s@) && v == dec_value(s@),
            None => !is_digits(s@) || dec_value(s@) > usize::MAX,
        },
{
    if s.len() == 0 {
        return None;
    }
    let mut val: usize = 0;
    let mut i: usize = 0;
    while i < s.len()
        invariant
            0 < s.len(),
            0 <= i <= s.len(),
            forall|k: int| 0 <= k < i ==> 48 <= #[trigger] s@[k] <= 57,
            val == dec_value(s@.take(i as int)),
        decreases s.len() - i,
    {
        let b = s[i];
        if b < 48 || b > 57 {
            assert(!is_digits(s@));
            return None;
        }
        let d = (b - 48) as usize;
        if val > usize::MAX / 10 || (val == usize::MAX / 10 && d > usize::MAX % 10) {
            proof {
                vstd::arithmetic::div_mod::lemma_fundamental_div_mod(usize::MAX as int, 10);
                assert(s@.take(i + 1).drop_last() =~= s@.take(i as int));
                assert(dec_value(s@.take(i + 1)) == val * 10 + d);
                if is_digits(s@) {
                    lemma_dec_value_prefix_le(s@, i + 1);
                }
            }
            return None;
        }
        proof {
            vstd::arithmetic::div_mod::lemma_fundamental_div_mod(usize::MAX as int, 10);
            assert(val * 10 + d <= usize::MAX);
            assert(s@.take(i + 1).drop_last() =~= s@.take(i as int));
        }
        val = val * 10 + d;
        i += 1;
    }
    assert(s@.take(s@.len() as int) =~= s@);
    Some(val)
}

/// `s` split at every occurrence of `pat`, the separators removed. A final
/// or empty piece is kept, so the result is never empty.
pub open spec fn split_on(s: Seq<u8>, pat: Seq<u8>) -> Seq<Seq<u8>>
    decreases s.len(),
{
    match find_first(s, pat) {
        Some(i) => {
            if 0 <= i && i + pat.len() <= s.len() && pat.len() >= 1 {
                seq![s.take(i)] + split_on(s.skip(i + pat.len()), pat)
            } else {
                seq![s]
            }
        },
        None => seq![s],
    }
}

/// `s` split at the first occurrence of `pat`: the part before and the part
/// after, the separator removed.
pub open spec fn split_at_first(s: Seq<u8>, pat: Seq<u8>) -> Option<(Seq<u8>, Seq<u8>)> {
    match find_first(s, pat) {
        Some(i) => {
            if 0 <= i && i + pat.len() <= s.len() {
                Some((s.take(i), s.skip(i + pat.len())))
            } else {
                None
            }
        },
        None => None,
    }
}

/// Exec mirror of `split_on`.
pub fn split_on_exec(s: &[u8], pat: &[u8]) -> (r: Vec<Vec<u8>>)
    requires
        pat.len() >= 1,
    ensures
        r@.map_values(|p: Vec<u8>| p@) == split_on(s@, pat@),
    decreases s.len(),
{
    match find_subslice(s, pat) {
        None => {
            let mut r: Vec<Vec<u8>> = Vec::new();
            r.push(subvec(s, 0, s.len()));
            proof {
                assert(s@.subrange(0, s@.len() as int) =~= s@);
                assert(r@.map_values(|p: Vec<u8>| p@) =~= split_on(s@, pat@));
            }
            r
        },
        Some(i) => {
            proof {
                lemma_find_from_props(s@, pat@, 0);
            }
            let first = subvec(s, 0, i);
            let mut r = split_on_exec(&s[i + pat.len()..s.len()], pat);
            r.insert(0, first);
            proof {
                assert(s@.subrange(i + pat@.len(), s@.len() as int) =~= s@.skip(
                    i + pat@.len(),
                ));
                assert(s@.subrange(0, i as int) =~= s@.take(i as int));
                assert(r@.map_values(|p: Vec<u8>| p@) =~= split_on(s@, pat@));
            }
            r
        },
    }
}

/// Exec mirror of `split_at_first`.
pub fn split_at_first_exec(s: &[u8], pat: &[u8]) -> (r: Option<(Vec<u8>, Vec<u8>)>)
    ensures
        match r {
            Some(p) => split_at_first(s@, pat@) == Some((p.0@, p.1@)),
            None => split_at_first(s@, pat@) is None,
        },
{
    match find_subslice(s, pat) {
        None => None,
        Some(i) => {
            let n = s.len();
            proof {
                lemma_find_from_props(s@, pat@, 0);
                assert(match_at(s@, pat@, i as int));
                assert(i + pat@.len() <= s@.len());
            }
            let before = subvec(s, 0, i);
            let after = subvec(s, i + pat.len(), n);
            proof {
                assert(s@.subrange(0, i as int) =~= s@.take(i as int));
                assert(s@.subrange(i + pat@.len(), s@.len() as int) =~= s@.skip(
                    i + pat@.len(),
                ));
            }
            Some((before, after))
        },
    }
}

/// A space or horizontal tab.
pub open spec fn is_ws(b: u8) -> bool {
    b == 32 || b == 9
}

/// Length of the run of non-whitespace bytes at the front of `s`.
pub open spec fn non_ws_prefix_len(s: Seq<u8>) -> int
    decreases s.len(),
{
    if s.len() == 0 {
        0
    } else if is_ws(s[0]) {
        0
    } else {
        1 + non_ws_prefix_len(s.drop_first())
    }
}

/// `non_ws_prefix_len` counts a run: it is in bounds, everything before it is
/// non-whitespace, and it ends at the end or at a whitespace byte.
pub proof fn lemma_non_ws_prefix_props(s: Seq<u8>)
    ensures
        0 <= non_ws_prefix_len(s) <= s.len(),
        forall|j: int| 0 <= j < non_ws_prefix_len(s) ==> !is_ws(#[trigger] s[j]),
        non_ws_prefix_len(s) == s.len() || is_ws(s[non_ws_prefix_len(s)]),
    decreases s.len(),
{
    if s.len() == 0 || is_ws(s[0]) {
    } else {
        let d = s.drop_first();
        lemma_non_ws_prefix_props(d);
        assert(forall|j: int| 0 <= j < d.len() ==> #[trigger] d[j] == s[j + 1]);
        assert forall|j: int| 0 <= j < non_ws_prefix_len(s) implies !is_ws(#[trigger] s[j]) by {
            if j > 0 {
                assert(d[j - 1] == s[j]);
                assert(!is_ws(d[j - 1]));
            }
        }
        if non_ws_prefix_len(s) < s.len() {
            assert(s[non_ws_prefix_len(s)] == d[non_ws_prefix_len(d)]);
        }
    }
}

/// The fields of the first line of `s` split on runs of whitespace.
pub open spec fn tokenize(s: Seq<u8>) -> Seq<Seq<u8>>
    decreases s.len(),
{
    if s.len() == 0 {
        Seq::empty()
    } else if is_ws(s[0]) {
        tokenize(s.drop_first())
    } else {
        let k = non_ws_prefix_len(s);
        if 1 <= k <= s.len() {
            seq![s.take(k)] + tokenize(s.skip(k))
        } else {
            seq![s]
        }
    }
}

/// Exec mirror of `tokenize`.
pub fn tokenize_exec(s: &[u8]) -> (r: Vec<Vec<u8>>)
    ensures
        r@.map_values(|t: Vec<u8>| t@) == tokenize(s@),
    decreases s.len(),
{
    if s.len() == 0 {
        let r: Vec<Vec<u8>> = Vec::new();
        proof {
            assert(r@.map_values(|t: Vec<u8>| t@) =~= tokenize(s@));
        }
        r
    } else if s[0] == 32 || s[0] == 9 {
        let r = tokenize_exec(&s[1..s.len()]);
        proof {
            assert(s@.subrange(1, s@.len() as int) =~= s@.drop_first());
        }
        r
    } else {
        proof {
            lemma_non_ws_prefix_props(s@);
        }
        let mut j: usize = 1;
        while j < s.len() && s[j] != 32 && s[j] != 9
            invariant
                1 <= j <= s.len(),
                forall|x: int| 0 <= x < j ==> !is_ws(#[trigger] s@[x]),
            decreases s.len() - j,
        {
            j += 1;
        }
        proof {
            lemma_non_ws_prefix_is(s@, j as int);
        }
        let tok = subvec(s, 0, j);
        let mut r = tokenize_exec(&s[j..s.len()]);
        r.insert(0, tok);
        proof {
            assert(s@.subrange(0, j as int) =~= s@.take(j as int));
            assert(s@.subrange(j as int, s@.len() as int) =~= s@.skip(j as int));
            assert(r@.map_values(|t: Vec<u8>| t@) =~= tokenize(s@));
        }
        r
    }
}

/// A maximal non-whitespace run of length `k` pins `non_ws_prefix_len` to `k`.
pub proof fn lemma_non_ws_prefix_is(s: Seq<u8>, k: int)
    requires
        0 <= k <= s.len(),
        forall|j: int| 0 <= j < k ==> !is_ws(#[trigger] s[j]),
        k == s.len() || is_ws(s[k]),
    ensures
        non_ws_prefix_len(s) == k,
    decreases s.len(),
{
    if s.len() == 0 {
    } else if is_ws(s[0]) {
        assert(k == 0);
    } else {
        let d = s.drop_first();
        assert(forall|j: int| 0 <= j < d.len() ==> #[trigger] d[j] == s[j + 1]);
        lemma_non_ws_prefix_is(d, k - 1);
    }
}

/// `s` with every leading and trailing whitespace byte removed.
pub open spec fn trim_ws(s: Seq<u8>) -> Seq<u8>
    decreases s.len(),
{
    if s.len() > 0 && is_ws(s[0]) {
        trim_ws(s.drop_first())
    } else if s.len() > 0 && is_ws(s.last()) {
        trim_ws(s.drop_last())
    } else {
        s
    }
}

/// Exec mirror of `trim_ws`.
pub fn trim_ws_exec(s: &[u8]) -> (r: Vec<u8>)
    ensures
        r@ == trim_ws(s@),
    decreases s.len(),
{
    if s.len() > 0 && (s[0] == 32 || s[0] == 9) {
        let r = trim_ws_exec(&s[1..s.len()]);
        proof {
            assert(s@.subrange(1, s@.len() as int) =~= s@.drop_first());
        }
        r
    } else if s.len() > 0 && (s[s.len() - 1] == 32 || s[s.len() - 1] == 9) {
        let r = trim_ws_exec(&s[0..s.len() - 1]);
        proof {
            assert(s@.subrange(0, s@.len() - 1) =~= s@.drop_last());
            assert(!is_ws(s@[0]) || s@.len() == 1);
        }
        r
    } else {
        let r = subvec(s, 0, s.len());
        proof {
            assert(s@.subrange(0, s@.len() as int) =~= s@);
        }
        r
    }
}

/// `s` with every leading and trailing double-quote byte removed.
pub open spec fn trim_quotes(s: Seq<u8>) -> Seq<u8>
    decreases s.len(),
{
    if s.len() > 0 && s[0] == 34 {
        trim_quotes(s.drop_first())
    } else if s.len() > 0 && s.last() == 34 {
        trim_quotes(s.drop_last())
    } else {
        s
    }
}

/// Exec mirror of `trim_quotes`.
pub fn trim_quotes_exec(s: &[u8]) -> (r: Vec<u8>)
    ensures
        r@ == trim_quotes(s@),
    decreases s.len(),
{
    if s.len() > 0 && s[0] == 34 {
        let r = trim_quotes_exec(&s[1..s.len()]);
        proof {
            assert(s@.subrange(1, s@.len() as int) =~= s@.drop_first());
        }
        r
    } else if s.len() > 0 && s[s.len() - 1] == 34 {
        let r = trim_quotes_exec(&s[0..s.len() - 1]);
        proof {
            assert(s@.subrange(0, s@.len() - 1) =~= s@.drop_last());
        }
        r
    } else {
        let r = subvec(s, 0, s.len());
        proof {
            assert(s@.subrange(0, s@.len() as int) =~= s@);
        }
        r
    }
}

} // verus!
