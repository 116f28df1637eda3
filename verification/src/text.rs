//! Verified text utilities: whitespace and digit classes, decimal
//! parsing, string equality, substring search, trimming, whitespace
//! splitting and joining. The window-list and process-identifier parsers
//! are built on these.

use vstd::prelude::*;
use vstd::string::StrSliceExecFns;
use vstd::string::StringExecFns;

verus! {

/// The whitespace characters recognised when splitting and trimming
/// external tool output: the Unicode White_Space set, the one
/// `char::is_whitespace` and `str::split_whitespace` use.
pub open spec fn is_ws_char(c: char) -> bool {
    c as u32 == 0x20 || c as u32 == 0x09 || c as u32 == 0x0A || c as u32 == 0x0B || c as u32
        == 0x0C || c as u32 == 0x0D || c as u32 == 0x85 || c as u32 == 0xA0 || c as u32 == 0x1680
        || (0x2000 <= c as u32 <= 0x200A) || c as u32 == 0x2028 || c as u32 == 0x2029 || c as u32
        == 0x202F || c as u32 == 0x205F || c as u32 == 0x3000
}

pub open spec fn is_decimal_digit(c: char) -> bool {
    48 <= c as u32 <= 57
}

pub open spec fn digit_value(c: char) -> nat
    recommends
        is_decimal_digit(c),
{
    (c as u32 - 48) as nat
}

/// Value of a digit string read in base ten.
pub open spec fn digits_value(s: Seq<char>) -> nat
    decreases s.len(),
{
    if s.len() == 0 {
        0
    } else {
        digits_value(s.drop_last()) * 10 + digit_value(s.last())
    }
}

pub open spec fn all_digits(s: Seq<char>) -> bool {
    forall|i: int| 0 <= i < s.len() ==> is_decimal_digit(#[trigger] s[i])
}

/// The digit part of a decimal identifier: everything after an optional
/// leading plus sign.
pub open spec fn digits_part(s: Seq<char>) -> Seq<char> {
    if s.len() > 0 && s[0] == '+' {
        s.drop_first()
    } else {
        s
    }
}

/// What a non-negative decimal identifier parses to: a `u32` exactly when,
/// after an optional leading plus sign, the string is non-empty, all
/// digits, and its value fits.
pub open spec fn spec_parse_u32(s: Seq<char>) -> Option<u32> {
    let digits = digits_part(s);
    if digits.len() > 0 && all_digits(digits) && digits_value(digits) <= u32::MAX {
        Some(digits_value(digits) as u32)
    } else {
        None
    }
}

proof fn lemma_digits_value_prefix_le(s: Seq<char>, k: int)
    requires
        0 <= k <= s.len(),
    ensures
        digits_value(s.take(k)) <= digits_value(s),
    decreases s.len() - k,
{
    if k < s.len() {
        assert(s.take(k + 1).drop_last() =~= s.take(k));
        assert(digits_value(s.take(k + 1)) == digits_value(s.take(k)) * 10 + digit_value(
            s.take(k + 1).last(),
        ));
        lemma_digits_value_prefix_le(s, k + 1);
    } else {
        assert(s.take(k) =~= s);
    }
}

/// Parses a non-negative base-ten integer, with an optional leading plus
/// sign; rejects anything else.
pub fn parse_u32(s: &str) -> (r: Option<u32>)
    ensures
        r == spec_parse_u32(s@),
{
    let n = s.unicode_len();
    if n == 0 {
        return None;
    }
    let start: usize = if s.get_char(0) == '+' {
        1
    } else {
        0
    };
    let ghost dg = digits_part(s@);
    proof {
        assert(dg =~= s@.skip(start as int));
    }
    if start == n {
        return None;
    }
    let mut acc: u32 = 0;
    let mut i: usize = start;
    while i < n
        invariant
            0 < n == s@.len(),
            start <= i <= n,
            start < n,
            dg == s@.skip(start as int),
            dg == digits_part(s@),
            all_digits(dg.take(i - start)),
            acc == digits_value(dg.take(i - start)),
        decreases n - i,
    {
        let c = s.get_char(i);
        let cv = c as u32;
        proof {
            assert(dg[i - start] == s@[i as int]);
        }
        if cv < 48 || cv > 57 {
            proof {
                assert(!is_decimal_digit(dg[i - start]));
            }
            return None;
        }
        let d = cv - 48;
        proof {
            assert(dg.take(i - start + 1).drop_last() =~= dg.take(i - start));
            assert(dg.take(i - start + 1).last() == dg[i - start]);
            assert(digits_value(dg.take(i - start + 1)) == acc * 10 + d);
        }
        if acc > 429496729 || (acc == 429496729 && d > 5) {
            proof {
                lemma_digits_value_prefix_le(dg, i - start + 1);
                assert(digits_value(dg) > u32::MAX);
            }
            return None;
        }
        acc = acc * 10 + d;
        proof {
            assert forall|k: int| 0 <= k < i - start + 1 implies is_decimal_digit(
                #[trigger] dg.take(i - start + 1)[k],
            ) by {
                assert(dg.take(i - start + 1)[k] == dg[k]);
                if k < i - start {
                    assert(dg.take(i - start)[k] == dg[k]);
                }
            }
        }
        i += 1;
    }
    proof {
        assert(dg.take(n - start) =~= dg);
    }
    Some(acc)
}

/// Character-for-character string equality, tied to the views.
pub fn str_eq(a: &str, b: &str) -> (r: bool)
    ensures
        r == (a@ == b@),
{
    let na = a.unicode_len();
    let nb = b.unicode_len();
    if na != nb {
        return false;
    }
    let mut i: usize = 0;
    while i < na
        invariant
            na == a@.len(),
            nb == b@.len(),
            na == nb,
            0 <= i <= na,
            forall|j: int| 0 <= j < i ==> a@[j] == b@[j],
        decreases na - i,
    {
        if a.get_char(i) != b.get_char(i) {
            return false;
        }
        i += 1;
    }
    proof {
        assert(a@ =~= b@);
    }
    true
}

/// The needle occurs in the haystack starting at position `i`.
pub open spec fn needle_at(h: Seq<char>, n: Seq<char>, i: int) -> bool {
    h.subrange(i, i + n.len()) == n
}

/// The needle occurs contiguously somewhere in the haystack.
pub open spec fn seq_contains_sub(h: Seq<char>, n: Seq<char>) -> bool {
    exists|i: int| 0 <= i <= h.len() - n.len() && #[trigger] needle_at(h, n, i)
}

fn match_at(hay: &str, i: usize, needle: &str, hn: usize, nn: usize) -> (r: bool)
    requires
        hn == hay@.len(),
        nn == needle@.len(),
        i + nn <= hn,
    ensures
        r == needle_at(hay@, needle@, i as int),
{
    let mut j: usize = 0;
    while j < nn
        invariant
            hn == hay@.len(),
            nn == needle@.len(),
            i + nn <= hn,
            0 <= j <= nn,
            forall|q: int| 0 <= q < j ==> hay@[i + q] == needle@[q],
        decreases nn - j,
    {
        if hay.get_char(i + j) != needle.get_char(j) {
            proof {
                assert(hay@.subrange(i as int, i as int + nn as int)[j as int] == hay@[i as int
                    + j as int]);
            }
            return false;
        }
        j += 1;
    }
    proof {
        assert(hay@.subrange(i as int, i as int + nn as int) =~= needle@);
    }
    true
}

/// Substring search; exact with respect to `seq_contains_sub`.
pub fn contains_sub(hay: &str, needle: &str) -> (r: bool)
    ensures
        r == seq_contains_sub(hay@, needle@),
{
    let hn = hay.unicode_len();
    let nn = needle.unicode_len();
    if nn > hn {
        return false;
    }
    if nn == 0 {
        proof {
            assert(hay@.subrange(0, 0) =~= needle@);
            assert(needle_at(hay@, needle@, 0));
        }
        return true;
    }
    let mut i: usize = 0;
    while i <= hn - nn
        invariant
            0 < nn <= hn,
            hn == hay@.len(),
            nn == needle@.len(),
            0 <= i <= hn - nn + 1,
            forall|p: int| 0 <= p < i ==> !#[trigger] needle_at(hay@, needle@, p),
        decreases hn - nn - i + 1,
    {
        if match_at(hay, i, needle, hn, nn) {
            return true;
        }
        i += 1;
    }
    false
}

/// The string with leading whitespace removed.
pub open spec fn trim_front(s: Seq<char>) -> Seq<char>
    decreases s.len(),
{
    if s.len() > 0 && is_ws_char(s[0]) {
        trim_front(s.drop_first())
    } else {
        s
    }
}

/// The string with trailing whitespace removed.
pub open spec fn trim_back(s: Seq<char>) -> Seq<char>
    decreases s.len(),
{
    if s.len() > 0 && is_ws_char(s.last()) {
        trim_back(s.drop_last())
    } else {
        s
    }
}

/// The string with whitespace removed from both ends.
pub open spec fn trim_ws(s: Seq<char>) -> Seq<char> {
    trim_back(trim_front(s))
}

fn ws_at(s: &str, i: usize) -> (r: bool)
    requires
        i < s@.len(),
    ensures
        r == is_ws_char(s@[i as int]),
{
    let cv = s.get_char(i) as u32;
    cv == 0x20 || cv == 0x09 || cv == 0x0A || cv == 0x0B || cv == 0x0C || cv == 0x0D || cv == 0x85
        || cv == 0xA0 || cv == 0x1680 || (0x2000 <= cv && cv <= 0x200A) || cv == 0x2028 || cv
        == 0x2029 || cv == 0x202F || cv == 0x205F || cv == 0x3000
}

/// Copies the string with surrounding whitespace removed.
pub fn trim(s: &str) -> (r: String)
    ensures
        r@ == trim_ws(s@),
{
    let n = s.unicode_len();
    let mut start: usize = 0;
    proof {
        assert(s@.skip(0) =~= s@);
    }
    while start < n && ws_at(s, start)
        invariant
            n == s@.len(),
            0 <= start <= n,
            trim_front(s@.skip(start as int)) == trim_front(s@),
        decreases n - start,
    {
        proof {
            assert(s@.skip(start as int)[0] == s@[start as int]);
            assert(s@.skip(start as int).drop_first() =~= s@.skip(start as int + 1));
        }
        start += 1;
    }
    proof {
        if start < n {
            assert(s@.skip(start as int)[0] == s@[start as int]);
        }
        assert(trim_front(s@) == s@.skip(start as int));
        assert(s@.skip(start as int) =~= s@.subrange(start as int, n as int));
    }
    let mut end: usize = n;
    while end > start && ws_at(s, end - 1)
        invariant
            n == s@.len(),
            0 <= start <= end <= n,
            trim_front(s@) == s@.subrange(start as int, n as int),
            trim_back(s@.subrange(start as int, end as int)) == trim_back(
                s@.subrange(start as int, n as int),
            ),
        decreases end,
    {
        proof {
            assert(s@.subrange(start as int, end as int).last() == s@[end as int - 1]);
            assert(s@.subrange(start as int, end as int).drop_last() =~= s@.subrange(
                start as int,
                end as int - 1,
            ));
        }
        end -= 1;
    }
    proof {
        if end > start {
            assert(s@.subrange(start as int, end as int).last() == s@[end as int - 1]);
        }
        assert(trim_ws(s@) == s@.subrange(start as int, end as int));
    }
    let piece = s.substring_char(start, end);
    piece.to_owned()
}

/// Length of the maximal non-whitespace prefix.
pub open spec fn token_len(s: Seq<char>) -> nat
    decreases s.len(),
{
    if s.len() == 0 || is_ws_char(s[0]) {
        0
    } else {
        (1 + token_len(s.drop_first())) as nat
    }
}

pub proof fn lemma_token_len_le(s: Seq<char>)
    ensures
        token_len(s) <= s.len(),
    decreases s.len(),
{
    if s.len() == 0 || is_ws_char(s[0]) {
    } else {
        lemma_token_len_le(s.drop_first());
    }
}

pub proof fn lemma_token_len_is(s: Seq<char>, m: int)
    requires
        0 <= m <= s.len(),
        forall|k: int| 0 <= k < m ==> !is_ws_char(#[trigger] s[k]),
        m == s.len() || is_ws_char(s[m]),
    ensures
        token_len(s) == m,
    decreases m,
{
    if m == 0 {
    } else {
        assert(!is_ws_char(s[0]));
        lemma_token_len_is(s.drop_first(), m - 1);
    }
}

/// The whitespace-separated tokens of a string, in order.
pub open spec fn split_ws(s: Seq<char>) -> Seq<Seq<char>>
    decreases s.len(),
    via split_ws_decreases
{
    if s.len() == 0 {
        Seq::empty()
    } else if is_ws_char(s[0]) {
        split_ws(s.drop_first())
    } else {
        seq![s.take(token_len(s) as int)] + split_ws(s.skip(token_len(s) as int))
    }
}

#[via_fn]
proof fn split_ws_decreases(s: Seq<char>) {
    if s.len() > 0 && !is_ws_char(s[0]) {
        lemma_token_len_le(s);
    }
}

/// The views of a sequence of owned strings.
pub open spec fn views_of(ss: Seq<String>) -> Seq<Seq<char>> {
    ss.map_values(|s: String| s@)
}

/// Splits on runs of whitespace, exactly as `split_ws` describes.
pub fn split_whitespace(s: &str) -> (r: Vec<String>)
    ensures
        views_of(r@) == split_ws(s@),
{
    let n = s.unicode_len();
    let mut out: Vec<String> = Vec::new();
    let mut i: usize = 0;
    proof {
        assert(views_of(out@) =~= Seq::<Seq<char>>::empty());
        assert(s@.skip(0) =~= s@);
        assert(views_of(out@) + split_ws(s@) =~= split_ws(s@));
    }
    while i < n
        invariant
            n == s@.len(),
            0 <= i <= n,
            views_of(out@) + split_ws(s@.skip(i as int)) == split_ws(s@),
        decreases n - i,
    {
        if ws_at(s, i) {
            proof {
                assert(s@.skip(i as int)[0] == s@[i as int]);
                assert(s@.skip(i as int).drop_first() =~= s@.skip(i as int + 1));
            }
            i += 1;
        } else {
            let mut j: usize = i + 1;
            while j < n && !ws_at(s, j)
                invariant
                    n == s@.len(),
                    0 <= i < j <= n,
                    forall|k: int| i <= k < j ==> !is_ws_char(#[trigger] s@[k]),
                decreases n - j,
            {
                j += 1;
            }
            let tok = s.substring_char(i, j).to_owned();
            proof {
                let t = s@.skip(i as int);
                assert forall|k: int| 0 <= k < j - i implies !is_ws_char(#[trigger] t[k]) by {
                    assert(t[k] == s@[i + k]);
                }
                if (j as int - i as int) < t.len() {
                    assert(t[j - i] == s@[j as int]);
                }
                lemma_token_len_is(t, j as int - i as int);
                assert(t.take(j as int - i as int) =~= s@.subrange(i as int, j as int));
                assert(t.skip(j as int - i as int) =~= s@.skip(j as int));
                assert(!is_ws_char(t[0]));
                assert(split_ws(t) == seq![s@.subrange(i as int, j as int)] + split_ws(
                    s@.skip(j as int),
                ));
            }
            let ghost old_out = out@;
            out.push(tok);
            proof {
                assert(views_of(out@) =~= views_of(old_out) + seq![
                    s@.subrange(i as int, j as int),
                ]);
                assert((views_of(old_out) + seq![s@.subrange(i as int, j as int)]) + split_ws(
                    s@.skip(j as int),
                ) =~= views_of(old_out) + (seq![s@.subrange(i as int, j as int)] + split_ws(
                    s@.skip(j as int),
                )));
            }
            i = j;
        }
    }
    proof {
        assert(s@.skip(i as int) =~= Seq::<char>::empty());
        assert(views_of(out@) + split_ws(s@.skip(i as int)) =~= views_of(out@));
    }
    out
}

/// The parts rejoined with a single space between consecutive parts.
pub open spec fn join_space(parts: Seq<Seq<char>>) -> Seq<char>
    decreases parts.len(),
{
    if parts.len() == 0 {
        Seq::empty()
    } else if parts.len() == 1 {
        parts[0]
    } else {
        join_space(parts.drop_last()) + seq![' '] + parts.last()
    }
}

/// Joins the parts from index `from` on with single spaces.
pub fn join_with_spaces(parts: &Vec<String>, from: usize) -> (r: String)
    requires
        from as int <= parts@.len(),
    ensures
        r@ == join_space(views_of(parts@).skip(from as int)),
{
    let mut out = String::new();
    if from >= parts.len() {
        proof {
            assert(views_of(parts@).skip(from as int) =~= Seq::<Seq<char>>::empty());
        }
        return out;
    }
    out.append(parts[from].as_str());
    proof {
        let v = views_of(parts@);
        assert(v[from as int] == parts@[from as int]@);
        assert(out@ =~= parts@[from as int]@);
        assert(v.subrange(from as int, from as int + 1).len() == 1);
        assert(v.subrange(from as int, from as int + 1)[0] == v[from as int]);
        assert(out@ == join_space(v.subrange(from as int, from as int + 1)));
    }
    let mut k: usize = from + 1;
    while k < parts.len()
        invariant
            from < k <= parts@.len(),
            out@ == join_space(views_of(parts@).subrange(from as int, k as int)),
        decreases parts@.len() - k,
    {
        out.append(" ");
        out.append(parts[k].as_str());
        proof {
            let v = views_of(parts@);
            reveal_strlit(" ");
            assert(" "@ =~= seq![' ']);
            assert(v.subrange(from as int, k as int + 1).drop_last() =~= v.subrange(
                from as int,
                k as int,
            ));
            assert(v.subrange(from as int, k as int + 1).last() == v[k as int]);
        }
        k += 1;
    }
    proof {
        assert(views_of(parts@).skip(from as int) =~= views_of(parts@).subrange(
            from as int,
            parts@.len() as int,
        ));
    }
    out
}

/// Length of the prefix before the first occurrence of `c`.
pub open spec fn scan_to_char(s: Seq<char>, c: char) -> nat
    decreases s.len(),
{
    if s.len() == 0 || s[0] == c {
        0
    } else {
        (1 + scan_to_char(s.drop_first(), c)) as nat
    }
}

pub proof fn lemma_scan_to_char_le(s: Seq<char>, c: char)
    ensures
        scan_to_char(s, c) <= s.len(),
    decreases s.len(),
{
    if s.len() == 0 || s[0] == c {
    } else {
        lemma_scan_to_char_le(s.drop_first(), c);
    }
}

pub proof fn lemma_scan_to_char_is(s: Seq<char>, c: char, m: int)
    requires
        0 <= m <= s.len(),
        forall|k: int| 0 <= k < m ==> #[trigger] s[k] != c,
        m == s.len() || s[m] == c,
    ensures
        scan_to_char(s, c) == m,
    decreases m,
{
    if m == 0 {
    } else {
        lemma_scan_to_char_is(s.drop_first(), c, m - 1);
    }
}

/// The decimal digit character for a value below ten.
pub open spec fn digit_char(d: nat) -> char
    recommends
        d < 10,
{
    if d == 0 {
        '0'
    } else if d == 1 {
        '1'
    } else if d == 2 {
        '2'
    } else if d == 3 {
        '3'
    } else if d == 4 {
        '4'
    } else if d == 5 {
        '5'
    } else if d == 6 {
        '6'
    } else if d == 7 {
        '7'
    } else if d == 8 {
        '8'
    } else {
        '9'
    }
}

/// The decimal text of a number, most significant digit first.
pub open spec fn decimal_of(n: nat) -> Seq<char>
    decreases n,
{
    if n < 10 {
        seq![digit_char(n)]
    } else {
        decimal_of(n / 10).push(digit_char(n % 10))
    }
}

pub proof fn lemma_decimal_of_value(n: nat)
    ensures
        decimal_of(n).len() > 0,
        all_digits(decimal_of(n)),
        digits_value(decimal_of(n)) == n,
    decreases n,
{
    if n < 10 {
        let w = seq![digit_char(n)];
        assert(w.drop_last() =~= Seq::<char>::empty());
        assert(w.last() == digit_char(n));
        assert(digit_value(digit_char(n)) == n);
        assert(digits_value(Seq::<char>::empty()) == 0);
        assert(digits_value(w) == n);
        assert forall|i: int| 0 <= i < w.len() implies is_decimal_digit(#[trigger] w[i]) by {
            assert(w[i] == digit_char(n));
        }
    } else {
        lemma_decimal_of_value(n / 10);
        let prefix = decimal_of(n / 10);
        let w = prefix.push(digit_char(n % 10));
        assert(w.drop_last() =~= prefix);
        assert(w.last() == digit_char(n % 10));
        assert(digit_value(digit_char(n % 10)) == n % 10);
        assert(digits_value(w) == (n / 10) * 10 + n % 10);
        assert forall|i: int| 0 <= i < w.len() implies is_decimal_digit(#[trigger] w[i]) by {
            if i < prefix.len() {
                assert(w[i] == prefix[i]);
            } else {
                assert(w[i] == digit_char(n % 10));
            }
        }
    }
}

/// A pid's decimal text parses back to the pid: the identifier form `str(p)`
/// always reaches the direct pid lookup.
pub proof fn lemma_decimal_of_parses(n: u32)
    ensures
        spec_parse_u32(decimal_of(n as nat)) == Some(n),
{
    lemma_decimal_of_value(n as nat);
    if decimal_of(n as nat)[0] == '+' {
        assert(is_decimal_digit(decimal_of(n as nat)[0]));
        assert(false);
    }
    assert(digits_part(decimal_of(n as nat)) == decimal_of(n as nat));
}

/// Membership in a vector of PIDs.
pub fn contains_u32(v: &Vec<u32>, x: u32) -> (r: bool)
    ensures
        r == v@.contains(x),
{
    let mut i: usize = 0;
    while i < v.len()
        invariant
            0 <= i <= v@.len(),
            forall|j: int| 0 <= j < i ==> v@[j] != x,
        decreases v@.len() - i,
    {
        if v[i] == x {
            assert(v@[i as int] == x);
            return true;
        }
        i += 1;
    }
    proof {
        assert(forall|j: int| 0 <= j < v@.len() ==> v@[j] != x);
    }
    false
}

} // verus!
