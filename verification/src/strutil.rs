//! String helpers shared by the identity parsers, the row codec and the
//! repository scope filter: decimal parsing and formatting, substring
//! search, and right-to-left character search.

use vstd::prelude::*;

verus! {

/// `c` is a decimal digit.
pub open spec fn is_digit(c: char) -> bool {
    48 <= c as u32 <= 57
}

/// Numeric value of a digit character.
pub open spec fn digit_val(c: char) -> nat {
    (c as u32 - 48) as nat
}

/// Every character of `s` is a decimal digit.
pub open spec fn all_digits(s: Seq<char>) -> bool {
    forall|i: int| 0 <= i < s.len() ==> is_digit(#[trigger] s[i])
}

/// The number denoted by a digit string, most significant digit first.
pub open spec fn dec_val(s: Seq<char>) -> nat
    decreases s.len(),
{
    if s.len() == 0 {
        0
    } else {
        dec_val(s.drop_last()) * 10 + digit_val(s.last())
    }
}

/// The digit character for a value below ten.
pub open spec fn digit_char(d: nat) -> char {
    if d == 0 { '0' }
    else if d == 1 { '1' }
    else if d == 2 { '2' }
    else if d == 3 { '3' }
    else if d == 4 { '4' }
    else if d == 5 { '5' }
    else if d == 6 { '6' }
    else if d == 7 { '7' }
    else if d == 8 { '8' }
    else { '9' }
}

/// Decimal rendering of `n`, without leading zeros (a lone zero for 0).
pub open spec fn dec_digits(n: nat) -> Seq<char>
    decreases n,
{
    if n < 10 {
        seq![digit_char(n)]
    } else {
        dec_digits(n / 10).push(digit_char(n % 10))
    }
}

/// A prefix of a digit string never denotes more than the whole string.
pub proof fn lemma_dec_val_prefix_le(s: Seq<char>, i: int)
    requires
        0 <= i <= s.len(),
    ensures
        dec_val(s.take(i)) <= dec_val(s),
    decreases s.len() - i,
{
    if i < s.len() {
        assert(s.take(i + 1).drop_last() =~= s.take(i));
        assert(dec_val(s.take(i + 1)) == dec_val(s.take(i)) * 10 + digit_val(s.take(i + 1).last()));
        assert(dec_val(s.take(i)) <= dec_val(s.take(i)) * 10);
        lemma_dec_val_prefix_le(s, i + 1);
    } else {
        assert(s.take(i) =~= s);
    }
}

/// Parses a non-empty, all-digit string as an unsigned 64-bit number.
///
/// Returns `None` exactly when the string is empty, holds a non-digit, or
/// denotes a number too large for `u64`.
pub fn parse_u64(s: &str) -> (r: Option<u64>)
    ensures
        r is Some <==> (s@.len() > 0 && all_digits(s@) && dec_val(s@) <= u64::MAX),
        r is Some ==> r->0 as nat == dec_val(s@),
{
    let n = s.unicode_len();
    if n == 0 {
        return None;
    }
    let mut acc: u128 = 0;
    let mut i: usize = 0;
    while i < n
        invariant
            0 <= i <= n,
            n == s@.len(),
            acc as nat == dec_val(s@.take(i as int)),
            acc <= u64::MAX as u128,
            all_digits(s@.take(i as int)),
        decreases n - i,
    {
        let c = s.get_char(i);
        let cu = c as u32;
        if cu < 48 || cu > 57 {
            assert(!is_digit(s@[i as int]));
            return None;
        }
        let d = (cu - 48) as u128;
        proof {
            assert(s@.take(i + 1).drop_last() =~= s@.take(i as int));
            assert(s@.take(i + 1).last() == s@[i as int]);
        }
        acc = acc * 10 + d;
        assert(acc as nat == dec_val(s@.take(i + 1)));
        if acc > u64::MAX as u128 {
            proof {
                lemma_dec_val_prefix_le(s@, i + 1);
            }
            return None;
        }
        i = i + 1;
    }
    proof {
        assert(s@.take(n as int) =~= s@);
    }
    Some(acc as u64)
}

/// The one-character string for a digit value.
fn digit_str(d: u64) -> (r: &'static str)
    requires
        d < 10,
    ensures
        r@ =~= seq![digit_char(d as nat)],
{
    proof {
        reveal_strlit("0");
        reveal_strlit("1");
        reveal_strlit("2");
        reveal_strlit("3");
        reveal_strlit("4");
        reveal_strlit("5");
        reveal_strlit("6");
        reveal_strlit("7");
        reveal_strlit("8");
        reveal_strlit("9");
    }
    if d == 0 { "0" }
    else if d == 1 { "1" }
    else if d == 2 { "2" }
    else if d == 3 { "3" }
    else if d == 4 { "4" }
    else if d == 5 { "5" }
    else if d == 6 { "6" }
    else if d == 7 { "7" }
    else if d == 8 { "8" }
    else { "9" }
}

/// Renders `n` in decimal.
pub fn u64_to_string(n: u64) -> (r: String)
    ensures
        r@ == dec_digits(n as nat),
    decreases n,
{
    if n < 10 {
        let s = digit_str(n);
        let r = s.to_owned();
        assert(r@ =~= dec_digits(n as nat));
        r
    } else {
        let mut r = u64_to_string(n / 10);
        let last = digit_str(n % 10);
        r.append(last);
        assert(r@ =~= dec_digits(n as nat));
        r
    }
}

/// Every character of a decimal rendering is a digit.
pub proof fn lemma_dec_digits_are_digits(n: nat)
    ensures
        dec_digits(n).len() >= 1,
        forall|j: int| 0 <= j < dec_digits(n).len() ==> is_digit(#[trigger] dec_digits(n)[j]),
    decreases n,
{
    if n >= 10 {
        lemma_dec_digits_are_digits(n / 10);
        assert forall|j: int| 0 <= j < dec_digits(n).len() implies is_digit(
            #[trigger] dec_digits(n)[j],
        ) by {
            if j < dec_digits(n).len() - 1 {
                assert(dec_digits(n)[j] == dec_digits(n / 10)[j]);
            }
        }
    }
}

/// A digit character reads back as its value.
pub proof fn lemma_digit_char_val(d: nat)
    requires
        d < 10,
    ensures
        digit_val(digit_char(d)) == d,
{
    assert(digit_val('0') == 0);
    assert(digit_val('1') == 1);
    assert(digit_val('2') == 2);
    assert(digit_val('3') == 3);
    assert(digit_val('4') == 4);
    assert(digit_val('5') == 5);
    assert(digit_val('6') == 6);
    assert(digit_val('7') == 7);
    assert(digit_val('8') == 8);
    assert(digit_val('9') == 9);
}

/// Reading a decimal rendering back gives the number it renders.
pub proof fn lemma_dec_digits_val(n: nat)
    ensures
        dec_val(dec_digits(n)) == n,
    decreases n,
{
    if n < 10 {
        lemma_digit_char_val(n);
        assert(dec_digits(n) == seq![digit_char(n)]);
        assert(dec_digits(n).drop_last() =~= Seq::<char>::empty());
        assert(dec_digits(n).last() == digit_char(n));
        assert(dec_val(dec_digits(n)) == dec_val(Seq::<char>::empty()) * 10 + digit_val(
            digit_char(n),
        ));
        assert(dec_val(Seq::<char>::empty()) == 0);
    } else {
        lemma_dec_digits_val(n / 10);
        lemma_digit_char_val(n % 10);
        assert(dec_digits(n).drop_last() =~= dec_digits(n / 10));
        assert(dec_digits(n).last() == digit_char(n % 10));
        assert(dec_val(dec_digits(n)) == dec_val(dec_digits(n / 10)) * 10 + digit_val(
            digit_char(n % 10),
        ));
        assert((n / 10) * 10 + n % 10 == n);
    }
}

/// `needle` occurs in `hay` starting at offset `k`.
pub open spec fn match_at(hay: Seq<char>, needle: Seq<char>, k: int) -> bool {
    0 <= k && k + needle.len() <= hay.len() && hay.subrange(k, k + needle.len()) == needle
}

/// `needle` occurs somewhere in `hay`.
pub open spec fn has_substr(hay: Seq<char>, needle: Seq<char>) -> bool {
    exists|k: int| match_at(hay, needle, k)
}

/// Substring search by character comparison.
pub fn contains_substr(hay: &str, needle: &str) -> (r: bool)
    ensures
        r == has_substr(hay@, needle@),
{
    let h = hay.unicode_len();
    let n = needle.unicode_len();
    if n > h {
        assert(forall|k: int| !match_at(hay@, needle@, k));
        return false;
    }
    if n == 0 {
        proof {
            assert(hay@.subrange(0, 0) =~= needle@);
            assert(match_at(hay@, needle@, 0));
        }
        return true;
    }
    let mut k: usize = 0;
    while k <= h - n
        invariant
            1 <= n <= h,
            h == hay@.len(),
            n == needle@.len(),
            0 <= k <= h - n + 1,
            forall|k0: int| 0 <= k0 < k ==> !match_at(hay@, needle@, k0),
        decreases h - n + 1 - k,
    {
        let mut j: usize = 0;
        let mut same = true;
        while j < n
            invariant
                0 <= j <= n,
                k + n <= h,
                h == hay@.len(),
                n == needle@.len(),
                same ==> forall|j0: int| 0 <= j0 < j ==> hay@[k + j0] == needle@[j0],
                !same ==> !match_at(hay@, needle@, k as int),
            decreases n - j,
        {
            let hc = hay.get_char(k + j);
            let nc = needle.get_char(j);
            if hc != nc {
                proof {
                    if match_at(hay@, needle@, k as int) {
                        assert(hay@.subrange(k as int, k + n)[j as int] == needle@[j as int]);
                    }
                }
                same = false;
            }
            j = j + 1;
        }
        if same {
            proof {
                assert(hay@.subrange(k as int, k + n) =~= needle@);
                assert(match_at(hay@, needle@, k as int));
            }
            return true;
        }
        k = k + 1;
    }
    proof {
        assert forall|k0: int| !match_at(hay@, needle@, k0) by {
            if match_at(hay@, needle@, k0) {
                assert(0 <= k0 <= h - n);
            }
        }
    }
    false
}

/// Index of the last occurrence of `c` in `s`, or -1 if `c` is absent.
pub open spec fn rfind(s: Seq<char>, c: char) -> int
    decreases s.len(),
{
    if s.len() == 0 {
        -1
    } else if s.last() == c {
        s.len() - 1
    } else {
        rfind(s.drop_last(), c)
    }
}

/// `rfind` names the last occurrence: the character there is `c` and no
/// later one is.
pub proof fn lemma_rfind_props(s: Seq<char>, c: char)
    ensures
        -1 <= rfind(s, c) < s.len(),
        rfind(s, c) == -1 ==> forall|j: int| 0 <= j < s.len() ==> s[j] != c,
        rfind(s, c) >= 0 ==> rfind(s, c) < s.len() && s[rfind(s, c)] == c
            && (forall|j: int| rfind(s, c) < j < s.len() ==> s[j] != c),
    decreases s.len(),
{
    if s.len() > 0 && s.last() != c {
        let t = s.drop_last();
        lemma_rfind_props(t, c);
        assert(forall|j: int| 0 <= j < t.len() ==> t[j] == s[j]);
        if rfind(s, c) == -1 {
            assert forall|j: int| 0 <= j < s.len() implies s[j] != c by {
                if j < s.len() - 1 {
                    assert(t[j] != c);
                }
            }
        } else {
            let f = rfind(s, c);
            assert(s[f] == t[f]);
            assert forall|j: int| f < j < s.len() implies s[j] != c by {
                if j < s.len() - 1 {
                    assert(t[j] != c);
                }
            }
        }
    }
}

/// Index of the first occurrence of `c` in `s`, or -1 if `c` is absent.
pub open spec fn ffind(s: Seq<char>, c: char) -> int
    decreases s.len(),
{
    if s.len() == 0 {
        -1
    } else if s[0] == c {
        0
    } else if ffind(s.drop_first(), c) == -1 {
        -1
    } else {
        1 + ffind(s.drop_first(), c)
    }
}

/// `ffind` names the first occurrence: the character there is `c` and no
/// earlier one is.
pub proof fn lemma_ffind_props(s: Seq<char>, c: char)
    ensures
        -1 <= ffind(s, c) < s.len(),
        ffind(s, c) == -1 ==> forall|j: int| 0 <= j < s.len() ==> s[j] != c,
        ffind(s, c) >= 0 ==> ffind(s, c) < s.len() && s[ffind(s, c)] == c
            && (forall|j: int| 0 <= j < ffind(s, c) ==> s[j] != c),
    decreases s.len(),
{
    if s.len() > 0 && s[0] != c {
        let t = s.drop_first();
        lemma_ffind_props(t, c);
        assert(forall|j: int| 0 <= j < t.len() ==> t[j] == s[j + 1]);
        if ffind(s, c) == -1 {
            assert forall|j: int| 0 <= j < s.len() implies s[j] != c by {
                if j > 0 {
                    assert(t[j - 1] != c);
                }
            }
        } else {
            let f = ffind(s, c);
            assert(s[f] == t[f - 1]);
            assert forall|j: int| 0 <= j < f implies s[j] != c by {
                if j > 0 {
                    assert(t[j - 1] != c);
                }
            }
        }
    }
}

/// Finds the first occurrence of `c` in `s`.
pub fn ffind_char(s: &str, c: char) -> (r: Option<usize>)
    ensures
        r is Some ==> r->0 == ffind(s@, c) && 0 <= ffind(s@, c) < s@.len(),
        r is None ==> ffind(s@, c) == -1,
{
    let n = s.unicode_len();
    let mut i: usize = 0;
    while i < n
        invariant
            0 <= i <= n,
            n == s@.len(),
            forall|j: int| 0 <= j < i ==> s@[j] != c,
        decreases n - i,
    {
        if s.get_char(i) == c {
            proof {
                lemma_ffind_props(s@, c);
                assert(s@[i as int] == c);
                if ffind(s@, c) == -1 {
                    assert(false);
                } else if ffind(s@, c) < i {
                    assert(s@[ffind(s@, c)] != c);
                } else if ffind(s@, c) > i {
                    assert(s@[i as int] != c);
                }
            }
            return Some(i);
        }
        i = i + 1;
    }
    proof {
        lemma_ffind_props(s@, c);
        if ffind(s@, c) >= 0 {
            assert(s@[ffind(s@, c)] == c);
        }
    }
    None
}

/// Length of the longest all-digit prefix of `s`.
pub open spec fn digit_prefix_len(s: Seq<char>) -> int
    decreases s.len(),
{
    if s.len() == 0 || !is_digit(s[0]) {
        0
    } else {
        1 + digit_prefix_len(s.drop_first())
    }
}

/// The digit prefix is all digits and stops at the first non-digit.
pub proof fn lemma_digit_prefix_props(s: Seq<char>)
    ensures
        0 <= digit_prefix_len(s) <= s.len(),
        forall|j: int| 0 <= j < digit_prefix_len(s) ==> is_digit(s[j]),
        digit_prefix_len(s) < s.len() ==> !is_digit(s[digit_prefix_len(s)]),
    decreases s.len(),
{
    if s.len() > 0 && is_digit(s[0]) {
        let t = s.drop_first();
        lemma_digit_prefix_props(t);
        assert(forall|j: int| 0 <= j < t.len() ==> t[j] == s[j + 1]);
        assert forall|j: int| 0 <= j < digit_prefix_len(s) implies is_digit(s[j]) by {
            if j > 0 {
                assert(is_digit(t[j - 1]));
            }
        }
        if digit_prefix_len(s) < s.len() {
            assert(!is_digit(t[digit_prefix_len(s) - 1]));
        }
    }
}

/// Length of the longest all-digit prefix, computed by scanning.
pub fn digit_prefix(s: &str) -> (d: usize)
    ensures
        d == digit_prefix_len(s@),
        0 <= d <= s@.len(),
{
    let n = s.unicode_len();
    let mut d: usize = 0;
    let mut stop = false;
    while !stop && d < n
        invariant
            0 <= d <= n,
            n == s@.len(),
            forall|j: int| 0 <= j < d ==> is_digit(#[trigger] s@[j]),
            stop ==> d < n && !is_digit(s@[d as int]),
        decreases n - d + if stop { 0int } else { 1int },
    {
        let c = s.get_char(d) as u32;
        if 48 <= c && c <= 57 {
            d = d + 1;
        } else {
            proof {
                assert(!is_digit(s@[d as int]));
            }
            stop = true;
        }
    }
    proof {
        lemma_digit_prefix_props(s@);
        let dp = digit_prefix_len(s@);
        if dp < d {
            assert(is_digit(s@[dp]));
        } else if dp > d {
            assert(is_digit(s@[d as int]));
        }
    }
    d
}

/// Character-wise string equality.
pub fn str_eq(a: &str, b: &str) -> (r: bool)
    ensures
        r == (a@ == b@),
{
    let n = a.unicode_len();
    if n != b.unicode_len() {
        return false;
    }
    let mut i: usize = 0;
    while i < n
        invariant
            0 <= i <= n,
            n == a@.len(),
            n == b@.len(),
            forall|j: int| 0 <= j < i ==> a@[j] == b@[j],
        decreases n - i,
    {
        if a.get_char(i) != b.get_char(i) {
            proof {
                assert(a@[i as int] != b@[i as int]);
            }
            return false;
        }
        i = i + 1;
    }
    proof {
        assert(a@ =~= b@);
    }
    true
}

/// Finds the last occurrence of `c` strictly below index `below`.
pub fn rfind_char_below(s: &str, c: char, below: usize) -> (r: Option<usize>)
    requires
        below <= s@.len(),
    ensures
        r is Some ==> r->0 < below && s@[r->0 as int] == c
            && (forall|j: int| r->0 < j < below ==> s@[j] != c),
        r is None ==> forall|j: int| 0 <= j < below ==> s@[j] != c,
{
    let mut i: usize = below;
    while i > 0
        invariant
            0 <= i <= below <= s@.len(),
            forall|j: int| i <= j < below ==> s@[j] != c,
        decreases i,
    {
        i = i - 1;
        if s.get_char(i) == c {
            return Some(i);
        }
    }
    None
}

} // verus!
