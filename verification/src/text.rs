//! Verified helpers on text: character-wise lower-casing, string equality,
//! substring search, and decimal parsing. These carry the contracts that the
//! argument, key-formatting and bridging modules state their behaviour with.

use vstd::prelude::*;

verus! {

/// The views of a list of strings.
pub open spec fn str_views(list: Seq<String>) -> Seq<Seq<char>> {
    list.map_values(|s: String| s@)
}

/// The lower-case form of one character: `'A'..='Z'` map to `'a'..='z'`,
/// everything else is unchanged.
pub open spec fn lower_char(c: char) -> char {
    if 'A' <= c && c <= 'Z' {
        ((c as u8) + 32) as char
    } else {
        c
    }
}

/// The character-wise lower-case form of a string.
pub open spec fn lower_seq(s: Seq<char>) -> Seq<char> {
    s.map_values(|c: char| lower_char(c))
}

/// Two strings are equal up to ASCII case.
pub open spec fn eq_ignore_case(a: Seq<char>, b: Seq<char>) -> bool {
    lower_seq(a) == lower_seq(b)
}

/// Lower-cases one character, as `lower_char` describes.
pub fn lower_char_exec(c: char) -> (r: char)
    ensures
        r == lower_char(c),
{
    if 'A' <= c && c <= 'Z' {
        (((c as u8) + 32) as char)
    } else {
        c
    }
}

/// Character-exact string equality.
pub fn str_equal(a: &str, b: &str) -> (r: bool)
    ensures
        r == (a@ == b@),
{
    let alen = a.unicode_len();
    let blen = b.unicode_len();
    if alen != blen {
        assert(a@ != b@) by {
            assert(a@.len() != b@.len());
        }
        return false;
    }
    let mut i: usize = 0;
    while i < alen
        invariant
            i <= alen,
            alen == a@.len(),
            alen == b@.len(),
            forall|j: int| 0 <= j < i ==> a@[j] == b@[j],
        decreases alen - i,
    {
        if a.get_char(i) != b.get_char(i) {
            return false;
        }
        i = i + 1;
    }
    proof {
        assert(a@ =~= b@);
    }
    true
}

/// String equality up to ASCII case.
pub fn str_eq_ignore_case(a: &str, b: &str) -> (r: bool)
    ensures
        r == eq_ignore_case(a@, b@),
{
    let alen = a.unicode_len();
    let blen = b.unicode_len();
    if alen != blen {
        assert(!eq_ignore_case(a@, b@)) by {
            assert(lower_seq(a@).len() != lower_seq(b@).len());
        }
        return false;
    }
    let mut i: usize = 0;
    while i < alen
        invariant
            i <= alen,
            alen == a@.len(),
            alen == b@.len(),
            forall|j: int| 0 <= j < i ==> lower_char(a@[j]) == lower_char(b@[j]),
        decreases alen - i,
    {
        if lower_char_exec(a.get_char(i)) != lower_char_exec(b.get_char(i)) {
            assert(lower_seq(a@)[i as int] != lower_seq(b@)[i as int]);
            return false;
        }
        i = i + 1;
    }
    proof {
        assert(lower_seq(a@) =~= lower_seq(b@));
    }
    true
}

/// `n` occurs in `h` as a contiguous run starting at `i`.
pub open spec fn matches_at(h: Seq<char>, n: Seq<char>, i: int) -> bool {
    0 <= i && i + n.len() <= h.len() && h.subrange(i, i + n.len()) == n
}

/// `n` occurs somewhere in `h` as a contiguous run.
pub open spec fn contains_seq(h: Seq<char>, n: Seq<char>) -> bool {
    exists|i: int| matches_at(h, n, i)
}

/// Whether `needle` occurs contiguously in `haystack`.
pub fn str_contains(haystack: &str, needle: &str) -> (r: bool)
    ensures
        r == contains_seq(haystack@, needle@),
{
    let hlen = haystack.unicode_len();
    let nlen = needle.unicode_len();
    if nlen > hlen {
        assert(!contains_seq(haystack@, needle@)) by {
            assert(forall|i: int| !matches_at(haystack@, needle@, i));
        }
        return false;
    }
    if nlen == 0 {
        assert(matches_at(haystack@, needle@, 0)) by {
            assert(haystack@.subrange(0, 0) =~= needle@);
        }
        return true;
    }
    let mut i: usize = 0;
    while i <= hlen - nlen
        invariant
            0 < nlen <= hlen,
            i <= hlen,
            hlen == haystack@.len(),
            nlen == needle@.len(),
            forall|k: int| 0 <= k < i ==> !matches_at(haystack@, needle@, k),
        decreases hlen - nlen - i + 1,
    {
        let mut j: usize = 0;
        let mut hit = true;
        while j < nlen
            invariant
                j <= nlen,
                i + nlen <= hlen,
                hlen == haystack@.len(),
                nlen == needle@.len(),
                hit ==> forall|m: int| 0 <= m < j ==> haystack@[i + m] == needle@[m],
                !hit ==> !matches_at(haystack@, needle@, i as int),
            decreases nlen - j,
        {
            if haystack.get_char(i + j) != needle.get_char(j) {
                assert(!matches_at(haystack@, needle@, i as int)) by {
                    if matches_at(haystack@, needle@, i as int) {
                        assert(haystack@.subrange(i as int, i + nlen)[j as int] == needle@[j as int]);
                    }
                }
                hit = false;
            }
            j = j + 1;
        }
        if hit {
            assert(matches_at(haystack@, needle@, i as int)) by {
                assert(haystack@.subrange(i as int, i + nlen) =~= needle@);
            }
            return true;
        }
        i = i + 1;
    }
    assert(!contains_seq(haystack@, needle@)) by {
        assert(forall|k: int| k >= i ==> !matches_at(haystack@, needle@, k));
    }
    false
}

/// A decimal digit.
pub open spec fn is_digit(c: char) -> bool {
    '0' <= c && c <= '9'
}

/// The value of one decimal digit.
pub open spec fn digit_val(c: char) -> int {
    c as int - '0' as int
}

/// Every character of `s` is a decimal digit.
pub open spec fn all_digits(s: Seq<char>) -> bool {
    forall|i: int| 0 <= i < s.len() ==> is_digit(#[trigger] s[i])
}

/// The value of `s` read as a decimal numeral.
pub open spec fn dec_value(s: Seq<char>) -> int
    decreases s.len(),
{
    if s.len() == 0 {
        0
    } else {
        dec_value(s.drop_last()) * 10 + digit_val(s.last())
    }
}

pub proof fn lemma_dec_value_nonneg(s: Seq<char>)
    requires
        all_digits(s),
    ensures
        dec_value(s) >= 0,
    decreases s.len(),
{
    if s.len() > 0 {
        assert(all_digits(s.drop_last()));
        lemma_dec_value_nonneg(s.drop_last());
    }
}

/// Extending a numeral on the right can only increase its value.
pub proof fn lemma_dec_value_prefix(s: Seq<char>, i: int)
    requires
        all_digits(s),
        0 <= i <= s.len(),
    ensures
        dec_value(s) >= dec_value(s.take(i)),
    decreases s.len() - i,
{
    if i < s.len() {
        lemma_dec_value_prefix(s, i + 1);
        assert(s.take(i + 1).drop_last() =~= s.take(i));
        assert(s.take(i + 1).last() == s[i]);
        assert(all_digits(s.take(i)));
        lemma_dec_value_nonneg(s.take(i));
        assert(dec_value(s.take(i + 1)) == dec_value(s.take(i)) * 10 + digit_val(s[i]));
    } else {
        assert(s.take(i) =~= s);
    }
}

/// `s` is a decimal numeral whose value fits in `u16`.
pub open spec fn is_u16_numeral(s: Seq<char>) -> bool {
    s.len() > 0 && all_digits(s) && dec_value(s) <= 65535
}

/// Parses a decimal numeral into a `u16`. Returns `None` exactly when `s` is
/// empty, holds a non-digit, or exceeds `u16`'s range.
pub fn parse_u16(s: &str) -> (r: Option<u16>)
    ensures
        match r {
            Some(v) => is_u16_numeral(s@) && v == dec_value(s@),
            None => !is_u16_numeral(s@),
        },
{
    let len = s.unicode_len();
    if len == 0 {
        return None;
    }
    let mut acc: u32 = 0;
    let mut i: usize = 0;
    while i < len
        invariant
            i <= len,
            len == s@.len(),
            len > 0,
            all_digits(s@.take(i as int)),
            acc == dec_value(s@.take(i as int)),
            acc <= 65535,
        decreases len - i,
    {
        let c = s.get_char(i);
        if !('0' <= c && c <= '9') {
            assert(!all_digits(s@)) by {
                assert(!is_digit(s@[i as int]));
            }
            return None;
        }
        let d: u32 = (c as u32) - 48;
        proof {
            assert(s@.take(i + 1).drop_last() =~= s@.take(i as int));
            assert(s@.take(i + 1).last() == s@[i as int]);
        }
        acc = acc * 10 + d;
        i = i + 1;
        if acc > 65535 {
            assert(!is_u16_numeral(s@)) by {
                if all_digits(s@) {
                    lemma_dec_value_prefix(s@, i as int);
                    assert(s@.take(len as int) =~= s@);
                }
            }
            return None;
        }
    }
    proof {
        assert(s@.take(len as int) =~= s@);
    }
    Some(acc as u16)
}

/// `s` is a decimal numeral whose value fits in `u32`.
pub open spec fn is_u32_numeral(s: Seq<char>) -> bool {
    s.len() > 0 && all_digits(s) && dec_value(s) <= 4294967295
}

/// Parses a decimal numeral into a `u32`. Returns `None` exactly when `s` is
/// empty, holds a non-digit, or exceeds `u32`'s range.
pub fn parse_u32(s: &str) -> (r: Option<u32>)
    ensures
        match r {
            Some(v) => is_u32_numeral(s@) && v == dec_value(s@),
            None => !is_u32_numeral(s@),
        },
{
    let len = s.unicode_len();
    if len == 0 {
        return None;
    }
    let mut acc: u64 = 0;
    let mut i: usize = 0;
    while i < len
        invariant
            i <= len,
            len == s@.len(),
            len > 0,
            all_digits(s@.take(i as int)),
            acc == dec_value(s@.take(i as int)),
            acc <= 4294967295,
        decreases len - i,
    {
        let c = s.get_char(i);
        if !('0' <= c && c <= '9') {
            assert(!all_digits(s@)) by {
                assert(!is_digit(s@[i as int]));
            }
            return None;
        }
        let d: u64 = (c as u64) - 48;
        proof {
            assert(s@.take(i + 1).drop_last() =~= s@.take(i as int));
            assert(s@.take(i + 1).last() == s@[i as int]);
        }
        acc = acc * 10 + d;
        i = i + 1;
        if acc > 4294967295 {
            assert(!is_u32_numeral(s@)) by {
                if all_digits(s@) {
                    lemma_dec_value_prefix(s@, i as int);
                    assert(s@.take(len as int) =~= s@);
                }
            }
            return None;
        }
    }
    proof {
        assert(s@.take(len as int) =~= s@);
    }
    Some(acc as u32)
}

/// `s` is a decimal numeral for one address octet: value at most 255, and no
/// leading zero unless `s` is exactly `"0"`.
pub open spec fn is_octet_numeral(s: Seq<char>) -> bool {
    s.len() > 0 && all_digits(s) && dec_value(s) <= 255 && (s.len() > 1 ==> s[0] != '0')
}

/// Parses one dotted-quad octet. Returns `None` exactly when `s` is empty,
/// holds a non-digit, exceeds 255, or has a superfluous leading zero.
pub fn parse_octet(s: &str) -> (r: Option<u8>)
    ensures
        match r {
            Some(v) => is_octet_numeral(s@) && v == dec_value(s@),
            None => !is_octet_numeral(s@),
        },
{
    let len = s.unicode_len();
    if len == 0 {
        return None;
    }
    if len > 1 && s.get_char(0) == '0' {
        return None;
    }
    let mut acc: u32 = 0;
    let mut i: usize = 0;
    while i < len
        invariant
            i <= len,
            len == s@.len(),
            len > 0,
            all_digits(s@.take(i as int)),
            acc == dec_value(s@.take(i as int)),
            acc <= 255,
        decreases len - i,
    {
        let c = s.get_char(i);
        if !('0' <= c && c <= '9') {
            assert(!all_digits(s@)) by {
                assert(!is_digit(s@[i as int]));
            }
            return None;
        }
        let d: u32 = (c as u32) - 48;
        proof {
            assert(s@.take(i + 1).drop_last() =~= s@.take(i as int));
            assert(s@.take(i + 1).last() == s@[i as int]);
        }
        acc = acc * 10 + d;
        i = i + 1;
        if acc > 255 {
            assert(!is_octet_numeral(s@)) by {
                if all_digits(s@) {
                    lemma_dec_value_prefix(s@, i as int);
                    assert(s@.take(len as int) =~= s@);
                }
            }
            return None;
        }
    }
    proof {
        assert(s@.take(len as int) =~= s@);
    }
    Some(acc as u8)
}

/// The fields of `s` split on `sep`: the maximal runs between occurrences of
/// `sep`. Splitting the empty string gives one empty field; `n` separators
/// give `n + 1` fields.
pub open spec fn split_char(s: Seq<char>, sep: char) -> Seq<Seq<char>>
    decreases s.len(),
{
    let i = find_char(s, sep);
    if i == -1 || i < 0 || i >= s.len() {
        seq![s]
    } else {
        seq![s.take(i)] + split_char(s.skip(i + 1), sep)
    }
}

/// Splits a string on a separator character, as `split_char` describes.
pub fn split_str(s: &str, sep: char) -> (r: Vec<String>)
    ensures
        str_views(r@) == split_char(s@, sep),
{
    let mut parts: Vec<String> = Vec::new();
    let mut rest: String = s.to_owned();
    loop
        invariant
            str_views(parts@) + split_char(rest@, sep) == split_char(s@, sep),
        decreases rest@.len(),
    {
        let len = rest.unicode_len();
        match find_first(rest.as_str(), sep) {
            Some(i) => {
                proof {
                    lemma_find_char(rest@, sep);
                }
                let head = rest.as_str().substring_char(0, i).to_owned();
                let tail = rest.as_str().substring_char(i + 1, len).to_owned();
                proof {
                    assert(head@ =~= rest@.take(i as int));
                    assert(tail@ =~= rest@.skip(i + 1));
                    assert(str_views(parts@.push(head)) =~= str_views(parts@).push(head@));
                    assert(str_views(parts@).push(head@) + split_char(tail@, sep) =~~= str_views(
                        parts@,
                    ) + (seq![rest@.take(i as int)] + split_char(rest@.skip(i + 1), sep)));
                }
                parts.push(head);
                rest = tail;
            },
            None => {
                proof {
                    assert(split_char(rest@, sep) =~~= seq![rest@]);
                    assert(str_views(parts@.push(rest)) =~= str_views(parts@).push(rest@));
                    assert(str_views(parts@).push(rest@) =~~= str_views(parts@) + seq![rest@]);
                }
                parts.push(rest);
                return parts;
            },
        }
    }
}

/// A hexadecimal digit, either case.
pub open spec fn is_hex_digit_char(c: char) -> bool {
    ('0' <= c && c <= '9') || ('a' <= c && c <= 'f') || ('A' <= c && c <= 'F')
}

/// The value of one hexadecimal digit.
pub open spec fn hex_digit_val(c: char) -> int {
    if '0' <= c && c <= '9' {
        c as int - '0' as int
    } else if 'a' <= c && c <= 'f' {
        c as int - 'a' as int + 10
    } else {
        c as int - 'A' as int + 10
    }
}

/// Every character of `s` is a hexadecimal digit.
pub open spec fn all_hex_digits(s: Seq<char>) -> bool {
    forall|i: int| 0 <= i < s.len() ==> is_hex_digit_char(#[trigger] s[i])
}

/// The value of `s` read as a hexadecimal numeral.
pub open spec fn hexgroup_value(s: Seq<char>) -> int
    decreases s.len(),
{
    if s.len() == 0 {
        0
    } else {
        hexgroup_value(s.drop_last()) * 16 + hex_digit_val(s.last())
    }
}

/// One group of a colon-hex address: one to four hexadecimal digits.
pub open spec fn is_hex_group(s: Seq<char>) -> bool {
    1 <= s.len() <= 4 && all_hex_digits(s)
}

/// Sixteen to the power `n`.
pub open spec fn pow16(n: nat) -> int
    decreases n,
{
    if n == 0 {
        1
    } else {
        16 * pow16((n - 1) as nat)
    }
}

/// A hexadecimal numeral of `n` digits is below sixteen to the `n`.
pub proof fn lemma_hexgroup_bound(s: Seq<char>)
    requires
        all_hex_digits(s),
    ensures
        0 <= hexgroup_value(s) < pow16(s.len()),
    decreases s.len(),
{
    if s.len() > 0 {
        assert(all_hex_digits(s.drop_last()));
        lemma_hexgroup_bound(s.drop_last());
        assert(0 <= hex_digit_val(s.last()) < 16);
    }
}

/// Parses one group of a colon-hex address. Returns `None` exactly when `s`
/// is empty, longer than four characters, or holds a non-hexadecimal digit.
pub fn parse_hex_group(s: &str) -> (r: Option<u16>)
    ensures
        match r {
            Some(v) => is_hex_group(s@) && v == hexgroup_value(s@),
            None => !is_hex_group(s@),
        },
{
    let len = s.unicode_len();
    if len == 0 || len > 4 {
        return None;
    }
    let mut acc: u32 = 0;
    let mut i: usize = 0;
    while i < len
        invariant
            i <= len,
            len == s@.len(),
            1 <= len <= 4,
            all_hex_digits(s@.take(i as int)),
            acc == hexgroup_value(s@.take(i as int)),
            acc < 65536,
        decreases len - i,
    {
        let c = s.get_char(i);
        let d: u32;
        if '0' <= c && c <= '9' {
            d = (c as u32) - 48;
        } else if 'a' <= c && c <= 'f' {
            d = (c as u32) - 97 + 10;
        } else if 'A' <= c && c <= 'F' {
            d = (c as u32) - 65 + 10;
        } else {
            assert(!all_hex_digits(s@)) by {
                assert(!is_hex_digit_char(s@[i as int]));
            }
            return None;
        }
        proof {
            assert(s@.take(i + 1).drop_last() =~= s@.take(i as int));
            assert(s@.take(i + 1).last() == s@[i as int]);
            assert(all_hex_digits(s@.take(i + 1)));
            lemma_hexgroup_bound(s@.take(i + 1));
            reveal_with_fuel(pow16, 5);
            assert(pow16(1) == 16);
            assert(pow16(2) == 256);
            assert(pow16(3) == 4096);
            assert(pow16(4) == 65536);
        }
        acc = acc * 16 + d;
        i = i + 1;
    }
    proof {
        assert(s@.take(len as int) =~= s@);
    }
    Some(acc as u16)
}

/// The index of the first occurrence of `c` in `s`, or `-1` if `c` does not
/// occur.
pub open spec fn find_char(s: Seq<char>, c: char) -> int
    decreases s.len(),
{
    if s.len() == 0 {
        -1
    } else if s[0] == c {
        0
    } else {
        let r = find_char(s.skip(1), c);
        if r == -1 {
            -1
        } else {
            r + 1
        }
    }
}

/// `find_char` returns the first index holding `c`, or `-1` when none does.
pub proof fn lemma_find_char(s: Seq<char>, c: char)
    ensures
        find_char(s, c) == -1 ==> forall|j: int| 0 <= j < s.len() ==> s[j] != c,
        find_char(s, c) != -1 ==> {
            let r = find_char(s, c);
            &&& 0 <= r < s.len()
            &&& s[r] == c
            &&& forall|j: int| 0 <= j < r ==> s[j] != c
        },
    decreases s.len(),
{
    if s.len() > 0 && s[0] != c {
        lemma_find_char(s.skip(1), c);
        assert(forall|j: int| 1 <= j < s.len() ==> s[j] == s.skip(1)[j - 1]);
    }
}

/// Finds the first occurrence of `c` in `s`.
pub fn find_first(s: &str, c: char) -> (r: Option<usize>)
    ensures
        match r {
            Some(i) => find_char(s@, c) == i,
            None => find_char(s@, c) == -1,
        },
{
    let len = s.unicode_len();
    let mut i: usize = 0;
    while i < len
        invariant
            i <= len,
            len == s@.len(),
            forall|j: int| 0 <= j < i ==> s@[j] != c,
        decreases len - i,
    {
        if s.get_char(i) == c {
            proof {
                lemma_find_char(s@, c);
            }
            return Some(i);
        }
        i = i + 1;
    }
    proof {
        lemma_find_char(s@, c);
    }
    None
}

} // verus!
