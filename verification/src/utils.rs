//! Locale selection with fuzzy matching.
//!
//! The surrounding process reads the requested locale from the environment or
//! the system; this module holds the verified choice among the available
//! locales. Falls back to English when nothing matches.

use vstd::prelude::*;

use crate::text::{str_equal, str_views};

verus! {

/// A separator between a language code and a region tag.
pub open spec fn is_locale_sep(c: char) -> bool {
    c == '-' || c == '_'
}

/// The index of the first locale separator in `s`, or `-1` if none occurs.
pub open spec fn find_sep(s: Seq<char>) -> int
    decreases s.len(),
{
    if s.len() == 0 {
        -1
    } else if is_locale_sep(s[0]) {
        0
    } else {
        let r = find_sep(s.skip(1));
        if r == -1 {
            -1
        } else {
            r + 1
        }
    }
}

pub proof fn lemma_find_sep(s: Seq<char>)
    ensures
        find_sep(s) == -1 ==> forall|j: int| 0 <= j < s.len() ==> !is_locale_sep(s[j]),
        find_sep(s) != -1 ==> {
            let r = find_sep(s);
            &&& 0 <= r < s.len()
            &&& is_locale_sep(s[r])
            &&& forall|j: int| 0 <= j < r ==> !is_locale_sep(s[j])
        },
    decreases s.len(),
{
    if s.len() > 0 && !is_locale_sep(s[0]) {
        lemma_find_sep(s.skip(1));
        assert(forall|j: int| 1 <= j < s.len() ==> s[j] == s.skip(1)[j - 1]);
    }
}

/// The language code of a locale tag: everything before the first `-` or `_`,
/// or the whole tag when neither occurs.
pub open spec fn lang_code(s: Seq<char>) -> Seq<char> {
    if find_sep(s) == -1 {
        s
    } else {
        s.take(find_sep(s))
    }
}

/// The locale the application runs under, given the requested tag and the
/// available locales: the request itself when available, else its bare
/// language code when that is available, else `en`.
pub open spec fn locale_choice(req: Seq<char>, avail: Seq<Seq<char>>) -> Seq<char> {
    if avail.contains(req) {
        req
    } else if avail.contains(lang_code(req)) {
        lang_code(req)
    } else {
        "en"@
    }
}

/// Whether `list` holds a string equal to `x`.
fn list_contains(list: &Vec<String>, x: &str) -> (r: bool)
    ensures
        r == str_views(list@).contains(x@),
{
    let mut i: usize = 0;
    while i < list.len()
        invariant
            i <= list@.len(),
            forall|j: int| 0 <= j < i ==> str_views(list@)[j] != x@,
        decreases list@.len() - i,
    {
        if str_equal(list[i].as_str(), x) {
            assert(str_views(list@)[i as int] == x@);
            return true;
        }
        i = i + 1;
    }
    assert(!str_views(list@).contains(x@)) by {
        assert(forall|j: int|
            0 <= j < str_views(list@).len() ==> str_views(list@)[j] != x@);
    }
    false
}

/// Extracts the language code of a locale tag.
pub fn lang_code_exec(s: &str) -> (r: String)
    ensures
        r@ == lang_code(s@),
{
    let len = s.unicode_len();
    let mut i: usize = 0;
    while i < len
        invariant
            i <= len,
            len == s@.len(),
            forall|j: int| 0 <= j < i ==> !is_locale_sep(s@[j]),
        decreases len - i,
    {
        let c = s.get_char(i);
        if c == '-' || c == '_' {
            proof {
                lemma_find_sep(s@);
                assert(find_sep(s@) == i);
            }
            return s.substring_char(0, i).to_owned();
        }
        i = i + 1;
    }
    proof {
        lemma_find_sep(s@);
    }
    s.to_owned()
}

/// Chooses the locale to run under, as `locale_choice` describes.
pub fn select_locale(requested: &str, available: &Vec<String>) -> (r: String)
    ensures
        r@ == locale_choice(requested@, str_views(available@)),
{
    if list_contains(available, requested) {
        return requested.to_owned();
    }
    let code = lang_code_exec(requested);
    if list_contains(available, code.as_str()) {
        return code;
    }
    String::from_str("en")
}

} // verus!
