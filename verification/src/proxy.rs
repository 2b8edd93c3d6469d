//! The decision core of the stream-bridging engine.
//!
//! The engine accepts rendezvous sessions from the overlay, accepts the
//! streams multiplexed over each session, and bridges every stream to one
//! fixed local TCP target. The async accept loops and the byte copying are
//! I/O and run in the surrounding process; this module holds what they
//! decide: how the target string is parsed, how each accept outcome is acted
//! on, how the two copy directions combine into one bridge result, how errors
//! are classified for logging, and the single-use life cycle of one bridge.

use vstd::prelude::*;

use crate::text::{
    contains_seq, dec_value, find_char, is_hex_group, is_octet_numeral, is_u16_numeral,
    is_u32_numeral, lemma_find_char, parse_octet, parse_u16, parse_u32, str_contains,
};
use crate::text::{find_first, hexgroup_value, parse_hex_group, split_char, split_str, str_views};

verus! {

/// The address family of the local destination.
#[derive(Debug, Clone, Copy, PartialEq, Eq, Structural)]
pub enum HostAddr {
    /// A dotted-quad address.
    V4 { a: u8, b: u8, c: u8, d: u8 },
    /// The eight 16-bit groups of a colon-hex address, and its scope
    /// identifier (zero when the literal names none).
    V6 { g0: u16, g1: u16, g2: u16, g3: u16, g4: u16, g5: u16, g6: u16, g7: u16, zone: u32 },
}

/// The local destination of every bridge: an address and a port.
#[derive(Debug, Clone, Copy, PartialEq, Eq, Structural)]
pub struct TargetAddr {
    pub host: HostAddr,
    pub port: u16,
}

/// Why one bridge invocation failed.
#[derive(Debug)]
pub enum BridgeError {
    /// The configured target string is malformed. A configuration fault, not
    /// a transient condition: surfaced, never retried.
    AddressError,
    /// The local TCP connection was refused or failed. Not retried; the
    /// caller logs and moves on.
    TargetUnreachable,
    /// One copy direction failed mid-stream; `message` is the failure's text.
    CopyFailed { message: String },
}

/// The first position where two colons stand together in `s`, or `-1` if
/// none do.
pub open spec fn find_dcolon(s: Seq<char>) -> int
    decreases s.len(),
{
    if s.len() < 2 {
        -1
    } else if s[0] == ':' && s[1] == ':' {
        0
    } else {
        let r = find_dcolon(s.skip(1));
        if r == -1 {
            -1
        } else {
            r + 1
        }
    }
}

pub proof fn lemma_find_dcolon(s: Seq<char>)
    ensures
        find_dcolon(s) == -1 ==> forall|j: int|
            0 <= j < s.len() - 1 ==> !((#[trigger] s[j]) == ':' && s[j + 1] == ':'),
        find_dcolon(s) != -1 ==> {
            let r = find_dcolon(s);
            &&& 0 <= r < s.len() - 1
            &&& s[r] == ':'
            &&& s[r + 1] == ':'
            &&& forall|j: int| 0 <= j < r ==> !((#[trigger] s[j]) == ':' && s[j + 1] == ':')
        },
    decreases s.len(),
{
    if s.len() >= 2 && !(s[0] == ':' && s[1] == ':') {
        lemma_find_dcolon(s.skip(1));
        assert(forall|j: int| 1 <= j < s.len() ==> s[j] == s.skip(1)[j - 1]);
    }
}

/// The colon-separated fields of one side of a compressed address: none when
/// that side is empty.
pub open spec fn side_fields(t: Seq<char>) -> Seq<Seq<char>> {
    if t.len() == 0 {
        Seq::empty()
    } else {
        split_char(t, ':')
    }
}

/// Every field is one hexadecimal group.
pub open spec fn all_hex_groups(fs: Seq<Seq<char>>) -> bool {
    forall|i: int| 0 <= i < fs.len() ==> is_hex_group(#[trigger] fs[i])
}

/// The 16-bit words the fields denote.
pub open spec fn group_words(fs: Seq<Seq<char>>) -> Seq<u16> {
    fs.map_values(|f: Seq<char>| hexgroup_value(f) as u16)
}

/// The two 16-bit words of an embedded dotted-quad field.
pub open spec fn quad_words(f: Seq<char>) -> Option<(u16, u16)> {
    let fs = split_char(f, '.');
    if fs.len() == 4 && is_octet_numeral(fs[0]) && is_octet_numeral(fs[1]) && is_octet_numeral(
        fs[2],
    ) && is_octet_numeral(fs[3]) {
        Some(
            (
                (dec_value(fs[0]) * 256 + dec_value(fs[1])) as u16,
                (dec_value(fs[2]) * 256 + dec_value(fs[3])) as u16,
            ),
        )
    } else {
        None
    }
}

/// The words of a run of fields whose last field may be an embedded dotted
/// quad: hexadecimal groups give one word each, the quad gives two.
pub open spec fn tail_words(fs: Seq<Seq<char>>) -> Option<Seq<u16>> {
    if fs.len() == 0 {
        Some(Seq::empty())
    } else if all_hex_groups(fs) {
        Some(group_words(fs))
    } else {
        match quad_words(fs.last()) {
            Some(q) => if all_hex_groups(fs.drop_last()) {
                Some(group_words(fs.drop_last()) + seq![q.0, q.1])
            } else {
                None
            },
            None => None,
        }
    }
}

/// The eight 16-bit words a colon-hex address denotes: hexadecimal groups,
/// optionally one `::` standing for the omitted zero groups, and optionally
/// an embedded dotted-quad as the last two words. `None` when `inner` is no
/// such address.
pub open spec fn v6_words(inner: Seq<char>) -> Option<Seq<u16>> {
    let d = find_dcolon(inner);
    if d == -1 {
        match tail_words(split_char(inner, ':')) {
            Some(w) => if w.len() == 8 {
                Some(w)
            } else {
                None
            },
            None => None,
        }
    } else {
        let lf = side_fields(inner.take(d));
        let rf = side_fields(inner.skip(d + 2));
        if all_hex_groups(lf) {
            match tail_words(rf) {
                Some(rw) => if lf.len() + rw.len() <= 7 {
                    Some(
                        group_words(lf) + Seq::new((8 - lf.len() - rw.len()) as nat, |q: int| 0u16)
                            + rw,
                    )
                } else {
                    None
                },
                None => None,
            }
        } else {
            None
        }
    }
}

/// What a target string parses to. A bracketed colon-hex address — optionally
/// with a decimal scope identifier after `%` — then a colon and the port; or
/// four decimal octets separated by dots, a colon and the port. Octets carry
/// no superfluous leading zero; the port is any decimal `u16`.
pub open spec fn target_of(s: Seq<char>) -> Option<TargetAddr> {
    if s.len() > 0 && s[0] == '[' {
        let close = find_char(s, ']');
        if close == -1 || close + 1 >= s.len() || s[close + 1] != ':' {
            None
        } else {
            let inner = s.subrange(1, close);
            let p = s.skip(close + 2);
            let m = find_char(inner, '%');
            let addr = if m == -1 {
                inner
            } else {
                inner.take(m)
            };
            let zone_ok = if m == -1 {
                true
            } else {
                is_u32_numeral(inner.skip(m + 1))
            };
            let zone = if m == -1 {
                0
            } else {
                dec_value(inner.skip(m + 1)) as u32
            };
            match v6_words(addr) {
                Some(w) => if zone_ok && is_u16_numeral(p) {
                    Some(
                        TargetAddr {
                            host: HostAddr::V6 {
                                g0: w[0],
                                g1: w[1],
                                g2: w[2],
                                g3: w[3],
                                g4: w[4],
                                g5: w[5],
                                g6: w[6],
                                g7: w[7],
                                zone,
                            },
                            port: dec_value(p) as u16,
                        },
                    )
                } else {
                    None
                },
                None => None,
            }
        }
    } else {
        target_of_v4(s)
    }
}

/// The dotted-quad reading of a target string.
pub open spec fn target_of_v4(s: Seq<char>) -> Option<TargetAddr> {
    let d1 = find_char(s, '.');
    if d1 == -1 {
        None
    } else {
        let o1 = s.take(d1);
        let r1 = s.skip(d1 + 1);
        let d2 = find_char(r1, '.');
        if d2 == -1 {
            None
        } else {
            let o2 = r1.take(d2);
            let r2 = r1.skip(d2 + 1);
            let d3 = find_char(r2, '.');
            if d3 == -1 {
                None
            } else {
                let o3 = r2.take(d3);
                let r3 = r2.skip(d3 + 1);
                let c = find_char(r3, ':');
                if c == -1 {
                    None
                } else {
                    let o4 = r3.take(c);
                    let p = r3.skip(c + 1);
                    if is_octet_numeral(o1) && is_octet_numeral(o2) && is_octet_numeral(o3)
                        && is_octet_numeral(o4) && is_u16_numeral(p) {
                        Some(
                            TargetAddr {
                                host: HostAddr::V4 {
                                    a: dec_value(o1) as u8,
                                    b: dec_value(o2) as u8,
                                    c: dec_value(o3) as u8,
                                    d: dec_value(o4) as u8,
                                },
                                port: dec_value(p) as u16,
                            },
                        )
                    } else {
                        None
                    }
                }
            }
        }
    }
}

/// Finds the first run of two colons in `s`.
fn find_dcolon_exec(s: &str) -> (r: Option<usize>)
    ensures
        match r {
            Some(i) => find_dcolon(s@) == i,
            None => find_dcolon(s@) == -1,
        },
{
    let len = s.unicode_len();
    if len < 2 {
        return None;
    }
    let mut j: usize = 0;
    while j + 1 < len
        invariant
            j + 1 <= len,
            len == s@.len(),
            len >= 2,
            forall|k: int| 0 <= k < j ==> !((#[trigger] s@[k]) == ':' && s@[k + 1] == ':'),
        decreases len - j,
    {
        if s.get_char(j) == ':' && s.get_char(j + 1) == ':' {
            proof {
                lemma_find_dcolon(s@);
            }
            return Some(j);
        }
        j = j + 1;
    }
    proof {
        lemma_find_dcolon(s@);
    }
    None
}

/// Parses one embedded dotted-quad field into its two 16-bit words.
fn parse_quad_field(f: &str) -> (r: Option<(u16, u16)>)
    ensures
        match r {
            Some(q) => quad_words(f@) == Some(q),
            None => quad_words(f@) == None::<(u16, u16)>,
        },
{
    let parts = split_str(f, '.');
    let ghost fs = split_char(f@, '.');
    if parts.len() != 4 {
        return None;
    }
    proof {
        assert(fs[0] == parts@[0]@);
        assert(fs[1] == parts@[1]@);
        assert(fs[2] == parts@[2]@);
        assert(fs[3] == parts@[3]@);
    }
    let o0 = match parse_octet(parts[0].as_str()) {
        Some(v) => v,
        None => {
            return None;
        },
    };
    let o1 = match parse_octet(parts[1].as_str()) {
        Some(v) => v,
        None => {
            return None;
        },
    };
    let o2 = match parse_octet(parts[2].as_str()) {
        Some(v) => v,
        None => {
            return None;
        },
    };
    let o3 = match parse_octet(parts[3].as_str()) {
        Some(v) => v,
        None => {
            return None;
        },
    };
    Some(((o0 as u16) * 256 + (o1 as u16), (o2 as u16) * 256 + (o3 as u16)))
}

/// Parses a run of fields whose last may be an embedded dotted quad, as
/// `tail_words` describes.
fn parse_tail_words(fields: &Vec<String>) -> (r: Option<Vec<u16>>)
    ensures
        match r {
            Some(v) => tail_words(str_views(fields@)) == Some(v@),
            None => tail_words(str_views(fields@)) == None::<Seq<u16>>,
        },
{
    let ghost fs = str_views(fields@);
    let n = fields.len();
    if n == 0 {
        let empty: Vec<u16> = Vec::new();
        proof {
            assert(empty@ =~= Seq::<u16>::empty());
        }
        return Some(empty);
    }
    let mut words: Vec<u16> = Vec::new();
    let mut i: usize = 0;
    while i < n - 1
        invariant
            n == fields@.len(),
            n >= 1,
            i <= n - 1,
            fs == str_views(fields@),
            forall|k: int| 0 <= k < i ==> is_hex_group(#[trigger] fs[k]),
            words@ == group_words(fs.take(i as int)),
        decreases n - i,
    {
        proof {
            assert(fs[i as int] == fields@[i as int]@);
        }
        match parse_hex_group(fields[i].as_str()) {
            Some(v) => {
                proof {
                    assert(fs.take(i + 1) =~~= fs.take(i as int).push(fs[i as int]));
                    assert(group_words(fs.take(i + 1)) =~= group_words(fs.take(i as int)).push(
                        (hexgroup_value(fs[i as int]) as u16),
                    ));
                }
                words.push(v);
            },
            None => {
                proof {
                    assert(!all_hex_groups(fs)) by {
                        assert(!is_hex_group(fs[i as int]));
                    }
                    assert(!all_hex_groups(fs.drop_last())) by {
                        assert(fs.drop_last()[i as int] == fs[i as int]);
                        assert(!is_hex_group(fs.drop_last()[i as int]));
                    }
                }
                return None;
            },
        }
        i = i + 1;
    }
    proof {
        assert(fs[n - 1] == fields@[n - 1]@);
    }
    match parse_hex_group(fields[n - 1].as_str()) {
        Some(v) => {
            proof {
                assert(all_hex_groups(fs));
                assert(fs.take(n as int - 1).push(fs[n - 1]) =~~= fs);
                assert(group_words(fs.take(n as int - 1)).push((hexgroup_value(fs[n - 1]) as u16))
                    =~= group_words(fs));
            }
            words.push(v);
            Some(words)
        },
        None => {
            match parse_quad_field(fields[n - 1].as_str()) {
                Some(q) => {
                    proof {
                        assert(!all_hex_groups(fs)) by {
                            assert(!is_hex_group(fs[n - 1]));
                        }
                        assert(fs.last() == fs[n - 1]);
                        assert(fs.drop_last() =~~= fs.take(n as int - 1));
                        assert(all_hex_groups(fs.drop_last()));
                        assert(group_words(fs.take(n as int - 1)).push(q.0).push(q.1)
                            =~= group_words(fs.drop_last()) + seq![q.0, q.1]);
                    }
                    words.push(q.0);
                    words.push(q.1);
                    Some(words)
                },
                None => {
                    proof {
                        assert(!all_hex_groups(fs)) by {
                            assert(!is_hex_group(fs[n - 1]));
                        }
                        assert(fs.last() == fs[n - 1]);
                    }
                    None
                },
            }
        },
    }
}

/// Parses the inside of a bracketed colon-hex address into its eight words.
fn parse_v6_groups(inner: &str) -> (r: Option<Vec<u16>>)
    ensures
        match r {
            Some(v) => v@.len() == 8 && v6_words(inner@) == Some(v@),
            None => v6_words(inner@) == None::<Seq<u16>>,
        },
{
    let ilen = inner.unicode_len();
    match find_dcolon_exec(inner) {
        None => {
            let fields = split_str(inner, ':');
            let words = match parse_tail_words(&fields) {
                Some(w) => w,
                None => {
                    return None;
                },
            };
            if words.len() != 8 {
                return None;
            }
            Some(words)
        },
        Some(d) => {
            proof {
                lemma_find_dcolon(inner@);
            }
            let left_str = inner.substring_char(0, d);
            let right_str = inner.substring_char(d + 2, ilen);
            proof {
                assert(left_str@ =~= inner@.take(d as int));
                assert(right_str@ =~= inner@.skip(d + 2));
            }
            let ghost lf = side_fields(inner@.take(d as int));
            let ghost rf = side_fields(inner@.skip(d + 2));
            let left_fields: Vec<String> = if left_str.unicode_len() == 0 {
                Vec::new()
            } else {
                split_str(left_str, ':')
            };
            proof {
                if left_str@.len() == 0 {
                    assert(str_views(left_fields@) =~~= lf);
                } else {
                    assert(left_str@ == inner@.take(d as int));
                    assert(str_views(left_fields@) == lf);
                }
            }
            let right_fields: Vec<String> = if right_str.unicode_len() == 0 {
                Vec::new()
            } else {
                split_str(right_str, ':')
            };
            proof {
                if right_str@.len() == 0 {
                    assert(str_views(right_fields@) =~~= rf);
                } else {
                    assert(right_str@ == inner@.skip(d + 2));
                    assert(str_views(right_fields@) == rf);
                }
            }
            let l = left_fields.len();
            let mut words: Vec<u16> = Vec::new();
            let mut i: usize = 0;
            while i < l
                invariant
                    i <= l,
                    l == left_fields@.len(),
                    find_dcolon(inner@) == d as int,
                    d + 2 <= inner@.len(),
                    lf == side_fields(inner@.take(d as int)),
                    rf == side_fields(inner@.skip(d + 2)),
                    str_views(left_fields@) == lf,
                    forall|k: int| 0 <= k < i ==> is_hex_group(#[trigger] lf[k]),
                    words@ == group_words(lf.take(i as int)),
                decreases l - i,
            {
                proof {
                    assert(lf[i as int] == left_fields@[i as int]@);
                }
                match parse_hex_group(left_fields[i].as_str()) {
                    Some(v) => {
                        proof {
                            assert(lf.take(i + 1) =~~= lf.take(i as int).push(lf[i as int]));
                            assert(group_words(lf.take(i + 1)) =~= group_words(
                                lf.take(i as int),
                            ).push((hexgroup_value(lf[i as int]) as u16)));
                        }
                        words.push(v);
                    },
                    None => {
                        proof {
                            assert(!all_hex_groups(lf)) by {
                                assert(!is_hex_group(lf[i as int]));
                            }
                        }
                        return None;
                    },
                }
                i = i + 1;
            }
            proof {
                assert(lf.take(l as int) =~~= lf);
                assert(words@ =~= group_words(lf));
                assert(all_hex_groups(lf));
            }
            let mut right_words = match parse_tail_words(&right_fields) {
                Some(w) => w,
                None => {
                    return None;
                },
            };
            let rwn = right_words.len();
            if l > 7 {
                return None;
            }
            if rwn > 7 - l {
                return None;
            }
            let z = 8 - l - rwn;
            let ghost rw = right_words@;
            let mut zi: usize = 0;
            while zi < z
                invariant
                    zi <= z,
                    z == 8 - l - rwn,
                    l + rwn <= 7,
                    words@ == group_words(lf) + Seq::new(zi as nat, |q: int| 0u16),
                decreases z - zi,
            {
                proof {
                    assert(Seq::new((zi + 1) as nat, |q: int| 0u16) =~= Seq::new(
                        zi as nat,
                        |q: int| 0u16,
                    ).push(0u16));
                    assert((group_words(lf) + Seq::new(zi as nat, |q: int| 0u16)).push(0u16)
                        =~= group_words(lf) + Seq::new((zi + 1) as nat, |q: int| 0u16));
                }
                words.push(0);
                zi = zi + 1;
            }
            words.append(&mut right_words);
            proof {
                assert(words@ =~= group_words(lf) + Seq::new(z as nat, |q: int| 0u16) + rw);
            }
            Some(words)
        },
    }
}

/// Parses the configured target string. Fails with `AddressError` exactly on
/// the strings `target_of` rejects; on success the result is what `target_of`
/// reads from the string.
pub fn parse_target(s: &str) -> (r: Result<TargetAddr, BridgeError>)
    ensures
        match r {
            Ok(t) => target_of(s@) == Some(t),
            Err(e) => target_of(s@) == None::<TargetAddr> && e is AddressError,
        },
{
    let len = s.unicode_len();
    if len > 0 && s.get_char(0) == '[' {
        let close = match find_first(s, ']') {
            Some(i) => i,
            None => {
                return Err(BridgeError::AddressError);
            },
        };
        proof {
            lemma_find_char(s@, ']');
        }
        if close + 1 >= len {
            return Err(BridgeError::AddressError);
        }
        if s.get_char(close + 1) != ':' {
            return Err(BridgeError::AddressError);
        }
        let inner = s.substring_char(1, close);
        let p = s.substring_char(close + 2, len);
        proof {
            assert(inner@ =~= s@.subrange(1, close as int));
            assert(p@ =~= s@.skip(close + 2));
        }
        let ilen = inner.unicode_len();
        let mut addr_str: &str = inner;
        let mut zone: u32 = 0;
        match find_first(inner, '%') {
            Some(m) => {
                proof {
                    lemma_find_char(inner@, '%');
                }
                let zone_str = inner.substring_char(m + 1, ilen);
                proof {
                    assert(zone_str@ =~= inner@.skip(m + 1));
                }
                zone = match parse_u32(zone_str) {
                    Some(v) => v,
                    None => {
                        return Err(BridgeError::AddressError);
                    },
                };
                addr_str = inner.substring_char(0, m);
                proof {
                    assert(addr_str@ =~= inner@.take(m as int));
                }
            },
            None => {
            },
        }
        let words = match parse_v6_groups(addr_str) {
            Some(w) => w,
            None => {
                return Err(BridgeError::AddressError);
            },
        };
        let port = match parse_u16(p) {
            Some(v) => v,
            None => {
                return Err(BridgeError::AddressError);
            },
        };
        return Ok(
            TargetAddr {
                host: HostAddr::V6 {
                    g0: words[0],
                    g1: words[1],
                    g2: words[2],
                    g3: words[3],
                    g4: words[4],
                    g5: words[5],
                    g6: words[6],
                    g7: words[7],
                    zone,
                },
                port,
            },
        );
    }
    let d1 = match find_first(s, '.') {
        Some(i) => i,
        None => {
            return Err(BridgeError::AddressError);
        },
    };
    proof {
        lemma_find_char(s@, '.');
    }
    let o1 = s.substring_char(0, d1);
    let r1 = s.substring_char(d1 + 1, len);
    proof {
        assert(o1@ =~= s@.take(d1 as int));
        assert(r1@ =~= s@.skip(d1 + 1));
    }
    let len1 = r1.unicode_len();
    let d2 = match find_first(r1, '.') {
        Some(i) => i,
        None => {
            return Err(BridgeError::AddressError);
        },
    };
    proof {
        lemma_find_char(r1@, '.');
    }
    let o2 = r1.substring_char(0, d2);
    let r2 = r1.substring_char(d2 + 1, len1);
    proof {
        assert(o2@ =~= r1@.take(d2 as int));
        assert(r2@ =~= r1@.skip(d2 + 1));
    }
    let len2 = r2.unicode_len();
    let d3 = match find_first(r2, '.') {
        Some(i) => i,
        None => {
            return Err(BridgeError::AddressError);
        },
    };
    proof {
        lemma_find_char(r2@, '.');
    }
    let o3 = r2.substring_char(0, d3);
    let r3 = r2.substring_char(d3 + 1, len2);
    proof {
        assert(o3@ =~= r2@.take(d3 as int));
        assert(r3@ =~= r2@.skip(d3 + 1));
    }
    let len3 = r3.unicode_len();
    let c = match find_first(r3, ':') {
        Some(i) => i,
        None => {
            return Err(BridgeError::AddressError);
        },
    };
    proof {
        lemma_find_char(r3@, ':');
    }
    let o4 = r3.substring_char(0, c);
    let p = r3.substring_char(c + 1, len3);
    proof {
        assert(o4@ =~= r3@.take(c as int));
        assert(p@ =~= r3@.skip(c + 1));
    }
    let va = match parse_octet(o1) {
        Some(v) => v,
        None => {
            return Err(BridgeError::AddressError);
        },
    };
    let vb = match parse_octet(o2) {
        Some(v) => v,
        None => {
            return Err(BridgeError::AddressError);
        },
    };
    let vc = match parse_octet(o3) {
        Some(v) => v,
        None => {
            return Err(BridgeError::AddressError);
        },
    };
    let vd = match parse_octet(o4) {
        Some(v) => v,
        None => {
            return Err(BridgeError::AddressError);
        },
    };
    let vp = match parse_u16(p) {
        Some(v) => v,
        None => {
            return Err(BridgeError::AddressError);
        },
    };
    Ok(TargetAddr { host: HostAddr::V4 { a: va, b: vb, c: vc, d: vd }, port: vp })
}

/// Joins the two copy directions into one bridge result: both totals on
/// success, and on failure the upstream error first, else the downstream one.
pub fn combine_copy_results(up: Result<u64, String>, down: Result<u64, String>) -> (r: Result<
    (u64, u64),
    BridgeError,
>)
    ensures
        match (up, down) {
            (Err(m), _) => r matches Err(BridgeError::CopyFailed { message }) && message@ == m@,
            (Ok(_), Err(m)) => r matches Err(BridgeError::CopyFailed { message }) && message@
                == m@,
            (Ok(u), Ok(d)) => r matches Ok(t) && t.0 == u && t.1 == d,
        },
{
    match up {
        Err(m) => Err(BridgeError::CopyFailed { message: m }),
        Ok(u) => match down {
            Err(m) => Err(BridgeError::CopyFailed { message: m }),
            Ok(d) => Ok((u, d)),
        },
    }
}

/// The overlay's normal stream-teardown signal, as it shows in an error's
/// text.
pub open spec fn expected_closure_marker() -> Seq<char> {
    "END cell with reason MISC"@
}

/// Classifies a copy error's text: `true` exactly when it carries the
/// overlay's normal teardown signal. Such an error still fails the bridge,
/// but is suppressed from warning-level logging.
pub fn is_expected_closure(message: &str) -> (r: bool)
    ensures
        r == contains_seq(message@, expected_closure_marker()),
{
    str_contains(message, "END cell with reason MISC")
}

/// The life cycle of one bridge invocation. Every instance is single-use:
/// each transition strictly raises the phase's rank, so no phase can ever be
/// revisited, and the two terminal phases admit no transition at all.
#[derive(Debug)]
pub enum BridgePhase {
    /// Nothing has happened yet.
    Idle,
    /// The target string parsed; the local TCP connection is being opened.
    Connecting { target: TargetAddr },
    /// Both copy directions are running.
    Bridging { target: TargetAddr },
    /// Both directions completed; the totals copied in each.
    Closed { up: u64, down: u64 },
    /// The invocation failed; nothing further runs.
    Failed { error: BridgeError },
}

/// How far along its life a phase stands.
pub open spec fn phase_rank(p: BridgePhase) -> int {
    match p {
        BridgePhase::Idle => 0,
        BridgePhase::Connecting { .. } => 1,
        BridgePhase::Bridging { .. } => 2,
        BridgePhase::Closed { .. } => 3,
        BridgePhase::Failed { .. } => 3,
    }
}

/// One bridge invocation, driven by the surrounding process: parse the
/// target, open the local connection, run both copies, record the outcome.
#[derive(Debug)]
pub struct Bridge {
    pub phase: BridgePhase,
}

impl Bridge {
    /// A fresh, idle bridge.
    pub fn new() -> (b: Bridge)
        ensures
            b.phase is Idle,
    {
        Bridge { phase: BridgePhase::Idle }
    }

    /// Parses the target string. A malformed string faults the bridge at
    /// once — it moves to `Failed` with `AddressError` and, since every later
    /// transition requires a later phase, no connection attempt can follow.
    pub fn resolve_target(&mut self, s: &str) -> (r: Option<TargetAddr>)
        requires
            old(self).phase is Idle,
        ensures
            phase_rank(final(self).phase) > phase_rank(old(self).phase),
            match target_of(s@) {
                Some(t) => r == Some(t) && final(self).phase == (BridgePhase::Connecting {
                    target: t,
                }),
                None => r is None && final(self).phase matches BridgePhase::Failed {
                    error: BridgeError::AddressError,
                },
            },
    {
        match parse_target(s) {
            Ok(t) => {
                self.phase = BridgePhase::Connecting { target: t };
                Some(t)
            },
            Err(_) => {
                self.phase = BridgePhase::Failed { error: BridgeError::AddressError };
                None
            },
        }
    }

    /// Records the outcome of the local TCP connect: on success the bridge
    /// runs, on refusal it fails with `TargetUnreachable`.
    pub fn connect_outcome(&mut self, connected: bool)
        requires
            old(self).phase is Connecting,
        ensures
            phase_rank(final(self).phase) > phase_rank(old(self).phase),
            connected ==> final(self).phase == (BridgePhase::Bridging {
                target: old(self).phase->Connecting_target,
            }),
            !connected ==> final(self).phase matches BridgePhase::Failed {
                error: BridgeError::TargetUnreachable,
            },
    {
        let target = match &self.phase {
            BridgePhase::Connecting { target } => *target,
            _ => {
                proof {
                    assert(false);
                }
                TargetAddr { host: HostAddr::V4 { a: 0, b: 0, c: 0, d: 0 }, port: 0 }
            },
        };
        if connected {
            self.phase = BridgePhase::Bridging { target };
        } else {
            self.phase = BridgePhase::Failed { error: BridgeError::TargetUnreachable };
        }
    }

    /// Records the end of both copy directions: the byte totals on success,
    /// and the first failing direction's error otherwise (upstream first).
    pub fn finish(&mut self, up: Result<u64, String>, down: Result<u64, String>)
        requires
            old(self).phase is Bridging,
        ensures
            phase_rank(final(self).phase) > phase_rank(old(self).phase),
            match (up, down) {
                (Err(m), _) => final(self).phase matches BridgePhase::Failed {
                    error: BridgeError::CopyFailed { message },
                } && message@ == m@,
                (Ok(_), Err(m)) => final(self).phase matches BridgePhase::Failed {
                    error: BridgeError::CopyFailed { message },
                } && message@ == m@,
                (Ok(u), Ok(d)) => final(self).phase == (BridgePhase::Closed { up: u, down: d }),
            },
    {
        match combine_copy_results(up, down) {
            Ok(totals) => {
                self.phase = BridgePhase::Closed { up: totals.0, down: totals.1 };
            },
            Err(e) => {
                self.phase = BridgePhase::Failed { error: e };
            },
        }
    }
}

/// What handling one accepted request came to, at either fan-out layer: the
/// request was accepted and its task spawned; it was accepted but the
/// executor rejected the task; or its accept itself failed.
#[derive(Debug, Clone, Copy, PartialEq, Eq, Structural)]
pub enum AcceptOutcome {
    Dispatched,
    SpawnFailed,
    AcceptFailed,
}

/// What a fan-out loop does with one request: spawn its task, or log and move
/// to the next request. No action stops the loop.
#[derive(Debug, Clone, Copy, PartialEq, Eq, Structural)]
pub enum FanoutAction {
    SpawnTask,
    LogDebugAndContinue,
    LogWarnAndContinue,
}

/// The session dispatcher's decision for one rendezvous request: spawn a
/// stream acceptor when the accept succeeded, otherwise log at diagnostic
/// level and take the next session. Failure never ends the loop.
pub fn session_step(accept_ok: bool) -> (a: FanoutAction)
    ensures
        accept_ok ==> a == FanoutAction::SpawnTask,
        !accept_ok ==> a == FanoutAction::LogDebugAndContinue,
{
    if accept_ok {
        FanoutAction::SpawnTask
    } else {
        FanoutAction::LogDebugAndContinue
    }
}

/// The stream acceptor's decision for one stream request: spawn a bridge when
/// the accept succeeded, otherwise log a warning and take the next stream of
/// the same session. Failure never ends the session.
pub fn stream_step(accept_ok: bool) -> (a: FanoutAction)
    ensures
        accept_ok ==> a == FanoutAction::SpawnTask,
        !accept_ok ==> a == FanoutAction::LogWarnAndContinue,
{
    if accept_ok {
        FanoutAction::SpawnTask
    } else {
        FanoutAction::LogWarnAndContinue
    }
}

/// How many of a run of outcomes were dispatched.
pub open spec fn count_dispatched(events: Seq<AcceptOutcome>) -> int
    decreases events.len(),
{
    if events.len() == 0 {
        0
    } else {
        count_dispatched(events.drop_last()) + if events.last() == AcceptOutcome::Dispatched {
            1int
        } else {
            0int
        }
    }
}

/// The tally of one fan-out loop's run.
#[derive(Debug, Clone, Copy, PartialEq, Eq, Structural)]
pub struct DrainStats {
    /// Requests the loop took from its source.
    pub handled: usize,
    /// Requests whose task was spawned.
    pub dispatched: usize,
    /// Requests dropped after a failure, accept or spawn.
    pub dropped: usize,
}

/// Folds a run of per-request outcomes the way both fan-out loops do: every
/// outcome is handled, failures only drop their own request, and the loop
/// ends with its source alone. Both layers — sessions in the dispatcher,
/// streams in each acceptor — drain by this rule.
pub fn drain_outcomes(events: &Vec<AcceptOutcome>) -> (s: DrainStats)
    ensures
        s.handled == events@.len(),
        s.dispatched == count_dispatched(events@),
        s.dispatched + s.dropped == s.handled,
{
    let mut dispatched: usize = 0;
    let mut dropped: usize = 0;
    let mut i: usize = 0;
    while i < events.len()
        invariant
            i <= events@.len(),
            dispatched == count_dispatched(events@.take(i as int)),
            dispatched + dropped == i,
        decreases events@.len() - i,
    {
        proof {
            assert(events@.take(i + 1).drop_last() =~= events@.take(i as int));
            assert(events@.take(i + 1).last() == events@[i as int]);
        }
        match events[i] {
            AcceptOutcome::Dispatched => {
                dispatched = dispatched + 1;
            },
            AcceptOutcome::SpawnFailed => {
                dropped = dropped + 1;
            },
            AcceptOutcome::AcceptFailed => {
                dropped = dropped + 1;
            },
        }
        i = i + 1;
    }
    proof {
        assert(events@.take(events@.len() as int) =~= events@);
    }
    DrainStats { handled: i, dispatched, dropped }
}

/// Failure containment at both fan-out layers: one request's failure is local
/// to that request. In any run of outcomes, turning one outcome into a
/// failure changes the number dispatched only by that request's own
/// contribution — every other session, and every other stream of the same
/// session, is dispatched exactly as before.
pub proof fn lemma_failure_is_local(events: Seq<AcceptOutcome>, i: int)
    requires
        0 <= i < events.len(),
    ensures
        count_dispatched(events.update(i, AcceptOutcome::AcceptFailed)) == count_dispatched(events)
            - (if events[i] == AcceptOutcome::Dispatched {
            1int
        } else {
            0int
        }),
    decreases events.len(),
{
    let updated = events.update(i, AcceptOutcome::AcceptFailed);
    if i == events.len() - 1 {
        assert(updated.drop_last() =~= events.drop_last());
        assert(updated.last() == AcceptOutcome::AcceptFailed);
    } else {
        assert(updated.drop_last() =~= events.drop_last().update(i, AcceptOutcome::AcceptFailed));
        assert(updated.last() == events.last());
        lemma_failure_is_local(events.drop_last(), i);
    }
}

} // verus!
