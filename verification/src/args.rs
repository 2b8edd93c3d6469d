//! Command-line arguments for the application, with a verified parser for the
//! option grammar the program accepts.
//!
//! The grammar: the first token is the program name and is ignored. After it,
//! `--port`/`-p`, `--host`/`-H`, `--nickname`/`-n` and `--auth` each take the
//! following token as their value; `--verbose`/`-v`, `--qr`, `--keygen` and
//! `--restricted` are flags. A repeated option keeps its last value. Any other
//! token is rejected.

use vstd::prelude::*;

use crate::text::{
    dec_value, eq_ignore_case, is_u16_numeral, parse_u16, str_eq_ignore_case, str_equal, str_views,
};

verus! {

/// Command-line arguments for the application.
#[derive(Debug)]
pub struct Args {
    /// Local port to proxy.
    pub port: u16,
    /// Local host or IP address to forward traffic to.
    pub host: String,
    /// Nickname for the onion service.
    pub nickname: String,
    /// Enable verbose logging.
    pub verbose: bool,
    /// Display a QR code for the onion address.
    pub qr: bool,
    /// Generate an x25519 keypair for client authorization.
    pub keygen: bool,
    /// Add an authorized client (format: `descriptor:x25519:<pubkey>`).
    pub auth: Option<String>,
    /// Auto-generate keys and enable restricted access.
    pub restricted: bool,
}

/// The mathematical image of an `Args` value.
#[verifier::ext_equal]
pub ghost struct GArgs {
    pub port: u16,
    pub host: Seq<char>,
    pub nickname: Seq<char>,
    pub verbose: bool,
    pub qr: bool,
    pub keygen: bool,
    pub auth: Option<Seq<char>>,
    pub restricted: bool,
}

/// Why an argument list was rejected.
#[derive(Debug, Clone, Copy, PartialEq, Eq, Structural)]
pub enum ArgError {
    /// A token that is no known option or flag.
    UnknownArgument,
    /// An option that takes a value stood last.
    MissingValue,
    /// The value of `--port` is no decimal number in `u16` range.
    InvalidPort,
}

/// The image of an `Args` value in `GArgs`.
pub open spec fn abs(a: Args) -> GArgs {
    GArgs {
        port: a.port,
        host: a.host@,
        nickname: a.nickname@,
        verbose: a.verbose,
        qr: a.qr,
        keygen: a.keygen,
        auth: match a.auth {
            Some(s) => Some(s@),
            None => None,
        },
        restricted: a.restricted,
    }
}

/// The default argument values.
pub open spec fn default_gargs() -> GArgs {
    GArgs {
        port: 3000,
        host: "127.0.0.1"@,
        nickname: "my-ephemeral-service"@,
        verbose: false,
        qr: false,
        keygen: false,
        auth: None,
        restricted: false,
    }
}

/// Parsing a token list against an accumulated `GArgs`, one token group at a
/// time.
pub open spec fn parse_rec(toks: Seq<Seq<char>>, acc: GArgs) -> Result<GArgs, ArgError>
    decreases toks.len(),
{
    if toks.len() == 0 {
        Ok(acc)
    } else {
        let t = toks[0];
        if t == "--port"@ || t == "-p"@ {
            if toks.len() < 2 {
                Err(ArgError::MissingValue)
            } else if is_u16_numeral(toks[1]) {
                parse_rec(toks.skip(2), GArgs { port: dec_value(toks[1]) as u16, ..acc })
            } else {
                Err(ArgError::InvalidPort)
            }
        } else if t == "--host"@ || t == "-H"@ {
            if toks.len() < 2 {
                Err(ArgError::MissingValue)
            } else {
                parse_rec(toks.skip(2), GArgs { host: toks[1], ..acc })
            }
        } else if t == "--nickname"@ || t == "-n"@ {
            if toks.len() < 2 {
                Err(ArgError::MissingValue)
            } else {
                parse_rec(toks.skip(2), GArgs { nickname: toks[1], ..acc })
            }
        } else if t == "--auth"@ {
            if toks.len() < 2 {
                Err(ArgError::MissingValue)
            } else {
                parse_rec(toks.skip(2), GArgs { auth: Some(toks[1]), ..acc })
            }
        } else if t == "--verbose"@ || t == "-v"@ {
            parse_rec(toks.skip(1), GArgs { verbose: true, ..acc })
        } else if t == "--qr"@ {
            parse_rec(toks.skip(1), GArgs { qr: true, ..acc })
        } else if t == "--keygen"@ {
            parse_rec(toks.skip(1), GArgs { keygen: true, ..acc })
        } else if t == "--restricted"@ {
            parse_rec(toks.skip(1), GArgs { restricted: true, ..acc })
        } else {
            Err(ArgError::UnknownArgument)
        }
    }
}

/// What parsing a whole argument list yields: the first token, the program
/// name, is dropped, and the rest fold over the default values.
pub open spec fn parse_spec(toks: Seq<Seq<char>>) -> Result<GArgs, ArgError> {
    if toks.len() == 0 {
        parse_rec(toks, default_gargs())
    } else {
        parse_rec(toks.skip(1), default_gargs())
    }
}

/// The host with the literal token `localhost` (in any ASCII case) replaced by
/// the loopback address.
pub open spec fn normalized_host(h: Seq<char>) -> Seq<char> {
    if eq_ignore_case(h, "localhost"@) {
        "127.0.0.1"@
    } else {
        h
    }
}

/// The character standing for a hexadecimal digit value.
pub open spec fn hex_digit_char(n: int) -> char {
    if n == 0 {
        '0'
    } else if n == 1 {
        '1'
    } else if n == 2 {
        '2'
    } else if n == 3 {
        '3'
    } else if n == 4 {
        '4'
    } else if n == 5 {
        '5'
    } else if n == 6 {
        '6'
    } else if n == 7 {
        '7'
    } else if n == 8 {
        '8'
    } else if n == 9 {
        '9'
    } else if n == 10 {
        'a'
    } else if n == 11 {
        'b'
    } else if n == 12 {
        'c'
    } else if n == 13 {
        'd'
    } else if n == 14 {
        'e'
    } else {
        'f'
    }
}

/// The lower-case hexadecimal rendering of a byte string: two digits per byte,
/// high nibble first.
pub open spec fn hex_of(b: Seq<u8>) -> Seq<char> {
    Seq::new(
        2 * b.len(),
        |i: int|
            if i % 2 == 0 {
                hex_digit_char(b[i / 2] as int / 16)
            } else {
                hex_digit_char(b[i / 2] as int % 16)
            },
    )
}

/// Relies on `rand::random`: three bytes from the thread-local generator.
/// Nothing is assumed of their values.
#[verifier::external_body]
fn random_tag_bytes() -> (r: Vec<u8>)
    ensures
        r@.len() == 3,
{
    rand::random::<[u8; 3]>().to_vec()
}

/// Relies on `hex::encode`: each byte becomes two lower-case hexadecimal
/// digits, high nibble first.
#[verifier::external_body]
fn hex_lower(b: &Vec<u8>) -> (r: String)
    ensures
        r@ == hex_of(b@),
{
    hex::encode(b.as_slice())
}

/// Formats a name from a purpose prefix and a drawn tag: the prefix, then
/// the tag's bytes as lower-case hexadecimal digits.
pub fn tagged_nickname(prefix: &str, tag: &Vec<u8>) -> (r: String)
    ensures
        r@ == prefix@ + hex_of(tag@),
{
    let digits = hex_lower(tag);
    let mut out = prefix.to_owned();
    out.append(digits.as_str());
    out
}

/// A fresh nickname for one authorized client's key entry: `client-` followed
/// by six fresh random hexadecimal digits.
pub fn random_client_nickname() -> (r: String)
    ensures
        exists|b: Seq<u8>| b.len() == 3 && r@ == "client-"@ + hex_of(b),
{
    let tag = random_tag_bytes();
    let out = tagged_nickname("client-", &tag);
    proof {
        assert(tag@.len() == 3 && out@ == "client-"@ + hex_of(tag@));
    }
    out
}

impl Args {
    /// Parses an argument list. The first token is the program name. Rejects
    /// exactly the lists the grammar above rejects, with the error naming the
    /// first offence.
    pub fn parse_from(args: Vec<String>) -> (r: Result<Args, ArgError>)
        ensures
            match r {
                Ok(a) => parse_spec(str_views(args@)) == Ok::<GArgs, ArgError>(abs(a)),
                Err(e) => parse_spec(str_views(args@)) == Err::<GArgs, ArgError>(e),
            },
    {
        let ghost toks = str_views(args@);
        let mut cur = Args {
            port: 3000,
            host: String::from_str("127.0.0.1"),
            nickname: String::from_str("my-ephemeral-service"),
            verbose: false,
            qr: false,
            keygen: false,
            auth: None,
            restricted: false,
        };
        proof {
            assert(abs(cur) =~= default_gargs());
        }
        let n = args.len();
        let mut i: usize = if n == 0 {
            0
        } else {
            1
        };
        while i < n
            invariant
                n == args@.len(),
                toks == str_views(args@),
                toks.len() == n,
                i <= n,
                n == 0 ==> i == 0,
                n > 0 ==> 1 <= i,
                parse_rec(toks.skip(i as int), abs(cur)) == parse_spec(toks),
            decreases n - i,
        {
            proof {
                assert(toks.skip(i as int)[0] == toks[i as int]);
                assert(toks[i as int] == args@[i as int]@);
            }
            let t = args[i].as_str();
            if str_equal(t, "--port") || str_equal(t, "-p") {
                if i + 1 >= n {
                    return Err(ArgError::MissingValue);
                }
                proof {
                    assert(toks.skip(i as int)[1] == toks[i + 1]);
                    assert(toks[i + 1] == args@[i + 1]@);
                }
                match parse_u16(args[i + 1].as_str()) {
                    Some(p) => {
                        proof {
                            assert(toks.skip(i as int).skip(2) =~= toks.skip(i + 2));
                        }
                        let ghost prev = abs(cur);
                        cur.port = p;
                        proof {
                            assert(abs(cur) =~= GArgs { port: p, ..prev });
                        }
                        i = i + 2;
                    },
                    None => {
                        return Err(ArgError::InvalidPort);
                    },
                }
            } else if str_equal(t, "--host") || str_equal(t, "-H") {
                if i + 1 >= n {
                    return Err(ArgError::MissingValue);
                }
                proof {
                    assert(toks.skip(i as int)[1] == toks[i + 1]);
                    assert(toks[i + 1] == args@[i + 1]@);
                    assert(toks.skip(i as int).skip(2) =~= toks.skip(i + 2));
                }
                let ghost prev = abs(cur);
                cur.host = args[i + 1].clone();
                proof {
                    assert(abs(cur) =~= GArgs { host: toks[i + 1], ..prev });
                }
                i = i + 2;
            } else if str_equal(t, "--nickname") || str_equal(t, "-n") {
                if i + 1 >= n {
                    return Err(ArgError::MissingValue);
                }
                proof {
                    assert(toks.skip(i as int)[1] == toks[i + 1]);
                    assert(toks[i + 1] == args@[i + 1]@);
                    assert(toks.skip(i as int).skip(2) =~= toks.skip(i + 2));
                }
                let ghost prev = abs(cur);
                cur.nickname = args[i + 1].clone();
                proof {
                    assert(abs(cur) =~= GArgs { nickname: toks[i + 1], ..prev });
                }
                i = i + 2;
            } else if str_equal(t, "--auth") {
                if i + 1 >= n {
                    return Err(ArgError::MissingValue);
                }
                proof {
                    assert(toks.skip(i as int)[1] == toks[i + 1]);
                    assert(toks[i + 1] == args@[i + 1]@);
                    assert(toks.skip(i as int).skip(2) =~= toks.skip(i + 2));
                }
                let ghost prev = abs(cur);
                cur.auth = Some(args[i + 1].clone());
                proof {
                    assert(abs(cur) =~= GArgs { auth: Some(toks[i + 1]), ..prev });
                }
                i = i + 2;
            } else if str_equal(t, "--verbose") || str_equal(t, "-v") {
                proof {
                    assert(toks.skip(i as int).skip(1) =~= toks.skip(i + 1));
                }
                let ghost prev = abs(cur);
                cur.verbose = true;
                proof {
                    assert(abs(cur) =~= GArgs { verbose: true, ..prev });
                }
                i = i + 1;
            } else if str_equal(t, "--qr") {
                proof {
                    assert(toks.skip(i as int).skip(1) =~= toks.skip(i + 1));
                }
                let ghost prev = abs(cur);
                cur.qr = true;
                proof {
                    assert(abs(cur) =~= GArgs { qr: true, ..prev });
                }
                i = i + 1;
            } else if str_equal(t, "--keygen") {
                proof {
                    assert(toks.skip(i as int).skip(1) =~= toks.skip(i + 1));
                }
                let ghost prev = abs(cur);
                cur.keygen = true;
                proof {
                    assert(abs(cur) =~= GArgs { keygen: true, ..prev });
                }
                i = i + 1;
            } else if str_equal(t, "--restricted") {
                proof {
                    assert(toks.skip(i as int).skip(1) =~= toks.skip(i + 1));
                }
                let ghost prev = abs(cur);
                cur.restricted = true;
                proof {
                    assert(abs(cur) =~= GArgs { restricted: true, ..prev });
                }
                i = i + 1;
            } else {
                return Err(ArgError::UnknownArgument);
            }
        }
        proof {
            assert(toks.skip(n as int) =~= Seq::<Seq<char>>::empty());
        }
        Ok(cur)
    }

    /// Returns the normalized host address: `localhost`, in any ASCII case,
    /// becomes `127.0.0.1`; every other host is returned unchanged.
    pub fn get_normalized_host(&self) -> (r: String)
        ensures
            r@ == normalized_host(self.host@),
    {
        if str_eq_ignore_case(self.host.as_str(), "localhost") {
            String::from_str("127.0.0.1")
        } else {
            self.host.clone()
        }
    }

    /// Returns the effective nickname for the service: a custom nickname is
    /// kept; the default one is replaced by `proxy-` followed by six fresh
    /// random hexadecimal digits, to prevent collisions.
    pub fn get_effective_nickname(&self) -> (r: String)
        ensures
            self.nickname@ != "my-ephemeral-service"@ ==> r@ == self.nickname@,
            self.nickname@ == "my-ephemeral-service"@ ==> exists|b: Seq<u8>|
                b.len() == 3 && r@ == "proxy-"@ + hex_of(b),
    {
        if str_equal(self.nickname.as_str(), "my-ephemeral-service") {
            let tag = random_tag_bytes();
            let out = tagged_nickname("proxy-", &tag);
            proof {
                assert(tag@.len() == 3 && out@ == "proxy-"@ + hex_of(tag@));
            }
            out
        } else {
            self.nickname.clone()
        }
    }
}

} // verus!
