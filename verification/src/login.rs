//! Login on a native terminal session: the user name typed at the prompt,
//! the password entry in /etc/shadow, the account in /etc/passwd, and the
//! environment the login shell starts with.

use vstd::prelude::*;
use vstd::string::*;
use crate::deps::pair_views;
use crate::text::{
    chars_of, line_ranges, parse_unsigned, parse_unsigned_in, pieces, range_eq, range_string,
    ranges_within, split_on, split_ranges, str_eq, text_lines, trim, trim_range,
};

verus! {

/// Result of a successful login.
pub struct LoginResult {
    pub username: String,
    pub uid: u32,
    pub gid: u32,
    pub home: String,
    pub shell: String,
}

/// An account as /etc/passwd describes it.
#[derive(Debug)]
pub struct UserInfo {
    pub uid: u32,
    pub gid: u32,
    pub home: String,
    pub shell: String,
}

/// Why a login is refused.
#[derive(Debug, PartialEq, Eq, Structural)]
pub enum LoginError {
    /// Nothing but white space was typed at the user name prompt.
    EmptyUsername,
    /// The password does not match the account.
    InvalidCredentials,
}

impl LoginError {
    /// The message reported for the refusal.
    pub fn message(&self) -> (r: String)
        ensures
            r@ == match self {
                LoginError::EmptyUsername => "empty username"@,
                LoginError::InvalidCredentials => "invalid credentials"@,
            },
    {
        match self {
            LoginError::EmptyUsername => {
                proof {
                    reveal_strlit("empty username");
                }
                String::from_str("empty username")
            },
            LoginError::InvalidCredentials => {
                proof {
                    reveal_strlit("invalid credentials");
                }
                String::from_str("invalid credentials")
            },
        }
    }
}

/// The user name from the line typed at the prompt: the line without
/// surrounding white space, which must not be empty.
pub fn login_username(line: &str) -> (r: Result<String, LoginError>)
    ensures
        r is Err <==> trim(line@).len() == 0,
        r matches Err(e) ==> e == LoginError::EmptyUsername,
        r matches Ok(u) ==> u@ == trim(line@),
{
    let cs = chars_of(line);
    let (a, b) = trim_range(&cs, 0, cs.len());
    proof {
        assert(cs@.subrange(0, cs@.len() as int) =~= line@);
    }
    if a == b {
        return Err(LoginError::EmptyUsername);
    }
    Ok(range_string(line, &cs, a, b))
}

/// The password field of the first line of /etc/shadow that names `user`:
/// a line with at least two ':'-separated fields, the first being `user`.
pub open spec fn shadow_hash_in(lines: Seq<Seq<char>>, user: Seq<char>) -> Option<Seq<char>>
    decreases lines.len(),
{
    if lines.len() == 0 {
        None
    } else {
        let f = split_on(lines[0], ':');
        if f.len() >= 2 && f[0] == user {
            Some(f[1])
        } else {
            shadow_hash_in(lines.drop_first(), user)
        }
    }
}

/// What /etc/shadow says of a user's password.
#[derive(Debug, PartialEq, Eq)]
pub enum PasswordCheck {
    /// No entry names the user.
    NoEntry,
    /// The entry has an empty password field: any password is accepted.
    NoPassword,
    /// The stored hash that `crypt` of the typed password must equal.
    Hashed(String),
}

/// How /etc/shadow's text decides a login of `username`.
pub fn password_check(shadow: &str, username: &str) -> (r: PasswordCheck)
    ensures
        match shadow_hash_in(text_lines(shadow@), username@) {
            None => r == PasswordCheck::NoEntry,
            Some(h) => if h.len() == 0 {
                r == PasswordCheck::NoPassword
            } else {
                r matches PasswordCheck::Hashed(s) && s@ == h
            },
        },
{
    let cs = chars_of(shadow);
    let lines = line_ranges(&cs);
    let ghost ls = text_lines(shadow@);
    let ghost want = shadow_hash_in(ls, username@);
    proof {
        assert(ls.skip(0) =~= ls);
    }
    for i in 0..lines.len()
        invariant
            cs@ == shadow@,
            ls == text_lines(shadow@),
            ls == pieces(cs@, lines@),
            ranges_within(lines@, 0, cs@.len() as int),
            want == shadow_hash_in(ls, username@),
            want == shadow_hash_in(ls.skip(i as int), username@),
    {
        let (a, b) = lines[i];
        proof {
            assert(lines@[i as int] == (a, b));
            assert(ls[i as int] == cs@.subrange(a as int, b as int));
            assert(ls.skip(i as int)[0] == ls[i as int]);
            assert(ls.skip(i as int).drop_first() =~= ls.skip(i + 1));
        }
        let f = split_ranges(&cs, a, b, ':');
        let ghost fs = pieces(cs@, f@);
        proof {
            assert(fs == split_on(ls.skip(i as int)[0], ':'));
            assert(ls.skip(i as int).len() > 0);
        }
        if f.len() >= 2 {
            let (f0a, f0b) = f[0];
            let (f1a, f1b) = f[1];
            proof {
                assert(f@[0] == (f0a, f0b));
                assert(f@[1] == (f1a, f1b));
                assert(fs[0] == cs@.subrange(f0a as int, f0b as int));
                assert(fs[1] == cs@.subrange(f1a as int, f1b as int));
            }
            if range_eq(shadow, &cs, f0a, f0b, username) {
                proof {
                    assert(want == Some(fs[1]));
                }
                if f1a == f1b {
                    return PasswordCheck::NoPassword;
                }
                return PasswordCheck::Hashed(range_string(shadow, &cs, f1a, f1b));
            }
        }
    }
    proof {
        assert(ls.skip(lines@.len() as int) =~= Seq::<Seq<char>>::empty());
    }
    PasswordCheck::NoEntry
}

/// The account that development mode lets in with any password.
pub open spec fn development_user() -> Seq<char> {
    "root"@
}

/// Whether a login is accepted. In development mode root is accepted with
/// any password. Any other user needs an entry, and either it has no
/// password or `crypted`, what `crypt` gave for the typed password with the
/// stored hash as salt (`None` when it failed), equals the stored hash.
pub fn credentials_valid(username: &str, check: &PasswordCheck, crypted: Option<&str>) -> (r: bool)
    ensures
        r == (username@ == development_user() || match check {
            PasswordCheck::NoEntry => false,
            PasswordCheck::NoPassword => true,
            PasswordCheck::Hashed(h) => crypted matches Some(c) && c@ == h@,
        }),
{
    if str_eq(username, "root") {
        proof {
            reveal_strlit("root");
        }
        return true;
    }
    match check {
        PasswordCheck::NoEntry => false,
        PasswordCheck::NoPassword => true,
        PasswordCheck::Hashed(h) => match crypted {
            Some(c) => str_eq(c, h.as_str()),
            None => false,
        },
    }
}

/// The fields of the first line of /etc/passwd that names `user`: a line with
/// at least seven ':'-separated fields, the first being `user`.
pub open spec fn passwd_fields_in(lines: Seq<Seq<char>>, user: Seq<char>) -> Option<Seq<Seq<char>>>
    decreases lines.len(),
{
    if lines.len() == 0 {
        None
    } else {
        let f = split_on(lines[0], ':');
        if f.len() >= 7 && f[0] == user {
            Some(f)
        } else {
            passwd_fields_in(lines.drop_first(), user)
        }
    }
}

/// A numeric id field: its value, or 0 when it is not a `u32`.
pub open spec fn id_or_zero(s: Seq<char>) -> nat {
    match parse_unsigned(s, 4294967295) {
        Some(v) => v,
        None => 0,
    }
}

/// The account of `user` in /etc/passwd's text: uid and gid from the third
/// and fourth fields, home and shell from the sixth and seventh.
pub fn user_info(passwd: &str, username: &str) -> (r: Option<UserInfo>)
    ensures
        match passwd_fields_in(text_lines(passwd@), username@) {
            None => r is None,
            Some(f) => r matches Some(u) && u.uid as nat == id_or_zero(f[2]) && u.gid as nat == id_or_zero(f[3])
                && u.home@ == f[5] && u.shell@ == f[6],
        },
{
    let cs = chars_of(passwd);
    let lines = line_ranges(&cs);
    let ghost ls = text_lines(passwd@);
    let ghost want = passwd_fields_in(ls, username@);
    proof {
        assert(ls.skip(0) =~= ls);
    }
    for i in 0..lines.len()
        invariant
            cs@ == passwd@,
            ls == text_lines(passwd@),
            ls == pieces(cs@, lines@),
            ranges_within(lines@, 0, cs@.len() as int),
            want == passwd_fields_in(ls, username@),
            want == passwd_fields_in(ls.skip(i as int), username@),
    {
        let (a, b) = lines[i];
        proof {
            assert(lines@[i as int] == (a, b));
            assert(ls[i as int] == cs@.subrange(a as int, b as int));
            assert(ls.skip(i as int)[0] == ls[i as int]);
            assert(ls.skip(i as int).drop_first() =~= ls.skip(i + 1));
        }
        let f = split_ranges(&cs, a, b, ':');
        let ghost fs = pieces(cs@, f@);
        proof {
            assert(fs == split_on(ls.skip(i as int)[0], ':'));
            assert(ls.skip(i as int).len() > 0);
        }
        if f.len() >= 7 {
            let (f0a, f0b) = f[0];
            proof {
                assert(f@[0] == (f0a, f0b));
                assert(fs[0] == cs@.subrange(f0a as int, f0b as int));
            }
            if range_eq(passwd, &cs, f0a, f0b, username) {
                proof {
                    assert(want == Some(fs));
                }
                let (f2a, f2b) = f[2];
                let (f3a, f3b) = f[3];
                let (f5a, f5b) = f[5];
                let (f6a, f6b) = f[6];
                proof {
                    assert(f@[2] == (f2a, f2b));
                    assert(f@[3] == (f3a, f3b));
                    assert(f@[5] == (f5a, f5b));
                    assert(f@[6] == (f6a, f6b));
                    assert(fs[2] == cs@.subrange(f2a as int, f2b as int));
                    assert(fs[3] == cs@.subrange(f3a as int, f3b as int));
                    assert(fs[5] == cs@.subrange(f5a as int, f5b as int));
                    assert(fs[6] == cs@.subrange(f6a as int, f6b as int));
                }
                let uid = match parse_unsigned_in(&cs, f2a, f2b, 4294967295) {
                    Some(v) => v as u32,
                    None => 0,
                };
                let gid = match parse_unsigned_in(&cs, f3a, f3b, 4294967295) {
                    Some(v) => v as u32,
                    None => 0,
                };
                return Some(
                    UserInfo {
                        uid,
                        gid,
                        home: range_string(passwd, &cs, f5a, f5b),
                        shell: range_string(passwd, &cs, f6a, f6b),
                    },
                );
            }
        }
    }
    proof {
        assert(ls.skip(lines@.len() as int) =~= Seq::<Seq<char>>::empty());
    }
    None
}

/// The shell used when the account names none: `$SHELL` when it is set,
/// otherwise `/bin/sh`.
pub open spec fn fallback_shell(env_shell: Option<Seq<char>>) -> Seq<char> {
    match env_shell {
        Some(s) => s,
        None => "/bin/sh"@,
    }
}

/// The account a login runs as: the one found in /etc/passwd, or root; an
/// empty home becomes `/root`, and an empty shell the fallback shell, given
/// the value of `$SHELL` (`None` when it is unset).
pub fn resolve_user(found: Option<UserInfo>, env_shell: Option<String>) -> (r: UserInfo)
    ensures
        r.uid == match found {
            Some(u) => u.uid,
            None => 0u32,
        },
        r.gid == match found {
            Some(u) => u.gid,
            None => 0u32,
        },
        r.home@ == match found {
            Some(u) => if u.home@.len() > 0 {
                u.home@
            } else {
                "/root"@
            },
            None => "/root"@,
        },
        r.shell@ == match found {
            Some(u) => if u.shell@.len() > 0 {
                u.shell@
            } else {
                fallback_shell(match env_shell {
                    Some(s) => Some(s@),
                    None => None,
                })
            },
            None => fallback_shell(match env_shell {
                Some(s) => Some(s@),
                None => None,
            }),
        },
{
    proof {
        reveal_strlit("/root");
        reveal_strlit("/bin/sh");
    }
    let fallback = match env_shell {
        Some(s) => s,
        None => String::from_str("/bin/sh"),
    };
    match found {
        Some(u) => {
            let home = if u.home.unicode_len() > 0 {
                u.home
            } else {
                String::from_str("/root")
            };
            let shell = if u.shell.unicode_len() > 0 {
                u.shell
            } else {
                fallback
            };
            UserInfo { uid: u.uid, gid: u.gid, home, shell }
        },
        None => UserInfo { uid: 0, gid: 0, home: String::from_str("/root"), shell: fallback },
    }
}

/// The environment a login shell starts with.
pub open spec fn login_env(username: Seq<char>, home: Seq<char>, shell: Seq<char>) -> Seq<
    (Seq<char>, Seq<char>),
> {
    seq![
        ("HOME"@, home),
        ("USER"@, username),
        ("LOGNAME"@, username),
        ("SHELL"@, shell),
        ("PATH"@, "/bin:/sbin:/usr/bin:/usr/sbin"@),
        ("TERM"@, "vt102"@),
        ("HOSTNAME"@, "rinit"@),
    ]
}

/// The value of the first entry named `key`, as a shell that reads the
/// entries in order finds it.
pub open spec fn env_lookup(env: Seq<(Seq<char>, Seq<char>)>, key: Seq<char>) -> Option<Seq<char>>
    decreases env.len(),
{
    if env.len() == 0 {
        None
    } else if env[0].0 == key {
        Some(env[0].1)
    } else {
        env_lookup(env.drop_first(), key)
    }
}

/// In the login environment, USER and LOGNAME are the user's name, HOME the
/// account's home directory and SHELL its shell, whatever these are.
pub proof fn login_env_names_the_account(username: Seq<char>, home: Seq<char>, shell: Seq<char>)
    ensures
        env_lookup(login_env(username, home, shell), "USER"@) == Some(username),
        env_lookup(login_env(username, home, shell), "LOGNAME"@) == Some(username),
        env_lookup(login_env(username, home, shell), "HOME"@) == Some(home),
        env_lookup(login_env(username, home, shell), "SHELL"@) == Some(shell),
{
    reveal_strlit("HOME");
    reveal_strlit("USER");
    reveal_strlit("LOGNAME");
    reveal_strlit("SHELL");
    let e = login_env(username, home, shell);
    assert("HOME"@[0] != "USER"@[0]);
    assert("HOME"@[0] != "LOGNAME"@[0]);
    assert("HOME"@[0] != "SHELL"@[0]);
    assert("USER"@[0] != "LOGNAME"@[0]);
    assert("USER"@[0] != "SHELL"@[0]);
    assert("LOGNAME"@[0] != "SHELL"@[0]);
    assert(e.drop_first()[0] == e[1]);
    assert(e.drop_first().drop_first()[0] == e[2]);
    assert(e.drop_first().drop_first().drop_first()[0] == e[3]);
    assert(env_lookup(e.drop_first().drop_first().drop_first(), "SHELL"@) == Some(shell));
    assert(env_lookup(e.drop_first().drop_first(), "SHELL"@) == Some(shell));
    assert(env_lookup(e.drop_first(), "SHELL"@) == Some(shell));
    assert(env_lookup(e.drop_first().drop_first(), "LOGNAME"@) == Some(username));
    assert(env_lookup(e.drop_first(), "LOGNAME"@) == Some(username));
    assert(env_lookup(e.drop_first(), "USER"@) == Some(username));
}

fn env_pair(key: &str, value: &str) -> (r: (String, String))
    ensures
        r.0@ == key@,
        r.1@ == value@,
{
    (String::from_str(key), String::from_str(value))
}

/// The variables to set for the login shell of `username` running as `user`.
pub fn login_environment(username: &str, user: &UserInfo) -> (r: Vec<(String, String)>)
    ensures
        pair_views(r@) == login_env(username@, user.home@, user.shell@),
        env_lookup(pair_views(r@), "USER"@) == Some(username@),
        env_lookup(pair_views(r@), "LOGNAME"@) == Some(username@),
        env_lookup(pair_views(r@), "HOME"@) == Some(user.home@),
        env_lookup(pair_views(r@), "SHELL"@) == Some(user.shell@),
{
    let mut v: Vec<(String, String)> = Vec::new();
    v.push(env_pair("HOME", user.home.as_str()));
    v.push(env_pair("USER", username));
    v.push(env_pair("LOGNAME", username));
    v.push(env_pair("SHELL", user.shell.as_str()));
    v.push(env_pair("PATH", "/bin:/sbin:/usr/bin:/usr/sbin"));
    v.push(env_pair("TERM", "vt102"));
    v.push(env_pair("HOSTNAME", "rinit"));
    proof {
        assert(pair_views(v@) =~= login_env(username@, user.home@, user.shell@));
        login_env_names_the_account(username@, user.home@, user.shell@);
    }
    v
}

} // verus!
