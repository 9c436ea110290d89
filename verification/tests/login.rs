use rinit::login::{
    credentials_valid, login_environment, login_username, password_check, resolve_user, user_info,
    LoginError, PasswordCheck, UserInfo,
};

const SHADOW: &str = "root::19000:0:99999:7:::\r\nalice:$6$salt$hash:19000::::::\nbob\nmallory:x\n";
const PASSWD: &str = "root:x:0:0:root:/root:/bin/bash\n\
    alice:x:+1000:abc:Alice:/home/alice:/bin/zsh\r\n\
    short:x:1:1\n\
    carol:x:1001:1001::::\n";

#[test]
fn username_is_trimmed() {
    assert_eq!(login_username("  root \r\n"), Ok("root".to_string()));
    assert_eq!(login_username(" \t\n"), Err(LoginError::EmptyUsername));
}

#[test]
fn login_error_messages() {
    assert_eq!(LoginError::EmptyUsername.message(), "empty username");
    assert_eq!(LoginError::InvalidCredentials.message(), "invalid credentials");
}

#[test]
fn shadow_entries() {
    assert_eq!(password_check(SHADOW, "root"), PasswordCheck::NoPassword);
    assert_eq!(password_check(SHADOW, "alice"), PasswordCheck::Hashed("$6$salt$hash".to_string()));
    assert_eq!(password_check(SHADOW, "bob"), PasswordCheck::NoEntry);
    assert_eq!(password_check(SHADOW, "mallory"), PasswordCheck::Hashed("x".to_string()));
    assert_eq!(password_check(SHADOW, "eve"), PasswordCheck::NoEntry);
    assert_eq!(password_check("", "root"), PasswordCheck::NoEntry);
}

#[test]
fn credentials_against_shadow() {
    let h = PasswordCheck::Hashed("$6$salt$hash".to_string());
    assert!(credentials_valid("alice", &h, Some("$6$salt$hash")));
    assert!(!credentials_valid("alice", &h, Some("$6$salt$other")));
    assert!(!credentials_valid("alice", &h, None));
    assert!(credentials_valid("alice", &PasswordCheck::NoPassword, None));
    assert!(!credentials_valid("eve", &PasswordCheck::NoEntry, Some("x")));
}

#[test]
fn root_is_let_in_with_any_password_in_development_mode() {
    let h = PasswordCheck::Hashed("$6$salt$hash".to_string());
    assert!(credentials_valid("root", &h, Some("$6$salt$other")));
    assert!(credentials_valid("root", &h, None));
    assert!(credentials_valid("root", &PasswordCheck::NoEntry, None));
    assert!(!credentials_valid("rooty", &PasswordCheck::NoEntry, None));
}

#[test]
fn passwd_accounts() {
    let root = user_info(PASSWD, "root").unwrap();
    assert_eq!((root.uid, root.gid), (0, 0));
    assert_eq!(root.home, "/root");
    assert_eq!(root.shell, "/bin/bash");
    let alice = user_info(PASSWD, "alice").unwrap();
    assert_eq!((alice.uid, alice.gid), (1000, 0));
    assert_eq!(alice.shell, "/bin/zsh");
    assert!(user_info(PASSWD, "short").is_none());
    let carol = user_info(PASSWD, "carol").unwrap();
    assert_eq!(carol.home, "");
    assert_eq!(carol.shell, "");
    assert!(user_info(PASSWD, "dave").is_none());
}

#[test]
fn account_defaults() {
    let u = resolve_user(None, None);
    assert_eq!((u.uid, u.gid), (0, 0));
    assert_eq!(u.home, "/root");
    assert_eq!(u.shell, "/bin/sh");
    let empty = UserInfo { uid: 5, gid: 6, home: String::new(), shell: String::new() };
    let u = resolve_user(Some(empty), Some("/bin/ash".to_string()));
    assert_eq!((u.uid, u.gid), (5, 6));
    assert_eq!(u.home, "/root");
    assert_eq!(u.shell, "/bin/ash");
    let full = UserInfo { uid: 1, gid: 2, home: "/home/x".to_string(), shell: "/bin/zsh".to_string() };
    let u = resolve_user(Some(full), Some("/bin/ash".to_string()));
    assert_eq!(u.home, "/home/x");
    assert_eq!(u.shell, "/bin/zsh");
}

#[test]
fn login_shell_environment() {
    let u = UserInfo { uid: 0, gid: 0, home: "/root".to_string(), shell: "/bin/sh".to_string() };
    let env = login_environment("root", &u);
    let pairs: Vec<(&str, &str)> = env.iter().map(|(k, v)| (k.as_str(), v.as_str())).collect();
    assert_eq!(
        pairs,
        vec![
            ("HOME", "/root"),
            ("USER", "root"),
            ("LOGNAME", "root"),
            ("SHELL", "/bin/sh"),
            ("PATH", "/bin:/sbin:/usr/bin:/usr/sbin"),
            ("TERM", "vt102"),
            ("HOSTNAME", "rinit"),
        ]
    );
}
