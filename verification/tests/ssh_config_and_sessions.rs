use kuf::connection::{
    connect_error, first_auth_step, host_key, key_candidates, login_user, next_auth_step,
    resolve_host, session_key, AuthMethod, AuthOutcome, AuthStep, ConnectionManager,
};
use kuf::ssh_config::{config_key_of, parse_ssh_config, parse_ssh_config_in, ConfigKey, SshHost};

const CONFIG: &str = "# global settings\nUser ignored\nHost alpha beta *.wild\n  HostName alpha.example.com\n  User alice\n  Port 2200\n  IdentityFile ~/.ssh/id_alpha\nHost=gamma\n  port=x\n  user bob\nHost delta\n  Port 22x\nHOST EPSILON\n  hostname=eps.example.com\n  IDENTITYFILE /abs/key\nHost\nHost web?\n  User nobody\n";

fn host(alias: &str, host_name: Option<&str>, user: Option<&str>, port: u16) -> SshHost {
    SshHost {
        alias: alias.to_string(),
        host_name: host_name.map(|s| s.to_string()),
        user: user.map(|s| s.to_string()),
        port,
        identity_file: None,
    }
}

#[test]
fn config_hosts() {
    let hosts = parse_ssh_config_in(CONFIG, Some("/home/u"), false);
    let aliases: Vec<&str> = hosts.iter().map(|h| h.alias.as_str()).collect();
    assert_eq!(aliases, vec!["alpha", "beta", "gamma", "delta", "EPSILON"]);
    let a = &hosts[0];
    assert_eq!(a.host_name.as_deref(), Some("alpha.example.com"));
    assert_eq!(a.user.as_deref(), Some("alice"));
    assert_eq!(a.port, 2200);
    assert_eq!(a.identity_file.as_deref(), Some("/home/u/.ssh/id_alpha"));
    assert_eq!(hosts[1].identity_file.as_deref(), Some("/home/u/.ssh/id_alpha"));
    let g = &hosts[2];
    assert_eq!(g.host_name, None);
    assert_eq!(g.user.as_deref(), Some("bob"));
    assert_eq!(g.port, 22);
    assert_eq!(hosts[3].port, 22);
    let e = &hosts[4];
    assert_eq!(e.host_name.as_deref(), Some("eps.example.com"));
    assert_eq!(e.identity_file.as_deref(), Some("/abs/key"));
    assert_eq!(e.user, None);
}

#[test]
fn config_identity_without_home() {
    let hosts = parse_ssh_config_in("Host x\nIdentityFile ~/k\n", None, false);
    assert_eq!(hosts[0].identity_file.as_deref(), Some("~/k"));
    let hosts = parse_ssh_config_in("Host x\nIdentityFile ~/k\n", Some("/root/"), false);
    assert_eq!(hosts[0].identity_file.as_deref(), Some("/root/k"));
}

#[test]
fn config_identity_on_windows() {
    let text = "Host x\nIdentityFile ~/.ssh/id\n";
    let hosts = parse_ssh_config_in(text, Some("C:\\Users\\me"), true);
    assert_eq!(hosts[0].identity_file.as_deref(), Some("C:\\Users\\me\\.ssh/id"));
    let hosts = parse_ssh_config_in(text, Some("C:\\Users\\me\\"), true);
    assert_eq!(hosts[0].identity_file.as_deref(), Some("C:\\Users\\me\\.ssh/id"));
    let hosts = parse_ssh_config_in(text, Some("/home/me"), false);
    assert_eq!(hosts[0].identity_file.as_deref(), Some("/home/me/.ssh/id"));
}

#[test]
fn config_keywords() {
    assert!(config_key_of("host") == ConfigKey::Host);
    assert!(config_key_of("hostname") == ConfigKey::HostName);
    assert!(config_key_of("user") == ConfigKey::User);
    assert!(config_key_of("port") == ConfigKey::Port);
    assert!(config_key_of("identityfile") == ConfigKey::IdentityFile);
    assert!(config_key_of("HOST") == ConfigKey::Other);
    assert!(config_key_of("proxyjump") == ConfigKey::Other);
    assert!(config_key_of("") == ConfigKey::Other);
}

#[test]
fn config_later_values_and_bad_port() {
    let hosts = parse_ssh_config_in("Host x\nPort 2200\nPort = 22\nUser a\nUser b\n", None, false);
    assert_eq!(hosts.len(), 1);
    assert_eq!(hosts[0].port, 22);
    assert_eq!(hosts[0].user.as_deref(), Some("b"));
    assert!(parse_ssh_config_in("", None, false).is_empty());
    assert!(parse_ssh_config_in("HostName a\nUser b\n", None, false).is_empty());
}

#[test]
fn config_through_user_home() {
    let hosts = parse_ssh_config(CONFIG).unwrap();
    assert_eq!(hosts.len(), 5);
    assert_eq!(hosts[2].alias, "gamma");
}

#[test]
fn effective_host_and_user() {
    let h = host("alias", Some("real.host"), Some("me"), 22);
    assert_eq!(h.effective_host(), "real.host");
    assert_eq!(h.effective_user(), Some("me"));
    let h = host("alias", None, None, 22);
    assert_eq!(h.effective_host(), "alias");
    assert_eq!(h.effective_user(), None);
}

#[test]
fn session_keys() {
    assert_eq!(session_key("srv", 22), "srv:22");
    assert_eq!(session_key("a:1", 2), "a:1:2");
    assert_eq!(host_key(&host("box", None, None, 65535)), "box:65535");
    assert_eq!(session_key("", 0), ":0");
}

#[test]
fn session_table() {
    let mut m: ConnectionManager<u32> = ConnectionManager::new();
    assert_eq!(m.get("a", 22), None);
    let a = host("a", None, None, 22);
    let a2 = host("a", None, None, 2222);
    assert!(m.adopt(&a, 1));
    assert!(m.adopt(&a2, 2));
    assert_eq!(m.get("a", 22), Some(&1));
    assert_eq!(m.get("a", 2222), Some(&2));
    assert_eq!(m.cached(&a), Some(&1));
    assert!(!m.adopt(&a, 3));
    assert_eq!(m.get("a", 22), Some(&1));
    assert_eq!(m.disconnect("a", 22), Ok(()));
    assert_eq!(m.get("a", 22), None);
    assert_eq!(m.get("a", 2222), Some(&2));
    assert_eq!(m.disconnect("nobody", 1), Ok(()));
    assert_eq!(m.cached(&a2), Some(&2));
}

/// A connect as the application performs it on the table: reuse the cached
/// session, or file the newly opened one.
fn connect_with(m: &mut ConnectionManager<u32>, h: &SshHost, opened: u32) -> u32 {
    if let Some(x) = m.cached(h) {
        return *x;
    }
    m.adopt(h, opened);
    *m.cached(h).unwrap()
}

#[test]
fn first_connect_since_disconnect_is_kept() {
    let mut m: ConnectionManager<u32> = ConnectionManager::new();
    let a = host("a", None, None, 22);
    let b = host("b", None, None, 22);
    assert_eq!(connect_with(&mut m, &a, 10), 10);
    assert_eq!(connect_with(&mut m, &a, 11), 10);
    assert_eq!(connect_with(&mut m, &b, 20), 20);
    assert_eq!(m.get("a", 22), Some(&10));
    assert_eq!(m.disconnect("a", 22), Ok(()));
    assert_eq!(m.get("a", 22), None);
    assert_eq!(connect_with(&mut m, &a, 12), 12);
    assert_eq!(connect_with(&mut m, &a, 13), 12);
    assert_eq!(m.get("a", 22), Some(&12));
    assert_eq!(m.get("b", 22), Some(&20));
}

#[test]
fn requested_host_resolution() {
    let hosts = vec![host("a", Some("a.example"), Some("u"), 2200), host("a", None, None, 1)];
    let r = resolve_host(&hosts, "a", Some(9), Some("x".to_string()));
    assert_eq!(r.host_name.as_deref(), Some("a.example"));
    assert_eq!(r.port, 2200);
    let r = resolve_host(&hosts, "b.example", None, Some("x".to_string()));
    assert_eq!(r.alias, "b.example");
    assert_eq!(r.host_name.as_deref(), Some("b.example"));
    assert_eq!(r.user.as_deref(), Some("x"));
    assert_eq!(r.port, 22);
    assert_eq!(r.identity_file, None);
    let r = resolve_host(&[], "c", Some(2022), None);
    assert_eq!(r.port, 2022);
    assert_eq!(r.user, None);
}

#[test]
fn login_user_and_connect_error() {
    assert_eq!(login_user(&host("a", None, Some("me"), 22)), Ok("me".to_string()));
    assert_eq!(
        login_user(&host("a", None, None, 22)),
        Err("No username specified. Set User in ssh config or provide credentials.".to_string())
    );
    assert_eq!(
        connect_error(&host("a", Some("a.example"), None, 2200), "refused"),
        "SSH connect to a.example:2200: refused"
    );
    assert_eq!(connect_error(&host("a", None, None, 22), "x"), "SSH connect to a:22: x");
}

#[test]
fn key_files_in_order() {
    let mut h = host("a", None, None, 22);
    h.identity_file = Some("/keys/id".to_string());
    assert_eq!(
        key_candidates(&h, Some("/home/u"), false),
        vec![
            "/keys/id".to_string(),
            "/home/u/.ssh/id_ed25519".to_string(),
            "/home/u/.ssh/id_rsa".to_string(),
            "/home/u/.ssh/id_ecdsa".to_string(),
        ]
    );
    assert_eq!(
        key_candidates(&host("a", None, None, 22), Some("C:\\Users\\u"), true),
        vec![
            "C:\\Users\\u\\.ssh\\id_ed25519".to_string(),
            "C:\\Users\\u\\.ssh\\id_rsa".to_string(),
            "C:\\Users\\u\\.ssh\\id_ecdsa".to_string(),
        ]
    );
    assert_eq!(key_candidates(&h, None, false), vec!["/keys/id".to_string()]);
    assert!(key_candidates(&host("a", None, None, 22), None, true).is_empty());
}

fn is_failed_with(s: &AuthStep, msg: &str) -> bool {
    matches!(s, AuthStep::Failed(m) if m == msg)
}

#[test]
fn authentication_steps() {
    let no_key = "Authentication failed. No valid key found.";
    assert!(matches!(first_auth_step(&AuthMethod::Default, 2), AuthStep::TryKey(0)));
    assert!(is_failed_with(&first_auth_step(&AuthMethod::Default, 0), no_key));
    let pw = AuthMethod::Password { password: "p".to_string() };
    assert!(matches!(first_auth_step(&pw, 0), AuthStep::TryPassword));

    assert!(matches!(next_auth_step(&AuthStep::TryKey(0), AuthOutcome::Rejected, 2), AuthStep::TryKey(1)));
    assert!(is_failed_with(&next_auth_step(&AuthStep::TryKey(1), AuthOutcome::Rejected, 2), no_key));
    assert!(matches!(
        next_auth_step(&AuthStep::TryKey(0), AuthOutcome::Error("bad key".to_string()), 3),
        AuthStep::TryKey(1)
    ));
    assert!(matches!(next_auth_step(&AuthStep::TryKey(1), AuthOutcome::Accepted, 2), AuthStep::Authenticated));
    assert!(matches!(next_auth_step(&AuthStep::TryPassword, AuthOutcome::Accepted, 0), AuthStep::Authenticated));
    assert!(is_failed_with(
        &next_auth_step(&AuthStep::TryPassword, AuthOutcome::Rejected, 0),
        "Password authentication failed"
    ));
    assert!(is_failed_with(
        &next_auth_step(&AuthStep::TryPassword, AuthOutcome::Error("timeout".to_string()), 0),
        "Password auth: timeout"
    ));
}
