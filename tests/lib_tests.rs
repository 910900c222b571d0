use pam_ldap_map::config::{
    default_conn_timeout, default_op_timeout, Config, ConfigErrorKind, Entry, LdapConfig, Scalar,
};
use pam_ldap_map::filter::search_filter;
use pam_ldap_map::groups::{ends_with_ignore_ascii_case, group_names, short_name_of};
use pam_ldap_map::mapping::{decide, str_lt, Mappings};
use pam_ldap_map::servers::extract_ldap_servers;
use pam_ldap_map::session::{Action, Event, Invocation, PamResultCode};

#[test]
fn test_extract_ldap_servers() {
    assert_eq!(
        extract_ldap_servers(&String::from("asdf,qwer")),
        vec!["asdf", "qwer"]
    );
}

#[test]
fn servers_keep_empties_and_spaces() {
    assert_eq!(
        extract_ldap_servers(&String::from(" a,,b ,")),
        vec![" a", "", "b ", ""]
    );
    assert_eq!(extract_ldap_servers(&String::from("")), vec![""]);
    assert_eq!(extract_ldap_servers(&String::from("one")), vec!["one"]);
}

#[test]
fn filter_escapes_metacharacters() {
    let f = search_filter(&String::from("uid"), &String::from("a*b(c)"));
    assert_eq!(f, "(uid=a\\2ab\\28c\\29)");
    assert!(!f.contains("a*b(c)"));
    let g = search_filter(&String::from("uid"), &String::from("x\\y\0"));
    assert_eq!(g, "(uid=x\\5cy\\00)");
    let h = search_filter(&String::from("cn"), &String::from("plain"));
    assert_eq!(h, "(cn=plain)");
}

#[test]
fn suffix_test_ignores_ascii_case() {
    assert!(ends_with_ignore_ascii_case(
        &String::from("cn=admins,OU=Groups,dc=Example"),
        &String::from("ou=groups,DC=example")
    ));
    assert!(!ends_with_ignore_ascii_case(
        &String::from("cn=admins,ou=other,dc=example"),
        &String::from("ou=groups,dc=example")
    ));
    assert!(!ends_with_ignore_ascii_case(&String::from("dc"), &String::from("a,dc")));
}

#[test]
fn short_name_rules() {
    let base = String::from("ou=groups,dc=example");
    assert_eq!(
        short_name_of(&String::from("cn=admins,ou=groups,dc=example"), &base),
        Some(String::from("admins"))
    );
    assert_eq!(
        short_name_of(&String::from("cn=admins,ou=people,dc=example"), &base),
        None
    );
    // first comma right after the prefix: nothing left to name
    assert_eq!(
        short_name_of(&String::from("cn=,ou=groups,dc=example"), &base),
        None
    );
    assert_eq!(
        short_name_of(&String::from("ou=groups,dc=example"), &String::from("dc=example")),
        Some(String::from("groups"))
    );
    assert_eq!(short_name_of(&String::from("cn=x"), &String::from("")), None);
}

fn attrs(v: &[(&str, &[&str])]) -> Vec<(String, Vec<String>)> {
    v.iter()
        .map(|(n, vals)| (n.to_string(), vals.iter().map(|s| s.to_string()).collect()))
        .collect()
}

#[test]
fn group_names_filter_and_dedup() {
    let a = attrs(&[
        (
            "memberOf",
            &[
                "cn=admins,ou=groups,dc=example",
                "cn=ops,OU=GROUPS,dc=example",
                "cn=admins,ou=groups,dc=example",
                "cn=x,ou=elsewhere",
            ],
        ),
        ("mail", &["cn=mail,ou=groups,dc=example"]),
        ("memberOf", &["cn=ops,ou=groups,dc=example"]),
    ]);
    let mut g = group_names(
        &a,
        &String::from("memberOf"),
        &String::from("ou=groups,dc=example"),
    );
    g.sort();
    assert_eq!(g, vec!["admins", "ops"]);
}

#[test]
fn str_lt_is_byte_order() {
    assert!(str_lt(&String::from("admins"), &String::from("zoo")));
    assert!(!str_lt(&String::from("zoo"), &String::from("admins")));
    assert!(str_lt(&String::from("ab"), &String::from("abc")));
    assert!(!str_lt(&String::from("abc"), &String::from("abc")));
    assert!(str_lt(&String::from("Z"), &String::from("a")));
}

fn table(pairs: &[(&str, &str)]) -> Mappings {
    let mut m = Mappings::new();
    for (g, t) in pairs {
        m.insert(g.to_string(), t.to_string());
    }
    m
}

#[test]
fn mappings_sorted_and_replaced() {
    let m = table(&[("zoo", "rootx"), ("admins", "root"), ("ops", "o"), ("ops", "o2")]);
    assert_eq!(m.len(), 3);
    let keys: Vec<String> = (0..m.len()).map(|i| m.entry(i).0.clone()).collect();
    assert_eq!(keys, vec!["admins", "ops", "zoo"]);
    assert_eq!(m.entry(1).1, "o2");
    assert!(m.contains_group(&String::from("zoo")));
    assert!(!m.contains_group(&String::from("zo")));
}

#[test]
fn decision_first_match_in_sorted_order() {
    let m = table(&[("zoo", "rootx"), ("admins", "root")]);
    let groups = vec![String::from("zoo"), String::from("admins")];
    assert_eq!(decide(&groups, &m), Some(String::from("root")));
    let groups2 = vec![String::from("admins"), String::from("zoo"), String::from("zoo")];
    assert_eq!(decide(&groups2, &m), decide(&groups, &m));
    assert_eq!(decide(&vec![String::from("zoo")], &m), Some(String::from("rootx")));
    assert_eq!(decide(&vec![String::from("other")], &m), None);
    assert_eq!(decide(&vec![], &m), None);
}

fn text(s: &str) -> Scalar {
    Scalar::Text(s.to_string())
}

fn ldap_section(uri: &str) -> Vec<(String, Scalar)> {
    vec![
        ("uri".to_string(), text(uri)),
        ("user".to_string(), text("cn=binder,dc=example")),
        ("pass".to_string(), text("SECRET-REDACTED")),
        ("user_base_dn".to_string(), text("ou=people,dc=example")),
        ("group_base_dn".to_string(), text("ou=groups,dc=example")),
        ("uid_attribute".to_string(), text("uid")),
        ("group_attribute".to_string(), text("memberOf")),
    ]
}

fn document(uri: &str, pairs: &[(&str, &str)]) -> Vec<(String, Entry)> {
    vec![
        ("ldap".to_string(), Entry::Section(ldap_section(uri))),
        (
            "mappings".to_string(),
            Entry::Section(pairs.iter().map(|(g, t)| (g.to_string(), text(t))).collect()),
        ),
    ]
}

#[test]
fn default_timeouts() {
    assert_eq!(default_conn_timeout(), 2);
    assert_eq!(default_op_timeout(), 5);
    let c = LdapConfig::from_section(&ldap_section("ldaps://a")).unwrap();
    assert_eq!(c.conn_timeout, 2);
    assert_eq!(c.op_timeout, 5);
    let mut s = ldap_section("ldaps://a");
    s.push(("conn_timeout".to_string(), Scalar::Integer(7)));
    s.push(("op_timeout".to_string(), Scalar::Integer(9)));
    let c = LdapConfig::from_section(&s).unwrap();
    assert_eq!((c.conn_timeout, c.op_timeout), (7, 9));
}

#[test]
fn unknown_keys_rejected() {
    let mut s = ldap_section("ldaps://a");
    s.push(("port".to_string(), Scalar::Integer(636)));
    let e = LdapConfig::from_section(&s).err().unwrap();
    assert_eq!(e.kind, ConfigErrorKind::Parse);
    let mut d = document("ldaps://a", &[("admins", "root")]);
    d.push(("extra".to_string(), Entry::Value(text("x"))));
    assert_eq!(Config::from_document(&d).err().unwrap().kind, ConfigErrorKind::Parse);
    assert!(Config::from_document(&document("ldaps://a", &[("admins", "root")])).is_ok());
}

#[test]
fn schema_errors() {
    let mut s = ldap_section("ldaps://a");
    s.remove(0);
    assert!(LdapConfig::from_section(&s).is_err());
    let mut s = ldap_section("ldaps://a");
    s.push(("op_timeout".to_string(), Scalar::Integer(-1)));
    assert!(LdapConfig::from_section(&s).is_err());
    let mut s = ldap_section("ldaps://a");
    s.push(("op_timeout".to_string(), text("5")));
    assert!(LdapConfig::from_section(&s).is_err());
    let s = vec![("uri".to_string(), text(""))];
    assert!(LdapConfig::from_section(&s).is_err());
    let d = vec![("ldap".to_string(), Entry::Section(ldap_section("x")))];
    assert!(Config::from_document(&d).is_err());
    let d = vec![
        ("ldap".to_string(), Entry::Section(ldap_section("x"))),
        ("mappings".to_string(), Entry::Section(vec![("g".to_string(), Scalar::Integer(1))])),
    ];
    assert!(Config::from_document(&d).is_err());
    let d = vec![
        ("ldap".to_string(), Entry::Section(ldap_section("x"))),
        (
            "mappings".to_string(),
            Entry::Section(vec![("g".to_string(), text("a")), ("g".to_string(), text("b"))]),
        ),
    ];
    assert!(Config::from_document(&d).is_err());
}

#[test]
fn document_read_in_full() {
    let c = Config::from_document(&document("ldaps://a,ldaps://b", &[("zoo", "z"), ("admins", "root")]))
        .unwrap();
    assert_eq!(c.ldap.uri, "ldaps://a,ldaps://b");
    assert_eq!(c.ldap.uid_attribute, "uid");
    assert_eq!(c.mappings.len(), 2);
    assert_eq!(c.mappings.entry(0).0, "admins");
}

/// What a scripted host and directory saw during one invocation.
struct Trace {
    code: PamResultCode,
    connects: Vec<String>,
    set_users: Vec<String>,
    filters: Vec<String>,
    unbinds: usize,
    bound: bool,
    loads: usize,
    notices: Vec<String>,
}

fn run(
    user: Option<&str>,
    args: Vec<String>,
    silent: bool,
    config: Option<Config>,
    up: &[&str],
    search: Option<Vec<(String, Vec<String>)>>,
    set_user_ok: bool,
) -> Trace {
    let mut inv = Invocation::new(args, silent);
    let mut t = Trace {
        code: PamResultCode::PAM_SERVICE_ERR,
        connects: vec![],
        set_users: vec![],
        filters: vec![],
        unbinds: 0,
        bound: false,
        loads: 0,
        notices: vec![],
    };
    let mut config = config;
    let mut ev = Event::Unbound;
    for _ in 0..100 {
        let a = inv.step(ev);
        ev = match a {
            Action::GetUser => Event::User(user.map(|u| u.to_string())),
            Action::LoadConfig(_) => {
                t.loads += 1;
                Event::ConfigLoaded(config.take().ok_or_else(|| {
                    pam_ldap_map::config::ConfigError::read_failure(String::from("no file"))
                }))
            }
            Action::Connect { server, .. } => {
                let ok = up.contains(&server.as_str());
                t.connects.push(server);
                Event::Connected(ok)
            }
            Action::Bind { .. } => {
                t.bound = true;
                Event::Bound(true)
            }
            Action::Search { filter, .. } => {
                t.filters.push(filter);
                Event::Searched(search.clone())
            }
            Action::SetUser { target, notice } => {
                if let Some(n) = notice {
                    t.notices.push(n);
                }
                t.set_users.push(target);
                Event::UserSet(set_user_ok)
            }
            Action::Unbind => {
                t.unbinds += 1;
                t.bound = false;
                Event::Unbound
            }
            Action::Finish { code, notice } => {
                if let Some(n) = notice {
                    t.notices.push(n);
                }
                t.code = code;
                return t;
            }
        };
    }
    panic!("invocation did not finish");
}

fn cfg(uri: &str, pairs: &[(&str, &str)]) -> Option<Config> {
    Some(Config::from_document(&document(uri, pairs)).unwrap())
}

fn member_of(values: &[&str]) -> Option<Vec<(String, Vec<String>)>> {
    Some(attrs(&[("memberOf", values)]))
}

fn one_arg() -> Vec<String> {
    vec![String::from("/etc/pam_ldap_map.toml")]
}

#[test]
fn happy_path() {
    let t = run(
        Some("alice"),
        one_arg(),
        false,
        cfg("ldaps://up", &[("admins", "root")]),
        &["ldaps://up"],
        member_of(&["cn=admins,ou=groups,dc=example", "cn=x,ou=groups,dc=example"]),
        true,
    );
    assert_eq!(t.code, PamResultCode::PAM_SUCCESS);
    assert_eq!(t.set_users, vec!["root"]);
    assert_eq!(t.notices, vec!["Mapping alice -> root"]);
    assert_eq!(t.unbinds, 1);
    assert!(!t.bound);
}

#[test]
fn silent_suppresses_notice() {
    let t = run(
        Some("alice"),
        one_arg(),
        true,
        cfg("ldaps://up", &[("admins", "root")]),
        &["ldaps://up"],
        member_of(&["cn=admins,ou=groups,dc=example"]),
        true,
    );
    assert_eq!(t.code, PamResultCode::PAM_SUCCESS);
    assert!(t.notices.is_empty());
}

#[test]
fn no_membership() {
    let t = run(
        Some("alice"),
        one_arg(),
        false,
        cfg("ldaps://up", &[("admins", "root")]),
        &["ldaps://up"],
        member_of(&["cn=users,ou=groups,dc=example"]),
        true,
    );
    assert_eq!(t.code, PamResultCode::PAM_AUTH_ERR);
    assert!(t.set_users.is_empty());
    assert_eq!(t.unbinds, 1);
}

#[test]
fn server_failover() {
    let t = run(
        Some("alice"),
        one_arg(),
        false,
        cfg("ldaps://down,ldaps://up,ldaps://never", &[("admins", "root")]),
        &["ldaps://up", "ldaps://never"],
        member_of(&["cn=admins,ou=groups,dc=example"]),
        true,
    );
    assert_eq!(t.code, PamResultCode::PAM_SUCCESS);
    assert_eq!(t.set_users, vec!["root"]);
    assert_eq!(t.connects, vec!["ldaps://down", "ldaps://up"]);
}

#[test]
fn all_servers_down() {
    let t = run(
        Some("alice"),
        one_arg(),
        false,
        cfg("ldaps://a,ldaps://b", &[("admins", "root")]),
        &[],
        member_of(&["cn=admins,ou=groups,dc=example"]),
        true,
    );
    assert_eq!(t.code, PamResultCode::PAM_SERVICE_ERR);
    assert!(t.set_users.is_empty());
    assert_eq!(t.connects, vec!["ldaps://a", "ldaps://b"]);
    assert_eq!(t.unbinds, 0);
}

#[test]
fn bad_argument_count() {
    let t = run(
        Some("alice"),
        vec![],
        false,
        cfg("ldaps://up", &[("admins", "root")]),
        &["ldaps://up"],
        None,
        true,
    );
    assert_eq!(t.code, PamResultCode::PAM_SERVICE_ERR);
    assert_eq!(t.loads, 0);
}

#[test]
fn no_principal() {
    let t = run(None, one_arg(), false, None, &[], None, true);
    assert_eq!(t.code, PamResultCode::PAM_AUTH_ERR);
    assert_eq!(t.loads, 0);
}

#[test]
fn config_failure_reported_unless_silent() {
    let t = run(Some("alice"), one_arg(), false, None, &[], None, true);
    assert_eq!(t.code, PamResultCode::PAM_SERVICE_ERR);
    assert_eq!(t.notices, vec!["ERROR: no file"]);
    let t = run(Some("alice"), one_arg(), true, None, &[], None, true);
    assert!(t.notices.is_empty());
}

#[test]
fn filter_injection() {
    let t = run(
        Some("a*b(c)"),
        one_arg(),
        true,
        cfg("ldaps://up", &[("admins", "root")]),
        &["ldaps://up"],
        member_of(&[]),
        true,
    );
    assert_eq!(t.filters, vec!["(uid=a\\2ab\\28c\\29)"]);
}

#[test]
fn tie_break() {
    let t = run(
        Some("alice"),
        one_arg(),
        true,
        cfg("ldaps://up", &[("zoo", "rootx"), ("admins", "root")]),
        &["ldaps://up"],
        member_of(&["cn=zoo,ou=groups,dc=example", "cn=admins,ou=groups,dc=example"]),
        true,
    );
    assert_eq!(t.set_users, vec!["root"]);
}

#[test]
fn search_failure_still_unbinds() {
    let t = run(
        Some("alice"),
        one_arg(),
        true,
        cfg("ldaps://up", &[("admins", "root")]),
        &["ldaps://up"],
        None,
        true,
    );
    assert_eq!(t.code, PamResultCode::PAM_SERVICE_ERR);
    assert_eq!(t.unbinds, 1);
    assert!(!t.bound);
}

#[test]
fn set_user_rejected() {
    let t = run(
        Some("alice"),
        one_arg(),
        true,
        cfg("ldaps://up", &[("admins", "root")]),
        &["ldaps://up"],
        member_of(&["cn=admins,ou=groups,dc=example"]),
        false,
    );
    assert_eq!(t.code, PamResultCode::PAM_SERVICE_ERR);
    assert_eq!(t.unbinds, 1);
}

#[test]
fn repeated_keys_rejected() {
    let mut s = ldap_section("ldaps://a");
    s.push(("uri".to_string(), text("ldaps://b")));
    assert_eq!(LdapConfig::from_section(&s).err().unwrap().kind, ConfigErrorKind::Parse);
    let mut d = document("ldaps://a", &[("admins", "root")]);
    d.push(("ldap".to_string(), Entry::Section(ldap_section("ldaps://b"))));
    assert_eq!(Config::from_document(&d).err().unwrap().kind, ConfigErrorKind::Parse);
}

#[test]
fn bind_failure_fails_over() {
    // endpoint "ldaps://nobind" connects but its bind fails
    let mut inv = Invocation::new(one_arg(), true);
    let mut ev = Event::Unbound;
    let mut connects: Vec<String> = vec![];
    let mut current = String::new();
    let mut config = cfg("ldaps://nobind,ldaps://up", &[("admins", "root")]);
    let code = loop {
        ev = match inv.step(ev) {
            Action::GetUser => Event::User(Some("alice".to_string())),
            Action::LoadConfig(_) => Event::ConfigLoaded(Ok(config.take().unwrap())),
            Action::Connect { server, timeout } => {
                assert_eq!(timeout, 2);
                connects.push(server.clone());
                current = server;
                Event::Connected(true)
            }
            Action::Bind { timeout, .. } => {
                assert_eq!(timeout, 5);
                Event::Bound(current == "ldaps://up")
            }
            Action::Search { .. } => Event::Searched(member_of(&["cn=admins,ou=groups,dc=example"])),
            Action::SetUser { .. } => Event::UserSet(true),
            Action::Unbind => Event::Unbound,
            Action::Finish { code, .. } => break code,
        };
    };
    assert_eq!(code, PamResultCode::PAM_SUCCESS);
    assert_eq!(connects, vec!["ldaps://nobind", "ldaps://up"]);
}
