use vstd::prelude::*;
use crate::mapping::Mappings;

verus! {

/// Connect timeout, in seconds, where the configuration gives none.
pub const LDAP_CONN_TIMEOUT: u64 = 2;

/// Operation timeout, in seconds, where the configuration gives none.
pub const LDAP_OP_TIMEOUT: u64 = 5;

/// The default connect timeout.
pub fn default_conn_timeout() -> (r: u64)
    ensures
        r == 2,
{
    LDAP_CONN_TIMEOUT
}

/// The default operation timeout.
pub fn default_op_timeout() -> (r: u64)
    ensures
        r == 5,
{
    LDAP_OP_TIMEOUT
}

/// A value of the configuration document, as far as the schema reads it.
pub enum Scalar {
    Text(String),
    Integer(i64),
    /// Any other kind of value (a boolean, an array, a nested table, ...).
    Other,
}

/// A top-level entry of the document: a section of keyed values, or a
/// value that stands outside any section.
pub enum Entry {
    Section(Vec<(String, Scalar)>),
    Value(Scalar),
}

#[derive(Debug, Clone, Copy, PartialEq, Eq, Structural)]
pub enum ConfigErrorKind {
    /// The file could not be read.
    Read,
    /// The document does not fit the schema.
    Parse,
}

/// Why a configuration could not be loaded, with a human-readable message.
#[derive(Debug)]
pub struct ConfigError {
    pub kind: ConfigErrorKind,
    pub message: String,
}

impl ConfigError {
    pub fn read_failure(message: String) -> (r: ConfigError)
        ensures
            r.kind == ConfigErrorKind::Read,
            r.message@ == message@,
    {
        ConfigError { kind: ConfigErrorKind::Read, message }
    }

    pub fn parse_failure(message: String) -> (r: ConfigError)
        ensures
            r.kind == ConfigErrorKind::Parse,
            r.message@ == message@,
    {
        ConfigError { kind: ConfigErrorKind::Parse, message }
    }
}

/// Directory settings.
pub struct LdapConfig {
    pub uri: String,
    pub user: String,
    pub pass: String,
    pub conn_timeout: u64,
    pub op_timeout: u64,
    pub user_base_dn: String,
    pub group_base_dn: String,
    pub uid_attribute: String,
    pub group_attribute: String,
}

/// The whole configuration: directory settings and the group mapping table.
pub struct Config {
    pub ldap: LdapConfig,
    pub mappings: Mappings,
}

/// The value under key `k` in a section (its first occurrence).
pub open spec fn find<V>(e: Seq<(String, V)>, k: Seq<char>) -> Option<V>
    decreases e.len(),
{
    if e.len() == 0 {
        None
    } else if e[0].0@ == k {
        Some(e[0].1)
    } else {
        find(e.drop_first(), k)
    }
}

/// A required field: present, a string, and not empty.
pub open spec fn text_field(e: Seq<(String, Scalar)>, k: Seq<char>) -> Option<Seq<char>> {
    match find(e, k) {
        Some(Scalar::Text(s)) => if s@.len() > 0 {
            Some(s@)
        } else {
            None
        },
        _ => None,
    }
}

/// An optional timeout: `default` where absent, else a non-negative integer.
pub open spec fn timeout_field(e: Seq<(String, Scalar)>, k: Seq<char>, default: u64) -> Option<
    u64,
> {
    match find(e, k) {
        None => Some(default),
        Some(Scalar::Integer(n)) => if 0 <= n {
            Some(n as u64)
        } else {
            None
        },
        _ => None,
    }
}

/// The keys that the directory section may hold.
pub open spec fn ldap_key(k: Seq<char>) -> bool {
    k == "uri"@ || k == "user"@ || k == "pass"@ || k == "conn_timeout"@ || k == "op_timeout"@
        || k == "user_base_dn"@ || k == "group_base_dn"@ || k == "uid_attribute"@ || k
        == "group_attribute"@
}

pub open spec fn only_ldap_keys(e: Seq<(String, Scalar)>) -> bool {
    forall|i: int| 0 <= i < e.len() ==> ldap_key(#[trigger] e[i].0@)
}

/// The directory section fits the schema.
pub open spec fn ldap_section_ok(e: Seq<(String, Scalar)>) -> bool {
    &&& only_ldap_keys(e)
    &&& keys_distinct(e)
    &&& text_field(e, "uri"@) is Some
    &&& text_field(e, "user"@) is Some
    &&& text_field(e, "pass"@) is Some
    &&& timeout_field(e, "conn_timeout"@, 2) is Some
    &&& timeout_field(e, "op_timeout"@, 5) is Some
    &&& text_field(e, "user_base_dn"@) is Some
    &&& text_field(e, "group_base_dn"@) is Some
    &&& text_field(e, "uid_attribute"@) is Some
    &&& text_field(e, "group_attribute"@) is Some
}

/// The settings read from a section that fits the schema.
pub open spec fn ldap_matches(c: LdapConfig, e: Seq<(String, Scalar)>) -> bool {
    &&& Some(c.uri@) == text_field(e, "uri"@)
    &&& Some(c.user@) == text_field(e, "user"@)
    &&& Some(c.pass@) == text_field(e, "pass"@)
    &&& Some(c.conn_timeout) == timeout_field(e, "conn_timeout"@, 2)
    &&& Some(c.op_timeout) == timeout_field(e, "op_timeout"@, 5)
    &&& Some(c.user_base_dn@) == text_field(e, "user_base_dn"@)
    &&& Some(c.group_base_dn@) == text_field(e, "group_base_dn"@)
    &&& Some(c.uid_attribute@) == text_field(e, "uid_attribute"@)
    &&& Some(c.group_attribute@) == text_field(e, "group_attribute"@)
}

/// Whether `k` and the literal `name` hold the same characters.
pub fn key_is(k: &String, name: &str) -> (r: bool)
    ensures
        r == (k@ == name@),
{
    let a = k.as_str();
    let n = a.unicode_len();
    let m = name.unicode_len();
    if n != m {
        return false;
    }
    let mut i: usize = 0;
    while i < n
        invariant
            a@ == k@,
            n == k@.len(),
            m == name@.len(),
            n == m,
            i <= n,
            forall|t: int| 0 <= t < i ==> k@[t] == name@[t],
        decreases n - i,
    {
        if a.get_char(i) != name.get_char(i) {
            return false;
        }
        i = i + 1;
    }
    assert(k@ =~= name@);
    true
}

/// The index of the first entry under key `k`.
fn find_index<V>(e: &Vec<(String, V)>, k: &str) -> (r: Option<usize>)
    ensures
        match r {
            Some(i) => i < e@.len() && find(e@, k@) == Some(e@[i as int].1),
            None => find(e@, k@) is None,
        },
{
    let mut i: usize = 0;
    assert(e@.skip(0) =~= e@);
    while i < e.len()
        invariant
            i <= e@.len(),
            find(e@.skip(i as int), k@) == find(e@, k@),
        decreases e.len() - i,
    {
        assert(e@.skip(i as int)[0] == e@[i as int]);
        assert(e@.skip(i as int).drop_first() =~= e@.skip(i + 1));
        if key_is(&e[i].0, k) {
            return Some(i);
        }
        i = i + 1;
    }
    None
}

/// A required, non-empty string field.
fn required_text(e: &Vec<(String, Scalar)>, k: &str) -> (r: Result<String, ConfigError>)
    ensures
        match r {
            Ok(s) => text_field(e@, k@) == Some(s@),
            Err(err) => text_field(e@, k@) is None && err.kind == ConfigErrorKind::Parse,
        },
{
    match find_index(e, k) {
        Some(i) => match &e[i].1 {
            Scalar::Text(s) => {
                if s.unicode_len() > 0 {
                    Ok(s.clone())
                } else {
                    Err(field_error("empty value for key: ", k))
                }
            },
            _ => Err(field_error("a string is wanted for key: ", k)),
        },
        None => Err(field_error("missing key: ", k)),
    }
}

/// An optional timeout, in seconds.
fn timeout(e: &Vec<(String, Scalar)>, k: &str, default: u64) -> (r: Result<u64, ConfigError>)
    ensures
        match r {
            Ok(t) => timeout_field(e@, k@, default) == Some(t),
            Err(err) => timeout_field(e@, k@, default) is None && err.kind
                == ConfigErrorKind::Parse,
        },
{
    match find_index(e, k) {
        Some(i) => match &e[i].1 {
            Scalar::Integer(n) => {
                if *n >= 0 {
                    Ok(*n as u64)
                } else {
                    Err(field_error("a non-negative integer is wanted for key: ", k))
                }
            },
            _ => Err(field_error("an integer is wanted for key: ", k)),
        },
        None => Ok(default),
    }
}

fn field_error(what: &str, k: &str) -> (r: ConfigError)
    ensures
        r.kind == ConfigErrorKind::Parse,
{
    let mut m = String::from_str(what);
    m.append(k);
    ConfigError::parse_failure(m)
}

/// No key stands twice.
pub open spec fn keys_distinct<V>(e: Seq<(String, V)>) -> bool {
    forall|i: int, j: int| 0 <= i < j < e.len() ==> #[trigger] e[i].0@ != #[trigger] e[j].0@
}

/// Whether every key of `e` stands once.
pub fn distinct_keys<V>(e: &Vec<(String, V)>) -> (r: bool)
    ensures
        r == keys_distinct(e@),
{
    let mut j: usize = 0;
    while j < e.len()
        invariant
            j <= e@.len(),
            forall|a: int, b: int| 0 <= a < b < j ==> #[trigger] e@[a].0@ != #[trigger] e@[b].0@,
        decreases e.len() - j,
    {
        let mut i: usize = 0;
        while i < j
            invariant
                i <= j < e@.len(),
                forall|a: int| 0 <= a < i ==> #[trigger] e@[a].0@ != e@[j as int].0@,
            decreases j - i,
        {
            if e[i].0 == e[j].0 {
                return false;
            }
            i = i + 1;
        }
        j = j + 1;
    }
    true
}

fn is_ldap_key(k: &String) -> (r: bool)
    ensures
        r == ldap_key(k@),
{
    key_is(k, "uri") || key_is(k, "user") || key_is(k, "pass") || key_is(k, "conn_timeout")
        || key_is(k, "op_timeout") || key_is(k, "user_base_dn") || key_is(k, "group_base_dn")
        || key_is(k, "uid_attribute") || key_is(k, "group_attribute")
}

impl LdapConfig {
    /// Reads the directory section: every key must be one of the schema's,
    /// the string fields present and non-empty, the timeouts, where given,
    /// non-negative integers (2 and 5 seconds where absent).
    pub fn from_section(e: &Vec<(String, Scalar)>) -> (r: Result<LdapConfig, ConfigError>)
        ensures
            r is Ok <==> ldap_section_ok(e@),
            match r {
                Ok(c) => ldap_matches(c, e@),
                Err(err) => err.kind == ConfigErrorKind::Parse,
            },
    {
        let mut i: usize = 0;
        while i < e.len()
            invariant
                i <= e@.len(),
                forall|t: int| 0 <= t < i ==> ldap_key(#[trigger] e@[t].0@),
            decreases e.len() - i,
        {
            if !is_ldap_key(&e[i].0) {
                let mut m = String::from_str("unknown key in the ldap section: ");
                m.append(e[i].0.as_str());
                return Err(ConfigError::parse_failure(m));
            }
            i = i + 1;
        }
        if !distinct_keys(e) {
            return Err(
                ConfigError::parse_failure(String::from_str("a key repeats in the ldap section")),
            );
        }
        let uri = required_text(e, "uri")?;
        let user = required_text(e, "user")?;
        let pass = required_text(e, "pass")?;
        let conn_timeout = timeout(e, "conn_timeout", default_conn_timeout())?;
        let op_timeout = timeout(e, "op_timeout", default_op_timeout())?;
        let user_base_dn = required_text(e, "user_base_dn")?;
        let group_base_dn = required_text(e, "group_base_dn")?;
        let uid_attribute = required_text(e, "uid_attribute")?;
        let group_attribute = required_text(e, "group_attribute")?;
        Ok(
            LdapConfig {
                uri,
                user,
                pass,
                conn_timeout,
                op_timeout,
                user_base_dn,
                group_base_dn,
                uid_attribute,
                group_attribute,
            },
        )
    }
}

/// The keys that may stand at the top of the document.
pub open spec fn top_key(k: Seq<char>) -> bool {
    k == "ldap"@ || k == "mappings"@
}

/// The mapping section fits the schema: string values, each key once.
pub open spec fn mapping_section_ok(m: Seq<(String, Scalar)>) -> bool {
    &&& forall|i: int| 0 <= i < m.len() ==> (#[trigger] m[i].1) is Text
    &&& forall|i: int, j: int|
        0 <= i < j < m.len() ==> #[trigger] m[i].0@ != #[trigger] m[j].0@
}

/// `p` is a (group, target) pair that the mapping section holds.
pub open spec fn section_pair(m: Seq<(String, Scalar)>, p: (Seq<char>, Seq<char>)) -> bool {
    exists|i: int|
        0 <= i < m.len() && #[trigger] m[i].0@ == p.0 && match m[i].1 {
            Scalar::Text(s) => s@ == p.1,
            _ => false,
        }
}

/// The whole document fits the schema.
pub open spec fn document_ok(d: Seq<(String, Entry)>) -> bool {
    &&& forall|i: int| 0 <= i < d.len() ==> top_key(#[trigger] d[i].0@)
    &&& keys_distinct(d)
    &&& match find(d, "ldap"@) {
        Some(Entry::Section(s)) => ldap_section_ok(s@),
        _ => false,
    }
    &&& match find(d, "mappings"@) {
        Some(Entry::Section(m)) => mapping_section_ok(m@),
        _ => false,
    }
}

/// The configuration read from a document that fits the schema.
pub open spec fn config_matches(c: Config, d: Seq<(String, Entry)>) -> bool {
    &&& match find(d, "ldap"@) {
        Some(Entry::Section(s)) => ldap_matches(c.ldap, s@),
        _ => false,
    }
    &&& match find(d, "mappings"@) {
        Some(Entry::Section(m)) => forall|p: (Seq<char>, Seq<char>)|
            #[trigger] c.mappings@.contains(p) <==> section_pair(m@, p),
        _ => false,
    }
}

fn mappings_from_section(m: &Vec<(String, Scalar)>) -> (r: Result<Mappings, ConfigError>)
    ensures
        r is Ok <==> mapping_section_ok(m@),
        match r {
            Ok(t) => t.wf() && forall|p: (Seq<char>, Seq<char>)|
                #[trigger] t@.contains(p) <==> section_pair(m@, p),
            Err(err) => err.kind == ConfigErrorKind::Parse,
        },
{
    let mut t = Mappings::new();
    let mut i: usize = 0;
    while i < m.len()
        invariant
            i <= m@.len(),
            t.wf(),
            forall|a: int| 0 <= a < i ==> (#[trigger] m@[a].1) is Text,
            forall|a: int, b: int|
                0 <= a < b < i ==> #[trigger] m@[a].0@ != #[trigger] m@[b].0@,
            forall|p: (Seq<char>, Seq<char>)|
                #[trigger] t@.contains(p) <==> section_pair(m@.take(i as int), p),
        decreases m.len() - i,
    {
        let ghost prefix = m@.take(i as int);
        let ghost next = m@.take(i + 1);
        assert(next =~= prefix.push(m@[i as int]));
        match &m[i].1 {
            Scalar::Text(target) => {
                if t.contains_group(&m[i].0) {
                    proof {
                        let x = choose|x: int| 0 <= x < t@.len() && #[trigger] t@[x].0 == m@[i as int].0@;
                        assert(t@.contains(t@[x]));
                        let a = choose|a: int|
                            0 <= a < prefix.len() && #[trigger] prefix[a].0@ == t@[x].0 && match prefix[a].1 {
                                Scalar::Text(s) => s@ == t@[x].1,
                                _ => false,
                            };
                        assert(m@[a].0@ == m@[i as int].0@);
                    }
                    let mut msg = String::from_str("group mapped twice: ");
                    msg.append(m[i].0.as_str());
                    return Err(ConfigError::parse_failure(msg));
                }
                let ghost key = m@[i as int].0@;
                proof {
                    assert forall|a: int| 0 <= a < i implies #[trigger] m@[a].0@ != key by {
                        if m@[a].0@ == key {
                            if let Scalar::Text(s) = m@[a].1 {
                                assert(prefix[a] == m@[a]);
                                assert(section_pair(prefix, (key, s@)));
                                assert(t@.contains((key, s@)));
                                let x = choose|x: int| 0 <= x < t@.len() && t@[x] == (key, s@);
                                assert(t@[x].0 == key);
                            }
                        }
                    }
                }
                let ghost old_t = t@;
                t.insert(m[i].0.clone(), target.clone());
                assert forall|p: (Seq<char>, Seq<char>)|
                    #[trigger] t@.contains(p) <==> section_pair(next, p) by {
                    if section_pair(next, p) {
                        let a = choose|a: int|
                            0 <= a < next.len() && #[trigger] next[a].0@ == p.0 && match next[a].1 {
                                Scalar::Text(s) => s@ == p.1,
                                _ => false,
                            };
                        if a < i {
                            assert(prefix[a] == next[a]);
                            assert(section_pair(prefix, p));
                            assert(p.0 != key);
                        }
                    }
                    if old_t.contains(p) && p.0 != key {
                        assert(section_pair(prefix, p));
                        let a = choose|a: int|
                            0 <= a < prefix.len() && #[trigger] prefix[a].0@ == p.0 && match prefix[a].1 {
                                Scalar::Text(s) => s@ == p.1,
                                _ => false,
                            };
                        assert(next[a] == prefix[a]);
                    }
                    if p == (key, target@) {
                        assert(next[i as int] == m@[i as int]);
                    }
                    if section_pair(next, p) && !(p == (key, target@)) {
                        let a = choose|a: int|
                            0 <= a < next.len() && #[trigger] next[a].0@ == p.0 && match next[a].1 {
                                Scalar::Text(s) => s@ == p.1,
                                _ => false,
                            };
                        assert(a < i);
                        assert(prefix[a] == next[a]);
                        assert(section_pair(prefix, p));
                    }
                }
            },
            _ => {
                let mut msg = String::from_str("a string is wanted for group: ");
                msg.append(m[i].0.as_str());
                return Err(ConfigError::parse_failure(msg));
            },
        }
        i = i + 1;
    }
    assert(m@.take(i as int) =~= m@);
    Ok(t)
}

impl Config {
    /// Reads a whole configuration document: the top level holds exactly
    /// the `ldap` and `mappings` sections, each fitting its schema.
    pub fn from_document(d: &Vec<(String, Entry)>) -> (r: Result<Config, ConfigError>)
        ensures
            r is Ok <==> document_ok(d@),
            match r {
                Ok(c) => c.mappings.wf() && config_matches(c, d@),
                Err(err) => err.kind == ConfigErrorKind::Parse,
            },
    {
        let mut i: usize = 0;
        while i < d.len()
            invariant
                i <= d@.len(),
                forall|t: int| 0 <= t < i ==> top_key(#[trigger] d@[t].0@),
            decreases d.len() - i,
        {
            if !(key_is(&d[i].0, "ldap") || key_is(&d[i].0, "mappings")) {
                let mut m = String::from_str("unknown key at the top level: ");
                m.append(d[i].0.as_str());
                return Err(ConfigError::parse_failure(m));
            }
            i = i + 1;
        }
        if !distinct_keys(d) {
            return Err(ConfigError::parse_failure(String::from_str("a top-level key repeats")));
        }
        let ldap = match find_index(d, "ldap") {
            Some(k) => match &d[k].1 {
                Entry::Section(s) => LdapConfig::from_section(s)?,
                Entry::Value(_) => {
                    return Err(
                        ConfigError::parse_failure(String::from_str("ldap must be a section")),
                    );
                },
            },
            None => {
                return Err(ConfigError::parse_failure(String::from_str("missing section: ldap")));
            },
        };
        let mappings = match find_index(d, "mappings") {
            Some(k) => match &d[k].1 {
                Entry::Section(m) => mappings_from_section(m)?,
                Entry::Value(_) => {
                    return Err(
                        ConfigError::parse_failure(String::from_str("mappings must be a section")),
                    );
                },
            },
            None => {
                return Err(
                    ConfigError::parse_failure(String::from_str("missing section: mappings")),
                );
            },
        };
        Ok(Config { ldap, mappings })
    }
}

/// A document holding a top-level key that the schema does not know is
/// refused.
pub proof fn lemma_unknown_top_key_rejected(d: Seq<(String, Entry)>, i: int)
    requires
        0 <= i < d.len(),
        !top_key(d[i].0@),
    ensures
        !document_ok(d),
{
}

/// A section holding a key that the schema does not know is refused.
pub proof fn lemma_unknown_key_rejected(e: Seq<(String, Scalar)>, i: int)
    requires
        0 <= i < e.len(),
        !ldap_key(e[i].0@),
    ensures
        !ldap_section_ok(e),
{
}

/// Where a section that fits the schema leaves a timeout out, the timeout
/// read is its default: 2 seconds to connect, 5 for an operation.
pub proof fn lemma_default_timeouts(e: Seq<(String, Scalar)>)
    ensures
        find(e, "conn_timeout"@) is None ==> timeout_field(e, "conn_timeout"@, 2) == Some(2u64),
        find(e, "op_timeout"@) is None ==> timeout_field(e, "op_timeout"@, 5) == Some(5u64),
{
}

} // verus!
