use vstd::prelude::*;

verus! {

/// The directory-filter escape of one character: the five metacharacters
/// `\`, `*`, `(`, `)` and NUL become a backslash and two lower-case hex
/// digits; every other character stands for itself.
pub open spec fn escape_char(c: char) -> Seq<char> {
    if c == '\\' {
        seq!['\\', '5', 'c']
    } else if c == '*' {
        seq!['\\', '2', 'a']
    } else if c == '(' {
        seq!['\\', '2', '8']
    } else if c == ')' {
        seq!['\\', '2', '9']
    } else if c == '\0' {
        seq!['\\', '0', '0']
    } else {
        seq![c]
    }
}

/// The filter escape of a whole value, character by character.
pub open spec fn filter_escape(s: Seq<char>) -> Seq<char>
    decreases s.len(),
{
    if s.len() == 0 {
        Seq::<char>::empty()
    } else {
        filter_escape(s.drop_last()) + escape_char(s.last())
    }
}

/// The equality filter `(attribute=escaped value)`.
pub open spec fn equality_filter(attribute: Seq<char>, value: Seq<char>) -> Seq<char> {
    seq!['('] + attribute + seq!['='] + filter_escape(value) + seq![')']
}

/// Relies on ldap3::ldap_escape, which rewrites each of the bytes `\`, `*`,
/// `(`, `)` and NUL as `\` and two lower-case hex digits and copies every
/// other byte (all bytes of a multi-byte character are at least 0x80).
#[verifier::external_body]
fn escape_filter_value(s: &str) -> (r: String)
    ensures
        r@ == filter_escape(s@),
{
    ldap3::ldap_escape(s).into_owned()
}

/// Builds the search filter that selects the entry whose `uid_attribute`
/// equals `principal`, with the principal escaped so that none of its
/// characters acts as filter syntax.
pub fn search_filter(uid_attribute: &String, principal: &String) -> (r: String)
    ensures
        r@ == equality_filter(uid_attribute@, principal@),
{
    let escaped = escape_filter_value(principal.as_str());
    proof {
        reveal_strlit("(");
        reveal_strlit("=");
        reveal_strlit(")");
    }
    let mut f = String::from_str("(");
    f.append(uid_attribute.as_str());
    f.append("=");
    f.append(escaped.as_str());
    f.append(")");
    assert(f@ =~= equality_filter(uid_attribute@, principal@));
    f
}

} // verus!
