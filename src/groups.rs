use vstd::prelude::*;
use crate::servers::{has_no_comma, string_views};

verus! {

/// The code point of `c` after ASCII lower-casing.
pub open spec fn lower_code(c: char) -> u32 {
    if 65 <= c as u32 && c as u32 <= 90 {
        (c as u32 + 32) as u32
    } else {
        c as u32
    }
}

pub open spec fn lowercase(s: Seq<char>) -> Seq<u32> {
    s.map_values(|c: char| lower_code(c))
}

/// ASCII-case-insensitive suffix test: `lowercase(d)` ends with `lowercase(suffix)`.
pub open spec fn ends_with_ci(d: Seq<char>, suffix: Seq<char>) -> bool {
    suffix.len() <= d.len() && lowercase(d).subrange(d.len() - suffix.len(), d.len() as int)
        == lowercase(suffix)
}

pub open spec fn is_first_comma(d: Seq<char>, i: int) -> bool {
    0 <= i < d.len() && d[i] == ',' && has_no_comma(d.take(i))
}

/// Index of the first comma in `d`, or -1 where it has none.
pub open spec fn first_comma(d: Seq<char>) -> int {
    if exists|i: int| is_first_comma(d, i) {
        choose|i: int| is_first_comma(d, i)
    } else {
        -1
    }
}

/// The group short-name that the value `d` contributes: kept only where it
/// ends with `base` (ignoring ASCII case) and its first comma stands after
/// offset 3; then the text from offset 3 up to that comma.
pub open spec fn short_name(d: Seq<char>, base: Seq<char>) -> Option<Seq<char>> {
    if ends_with_ci(d, base) && first_comma(d) > 3 {
        Some(d.subrange(3, first_comma(d)))
    } else {
        None
    }
}

/// Every short-name contributed by a value of attribute `name` in `attrs`.
pub open spec fn groups_of(
    attrs: Seq<(Seq<char>, Seq<Seq<char>>)>,
    name: Seq<char>,
    base: Seq<char>,
) -> Set<Seq<char>> {
    Set::new(
        |g: Seq<char>|
            exists|k: int, j: int|
                0 <= k < attrs.len() && attrs[k].0 == name && 0 <= j < attrs[k].1.len()
                    && short_name(#[trigger] attrs[k].1[j], base) == Some(g),
    )
}

pub open spec fn attrs_view(attrs: Seq<(String, Vec<String>)>) -> Seq<
    (Seq<char>, Seq<Seq<char>>),
> {
    attrs.map_values(|a: (String, Vec<String>)| (a.0@, string_views(a.1@)))
}

proof fn lemma_first_comma_unique(d: Seq<char>, i: int)
    requires
        is_first_comma(d, i),
    ensures
        first_comma(d) == i,
{
    let k = choose|k: int| is_first_comma(d, k);
    assert(is_first_comma(d, k));
    if k < i {
        assert(d.take(i)[k] == d[k]);
    } else if i < k {
        assert(d.take(k)[i] == d[i]);
    }
}

proof fn lemma_no_first_comma(d: Seq<char>)
    requires
        has_no_comma(d),
    ensures
        first_comma(d) == -1,
{
}

/// A value contributes a short-name exactly when it ends with the group
/// base (ignoring ASCII case) and its first comma stands after offset 3.
pub proof fn lemma_contributes(d: Seq<char>, base: Seq<char>)
    ensures
        short_name(d, base) is Some <==> (ends_with_ci(d, base) && first_comma(d) > 3),
        short_name(d, base) is Some ==> short_name(d, base)->Some_0.len() > 0,
{
}

/// For `cn=<name>,<rest>` that ends with the group base, where `<name>` is
/// non-empty and holds no comma, the short-name is `<name>`.
pub proof fn lemma_short_name_of_cn(name: Seq<char>, rest: Seq<char>, base: Seq<char>)
    requires
        name.len() > 0,
        has_no_comma(name),
        ends_with_ci(seq!['c', 'n', '='] + name + seq![','] + rest, base),
    ensures
        short_name(seq!['c', 'n', '='] + name + seq![','] + rest, base) == Some(name),
{
    let d = seq!['c', 'n', '='] + name + seq![','] + rest;
    let i: int = 3 + name.len() as int;
    assert(d[i] == ',');
    assert forall|j: int| 0 <= j < d.take(i).len() implies d.take(i)[j] != ',' by {
        if j >= 3 {
            assert(d.take(i)[j] == name[j - 3]);
        }
    }
    assert(is_first_comma(d, i));
    lemma_first_comma_unique(d, i);
    assert(d.subrange(3, i) =~= name);
}

fn lower_code_of(c: char) -> (r: u32)
    ensures
        r == lower_code(c),
{
    let u = c as u32;
    if 65 <= u && u <= 90 {
        u + 32
    } else {
        u
    }
}

/// ASCII-case-insensitive suffix test.
pub fn ends_with_ignore_ascii_case(d: &String, suffix: &String) -> (r: bool)
    ensures
        r == ends_with_ci(d@, suffix@),
{
    let ds = d.as_str();
    let ss = suffix.as_str();
    let n = ds.unicode_len();
    let m = ss.unicode_len();
    if m > n {
        return false;
    }
    let off = n - m;
    let mut j: usize = 0;
    while j < m
        invariant
            n == d@.len(),
            m == suffix@.len(),
            ds@ == d@,
            ss@ == suffix@,
            off == n - m,
            j <= m,
            forall|t: int| 0 <= t < j ==> lower_code(d@[off + t]) == lower_code(suffix@[t]),
        decreases m - j,
    {
        if lower_code_of(ds.get_char(off + j)) != lower_code_of(ss.get_char(j)) {
            assert(lowercase(d@).subrange(off as int, n as int)[j as int] != lowercase(suffix@)[j as int]);
            return false;
        }
        j = j + 1;
    }
    assert(lowercase(d@).subrange(off as int, n as int) =~= lowercase(suffix@));
    true
}

/// The group short-name that one attribute value contributes, if any.
pub fn short_name_of(d: &String, base: &String) -> (r: Option<String>)
    ensures
        match r {
            Some(g) => short_name(d@, base@) == Some(g@),
            None => short_name(d@, base@) is None,
        },
{
    if !ends_with_ignore_ascii_case(d, base) {
        return None;
    }
    let s = d.as_str();
    let n = s.unicode_len();
    let mut i: usize = 0;
    while i < n
        invariant
            n == d@.len(),
            s@ == d@,
            i <= n,
            ends_with_ci(d@, base@),
            has_no_comma(d@.take(i as int)),
        decreases n - i,
    {
        if s.get_char(i) == ',' {
            assert(is_first_comma(d@, i as int));
            proof {
                lemma_first_comma_unique(d@, i as int);
            }
            if i > 3 {
                let g = String::from_str(s.substring_char(3, i));
                assert(ends_with_ci(d@, base@));
                assert(g@ == d@.subrange(3, i as int));
                return Some(g);
            } else {
                return None;
            }
        }
        assert(d@.take(i + 1) =~= d@.take(i as int).push(d@[i as int]));
        i = i + 1;
    }
    assert(d@.take(n as int) =~= d@);
    proof {
        lemma_no_first_comma(d@);
    }
    None
}

/// Whether `v` holds a string equal to `s`.
pub fn contains_string(v: &Vec<String>, s: &String) -> (r: bool)
    ensures
        r == string_views(v@).contains(s@),
{
    let mut i: usize = 0;
    while i < v.len()
        invariant
            i <= v.len(),
            forall|t: int| 0 <= t < i ==> v@[t]@ != s@,
        decreases v.len() - i,
    {
        if v[i] == *s {
            assert(string_views(v@)[i as int] == s@);
            return true;
        }
        i = i + 1;
    }
    assert(!string_views(v@).contains(s@)) by {
        if string_views(v@).contains(s@) {
            let t = choose|t: int| 0 <= t < v@.len() && string_views(v@)[t] == s@;
            assert(v@[t]@ == s@);
        }
    }
    false
}

/// Collects the group short-names out of the attribute values a directory
/// search returned: of each attribute named `group_attribute`, every value
/// that `short_name_of` keeps, each name once.
pub fn group_names(
    attrs: &Vec<(String, Vec<String>)>,
    group_attribute: &String,
    group_base_dn: &String,
) -> (r: Vec<String>)
    ensures
        string_views(r@).to_set() == groups_of(attrs_view(attrs@), group_attribute@, group_base_dn@),
        string_views(r@).no_duplicates(),
        forall|i: int| 0 <= i < r@.len() ==> r@[i]@.len() > 0,
{
    let ghost av = attrs_view(attrs@);
    let ghost base = group_base_dn@;
    let ghost name = group_attribute@;
    let mut out: Vec<String> = Vec::new();
    let mut k: usize = 0;
    while k < attrs.len()
        invariant
            k <= attrs.len(),
            av == attrs_view(attrs@),
            base == group_base_dn@,
            name == group_attribute@,
            string_views(out@).no_duplicates(),
            forall|i: int| 0 <= i < out@.len() ==> out@[i]@.len() > 0,
            forall|g: Seq<char>|
                #[trigger] string_views(out@).contains(g) <==> exists|k2: int, j: int|
                    0 <= k2 < k && av[k2].0 == name && 0 <= j < av[k2].1.len()
                        && short_name(#[trigger] av[k2].1[j], base) == Some(g),
        decreases attrs.len() - k,
    {
        let ghost out_k = out@;
        let ghost ak = av[k as int];
        assert(ak == (attrs@[k as int].0@, string_views(attrs@[k as int].1@)));
        if attrs[k].0 == *group_attribute {
            let values = &attrs[k].1;
            let mut j: usize = 0;
            while j < values.len()
                invariant
                    k < attrs.len(),
                    values@ == attrs@[k as int].1@,
                    ak == (attrs@[k as int].0@, string_views(values@)),
                    ak.0 == name,
                    base == group_base_dn@,
                    j <= values.len(),
                    string_views(out@).no_duplicates(),
                    forall|i: int| 0 <= i < out@.len() ==> out@[i]@.len() > 0,
                    forall|g: Seq<char>|
                        #[trigger] string_views(out@).contains(g) <==> (string_views(out_k).contains(g)
                            || exists|j2: int|
                            0 <= j2 < j && short_name(#[trigger] ak.1[j2], base) == Some(g)),
                decreases values.len() - j,
            {
                assert(ak.1[j as int] == values@[j as int]@);
                let ghost out_j = out@;
                let ghost gv = short_name(values@[j as int]@, base);
                let found = short_name_of(&values[j], group_base_dn);
                proof {
                    lemma_contributes(values@[j as int]@, base);
                }
                match found {
                    Some(g) => {
                        if !contains_string(&out, &g) {
                            out.push(g);
                            assert(string_views(out@) =~= string_views(out_j).push(gv->Some_0));
                            assert(string_views(out@).last() == gv->Some_0);
                        }
                    },
                    None => {},
                }
                assert forall|x: Seq<char>|
                    #[trigger] string_views(out@).contains(x) <==> (string_views(out_j).contains(x) || gv
                        == Some(x)) by {
                    if string_views(out@).contains(x) {
                        let t = choose|t: int| 0 <= t < out@.len() && string_views(out@)[t] == x;
                        if t < out_j.len() {
                            assert(string_views(out_j)[t] == x);
                        }
                    }
                    if string_views(out_j).contains(x) && out@.len() > out_j.len() {
                        let t = choose|t: int|
                            0 <= t < out_j.len() && string_views(out_j)[t] == x;
                        assert(string_views(out@)[t] == x);
                    }
                    if gv == Some(x) && out@.len() > out_j.len() {
                        assert(string_views(out@)[out_j.len() as int] == x);
                    }
                }
                assert forall|x: Seq<char>|
                    #[trigger] string_views(out@).contains(x) <==> (string_views(out_k).contains(x)
                        || exists|j2: int|
                        0 <= j2 < j + 1 && short_name(#[trigger] ak.1[j2], base) == Some(x)) by {
                    if exists|j2: int|
                        0 <= j2 < j + 1 && short_name(#[trigger] ak.1[j2], base) == Some(x) {
                        let j2 = choose|j2: int|
                            0 <= j2 < j + 1 && short_name(#[trigger] ak.1[j2], base) == Some(x);
                        if j2 < j {
                            assert(string_views(out_j).contains(x));
                        }
                    }
                    if gv == Some(x) {
                        assert(short_name(ak.1[j as int], base) == Some(x));
                    }
                }
                j = j + 1;
            }
        }
        assert forall|g: Seq<char>|
            #[trigger] string_views(out@).contains(g) <==> exists|k2: int, j: int|
                0 <= k2 < k + 1 && av[k2].0 == name && 0 <= j < av[k2].1.len()
                    && short_name(#[trigger] av[k2].1[j], base) == Some(g) by {
            if exists|k2: int, j: int|
                0 <= k2 < k + 1 && av[k2].0 == name && 0 <= j < av[k2].1.len()
                    && short_name(#[trigger] av[k2].1[j], base) == Some(g) {
                let (k2, j) = choose|k2: int, j: int|
                    0 <= k2 < k + 1 && av[k2].0 == name && 0 <= j < av[k2].1.len()
                        && short_name(#[trigger] av[k2].1[j], base) == Some(g);
                if k2 < k {
                    assert(string_views(out_k).contains(g));
                } else {
                    assert(short_name(ak.1[j], base) == Some(g));
                }
            }
            if string_views(out@).contains(g) && !string_views(out_k).contains(g) {
                let j = choose|j: int|
                    0 <= j < ak.1.len() && short_name(#[trigger] ak.1[j], base) == Some(g);
                assert(short_name(av[k as int].1[j], base) == Some(g));
            }
        }
        k = k + 1;
    }
    assert(string_views(out@).to_set() =~= groups_of(av, name, base)) by {
        assert forall|g: Seq<char>|
            string_views(out@).to_set().contains(g) <==> groups_of(av, name, base).contains(g) by {
            if string_views(out@).contains(g) {
                let (k2, j) = choose|k2: int, j: int|
                    0 <= k2 < attrs.len() && av[k2].0 == name && 0 <= j < av[k2].1.len()
                        && short_name(#[trigger] av[k2].1[j], base) == Some(g);
                assert(groups_of(av, name, base).contains(g));
            }
        }
    }
    out
}

} // verus!
