use vstd::prelude::*;
use crate::servers::string_views;

verus! {

/// Lexicographic order on code points, which for UTF-8 text is the
/// byte-wise order of the encodings.
pub open spec fn lex_lt(a: Seq<char>, b: Seq<char>) -> bool
    decreases a.len(),
{
    if a.len() == 0 {
        b.len() > 0
    } else if b.len() == 0 {
        false
    } else if a[0] == b[0] {
        lex_lt(a.drop_first(), b.drop_first())
    } else {
        (a[0] as int) < (b[0] as int)
    }
}

pub proof fn lemma_lex_irreflexive(a: Seq<char>)
    ensures
        !lex_lt(a, a),
    decreases a.len(),
{
    if a.len() > 0 {
        lemma_lex_irreflexive(a.drop_first());
    }
}

pub proof fn lemma_lex_asymmetric(a: Seq<char>, b: Seq<char>)
    ensures
        !(lex_lt(a, b) && lex_lt(b, a)),
    decreases a.len(),
{
    if a.len() > 0 && b.len() > 0 && a[0] == b[0] {
        lemma_lex_asymmetric(a.drop_first(), b.drop_first());
    }
}

pub proof fn lemma_lex_total(a: Seq<char>, b: Seq<char>)
    ensures
        a == b || lex_lt(a, b) || lex_lt(b, a),
    decreases a.len(),
{
    if a.len() > 0 && b.len() > 0 {
        if a[0] == b[0] {
            lemma_lex_total(a.drop_first(), b.drop_first());
            if a.drop_first() == b.drop_first() {
                assert(a =~= seq![a[0]] + a.drop_first());
                assert(b =~= seq![b[0]] + b.drop_first());
            }
        } else {
            assert((a[0] as int) != (b[0] as int));
        }
    } else if a.len() == 0 && b.len() == 0 {
        assert(a =~= b);
    }
}

pub proof fn lemma_lex_transitive(a: Seq<char>, b: Seq<char>, c: Seq<char>)
    requires
        lex_lt(a, b),
        lex_lt(b, c),
    ensures
        lex_lt(a, c),
    decreases a.len(),
{
    if a.len() > 0 && a[0] == b[0] && b[0] == c[0] {
        lemma_lex_transitive(a.drop_first(), b.drop_first(), c.drop_first());
    }
}

/// Lexicographic comparison of two strings.
pub fn str_lt(a: &String, b: &String) -> (r: bool)
    ensures
        r == lex_lt(a@, b@),
{
    let sa = a.as_str();
    let sb = b.as_str();
    let n = sa.unicode_len();
    let m = sb.unicode_len();
    let mut i: usize = 0;
    assert(a@.skip(0) =~= a@);
    assert(b@.skip(0) =~= b@);
    while i < n && i < m
        invariant
            n == a@.len(),
            m == b@.len(),
            sa@ == a@,
            sb@ == b@,
            i <= n,
            i <= m,
            lex_lt(a@.skip(i as int), b@.skip(i as int)) == lex_lt(a@, b@),
        decreases n - i,
    {
        let ca = sa.get_char(i);
        let cb = sb.get_char(i);
        assert(a@.skip(i as int)[0] == ca);
        assert(b@.skip(i as int)[0] == cb);
        if ca != cb {
            return (ca as u32) < (cb as u32);
        }
        assert(a@.skip(i as int).drop_first() =~= a@.skip(i + 1));
        assert(b@.skip(i as int).drop_first() =~= b@.skip(i + 1));
        i = i + 1;
    }
    i < m
}

pub open spec fn entries_view(e: Seq<(String, String)>) -> Seq<(Seq<char>, Seq<char>)> {
    e.map_values(|p: (String, String)| (p.0@, p.1@))
}

/// Keys strictly ascending: sorted and unique.
pub open spec fn strictly_sorted(e: Seq<(Seq<char>, Seq<char>)>) -> bool {
    forall|i: int, j: int| 0 <= i < j < e.len() ==> lex_lt(#[trigger] e[i].0, #[trigger] e[j].0)
}

/// The entry that wins for `groups`: the first, in the given order, whose
/// group name is a member.
pub open spec fn first_match(
    groups: Set<Seq<char>>,
    e: Seq<(Seq<char>, Seq<char>)>,
) -> Option<(Seq<char>, Seq<char>)>
    decreases e.len(),
{
    if e.len() == 0 {
        None
    } else if groups.contains(e[0].0) {
        Some(e[0])
    } else {
        first_match(groups, e.drop_first())
    }
}

/// Group-name to target-identity table, kept in ascending order of group
/// name with each group name once.
pub struct Mappings {
    entries: Vec<(String, String)>,
}

impl View for Mappings {
    type V = Seq<(Seq<char>, Seq<char>)>;

    closed spec fn view(&self) -> Seq<(Seq<char>, Seq<char>)> {
        entries_view(self.entries@)
    }
}

impl Mappings {
    #[verifier::type_invariant]
    spec fn sorted_keys(&self) -> bool {
        strictly_sorted(entries_view(self.entries@))
    }

    pub open spec fn wf(&self) -> bool {
        strictly_sorted(self@)
    }

    /// An empty table.
    pub fn new() -> (r: Mappings)
        ensures
            r.wf(),
            r@ == Seq::<(Seq<char>, Seq<char>)>::empty(),
    {
        let r = Mappings { entries: Vec::new() };
        assert(r@ =~= Seq::<(Seq<char>, Seq<char>)>::empty());
        r
    }

    pub fn len(&self) -> (r: usize)
        ensures
            r == self@.len(),
    {
        self.entries.len()
    }

    /// Whether some entry has group name `group`.
    pub fn contains_group(&self, group: &String) -> (r: bool)
        ensures
            r == exists|i: int| 0 <= i < self@.len() && #[trigger] self@[i].0 == group@,
    {
        let mut i: usize = 0;
        while i < self.entries.len()
            invariant
                i <= self@.len(),
                forall|t: int| 0 <= t < i ==> #[trigger] self@[t].0 != group@,
            decreases self.entries.len() - i,
        {
            assert(self@[i as int].0 == self.entries@[i as int].0@);
            if self.entries[i].0 == *group {
                return true;
            }
            i = i + 1;
        }
        false
    }

    /// The group name and target identity of entry `i`.
    pub fn entry(&self, i: usize) -> (r: (&String, &String))
        requires
            i < self@.len(),
        ensures
            (r.0@, r.1@) == self@[i as int],
    {
        (&self.entries[i].0, &self.entries[i].1)
    }

    /// Maps `group` to `target`, replacing the target it had, if any; the
    /// order of the table is kept.
    pub fn insert(&mut self, group: String, target: String)
        ensures
            final(self).wf(),
            forall|p: (Seq<char>, Seq<char>)|
                #[trigger] final(self)@.contains(p) <==> (p == (group@, target@) || (old(
                    self,
                )@.contains(p) && p.0 != group@)),
    {
        proof {
            use_type_invariant(&*self);
        }
        let ghost old_v = self@;
        let mut i: usize = 0;
        while i < self.entries.len() && str_lt(&self.entries[i].0, &group)
            invariant
                self@ == old_v,
                strictly_sorted(old_v),
                i <= old_v.len(),
                forall|t: int| 0 <= t < i ==> lex_lt(#[trigger] old_v[t].0, group@),
            decreases self.entries.len() - i,
        {
            assert(old_v[i as int].0 == self.entries@[i as int].0@);
            i = i + 1;
        }
        let n = self.entries.len();
        if i < n && self.entries[i].0 == group {
            assert(old_v[i as int].0 == group@);
            let mut v: Vec<(String, String)> = Vec::new();
            std::mem::swap(&mut self.entries, &mut v);
            v[i] = (group, target);
            assert(entries_view(v@) =~= old_v.update(i as int, (group@, target@)));
            assert forall|a: int, b: int| 0 <= a < b < v@.len() implies lex_lt(
                #[trigger] entries_view(v@)[a].0,
                #[trigger] entries_view(v@)[b].0,
            ) by {
                assert(entries_view(v@)[a].0 == old_v[a].0);
                assert(entries_view(v@)[b].0 == old_v[b].0);
            }
            self.entries = v;
            assert(self@ =~= old_v.update(i as int, (group@, target@)));
            assert forall|p: (Seq<char>, Seq<char>)|
                #[trigger] self@.contains(p) <==> (p == (group@, target@) || (old_v.contains(p)
                    && p.0 != group@)) by {
                if self@.contains(p) {
                    let t = choose|t: int| 0 <= t < self@.len() && self@[t] == p;
                    if t != i {
                        assert(old_v[t] == p);
                        if p.0 == group@ {
                            lemma_lex_irreflexive(group@);
                        }
                    }
                }
                if p == (group@, target@) {
                    assert(self@[i as int] == p);
                }
                if old_v.contains(p) && p.0 != group@ {
                    let t = choose|t: int| 0 <= t < old_v.len() && old_v[t] == p;
                    assert(self@[t] == p);
                }
            }
        } else {
            proof {
                if i < n {
                    assert(old_v[i as int].0 == self.entries@[i as int].0@);
                    lemma_lex_total(old_v[i as int].0, group@);
                }
            }
            let mut v: Vec<(String, String)> = Vec::new();
            std::mem::swap(&mut self.entries, &mut v);
            v.insert(i, (group, target));
            let ghost nv = entries_view(v@);
            assert(nv =~= old_v.insert(i as int, (group@, target@)));
            assert forall|a: int, b: int| 0 <= a < b < nv.len() implies lex_lt(
                #[trigger] nv[a].0,
                #[trigger] nv[b].0,
            ) by {
                if b == i {
                } else if a == i {
                    if b > i + 1 {
                        lemma_lex_transitive(group@, old_v[i as int].0, old_v[b - 1].0);
                    }
                } else if a > i {
                    assert(nv[a] == old_v[a - 1]);
                } else if b > i {
                    assert(nv[b] == old_v[b - 1]);
                }
            }
            self.entries = v;
            assert(self@ == nv);
            assert forall|p: (Seq<char>, Seq<char>)|
                #[trigger] self@.contains(p) <==> (p == (group@, target@) || (old_v.contains(p)
                    && p.0 != group@)) by {
                if self@.contains(p) {
                    let t = choose|t: int| 0 <= t < self@.len() && self@[t] == p;
                    if t < i {
                        assert(old_v[t] == p);
                        if p.0 == group@ {
                            lemma_lex_irreflexive(group@);
                        }
                    } else if t > i {
                        assert(old_v[t - 1] == p);
                        if p.0 == group@ {
                            lemma_lex_irreflexive(group@);
                            if t - 1 > i {
                                lemma_lex_asymmetric(group@, old_v[i as int].0);
                            }
                        }
                    }
                }
                if p == (group@, target@) {
                    assert(self@[i as int] == p);
                }
                if old_v.contains(p) && p.0 != group@ {
                    let t = choose|t: int| 0 <= t < old_v.len() && old_v[t] == p;
                    if t < i {
                        assert(self@[t] == p);
                    } else {
                        assert(self@[t + 1] == p);
                    }
                }
            }
        }
    }
}

/// The identity that the principal is remapped to: the target of the
/// entry with the smallest group name among those the principal belongs to.
pub fn decide(groups: &Vec<String>, mappings: &Mappings) -> (r: Option<String>)
    ensures
        match first_match(string_views(groups@).to_set(), mappings@) {
            Some(w) => r is Some && r->Some_0@ == w.1,
            None => r is None,
        },
{
    proof {
        use_type_invariant(mappings);
    }
    let ghost gs = string_views(groups@).to_set();
    let mut i: usize = 0;
    assert(mappings@.skip(0) =~= mappings@);
    while i < mappings.entries.len()
        invariant
            i <= mappings@.len(),
            gs == string_views(groups@).to_set(),
            first_match(gs, mappings@.skip(i as int)) == first_match(gs, mappings@),
        decreases mappings.entries.len() - i,
    {
        let ghost rest = mappings@.skip(i as int);
        assert(rest[0] == mappings@[i as int]);
        assert(rest.drop_first() =~= mappings@.skip(i + 1));
        let (group, target) = (&mappings.entries[i].0, &mappings.entries[i].1);
        assert(mappings@[i as int] == (group@, target@));
        if crate::groups::contains_string(groups, group) {
            return Some(target.clone());
        }
        i = i + 1;
    }
    proof {
        assert(mappings@.skip(i as int).len() == 0);
    }
    None
}

proof fn lemma_first_match_index(groups: Set<Seq<char>>, e: Seq<(Seq<char>, Seq<char>)>)
    ensures
        match first_match(groups, e) {
            Some(w) => exists|t: int|
                0 <= t < e.len() && e[t] == w && groups.contains(w.0) && forall|s: int|
                    0 <= s < t ==> !groups.contains(#[trigger] e[s].0),
            None => forall|s: int| 0 <= s < e.len() ==> !groups.contains(#[trigger] e[s].0),
        },
    decreases e.len(),
{
    if e.len() > 0 {
        let rest = e.drop_first();
        lemma_first_match_index(groups, rest);
        if !groups.contains(e[0].0) {
            match first_match(groups, rest) {
                Some(w) => {
                    let t = choose|t: int|
                        0 <= t < rest.len() && rest[t] == w && groups.contains(w.0) && forall|
                            s: int,
                        | 0 <= s < t ==> !groups.contains(#[trigger] rest[s].0);
                    assert(e[t + 1] == w);
                    assert forall|s: int| 0 <= s < t + 1 implies !groups.contains(
                        #[trigger] e[s].0,
                    ) by {
                        if s > 0 {
                            assert(e[s] == rest[s - 1]);
                        }
                    }
                },
                None => {
                    assert forall|s: int| 0 <= s < e.len() implies !groups.contains(
                        #[trigger] e[s].0,
                    ) by {
                        if s > 0 {
                            assert(e[s] == rest[s - 1]);
                        }
                    }
                },
            }
        }
    }
}

/// When two entries of a table both match, the one with the smaller group
/// name wins: the winner's group name is at most the smaller one, and is
/// never the larger one.
pub proof fn lemma_first_match_wins(
    groups: Set<Seq<char>>,
    e: Seq<(Seq<char>, Seq<char>)>,
    i: int,
    j: int,
)
    requires
        strictly_sorted(e),
        0 <= i < e.len(),
        0 <= j < e.len(),
        groups.contains(e[i].0),
        groups.contains(e[j].0),
        lex_lt(e[i].0, e[j].0),
    ensures
        first_match(groups, e) is Some,
        first_match(groups, e)->Some_0.0 != e[j].0,
        first_match(groups, e)->Some_0.0 == e[i].0 || lex_lt(
            first_match(groups, e)->Some_0.0,
            e[i].0,
        ),
{
    lemma_first_match_index(groups, e);
    if j <= i {
        lemma_lex_irreflexive(e[i].0);
        if j < i {
            lemma_lex_asymmetric(e[i].0, e[j].0);
        }
    }
    let w = first_match(groups, e)->Some_0;
    let t = choose|t: int|
        0 <= t < e.len() && e[t] == w && groups.contains(w.0) && forall|s: int|
            0 <= s < t ==> !groups.contains(#[trigger] e[s].0);
    assert(t <= i);
    assert(lex_lt(e[t].0, e[j].0));
    lemma_lex_irreflexive(e[j].0);
}

proof fn lemma_sorted_same_contents(a: Seq<(Seq<char>, Seq<char>)>, b: Seq<(Seq<char>, Seq<char>)>)
    requires
        strictly_sorted(a),
        strictly_sorted(b),
        forall|p: (Seq<char>, Seq<char>)| a.contains(p) <==> b.contains(p),
    ensures
        a == b,
    decreases a.len(),
{
    if a.len() == 0 {
        if b.len() > 0 {
            assert(b.contains(b[0]));
        }
        assert(a =~= b);
    } else {
        assert(a.contains(a[0]));
        let k = choose|k: int| 0 <= k < b.len() && b[k] == a[0];
        assert(b.contains(b[0]));
        let m = choose|m: int| 0 <= m < a.len() && a[m] == b[0];
        if k > 0 {
            if m > 0 {
                lemma_lex_asymmetric(a[0].0, b[0].0);
            } else {
                lemma_lex_irreflexive(a[0].0);
            }
        }
        assert(a[0] == b[0]);
        let a1 = a.drop_first();
        let b1 = b.drop_first();
        assert forall|p: (Seq<char>, Seq<char>)| a1.contains(p) <==> b1.contains(p) by {
            if a1.contains(p) {
                let i = choose|i: int| 0 <= i < a1.len() && a1[i] == p;
                assert(a[i + 1] == p);
                assert(a.contains(p));
                let j = choose|j: int| 0 <= j < b.len() && b[j] == p;
                if j == 0 {
                    lemma_lex_irreflexive(p.0);
                }
                assert(b1[j - 1] == p);
            }
            if b1.contains(p) {
                let i = choose|i: int| 0 <= i < b1.len() && b1[i] == p;
                assert(b[i + 1] == p);
                assert(b.contains(p));
                let j = choose|j: int| 0 <= j < a.len() && a[j] == p;
                if j == 0 {
                    lemma_lex_irreflexive(p.0);
                }
                assert(a1[j - 1] == p);
            }
        }
        assert forall|i: int, j: int| 0 <= i < j < a1.len() implies lex_lt(
            #[trigger] a1[i].0,
            #[trigger] a1[j].0,
        ) by {
            assert(a1[i] == a[i + 1] && a1[j] == a[j + 1]);
        }
        assert forall|i: int, j: int| 0 <= i < j < b1.len() implies lex_lt(
            #[trigger] b1[i].0,
            #[trigger] b1[j].0,
        ) by {
            assert(b1[i] == b[i + 1] && b1[j] == b[j + 1]);
        }
        lemma_sorted_same_contents(a1, b1);
        assert(a =~= seq![a[0]] + a1);
        assert(b =~= seq![b[0]] + b1);
    }
}

/// The decision does not depend on the order in which the table was
/// filled: two tables holding the same (group, target) pairs, asked about
/// the same set of groups, choose the same identity.
pub proof fn lemma_decision_independent_of_order(
    m1: Seq<(Seq<char>, Seq<char>)>,
    m2: Seq<(Seq<char>, Seq<char>)>,
    groups: Set<Seq<char>>,
)
    requires
        strictly_sorted(m1),
        strictly_sorted(m2),
        forall|p: (Seq<char>, Seq<char>)| m1.contains(p) <==> m2.contains(p),
    ensures
        m1 == m2,
        first_match(groups, m1) == first_match(groups, m2),
{
    lemma_sorted_same_contents(m1, m2);
}

} // verus!
