use vstd::prelude::*;
use crate::config::{Config, ConfigError};
use crate::filter::{equality_filter, search_filter};
use crate::groups::{group_names, groups_of, attrs_view};
use crate::mapping::{decide, first_match};
use crate::servers::{extract_ldap_servers, split_commas, string_views};

verus! {

/// Result codes handed back to the host framework.
#[allow(non_camel_case_types)]
#[derive(Debug, Clone, Copy, PartialEq, Eq, Structural)]
pub enum PamResultCode {
    PAM_SUCCESS,
    PAM_AUTH_ERR,
    PAM_SERVICE_ERR,
}

/// What the host side is asked to do next.
pub enum Action {
    /// Ask the host for the principal.
    GetUser,
    /// Load the configuration file at this path.
    LoadConfig(String),
    /// Open a connection to this endpoint, within `timeout` seconds.
    Connect { server: String, timeout: u64 },
    /// Simple-bind the open connection, within `timeout` seconds.
    Bind { user: String, pass: String, timeout: u64 },
    /// Run a subtree search on the bound session, within `timeout` seconds.
    Search { base: String, filter: String, attributes: Vec<String>, timeout: u64 },
    /// Ask the host to substitute this identity, printing `notice` first if any.
    SetUser { target: String, notice: Option<String> },
    /// Release the session.
    Unbind,
    /// Return `code` to the host, printing `notice` first if any.
    Finish { code: PamResultCode, notice: Option<String> },
}

/// What the host side reports back after an action.
pub enum Event {
    /// The principal, or `None` where the host could not deliver it.
    User(Option<String>),
    ConfigLoaded(Result<Config, ConfigError>),
    Connected(bool),
    Bound(bool),
    /// Attribute name and values of every returned entry; `None` where the
    /// search failed.
    Searched(Option<Vec<(String, Vec<String>)>>),
    UserSet(bool),
    Unbound,
}

#[derive(Debug, Clone, Copy, PartialEq, Eq, Structural)]
pub enum Phase {
    Start,
    AwaitUser,
    AwaitConfig,
    AwaitConnect(usize),
    AwaitBind(usize),
    AwaitSearch,
    AwaitSetUser,
    AwaitUnbind(PamResultCode),
    Done,
}

/// One account-management invocation, driven one event at a time.
pub struct Invocation {
    phase: Phase,
    args: Vec<String>,
    silent: bool,
    principal: String,
    config: Option<Config>,
    servers: Vec<String>,
}

pub open spec fn finishes(a: Action, code: PamResultCode) -> bool {
    a matches Action::Finish { code: c, .. } && c == code
}

impl Invocation {
    pub closed spec fn phase(&self) -> Phase {
        self.phase
    }

    pub closed spec fn silent(&self) -> bool {
        self.silent
    }

    pub closed spec fn args(&self) -> Seq<Seq<char>> {
        string_views(self.args@)
    }

    pub closed spec fn principal(&self) -> Seq<char> {
        self.principal@
    }

    /// The endpoints to try, in order.
    pub closed spec fn servers(&self) -> Seq<Seq<char>> {
        string_views(self.servers@)
    }

    /// The endpoint list is held in memory, so its length fits a `usize`.
    pub proof fn lemma_servers_fit(&self)
        ensures
            self.servers().len() <= usize::MAX,
    {
        assert(self.servers@.len() == self.servers.len());
    }

    pub closed spec fn has_config(&self) -> bool {
        self.config is Some
    }

    pub closed spec fn config(&self) -> Config {
        self.config->Some_0
    }

    #[verifier::type_invariant]
    spec fn wf(&self) -> bool {
        &&& (self.phase is AwaitConnect || self.phase is AwaitBind || self.phase is AwaitSearch
            || self.phase is AwaitSetUser) ==> self.config is Some
            && string_views(self.servers@) == split_commas(self.config->Some_0.ldap.uri@)
        &&& self.phase matches Phase::AwaitConnect(i) ==> i < self.servers@.len()
        &&& self.phase matches Phase::AwaitBind(i) ==> i < self.servers@.len()
    }

    /// A bound directory session is open and owned by this invocation.
    pub open spec fn holds_session(&self) -> bool {
        self.phase() is AwaitSearch || self.phase() is AwaitSetUser
    }

    /// The phase after endpoint `i` failed: the next endpoint, or the end.
    pub open spec fn phase_after_failure(&self, i: int) -> Phase {
        if i + 1 < self.servers().len() {
            Phase::AwaitConnect((i + 1) as usize)
        } else {
            Phase::Done
        }
    }

    /// The phase that follows `ev`.
    pub open spec fn next_phase(&self, ev: Event) -> Phase {
        match self.phase() {
            Phase::Start => Phase::AwaitUser,
            Phase::AwaitUser => match ev {
                Event::User(Some(_)) => if self.args().len() == 1 {
                    Phase::AwaitConfig
                } else {
                    Phase::Done
                },
                _ => Phase::Done,
            },
            Phase::AwaitConfig => match ev {
                Event::ConfigLoaded(Ok(_)) => Phase::AwaitConnect(0),
                _ => Phase::Done,
            },
            Phase::AwaitConnect(i) => match ev {
                Event::Connected(true) => Phase::AwaitBind(i),
                Event::Connected(false) => self.phase_after_failure(i as int),
                _ => Phase::Done,
            },
            Phase::AwaitBind(i) => match ev {
                Event::Bound(true) => Phase::AwaitSearch,
                Event::Bound(false) => self.phase_after_failure(i as int),
                _ => Phase::Done,
            },
            Phase::AwaitSearch => match ev {
                Event::Searched(Some(attrs)) => match first_match(
                    groups_of(
                        attrs_view(attrs@),
                        self.config().ldap.group_attribute@,
                        self.config().ldap.group_base_dn@,
                    ),
                    self.config().mappings@,
                ) {
                    Some(_) => Phase::AwaitSetUser,
                    None => Phase::AwaitUnbind(PamResultCode::PAM_AUTH_ERR),
                },
                _ => Phase::AwaitUnbind(PamResultCode::PAM_SERVICE_ERR),
            },
            Phase::AwaitSetUser => match ev {
                Event::UserSet(true) => Phase::AwaitUnbind(PamResultCode::PAM_SUCCESS),
                _ => Phase::AwaitUnbind(PamResultCode::PAM_SERVICE_ERR),
            },
            Phase::AwaitUnbind(_) => Phase::Done,
            Phase::Done => Phase::Done,
        }
    }

    /// After endpoint `i` failed: the next endpoint, or the end of the list.
    pub open spec fn fails_over(&self, i: int, a: Action) -> bool {
        if i + 1 < self.servers().len() {
            a matches Action::Connect { server, timeout } && server@ == self.servers()[i + 1]
                && timeout == self.config().ldap.conn_timeout
        } else {
            finishes(a, PamResultCode::PAM_SERVICE_ERR)
        }
    }

    pub fn new(args: Vec<String>, silent: bool) -> (r: Invocation)
        ensures
            r.phase() == Phase::Start,
            r.args() == string_views(args@),
            r.silent() == silent,
    {
        Invocation {
            phase: Phase::Start,
            args,
            silent,
            principal: String::new(),
            config: None,
            servers: Vec::new(),
        }
    }

    fn fail_over(&mut self, i: usize) -> (a: Action)
        requires
            old(self).config is Some,
            i < old(self).servers@.len(),
            old(self).phase is AwaitConnect || old(self).phase is AwaitBind,
        ensures
            old(self).fails_over(i as int, a),
            final(self).servers@ == old(self).servers@,
            final(self).config == old(self).config,
            final(self).silent == old(self).silent,
            final(self).principal == old(self).principal,
            final(self).args@ == old(self).args@,
            a matches Action::Finish { notice, .. } ==> notice is None,
            a is Connect ==> final(self).phase == Phase::AwaitConnect((i + 1) as usize),
            a is Finish ==> final(self).phase == Phase::Done,
    {
        proof {
            use_type_invariant(&*self);
        }
        if i < self.servers.len() - 1 {
            self.phase = Phase::AwaitConnect(i + 1);
            let timeout = match &self.config {
                Some(c) => c.ldap.conn_timeout,
                None => 0,
            };
            assert(string_views(self.servers@)[i + 1] == self.servers@[i + 1]@);
            Action::Connect { server: self.servers[i + 1].clone(), timeout }
        } else {
            self.phase = Phase::Done;
            Action::Finish { code: PamResultCode::PAM_SERVICE_ERR, notice: None }
        }
    }

    /// What one step does: `pre` takes the event `ev`, becomes `post` and
    /// asks for action `a`.
    #[verifier::opaque]
    pub open spec fn steps_to(pre: Invocation, ev: Event, post: Invocation, a: Action) -> bool {
        &&& (post.phase() == pre.next_phase(ev))
        &&& (a is Finish ==> post.phase() == Phase::Done)
        &&& (post.silent() == pre.silent())
        &&& (post.args() == pre.args())
        &&& (post.principal() == (if pre.phase() is AwaitUser && pre.args().len()
            == 1 {
            match ev {
                Event::User(Some(u)) => u@,
                _ => pre.principal(),
            }
        } else {
            pre.principal()
        }))
        // the configuration and the endpoint list are set once, then kept
        &&& (if pre.phase() is AwaitConfig && ev matches Event::ConfigLoaded(Ok(_)) {
            ev matches Event::ConfigLoaded(Ok(c)) && post.has_config()
                && post.config() == c && post.servers() == split_commas(
                c.ldap.uri@,
            )
        } else {
            post.has_config() == pre.has_config() && post.config()
                == pre.config() && post.servers() == pre.servers()
        })
        // only a failed load is reported, and only when not silent
        &&& ((a matches Action::Finish { notice, .. } && notice is Some) ==> (pre.phase() is AwaitConfig
            && (ev matches Event::ConfigLoaded(Err(_))) && !pre.silent()))
        // a session is released before the invocation ends
        &&& (a is Finish ==> !pre.holds_session())
        &&& (pre.holds_session() ==> post.holds_session() || a is Unbind)
        &&& (a is Unbind ==> pre.holds_session())
        &&& (post.holds_session() && !pre.holds_session() ==> pre.phase() is AwaitBind
            && ev matches Event::Bound(true))
        // an endpoint is contacted first after the configuration, then only
        // after the previous one failed
        &&& (a is Connect ==> pre.phase() is AwaitConfig || ev matches Event::Connected(false)
            || ev matches Event::Bound(false))
        &&& (pre.phase() == Phase::Start ==> a is GetUser)
        &&& (pre.phase() is AwaitUser ==> match ev {
            Event::User(None) => finishes(a, PamResultCode::PAM_AUTH_ERR),
            Event::User(Some(u)) => if pre.args().len() != 1 {
                finishes(a, PamResultCode::PAM_SERVICE_ERR)
            } else {
                a matches Action::LoadConfig(p) && p@ == pre.args()[0]
                    && post.principal() == u@
            },
            _ => finishes(a, PamResultCode::PAM_SERVICE_ERR)
        })
        &&& (pre.phase() is AwaitConfig ==> match ev {
            Event::ConfigLoaded(Ok(c)) => post.servers() == split_commas(c.ldap.uri@)
                && (a matches Action::Connect { server, timeout } && server@
                == post.servers()[0] && timeout == c.ldap.conn_timeout),
            Event::ConfigLoaded(Err(_)) => a matches Action::Finish { code, notice } && code
                == PamResultCode::PAM_SERVICE_ERR && (notice is Some <==> !pre.silent()),
            _ => finishes(a, PamResultCode::PAM_SERVICE_ERR)
        })
        &&& (pre.phase() matches Phase::AwaitConnect(i) ==> match ev {
            Event::Connected(true) => a matches Action::Bind { user, pass, timeout } && user@
                == pre.config().ldap.user@ && pass@ == pre.config().ldap.pass@
                && timeout == pre.config().ldap.op_timeout && post.phase()
                == Phase::AwaitBind(i),
            Event::Connected(false) => pre.fails_over(i as int, a),
            _ => finishes(a, PamResultCode::PAM_SERVICE_ERR)
        })
        &&& (pre.phase() matches Phase::AwaitBind(i) ==> match ev {
            Event::Bound(true) => a matches Action::Search { base, filter, attributes, timeout }
                && base@ == pre.config().ldap.user_base_dn@ && filter@ == equality_filter(
                pre.config().ldap.uid_attribute@,
                pre.principal(),
            ) && string_views(attributes@) == seq![pre.config().ldap.group_attribute@]
                && timeout == pre.config().ldap.op_timeout,
            Event::Bound(false) => pre.fails_over(i as int, a),
            _ => finishes(a, PamResultCode::PAM_SERVICE_ERR)
        })
        &&& (pre.phase() is AwaitSearch ==> match ev {
            Event::Searched(Some(attrs)) => match first_match(
                groups_of(
                    attrs_view(attrs@),
                    pre.config().ldap.group_attribute@,
                    pre.config().ldap.group_base_dn@,
                ),
                pre.config().mappings@,
            ) {
                Some(w) => a matches Action::SetUser { target, notice } && target@ == w.1 && (
                notice is Some <==> !pre.silent()) && (notice is Some ==> notice->Some_0@
                    == "Mapping "@ + pre.principal() + " -> "@ + w.1),
                None => a is Unbind && post.phase() == Phase::AwaitUnbind(
                    PamResultCode::PAM_AUTH_ERR,
                ),
            },
            _ => a is Unbind && post.phase() == Phase::AwaitUnbind(
                PamResultCode::PAM_SERVICE_ERR,
            )
        })
        &&& (pre.phase() is AwaitSetUser ==> a is Unbind && post.phase() == (match ev {
            Event::UserSet(true) => Phase::AwaitUnbind(PamResultCode::PAM_SUCCESS),
            _ => Phase::AwaitUnbind(PamResultCode::PAM_SERVICE_ERR)
        }))
        &&& (pre.phase() matches Phase::AwaitUnbind(code) ==> finishes(
            a,
            match ev {
                Event::Unbound => code,
                _ => PamResultCode::PAM_SERVICE_ERR,
            }
        ))
        &&& (pre.phase() is Done ==> finishes(a, PamResultCode::PAM_SERVICE_ERR))
    }

    /// Takes the outcome of the last action and says what to do next.
    pub fn step(&mut self, ev: Event) -> (a: Action)
        ensures
            Invocation::steps_to(*old(self), ev, *final(self), a),
    {
        proof {
            reveal(Invocation::steps_to);
            use_type_invariant(&*self);
        }
        let service_err = Action::Finish { code: PamResultCode::PAM_SERVICE_ERR, notice: None };
        match self.phase {
            Phase::Start => {
                self.phase = Phase::AwaitUser;
                Action::GetUser
            },
            Phase::AwaitUser => {
                self.phase = Phase::Done;
                match ev {
                    Event::User(Some(u)) => {
                        if self.args.len() != 1 {
                            service_err
                        } else {
                            self.principal = u;
                            self.phase = Phase::AwaitConfig;
                            Action::LoadConfig(self.args[0].clone())
                        }
                    },
                    Event::User(None) => Action::Finish {
                        code: PamResultCode::PAM_AUTH_ERR,
                        notice: None,
                    },
                    _ => service_err,
                }
            },
            Phase::AwaitConfig => {
                self.phase = Phase::Done;
                match ev {
                    Event::ConfigLoaded(Ok(c)) => {
                        let servers = extract_ldap_servers(&c.ldap.uri);
                        proof {
                            crate::servers::lemma_split_len(c.ldap.uri@);
                        }
                        let timeout = c.ldap.conn_timeout;
                        let first = servers[0].clone();
                        assert(string_views(servers@)[0] == servers@[0]@);
                        self.servers = servers;
                        self.config = Some(c);
                        self.phase = Phase::AwaitConnect(0);
                        Action::Connect { server: first, timeout }
                    },
                    Event::ConfigLoaded(Err(e)) => {
                        let notice = if self.silent {
                            None
                        } else {
                            let mut m = String::from_str("ERROR: ");
                            m.append(e.message.as_str());
                            Some(m)
                        };
                        Action::Finish { code: PamResultCode::PAM_SERVICE_ERR, notice }
                    },
                    _ => service_err,
                }
            },
            Phase::AwaitConnect(i) => {
                match ev {
                    Event::Connected(true) => {
                        self.phase = Phase::AwaitBind(i);
                        match &self.config {
                            Some(c) => Action::Bind {
                                user: c.ldap.user.clone(),
                                pass: c.ldap.pass.clone(),
                                timeout: c.ldap.op_timeout,
                            },
                            None => service_err,
                        }
                    },
                    Event::Connected(false) => self.fail_over(i),
                    _ => {
                        self.phase = Phase::Done;
                        service_err
                    },
                }
            },
            Phase::AwaitBind(i) => {
                match ev {
                    Event::Bound(true) => {
                        self.phase = Phase::AwaitSearch;
                        match &self.config {
                            Some(c) => {
                                let filter = search_filter(&c.ldap.uid_attribute, &self.principal);
                                let attributes = vec![c.ldap.group_attribute.clone()];
                                assert(string_views(attributes@) =~= seq![c.ldap.group_attribute@]);
                                Action::Search {
                                    base: c.ldap.user_base_dn.clone(),
                                    filter,
                                    attributes,
                                    timeout: c.ldap.op_timeout,
                                }
                            },
                            None => service_err,
                        }
                    },
                    Event::Bound(false) => self.fail_over(i),
                    _ => {
                        self.phase = Phase::Done;
                        service_err
                    },
                }
            },
            Phase::AwaitSearch => {
                self.phase = Phase::AwaitUnbind(PamResultCode::PAM_SERVICE_ERR);
                match ev {
                    Event::Searched(Some(attrs)) => match &self.config {
                        Some(c) => {
                            let groups = group_names(
                                &attrs,
                                &c.ldap.group_attribute,
                                &c.ldap.group_base_dn,
                            );
                            match decide(&groups, &c.mappings) {
                                Some(target) => {
                                    let notice = if self.silent {
                                        None
                                    } else {
                                        proof {
                                            reveal_strlit("Mapping ");
                                            reveal_strlit(" -> ");
                                        }
                                        let mut m = String::from_str("Mapping ");
                                        m.append(self.principal.as_str());
                                        m.append(" -> ");
                                        m.append(target.as_str());
                                        Some(m)
                                    };
                                    self.phase = Phase::AwaitSetUser;
                                    Action::SetUser { target, notice }
                                },
                                None => {
                                    self.phase = Phase::AwaitUnbind(PamResultCode::PAM_AUTH_ERR);
                                    Action::Unbind
                                },
                            }
                        },
                        None => Action::Unbind,
                    },
                    _ => Action::Unbind,
                }
            },
            Phase::AwaitSetUser => {
                match ev {
                    Event::UserSet(true) => {
                        self.phase = Phase::AwaitUnbind(PamResultCode::PAM_SUCCESS);
                    },
                    _ => {
                        self.phase = Phase::AwaitUnbind(PamResultCode::PAM_SERVICE_ERR);
                    },
                }
                Action::Unbind
            },
            Phase::AwaitUnbind(code) => {
                self.phase = Phase::Done;
                match ev {
                    Event::Unbound => Action::Finish { code, notice: None },
                    _ => service_err,
                }
            },
            Phase::Done => service_err,
        }
    }
}

/// `st[j]` takes `evs[j]`, becomes `st[j + 1]` and asks for `acts[j]`, for
/// every `j`.
pub open spec fn is_run(st: Seq<Invocation>, evs: Seq<Event>, acts: Seq<Action>) -> bool {
    &&& st.len() == evs.len() + 1
    &&& acts.len() == evs.len()
    &&& forall|j: int|
        0 <= j < evs.len() ==> Invocation::steps_to(
            #[trigger] st[j],
            evs[j],
            st[j + 1],
            acts[j],
        )
}

/// The parts of one step that the laws over runs use.
pub proof fn lemma_step_basics(pre: Invocation, ev: Event, post: Invocation, a: Action)
    requires
        Invocation::steps_to(pre, ev, post, a),
    ensures
        post.phase() == pre.next_phase(ev),
        !(pre.phase() is AwaitConfig) ==> post.servers() == pre.servers(),
        pre.holds_session() ==> post.holds_session() || a is Unbind,
        a is Finish ==> !pre.holds_session(),
        pre.phase() matches Phase::AwaitConnect(i) ==> (ev matches Event::Connected(false)
            ==> pre.fails_over(i as int, a)),
        pre.phase() is AwaitConnect ==> (ev matches Event::Connected(true) ==> a is Bind),
        pre.phase() is AwaitBind ==> (ev matches Event::Bound(true) ==> a is Search),
{
    reveal(Invocation::steps_to);
}

/// In a run that ends by handing a code back, a session held at any step
/// is released by an `Unbind` at that step or a later one.
pub proof fn lemma_session_released(st: Seq<Invocation>, evs: Seq<Event>, acts: Seq<Action>, j: int)
    requires
        is_run(st, evs, acts),
        evs.len() > 0,
        acts.last() is Finish,
        0 <= j < evs.len(),
        st[j].holds_session(),
    ensures
        exists|t: int| j <= t < acts.len() && #[trigger] acts[t] is Unbind,
    decreases evs.len() - j,
{
    lemma_step_basics(st[j], evs[j], st[j + 1], acts[j]);
    if acts[j] is Unbind {
    } else if j + 1 == evs.len() {
        assert(acts[j] is Finish);
    } else {
        lemma_session_released(st, evs, acts, j + 1);
    }
}

proof fn lemma_refusals(st: Seq<Invocation>, evs: Seq<Event>, acts: Seq<Action>, k: int, j: int)
    requires
        is_run(st, evs, acts),
        st[0].phase() == Phase::AwaitConnect(0),
        0 <= k < st[0].servers().len(),
        k < evs.len(),
        forall|t: int| 0 <= t < k ==> #[trigger] evs[t] matches Event::Connected(false),
        0 <= j <= k,
    ensures
        st[j].phase() == Phase::AwaitConnect(j as usize),
        st[j].servers() == st[0].servers(),
        forall|t: int|
            0 <= t < j ==> (#[trigger] acts[t] matches Action::Connect { server, .. } && server@
                == st[0].servers()[t + 1]),
    decreases j,
{
    st[0].lemma_servers_fit();
    if j > 0 {
        lemma_refusals(st, evs, acts, k, j - 1);
        lemma_step_basics(st[j - 1], evs[j - 1], st[j], acts[j - 1]);
        assert(evs[j - 1] matches Event::Connected(false));
    }
}

/// Failover: where the first `k` endpoints refuse the connection and
/// endpoint `k` connects and binds, the endpoints are tried in order, each
/// once, the session is held on endpoint `k`, and no later endpoint is
/// contacted.
pub proof fn lemma_failover_run(st: Seq<Invocation>, evs: Seq<Event>, acts: Seq<Action>, k: int)
    requires
        is_run(st, evs, acts),
        st[0].phase() == Phase::AwaitConnect(0),
        0 <= k < st[0].servers().len(),
        evs.len() == k + 2,
        forall|t: int| 0 <= t < k ==> #[trigger] evs[t] matches Event::Connected(false),
        evs[k] matches Event::Connected(true),
        evs[k + 1] matches Event::Bound(true),
    ensures
        forall|t: int|
            0 <= t < k ==> (#[trigger] acts[t] matches Action::Connect { server, .. } && server@
                == st[0].servers()[t + 1]),
        st[k + 1].phase() == Phase::AwaitBind(k as usize),
        acts[k] is Bind,
        acts[k + 1] is Search,
        st[k + 2].holds_session(),
        st[k + 2].servers() == st[0].servers(),
{
    lemma_refusals(st, evs, acts, k, k);
    lemma_step_basics(st[k], evs[k], st[k + 1], acts[k]);
    lemma_step_basics(st[k + 1], evs[k + 1], st[k + 2], acts[k + 1]);
}

/// Where every endpoint refuses the connection, each is tried once, in
/// order, and the invocation ends with a service error and no session.
pub proof fn lemma_all_refused_run(st: Seq<Invocation>, evs: Seq<Event>, acts: Seq<Action>)
    requires
        is_run(st, evs, acts),
        st[0].phase() == Phase::AwaitConnect(0),
        evs.len() == st[0].servers().len(),
        evs.len() >= 1,
        forall|t: int| 0 <= t < evs.len() ==> #[trigger] evs[t] matches Event::Connected(false),
    ensures
        forall|t: int|
            0 <= t < evs.len() - 1 ==> (#[trigger] acts[t] matches Action::Connect { server, .. }
                && server@ == st[0].servers()[t + 1]),
        finishes(acts[evs.len() - 1], PamResultCode::PAM_SERVICE_ERR),
        forall|t: int| 0 <= t <= evs.len() ==> !(#[trigger] st[t]).holds_session(),
{
    let n = evs.len() - 1;
    st[0].lemma_servers_fit();
    lemma_refusals(st, evs, acts, n, n);
    lemma_step_basics(st[n], evs[n], st[n + 1], acts[n]);
    assert(evs[n] matches Event::Connected(false));
    assert(st[n].fails_over(n, acts[n]));
    assert forall|t: int| 0 <= t <= evs.len() implies !(#[trigger] st[t]).holds_session() by {
        if t <= n {
            lemma_refusals(st, evs, acts, n, t);
        }
    }
}

/// The decision that a configuration makes on a search result.
pub open spec fn decision(c: Config, attrs: Vec<(String, Vec<String>)>) -> Option<
    (Seq<char>, Seq<char>),
> {
    first_match(
        groups_of(attrs_view(attrs@), c.ldap.group_attribute@, c.ldap.group_base_dn@),
        c.mappings@,
    )
}

/// A whole invocation in which the principal's groups match the table:
/// the identity of the first matching group, in order of group name, is
/// set once, the session is released, and the result is success exactly
/// when the host accepted the identity.
pub proof fn lemma_matched_run(
    st: Seq<Invocation>,
    evs: Seq<Event>,
    acts: Seq<Action>,
    u: String,
    c: Config,
    attrs: Vec<(String, Vec<String>)>,
    accepted: bool,
)
    requires
        is_run(st, evs, acts),
        evs.len() == 8,
        st[0].phase() == Phase::Start,
        st[0].args().len() == 1,
        evs[1] == Event::User(Some(u)),
        evs[2] == Event::ConfigLoaded(Ok(c)),
        evs[3] == Event::Connected(true),
        evs[4] == Event::Bound(true),
        evs[5] == Event::Searched(Some(attrs)),
        evs[6] == Event::UserSet(accepted),
        evs[7] == Event::Unbound,
        decision(c, attrs) is Some,
    ensures
        acts[0] is GetUser,
        acts[1] is LoadConfig,
        acts[2] is Connect,
        acts[3] is Bind,
        acts[4] is Search,
        acts[5] matches Action::SetUser { target, .. } && target@ == decision(c, attrs)->Some_0.1,
        acts[6] is Unbind,
        finishes(
            acts[7],
            if accepted {
                PamResultCode::PAM_SUCCESS
            } else {
                PamResultCode::PAM_SERVICE_ERR
            },
        ),
{
    reveal(Invocation::steps_to);
    split_commas_nonempty(c);
    assert(Invocation::steps_to(st[0], evs[0], st[1], acts[0]));
    assert(Invocation::steps_to(st[1], evs[1], st[2], acts[1]));
    assert(Invocation::steps_to(st[2], evs[2], st[3], acts[2]));
    assert(Invocation::steps_to(st[3], evs[3], st[4], acts[3]));
    assert(Invocation::steps_to(st[4], evs[4], st[5], acts[4]));
    assert(Invocation::steps_to(st[5], evs[5], st[6], acts[5]));
    assert(Invocation::steps_to(st[6], evs[6], st[7], acts[6]));
    assert(Invocation::steps_to(st[7], evs[7], st[8], acts[7]));
}

/// A whole invocation in which none of the principal's groups is in the
/// table: no identity is set, the session is released, and access is
/// denied.
pub proof fn lemma_unmatched_run(
    st: Seq<Invocation>,
    evs: Seq<Event>,
    acts: Seq<Action>,
    u: String,
    c: Config,
    attrs: Vec<(String, Vec<String>)>,
)
    requires
        is_run(st, evs, acts),
        evs.len() == 7,
        st[0].phase() == Phase::Start,
        st[0].args().len() == 1,
        evs[1] == Event::User(Some(u)),
        evs[2] == Event::ConfigLoaded(Ok(c)),
        evs[3] == Event::Connected(true),
        evs[4] == Event::Bound(true),
        evs[5] == Event::Searched(Some(attrs)),
        evs[6] == Event::Unbound,
        decision(c, attrs) is None,
    ensures
        forall|t: int| 0 <= t < 7 ==> !(#[trigger] acts[t] is SetUser),
        acts[5] is Unbind,
        finishes(acts[6], PamResultCode::PAM_AUTH_ERR),
{
    reveal(Invocation::steps_to);
    split_commas_nonempty(c);
    assert(Invocation::steps_to(st[0], evs[0], st[1], acts[0]));
    assert(Invocation::steps_to(st[1], evs[1], st[2], acts[1]));
    assert(Invocation::steps_to(st[2], evs[2], st[3], acts[2]));
    assert(Invocation::steps_to(st[3], evs[3], st[4], acts[3]));
    assert(Invocation::steps_to(st[4], evs[4], st[5], acts[4]));
    assert(Invocation::steps_to(st[5], evs[5], st[6], acts[5]));
    assert(Invocation::steps_to(st[6], evs[6], st[7], acts[6]));
}

proof fn split_commas_nonempty(c: Config)
    ensures
        split_commas(c.ldap.uri@).len() >= 1,
{
    crate::servers::lemma_split_len(c.ldap.uri@);
}

} // verus!
