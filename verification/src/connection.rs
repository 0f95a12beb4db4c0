//! SSH session bookkeeping: the key a session is filed under, the table of
//! open sessions, which host a request means, and the order in which
//! authentication methods are tried.

use vstd::prelude::*;
use crate::paths::{join_for, join_in, opt_view};
use crate::ssh_config::{ostr, HostView, SshHost, host_views};
use crate::text::{chars_of, concat_chars, decimal, decimal_text, lemma_decimal, range_eq, string_from_chars, is_digit};

verus! {

// ---------------------------------------------------------------- session keys

/// The key a session is filed under: `alias:port`.
pub open spec fn session_key_spec(alias: Seq<char>, port: u16) -> Seq<char> {
    alias + seq![':'] + decimal(port as nat)
}

/// The key for a session to `alias` on `port`.
pub fn session_key(alias: &str, port: u16) -> (k: String)
    ensures
        k@ == session_key_spec(alias@, port),
{
    let mut v = chars_of(alias);
    v.push(':');
    let d = decimal_text(port as u64);
    concat_chars(&mut v, d.as_slice());
    string_from_chars(v.as_slice())
}

/// The key for a session to a configured host.
pub fn host_key(host: &SshHost) -> (k: String)
    ensures
        k@ == session_key_spec(host.alias@, host.port),
{
    session_key(host.alias.as_str(), host.port)
}

/// Different hosts or ports never share a key: the port's digits hold no
/// `:`, so the last `:` of a key separates the alias from the port.
pub proof fn lemma_session_key_injective(a1: Seq<char>, p1: u16, a2: Seq<char>, p2: u16)
    requires
        session_key_spec(a1, p1) == session_key_spec(a2, p2),
    ensures
        a1 == a2,
        p1 == p2,
    decreases a1.len() + a2.len(),
{
    let k = session_key_spec(a1, p1);
    let d1 = decimal(p1 as nat);
    let d2 = decimal(p2 as nat);
    lemma_decimal(p1 as nat);
    lemma_decimal(p2 as nat);
    if d1.len() < d2.len() {
        // the character before d1 is ':' in one reading and a digit in the other
        let i = k.len() - d1.len() - 1;
        assert(k[i] == ':');
        assert(k[i] == d2[i - (a2.len() + 1)]);
        assert(is_digit(d2[i - (a2.len() + 1)]));
    } else if d2.len() < d1.len() {
        let i = k.len() - d2.len() - 1;
        assert(k[i] == ':');
        assert(k[i] == d1[i - (a1.len() + 1)]);
        assert(is_digit(d1[i - (a1.len() + 1)]));
    } else {
        assert(k.len() == a1.len() + 1 + d1.len());
        assert(session_key_spec(a2, p2).len() == a2.len() + 1 + d2.len());
        assert(a1.len() == a2.len());
        assert(a1 =~= k.take(a1.len() as int));
        assert(a2 =~= k.take(a2.len() as int));
        assert(d1 =~= k.skip(a1.len() as int + 1));
        assert(d2 =~= k.skip(a2.len() as int + 1));
    }
}

// ---------------------------------------------------------------- sessions

/// The sessions of a table, by key.
pub open spec fn sessions_of<H>(v: Seq<(String, H)>) -> Map<Seq<char>, H>
    decreases v.len(),
{
    if v.len() == 0 {
        Map::empty()
    } else {
        sessions_of(v.drop_last()).insert(v.last().0@, v.last().1)
    }
}

/// The keys of a table.
pub open spec fn keys_of<H>(v: Seq<(String, H)>) -> Seq<Seq<char>> {
    v.map_values(|e: (String, H)| e.0@)
}

/// The open sessions, each filed under its `alias:port` key, with the calls
/// that have changed the table since it was made.
pub struct ConnectionManager<H> {
    sessions: Vec<(String, H)>,
    history: Ghost<Seq<SessionCall<H>>>,
}

proof fn lemma_sessions_lookup<H>(v: Seq<(String, H)>, i: int)
    requires
        keys_of(v).no_duplicates(),
        0 <= i < v.len(),
    ensures
        sessions_of(v).contains_key(v[i].0@),
        sessions_of(v)[v[i].0@] == v[i].1,
    decreases v.len(),
{
    let d = v.drop_last();
    if i < v.len() - 1 {
        assert(keys_of(d) =~= keys_of(v).drop_last());
        assert(keys_of(v)[i] != keys_of(v)[v.len() - 1]);
        assert(d[i] == v[i]);
        lemma_sessions_lookup(d, i);
    }
}

proof fn lemma_sessions_domain<H>(v: Seq<(String, H)>)
    ensures
        forall|k: Seq<char>| sessions_of(v).contains_key(k) <==> keys_of(v).contains(k),
    decreases v.len(),
{
    if v.len() > 0 {
        let d = v.drop_last();
        lemma_sessions_domain(d);
        assert(keys_of(d) =~= keys_of(v).drop_last());
        assert forall|k: Seq<char>| sessions_of(v).contains_key(k) <==> keys_of(v).contains(k) by {
            if keys_of(v).contains(k) {
                let j = choose|j: int| 0 <= j < keys_of(v).len() && keys_of(v)[j] == k;
                if j < v.len() - 1 {
                    assert(keys_of(d)[j] == k);
                }
            }
            if keys_of(d).contains(k) {
                let j = choose|j: int| 0 <= j < keys_of(d).len() && keys_of(d)[j] == k;
                assert(keys_of(v)[j] == k);
            }
            if k == v.last().0@ {
                assert(keys_of(v)[v.len() - 1] == k);
            }
        }
    }
}

proof fn lemma_sessions_remove<H>(v: Seq<(String, H)>, i: int)
    requires
        keys_of(v).no_duplicates(),
        0 <= i < v.len(),
    ensures
        sessions_of(v.remove(i)) == sessions_of(v).remove(v[i].0@),
        keys_of(v.remove(i)).no_duplicates(),
    decreases v.len(),
{
    let r = v.remove(i);
    assert(keys_of(r) =~= keys_of(v).remove(i));
    let d = v.drop_last();
    assert(keys_of(d) =~= keys_of(v).drop_last());
    if i == v.len() - 1 {
        assert(r =~= d);
        lemma_sessions_domain(d);
        assert(!keys_of(d).contains(v[i].0@)) by {
            if keys_of(d).contains(v[i].0@) {
                let j = choose|j: int| 0 <= j < keys_of(d).len() && keys_of(d)[j] == v[i].0@;
                assert(keys_of(v)[j] == keys_of(v)[i]);
            }
        }
        assert(sessions_of(v).remove(v[i].0@) =~= sessions_of(d));
    } else {
        lemma_sessions_remove(d, i);
        assert(r.drop_last() =~= d.remove(i));
        assert(r.last() == v.last());
        assert(keys_of(v)[i] != keys_of(v)[v.len() - 1]);
        assert(sessions_of(r) =~= sessions_of(v).remove(v[i].0@));
    }
}

impl<H> ConnectionManager<H> {
    /// The open sessions, by key.
    pub closed spec fn view_sessions(&self) -> Map<Seq<char>, H> {
        sessions_of(self.sessions@)
    }

    /// The connects (that filed or found a session) and disconnects made on
    /// this table since `new`, in order.
    pub closed spec fn calls(&self) -> Seq<SessionCall<H>> {
        self.history@
    }

    /// Each key is filed once, and the table is what its calls made it.
    #[verifier::type_invariant]
    spec fn consistent(&self) -> bool {
        &&& keys_of(self.sessions@).no_duplicates()
        &&& sessions_of(self.sessions@) == table_after(self.history@)
    }

    /// No open sessions, and no calls yet.
    pub fn new() -> (m: Self)
        ensures
            m.view_sessions() == Map::<Seq<char>, H>::empty(),
            m.calls() == Seq::<SessionCall<H>>::empty(),
    {
        ConnectionManager { sessions: Vec::new(), history: Ghost(Seq::empty()) }
    }

    fn find_in(sessions: &Vec<(String, H)>, key: &str) -> (r: Option<usize>)
        requires
            keys_of(sessions@).no_duplicates(),
        ensures
            match r {
                Some(i) => i < sessions@.len() && sessions@[i as int].0@ == key@,
                None => !sessions_of(sessions@).contains_key(key@),
            },
    {
        let k = chars_of(key);
        let mut i: usize = 0;
        while i < sessions.len()
            invariant
                i <= sessions@.len(),
                k@ == key@,
                forall|j: int| 0 <= j < i ==> keys_of(sessions@)[j] != key@,
            decreases sessions@.len() - i,
        {
            let ki = chars_of(sessions[i].0.as_str());
            if range_eq(ki.as_slice(), 0, ki.len(), k.as_slice()) {
                assert(ki@.subrange(0, ki@.len() as int) =~= ki@);
                return Some(i);
            }
            assert(ki@.subrange(0, ki@.len() as int) =~= ki@);
            i = i + 1;
        }
        proof {
            lemma_sessions_domain(sessions@);
            if keys_of(sessions@).contains(key@) {
                let j = choose|j: int|
                    0 <= j < keys_of(sessions@).len() && keys_of(sessions@)[j] == key@;
            }
        }
        None
    }

    /// The session open to `alias` on `port`, if any: the one that the first
    /// connect to that host and port since `new` or since its last disconnect
    /// filed.
    pub fn get(&self, alias: &str, port: u16) -> (r: Option<&H>)
        ensures
            match r {
                Some(h) => self.view_sessions().contains_key(session_key_spec(alias@, port))
                    && *h == self.view_sessions()[session_key_spec(alias@, port)],
                None => !self.view_sessions().contains_key(session_key_spec(alias@, port)),
            },
            match r {
                Some(h) => session_for(self.calls(), alias@, port) == Some(*h),
                None => session_for(self.calls(), alias@, port) is None,
            },
    {
        proof {
            use_type_invariant(self);
            lemma_session_history(self.history@, alias@, port);
        }
        let key = session_key(alias, port);
        match Self::find_in(&self.sessions, key.as_str()) {
            Some(i) => {
                proof {
                    lemma_sessions_lookup(self.sessions@, i as int);
                }
                Some(&self.sessions[i].1)
            },
            None => None,
        }
    }

    /// The session already open to a configured host, if any (the one that
    /// `get` gives for its alias and port).
    pub fn cached(&self, host: &SshHost) -> (r: Option<&H>)
        ensures
            match r {
                Some(h) => self.view_sessions().contains_key(session_key_spec(host.alias@, host.port))
                    && *h == self.view_sessions()[session_key_spec(host.alias@, host.port)],
                None => !self.view_sessions().contains_key(session_key_spec(host.alias@, host.port)),
            },
            match r {
                Some(h) => session_for(self.calls(), host.alias@, host.port) == Some(*h),
                None => session_for(self.calls(), host.alias@, host.port) is None,
            },
    {
        self.get(host.alias.as_str(), host.port)
    }

    /// Completes a connect to a configured host with the session it opened:
    /// files it when no session is filed for the host yet and tells so; when
    /// one is (a connect that finished first), that one is kept and `handle`
    /// is dropped. The call is recorded either way.
    pub fn adopt(&mut self, host: &SshHost, handle: H) -> (filed: bool)
        ensures
            filed == !old(self).view_sessions().contains_key(
                session_key_spec(host.alias@, host.port),
            ),
            final(self).calls() == old(self).calls().push(
                SessionCall::Connect { alias: host.alias@, port: host.port, handle },
            ),
            final(self).view_sessions() == apply_call(
                old(self).view_sessions(),
                SessionCall::Connect { alias: host.alias@, port: host.port, handle },
            ),
    {
        let mut tmp = ConnectionManager::new();
        std::mem::swap(&mut tmp, self);
        proof {
            use_type_invariant(&tmp);
        }
        let ConnectionManager { sessions: mut sessions, history } = tmp;
        let ghost call = SessionCall::Connect { alias: host.alias@, port: host.port, handle };
        let ghost hist = history@.push(call);
        assert(hist.drop_last() =~= history@);
        let key = host_key(host);
        let ghost start = sessions@;
        let filed = match Self::find_in(&sessions, key.as_str()) {
            Some(i) => {
                proof {
                    lemma_sessions_lookup(sessions@, i as int);
                }
                false
            },
            None => {
                proof {
                    lemma_sessions_domain(start);
                }
                let ghost kv = key@;
                sessions.push((key, handle));
                assert(sessions@.drop_last() =~= start);
                assert(keys_of(sessions@) =~= keys_of(start).push(kv));
                assert(keys_of(sessions@).no_duplicates()) by {
                    let ks = keys_of(sessions@);
                    assert forall|a: int, b: int|
                        0 <= a < ks.len() && 0 <= b < ks.len() && a != b implies ks[a] != ks[b] by {
                        if a < start.len() && b < start.len() {
                            assert(ks[a] == keys_of(start)[a] && ks[b] == keys_of(start)[b]);
                        } else if a < start.len() {
                            assert(ks[a] == keys_of(start)[a]);
                            assert(keys_of(start).contains(ks[a]));
                        } else if b < start.len() {
                            assert(ks[b] == keys_of(start)[b]);
                            assert(keys_of(start).contains(ks[b]));
                        }
                    }
                }
                true
            },
        };
        *self = ConnectionManager { sessions, history: Ghost(hist) };
        filed
    }

    /// Drops the session to `alias` on `port`, if there is one.
    pub fn disconnect(&mut self, alias: &str, port: u16) -> (r: Result<(), String>)
        ensures
            r is Ok,
            final(self).calls() == old(self).calls().push(
                SessionCall::Disconnect { alias: alias@, port },
            ),
            final(self).view_sessions() == old(self).view_sessions().remove(
                session_key_spec(alias@, port),
            ),
    {
        let mut tmp = ConnectionManager::new();
        std::mem::swap(&mut tmp, self);
        proof {
            use_type_invariant(&tmp);
        }
        let ConnectionManager { sessions: mut sessions, history } = tmp;
        let ghost hist = history@.push(SessionCall::Disconnect { alias: alias@, port });
        assert(hist.drop_last() =~= history@);
        let key = session_key(alias, port);
        match Self::find_in(&sessions, key.as_str()) {
            Some(i) => {
                proof {
                    lemma_sessions_remove(sessions@, i as int);
                }
                let _ = sessions.remove(i);
            },
            None => {
                assert(sessions_of(sessions@).remove(key@) =~= sessions_of(sessions@));
            },
        }
        *self = ConnectionManager { sessions, history: Ghost(hist) };
        Ok(())
    }
}

/// Filing a session for one host leaves the session of every other alias or
/// port as it was; the host itself then has exactly the new session.
pub proof fn lemma_filing_isolated<H>(
    m: Map<Seq<char>, H>,
    alias: Seq<char>,
    port: u16,
    handle: H,
    other_alias: Seq<char>,
    other_port: u16,
)
    requires
        other_alias != alias || other_port != port,
    ensures
        ({
            let m2 = m.insert(session_key_spec(alias, port), handle);
            let ko = session_key_spec(other_alias, other_port);
            &&& m2.contains_key(session_key_spec(alias, port))
            &&& m2[session_key_spec(alias, port)] == handle
            &&& m2.contains_key(ko) == m.contains_key(ko)
            &&& m.contains_key(ko) ==> m2[ko] == m[ko]
        }),
{
    if session_key_spec(alias, port) == session_key_spec(other_alias, other_port) {
        lemma_session_key_injective(alias, port, other_alias, other_port);
    }
}

/// Disconnecting one host drops its session and leaves the session of every
/// other alias or port as it was.
pub proof fn lemma_disconnect_isolated<H>(
    m: Map<Seq<char>, H>,
    alias: Seq<char>,
    port: u16,
    other_alias: Seq<char>,
    other_port: u16,
)
    requires
        other_alias != alias || other_port != port,
    ensures
        ({
            let m2 = m.remove(session_key_spec(alias, port));
            let ko = session_key_spec(other_alias, other_port);
            &&& !m2.contains_key(session_key_spec(alias, port))
            &&& m2.contains_key(ko) == m.contains_key(ko)
            &&& m.contains_key(ko) ==> m2[ko] == m[ko]
        }),
{
    if session_key_spec(alias, port) == session_key_spec(other_alias, other_port) {
        lemma_session_key_injective(alias, port, other_alias, other_port);
    }
}

/// A call that changes the session table: a connect that succeeded, with the
/// handle it would open when no session is filed yet, or a disconnect.
pub enum SessionCall<H> {
    Connect { alias: Seq<char>, port: u16, handle: H },
    Disconnect { alias: Seq<char>, port: u16 },
}

/// The session filed under a key, if any.
pub open spec fn lookup<H>(m: Map<Seq<char>, H>, key: Seq<char>) -> Option<H> {
    if m.contains_key(key) {
        Some(m[key])
    } else {
        None
    }
}

/// What one call does to the table: a connect reuses the session filed under
/// its key (`cached`) and files the new one otherwise (`adopt`); a
/// disconnect drops the session (`disconnect`).
pub open spec fn apply_call<H>(m: Map<Seq<char>, H>, c: SessionCall<H>) -> Map<Seq<char>, H> {
    match c {
        SessionCall::Connect { alias, port, handle } => {
            let k = session_key_spec(alias, port);
            if m.contains_key(k) {
                m
            } else {
                m.insert(k, handle)
            }
        },
        SessionCall::Disconnect { alias, port } => m.remove(session_key_spec(alias, port)),
    }
}

/// The table after a sequence of calls on a new (empty) table.
pub open spec fn table_after<H>(calls: Seq<SessionCall<H>>) -> Map<Seq<char>, H>
    decreases calls.len(),
{
    if calls.len() == 0 {
        Map::empty()
    } else {
        apply_call(table_after(calls.drop_last()), calls.last())
    }
}

/// The handle of the first connect to `alias` on `port` since the start or
/// since the last disconnect of `alias` on `port`; `None` when there is none.
pub open spec fn session_for<H>(calls: Seq<SessionCall<H>>, alias: Seq<char>, port: u16) -> Option<H>
    decreases calls.len(),
{
    if calls.len() == 0 {
        None
    } else {
        let earlier = session_for(calls.drop_last(), alias, port);
        match calls.last() {
            SessionCall::Connect { alias: a, port: p, handle } => if a == alias && p == port {
                match earlier {
                    Some(h) => Some(h),
                    None => Some(handle),
                }
            } else {
                earlier
            },
            SessionCall::Disconnect { alias: a, port: p } => if a == alias && p == port {
                None
            } else {
                earlier
            },
        }
    }
}

/// After any sequence of connects and disconnects on a new table, `get` for
/// `alias` on `port` finds exactly the handle of the first connect to that
/// host and port since the start or since its last disconnect, and nothing
/// when there is none; calls for other aliases or ports do not matter.
pub proof fn lemma_session_history<H>(calls: Seq<SessionCall<H>>, alias: Seq<char>, port: u16)
    ensures
        lookup(table_after(calls), session_key_spec(alias, port)) == session_for(calls, alias, port),
    decreases calls.len(),
{
    if calls.len() > 0 {
        let prev = calls.drop_last();
        lemma_session_history(prev, alias, port);
        let k = session_key_spec(alias, port);
        match calls.last() {
            SessionCall::Connect { alias: a, port: p, .. } => {
                if session_key_spec(a, p) == k {
                    lemma_session_key_injective(a, p, alias, port);
                }
            },
            SessionCall::Disconnect { alias: a, port: p } => {
                if session_key_spec(a, p) == k {
                    lemma_session_key_injective(a, p, alias, port);
                }
            },
        }
    }
}

/// Filing a session and then looking up its host finds that session.
pub proof fn lemma_get_after_filing<H>(m: Map<Seq<char>, H>, alias: Seq<char>, port: u16, handle: H)
    ensures
        lookup(m.insert(session_key_spec(alias, port), handle), session_key_spec(alias, port))
            == Some(handle),
{
}

/// Disconnecting a host removes exactly its key: it is no longer found, and
/// every other alias or port finds what it found before.
pub proof fn lemma_disconnect_removes_key<H>(
    m: Map<Seq<char>, H>,
    alias: Seq<char>,
    port: u16,
    other_alias: Seq<char>,
    other_port: u16,
)
    ensures
        lookup(m.remove(session_key_spec(alias, port)), session_key_spec(alias, port)) is None,
        (other_alias != alias || other_port != port) ==> lookup(
            m.remove(session_key_spec(alias, port)),
            session_key_spec(other_alias, other_port),
        ) == lookup(m, session_key_spec(other_alias, other_port)),
{
    if session_key_spec(alias, port) == session_key_spec(other_alias, other_port) {
        lemma_session_key_injective(alias, port, other_alias, other_port);
    }
}

// ---------------------------------------------------------------- which host

/// How the user asks to authenticate.
pub enum AuthMethod {
    /// Keys: the configured identity file, then the default key files.
    Default,
    /// A password.
    Password { password: String },
}

/// A copy of a host.
pub fn clone_host(h: &SshHost) -> (r: SshHost)
    ensures
        r@ == h@,
{
    SshHost {
        alias: h.alias.clone(),
        host_name: clone_opt_string(&h.host_name),
        user: clone_opt_string(&h.user),
        port: h.port,
        identity_file: clone_opt_string(&h.identity_file),
    }
}

fn clone_opt_string(o: &Option<String>) -> (r: Option<String>)
    ensures
        ostr(r) == ostr(*o),
{
    match o {
        Some(s) => Some(s.clone()),
        None => None,
    }
}

/// The first configured host with the given alias.
pub open spec fn find_alias(hosts: Seq<HostView>, alias: Seq<char>) -> Option<HostView>
    decreases hosts.len(),
{
    if hosts.len() == 0 {
        None
    } else if hosts[0].alias == alias {
        Some(hosts[0])
    } else {
        find_alias(hosts.drop_first(), alias)
    }
}

/// The host a request means: the first configured host with that alias,
/// else the name itself as host name, with the given user and port (22 when
/// none is given) and no identity file.
pub open spec fn requested_host(
    hosts: Seq<HostView>,
    alias: Seq<char>,
    port: Option<u16>,
    user: Option<Seq<char>>,
) -> HostView {
    match find_alias(hosts, alias) {
        Some(h) => h,
        None => HostView {
            alias,
            host_name: Some(alias),
            user,
            port: match port {
                Some(p) => p,
                None => 22,
            },
            identity_file: None,
        },
    }
}

/// A request for an alias that the configuration names means the first
/// configured host with that alias, exactly as configured (its own host name,
/// user, port and identity file), whatever port and user the request gives.
pub proof fn lemma_requested_configured_host(
    hosts: Seq<HostView>,
    alias: Seq<char>,
    port: Option<u16>,
    user: Option<Seq<char>>,
    i: int,
)
    requires
        0 <= i < hosts.len(),
        hosts[i].alias == alias,
        forall|j: int| 0 <= j < i ==> (#[trigger] hosts[j]).alias != alias,
    ensures
        requested_host(hosts, alias, port, user) == hosts[i],
    decreases i,
{
    if i > 0 {
        let rest = hosts.drop_first();
        assert(hosts[0].alias != alias);
        assert forall|j: int| 0 <= j < i - 1 implies (#[trigger] rest[j]).alias != alias by {
            assert(rest[j] == hosts[j + 1]);
        }
        assert(rest[i - 1] == hosts[i]);
        lemma_requested_configured_host(rest, alias, port, user, i - 1);
    }
}

/// A request for an alias that no configured host has means an ad-hoc host:
/// the alias is also the address, with the requested user and port (22 when
/// none is given) and no identity file.
pub proof fn lemma_requested_ad_hoc_host(
    hosts: Seq<HostView>,
    alias: Seq<char>,
    port: Option<u16>,
    user: Option<Seq<char>>,
)
    requires
        forall|j: int| 0 <= j < hosts.len() ==> (#[trigger] hosts[j]).alias != alias,
    ensures
        requested_host(hosts, alias, port, user).alias == alias,
        requested_host(hosts, alias, port, user).host_name == Some(alias),
        requested_host(hosts, alias, port, user).user == user,
        requested_host(hosts, alias, port, user).port == (if port is Some {
            port->0
        } else {
            22u16
        }),
        requested_host(hosts, alias, port, user).identity_file is None,
    decreases hosts.len(),
{
    if hosts.len() > 0 {
        let rest = hosts.drop_first();
        assert(hosts[0].alias != alias);
        assert forall|j: int| 0 <= j < rest.len() implies (#[trigger] rest[j]).alias != alias by {
            assert(rest[j] == hosts[j + 1]);
        }
        lemma_requested_ad_hoc_host(rest, alias, port, user);
    }
}

/// The host that a connection request for `alias` means (see
/// `requested_host`).
pub fn resolve_host(hosts: &[SshHost], alias: &str, port: Option<u16>, user: Option<String>) -> (r: SshHost)
    ensures
        r@ == requested_host(host_views(hosts@), alias@, port, ostr(user)),
{
    let ghost all = host_views(hosts@);
    let a = chars_of(alias);
    let mut i: usize = 0;
    assert(all.skip(0) =~= all);
    while i < hosts.len()
        invariant
            i <= hosts@.len(),
            all == host_views(hosts@),
            a@ == alias@,
            find_alias(all, alias@) == find_alias(all.skip(i as int), alias@),
        decreases hosts@.len() - i,
    {
        assert(all.skip(i as int)[0] == hosts@[i as int]@);
        assert(all.skip(i as int).drop_first() =~= all.skip(i + 1));
        let hc = chars_of(hosts[i].alias.as_str());
        let same = range_eq(hc.as_slice(), 0, hc.len(), a.as_slice());
        assert(hc@.subrange(0, hc@.len() as int) =~= hc@);
        if same {
            return clone_host(&hosts[i]);
        }
        i = i + 1;
    }
    assert(all.skip(i as int) =~= Seq::<HostView>::empty());
    let name = string_from_chars(a.as_slice());
    SshHost {
        alias: name.clone(),
        host_name: Some(name),
        user,
        port: match port {
            Some(p) => p,
            None => 22,
        },
        identity_file: None,
    }
}

// ---------------------------------------------------------------- logging in

/// The error when no user name is known.
pub open spec fn no_user_message() -> Seq<char> {
    "No username specified. Set User in ssh config or provide credentials."@
}

/// The user to log in as: the configured user, else an error.
pub fn login_user(host: &SshHost) -> (r: Result<String, String>)
    ensures
        match host.user {
            Some(u) => r matches Ok(x) && x@ == u@,
            None => r matches Err(e) && e@ == no_user_message(),
        },
{
    match host.effective_user() {
        Some(u) => Ok(string_from_chars(chars_of(u).as_slice())),
        None => Err(
            string_from_chars(
                chars_of(
                    "No username specified. Set User in ssh config or provide credentials.",
                ).as_slice(),
            ),
        ),
    }
}

/// The error text when the connection itself fails.
pub open spec fn connect_error_spec(host: HostView, detail: Seq<char>) -> Seq<char> {
    "SSH connect to "@ + (match host.host_name {
        Some(h) => h,
        None => host.alias,
    }) + seq![':'] + decimal(host.port as nat) + seq![':', ' '] + detail
}

/// The error text when the connection to `host` fails with `detail`.
pub fn connect_error(host: &SshHost, detail: &str) -> (r: String)
    ensures
        r@ == connect_error_spec(host@, detail@),
{
    let mut v = chars_of("SSH connect to ");
    let h = chars_of(host.effective_host());
    concat_chars(&mut v, h.as_slice());
    v.push(':');
    let d = decimal_text(host.port as u64);
    concat_chars(&mut v, d.as_slice());
    v.push(':');
    v.push(' ');
    let t = chars_of(detail);
    concat_chars(&mut v, t.as_slice());
    string_from_chars(v.as_slice())
}

/// The key files to try, in order: the configured identity file, then
/// `id_ed25519`, `id_rsa` and `id_ecdsa` in `~/.ssh` (when the home
/// directory is known), joined as the platform joins paths.
pub open spec fn key_candidates_spec(
    identity: Option<Seq<char>>,
    home: Option<Seq<char>>,
    windows: bool,
) -> Seq<Seq<char>> {
    let first: Seq<Seq<char>> = match identity {
        Some(f) => seq![f],
        None => seq![],
    };
    let defaults: Seq<Seq<char>> = match home {
        Some(h) => {
            let dir = join_for(windows, h, ".ssh"@);
            seq![
                join_for(windows, dir, "id_ed25519"@),
                join_for(windows, dir, "id_rsa"@),
                join_for(windows, dir, "id_ecdsa"@),
            ]
        },
        None => seq![],
    };
    first + defaults
}

/// The key files to try for `host` (see `key_candidates_spec`).
pub fn key_candidates(host: &SshHost, home: Option<&str>, windows: bool) -> (r: Vec<String>)
    ensures
        r@.map_values(|s: String| s@) == key_candidates_spec(
            ostr(host.identity_file),
            opt_view(home),
            windows,
        ),
{
    let mut r: Vec<String> = Vec::new();
    match &host.identity_file {
        Some(f) => r.push(f.clone()),
        None => {},
    }
    match home {
        Some(h) => {
            let dir = join_in(windows, h, ".ssh");
            r.push(join_in(windows, dir.as_str(), "id_ed25519"));
            r.push(join_in(windows, dir.as_str(), "id_rsa"));
            r.push(join_in(windows, dir.as_str(), "id_ecdsa"));
        },
        None => {},
    }
    assert(r@.map_values(|s: String| s@) =~= key_candidates_spec(
        ostr(host.identity_file),
        opt_view(home),
        windows,
    ));
    r
}

/// What to do next while logging in.
pub enum AuthStep {
    /// Try the key file with this index among the candidates.
    TryKey(usize),
    /// Try the password.
    TryPassword,
    /// Logged in.
    Authenticated,
    /// Give up with this error.
    Failed(String),
}

/// What an attempt gave.
pub enum AuthOutcome {
    /// The server accepted the credentials.
    Accepted,
    /// The key could not be loaded, or the server refused it.
    Rejected,
    /// The attempt failed with this error.
    Error(String),
}

/// The error when no key file was accepted.
pub open spec fn no_key_message() -> Seq<char> {
    "Authentication failed. No valid key found."@
}

/// The error when the password was refused.
pub open spec fn password_refused_message() -> Seq<char> {
    "Password authentication failed"@
}

/// The error when the password attempt itself failed.
pub open spec fn password_error_message(detail: Seq<char>) -> Seq<char> {
    "Password auth: "@ + detail
}

fn text(s: &str) -> (r: String)
    ensures
        r@ == s@,
{
    string_from_chars(chars_of(s).as_slice())
}

/// The first step: the first key file when logging in with keys (failing
/// when there is none), the password otherwise.
pub fn first_auth_step(method: &AuthMethod, n_keys: usize) -> (r: AuthStep)
    ensures
        match method {
            AuthMethod::Default => if n_keys > 0 {
                r == AuthStep::TryKey(0)
            } else {
                r matches AuthStep::Failed(e) && e@ == no_key_message()
            },
            AuthMethod::Password { .. } => r == AuthStep::TryPassword,
        },
{
    match method {
        AuthMethod::Default => if n_keys > 0 {
            AuthStep::TryKey(0)
        } else {
            AuthStep::Failed(text("Authentication failed. No valid key found."))
        },
        AuthMethod::Password { .. } => AuthStep::TryPassword,
    }
}

/// The step after an attempt: an accepted attempt logs in; a key that does
/// not log in moves on to the next key file, or fails once none is left; a
/// refused password fails, and so does a password attempt that errs.
pub fn next_auth_step(tried: &AuthStep, outcome: AuthOutcome, n_keys: usize) -> (r: AuthStep)
    ensures
        match (*tried, outcome) {
            (_, AuthOutcome::Accepted) => r == AuthStep::Authenticated,
            (AuthStep::TryKey(i), _) => if i + 1 < n_keys {
                r == AuthStep::TryKey((i + 1) as usize)
            } else {
                r matches AuthStep::Failed(e) && e@ == no_key_message()
            },
            (AuthStep::TryPassword, AuthOutcome::Rejected) => r matches AuthStep::Failed(e) && e@
                == password_refused_message(),
            (AuthStep::TryPassword, AuthOutcome::Error(d)) => r matches AuthStep::Failed(e) && e@
                == password_error_message(d@),
            (AuthStep::Authenticated, _) => r == AuthStep::Authenticated,
            (AuthStep::Failed(e), _) => r == AuthStep::Failed(e),
        },
{
    match outcome {
        AuthOutcome::Accepted => AuthStep::Authenticated,
        AuthOutcome::Rejected => match tried {
            AuthStep::TryKey(i) => if *i < n_keys && n_keys - *i > 1 {
                AuthStep::TryKey(*i + 1)
            } else {
                AuthStep::Failed(text("Authentication failed. No valid key found."))
            },
            AuthStep::TryPassword => AuthStep::Failed(text("Password authentication failed")),
            AuthStep::Authenticated => AuthStep::Authenticated,
            AuthStep::Failed(e) => AuthStep::Failed(e.clone()),
        },
        AuthOutcome::Error(d) => match tried {
            AuthStep::TryKey(i) => if *i < n_keys && n_keys - *i > 1 {
                AuthStep::TryKey(*i + 1)
            } else {
                AuthStep::Failed(text("Authentication failed. No valid key found."))
            },
            AuthStep::TryPassword => {
                let mut v = chars_of("Password auth: ");
                let dc = chars_of(d.as_str());
                concat_chars(&mut v, dc.as_slice());
                AuthStep::Failed(string_from_chars(v.as_slice()))
            },
            AuthStep::Authenticated => AuthStep::Authenticated,
            AuthStep::Failed(e) => AuthStep::Failed(e.clone()),
        },
    }
}

} // verus!
