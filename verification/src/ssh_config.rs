//! `~/.ssh/config`: the hosts it names, with their host name, user, port and
//! identity file.

use vstd::prelude::*;
use crate::paths::{join_for, join_in, user_home, windows_paths};
use crate::text::{
    chars_of, copy_range, find_in, first_in, has_char, lines, lowercase, parse_u16,
    parse_u16_range, range_eq, string_from_chars, to_lowercase, trim, trim_range, words, CharClass,
    lemma_first_in, trim_start, is_ws, lemma_trim_start_len,
};

verus! {

/// A host of the SSH configuration, as the logic reads it.
pub struct HostView {
    pub alias: Seq<char>,
    pub host_name: Option<Seq<char>>,
    pub user: Option<Seq<char>>,
    pub port: u16,
    pub identity_file: Option<Seq<char>>,
}

/// The view of an optional `String`.
pub open spec fn ostr(o: Option<String>) -> Option<Seq<char>> {
    match o {
        Some(s) => Some(s@),
        None => None,
    }
}

/// A host that the SSH configuration names.
pub struct SshHost {
    /// The name that `Host` gives it.
    pub alias: String,
    /// `HostName`, the address to connect to.
    pub host_name: Option<String>,
    /// `User`.
    pub user: Option<String>,
    /// `Port`, 22 unless set.
    pub port: u16,
    /// `IdentityFile`, with a leading `~/` expanded.
    pub identity_file: Option<String>,
}

impl View for SshHost {
    type V = HostView;

    open spec fn view(&self) -> HostView {
        HostView {
            alias: self.alias@,
            host_name: ostr(self.host_name),
            user: ostr(self.user),
            port: self.port,
            identity_file: ostr(self.identity_file),
        }
    }
}

/// The views of a sequence of hosts.
pub open spec fn host_views(v: Seq<SshHost>) -> Seq<HostView> {
    v.map_values(|h: SshHost| h@)
}

impl SshHost {
    /// The address to connect to: `HostName` when set, else the alias.
    pub fn effective_host(&self) -> (r: &str)
        ensures
            r@ == (match self.host_name {
                Some(h) => h@,
                None => self.alias@,
            }),
    {
        match &self.host_name {
            Some(h) => h.as_str(),
            None => self.alias.as_str(),
        }
    }

    /// The user to log in as, when the configuration sets one.
    pub fn effective_user(&self) -> (r: Option<&str>)
        ensures
            match self.user {
                Some(u) => r matches Some(x) && x@ == u@,
                None => r is None,
            },
    {
        match &self.user {
            Some(u) => Some(u.as_str()),
            None => None,
        }
    }
}

/// A `Host` block being read.
pub struct RawView {
    pub patterns: Seq<Seq<char>>,
    pub host_name: Option<Seq<char>>,
    pub user: Option<Seq<char>>,
    pub port: Option<u16>,
    pub identity_file: Option<Seq<char>>,
}

struct RawHost {
    patterns: Vec<String>,
    host_name: Option<String>,
    user: Option<String>,
    port: Option<u16>,
    identity_file: Option<String>,
}

impl View for RawHost {
    type V = RawView;

    closed spec fn view(&self) -> RawView {
        RawView {
            patterns: self.patterns@.map_values(|p: String| p@),
            host_name: ostr(self.host_name),
            user: ostr(self.user),
            port: self.port,
            identity_file: ostr(self.identity_file),
        }
    }
}

/// A pattern with no `*` or `?` names one host.
pub open spec fn names_one_host(p: Seq<char>) -> bool {
    !p.contains('*') && !p.contains('?')
}

/// The host that a block gives for one of its patterns.
pub open spec fn host_for(p: Seq<char>, raw: RawView) -> HostView {
    HostView {
        alias: p,
        host_name: raw.host_name,
        user: raw.user,
        port: match raw.port {
            Some(n) => n,
            None => 22,
        },
        identity_file: raw.identity_file,
    }
}

/// The hosts a block gives for a list of patterns, in order, leaving out
/// patterns with wildcards.
pub open spec fn hosts_for(ps: Seq<Seq<char>>, raw: RawView) -> Seq<HostView>
    decreases ps.len(),
{
    if ps.len() == 0 {
        seq![]
    } else if names_one_host(ps[0]) {
        seq![host_for(ps[0], raw)] + hosts_for(ps.drop_first(), raw)
    } else {
        hosts_for(ps.drop_first(), raw)
    }
}

/// The hosts read so far, with the block being read (if any) closed.
pub open spec fn closed_hosts(hosts: Seq<HostView>, current: Option<RawView>) -> Seq<HostView> {
    match current {
        Some(raw) => hosts + hosts_for(raw.patterns, raw),
        None => hosts,
    }
}

/// An `IdentityFile` value with a leading `~/` replaced by the home directory
/// joined with the rest as the platform joins paths (`windows`); left as it
/// is when there is no home directory.
pub open spec fn expand_home(value: Seq<char>, home: Option<Seq<char>>, windows: bool) -> Seq<char> {
    if value.len() >= 2 && value[0] == '~' && value[1] == '/' {
        match home {
            Some(h) => join_for(windows, h, value.skip(2)),
            None => value,
        }
    } else {
        value
    }
}

/// With a home directory `h`, an `IdentityFile` value `~/rest` (with a
/// relative `rest`) becomes `h`, then at most one separator (`/`, or `\` on
/// Windows), then `rest`; values that do not start with `~/`, and any value
/// when there is no home directory, are kept as written.
pub proof fn lemma_expand_home(value: Seq<char>, home: Option<Seq<char>>, windows: bool)
    ensures
        !(value.len() >= 2 && value[0] == '~' && value[1] == '/') ==> expand_home(value, home, windows)
            == value,
        home is None ==> expand_home(value, home, windows) == value,
        (value.len() >= 2 && value[0] == '~' && value[1] == '/' && home is Some && !(value.len() > 2
            && (value[2] == '/' || value[2] == '\\'))) ==> exists|sep: Seq<char>|
            #![trigger sep.len()]
            expand_home(value, home, windows) == home->0 + sep + value.skip(2) && (sep.len() == 0 || (
            sep.len() == 1 && sep[0] == (if windows {
                '\\'
            } else {
                '/'
            }))),
{
    if value.len() >= 2 && value[0] == '~' && value[1] == '/' && home is Some && !(value.len() > 2
        && (value[2] == '/' || value[2] == '\\')) {
        let h = home->0;
        let rest = value.skip(2);
        let e = expand_home(value, home, windows);
        let sep_char = if windows {
            '\\'
        } else {
            '/'
        };
        if e == h + rest {
            let sep: Seq<char> = seq![];
            assert(h + sep + rest =~= h + rest);
            assert(sep.len() == 0);
        } else {
            let sep: Seq<char> = seq![sep_char];
            assert(sep.len() == 1);
            assert(e == h + sep + rest);
        }
    }
}

/// The keys of a configuration line that the reader acts on.
#[derive(PartialEq, Eq, Structural)]
pub enum ConfigKey {
    Host,
    HostName,
    User,
    Port,
    IdentityFile,
    /// Any other key, which is ignored.
    Other,
}

/// Which key a lower-cased key text is.
pub open spec fn config_key(k: Seq<char>) -> ConfigKey {
    if k == "host"@ {
        ConfigKey::Host
    } else if k == "hostname"@ {
        ConfigKey::HostName
    } else if k == "user"@ {
        ConfigKey::User
    } else if k == "port"@ {
        ConfigKey::Port
    } else if k == "identityfile"@ {
        ConfigKey::IdentityFile
    } else {
        ConfigKey::Other
    }
}

/// The reader's state: the hosts of closed blocks, and the open block.
pub struct ConfigState {
    pub hosts: Seq<HostView>,
    pub current: Option<RawView>,
}

/// The key and value of a line: the text before the first white space or
/// `=` and the text after it, both trimmed; `None` when there is no such
/// separator.
pub open spec fn key_value(line: Seq<char>) -> Option<(Seq<char>, Seq<char>)> {
    let k = first_in(line, CharClass::KeySep);
    if k < line.len() {
        Some((trim(line.take(k)), trim(line.skip(k + 1))))
    } else {
        None
    }
}

/// Reads one line. Blank lines, comments and lines without a separator
/// change nothing; `Host` (in any letter case) closes the open block and opens
/// one for its white-space separated patterns; `HostName`, `User`, `Port`
/// and `IdentityFile` set that field of the open block (an unreadable port
/// unsets it); anything else, or any key before the first `Host`, is ignored.
pub open spec fn config_step(
    st: ConfigState,
    raw_line: Seq<char>,
    home: Option<Seq<char>>,
    windows: bool,
) -> ConfigState {
    let line = trim(raw_line);
    if line.len() == 0 || line[0] == '#' {
        st
    } else {
        match key_value(line) {
            None => st,
            Some(kv) => {
                let key = config_key(lowercase(kv.0));
                let value = kv.1;
                if key == ConfigKey::Host {
                    ConfigState {
                        hosts: closed_hosts(st.hosts, st.current),
                        current: Some(
                            RawView {
                                patterns: words(value),
                                host_name: None,
                                user: None,
                                port: None,
                                identity_file: None,
                            },
                        ),
                    }
                } else {
                    match st.current {
                        None => st,
                        Some(raw) => {
                            let raw2 = match key {
                                ConfigKey::HostName => RawView { host_name: Some(value), ..raw },
                                ConfigKey::User => RawView { user: Some(value), ..raw },
                                ConfigKey::Port => RawView { port: parse_u16(value), ..raw },
                                ConfigKey::IdentityFile => RawView {
                                    identity_file: Some(expand_home(value, home, windows)),
                                    ..raw
                                },
                                _ => raw,
                            };
                            ConfigState { hosts: st.hosts, current: Some(raw2) }
                        },
                    }
                }
            },
        }
    }
}

/// Reads a sequence of lines.
pub open spec fn config_fold(
    ls: Seq<Seq<char>>,
    st: ConfigState,
    home: Option<Seq<char>>,
    windows: bool,
) -> ConfigState
    decreases ls.len(),
{
    if ls.len() == 0 {
        st
    } else {
        config_fold(ls.drop_first(), config_step(st, ls[0], home, windows), home, windows)
    }
}

/// The hosts that an SSH configuration text names, in order of appearance.
pub open spec fn ssh_config_hosts(content: Seq<char>, home: Option<Seq<char>>, windows: bool) -> Seq<
    HostView,
> {
    let st = config_fold(lines(content), ConfigState { hosts: seq![], current: None }, home, windows);
    closed_hosts(st.hosts, st.current)
}

// ---------------------------------------------------------------- laws

/// A name that stands for one concrete host: not empty, without white space,
/// and without the wildcards `*` and `?`.
pub open spec fn concrete_name(a: Seq<char>) -> bool {
    &&& a.len() > 0
    &&& names_one_host(a)
    &&& forall|j: int| 0 <= j < a.len() ==> !is_ws(#[trigger] a[j])
}

spec fn all_concrete(hosts: Seq<HostView>) -> bool {
    forall|i: int| 0 <= i < hosts.len() ==> concrete_name(#[trigger] hosts[i].alias)
}

spec fn patterns_ok(ps: Seq<Seq<char>>) -> bool {
    forall|i: int|
        0 <= i < ps.len() ==> (#[trigger] ps[i]).len() > 0 && forall|j: int|
            0 <= j < ps[i].len() ==> !is_ws(ps[i][j])
}

spec fn state_ok(st: ConfigState) -> bool {
    &&& all_concrete(st.hosts)
    &&& match st.current {
        Some(raw) => patterns_ok(raw.patterns),
        None => true,
    }
}

proof fn lemma_hosts_for_concrete(ps: Seq<Seq<char>>, raw: RawView)
    requires
        patterns_ok(ps),
    ensures
        all_concrete(hosts_for(ps, raw)),
    decreases ps.len(),
{
    if ps.len() > 0 {
        let rest = ps.drop_first();
        assert forall|i: int| 0 <= i < rest.len() implies (#[trigger] rest[i]).len() > 0 && forall|
            j: int,
        | 0 <= j < rest[i].len() ==> !is_ws(rest[i][j]) by {
            assert(rest[i] == ps[i + 1]);
        }
        lemma_hosts_for_concrete(rest, raw);
        let hs = hosts_for(ps, raw);
        if names_one_host(ps[0]) {
            assert forall|i: int| 0 <= i < hs.len() implies concrete_name(#[trigger] hs[i].alias) by {
                if i > 0 {
                    assert(hs[i] == hosts_for(rest, raw)[i - 1]);
                } else {
                    assert(ps[0].len() > 0);
                }
            }
        }
    }
}

proof fn lemma_closed_concrete(hosts: Seq<HostView>, current: Option<RawView>)
    requires
        state_ok(ConfigState { hosts, current }),
    ensures
        all_concrete(closed_hosts(hosts, current)),
{
    match current {
        Some(raw) => {
            lemma_hosts_for_concrete(raw.patterns, raw);
            let a = hosts + hosts_for(raw.patterns, raw);
            assert forall|i: int| 0 <= i < a.len() implies concrete_name(#[trigger] a[i].alias) by {
                if i >= hosts.len() {
                    assert(a[i] == hosts_for(raw.patterns, raw)[i - hosts.len()]);
                } else {
                    assert(a[i] == hosts[i]);
                }
            }
        },
        None => {},
    }
}

proof fn lemma_step_ok(st: ConfigState, line: Seq<char>, home: Option<Seq<char>>, windows: bool)
    requires
        state_ok(st),
    ensures
        state_ok(config_step(st, line, home, windows)),
{
    let t = trim(line);
    if !(t.len() == 0 || t[0] == '#') {
        match key_value(t) {
            Some(kv) => {
                if config_key(lowercase(kv.0)) == ConfigKey::Host {
                    lemma_closed_concrete(st.hosts, st.current);
                    crate::text::lemma_words(kv.1);
                }
            },
            None => {},
        }
    }
}

proof fn lemma_fold_ok(ls: Seq<Seq<char>>, st: ConfigState, home: Option<Seq<char>>, windows: bool)
    requires
        state_ok(st),
    ensures
        state_ok(config_fold(ls, st, home, windows)),
    decreases ls.len(),
{
    if ls.len() > 0 {
        lemma_step_ok(st, ls[0], home, windows);
        lemma_fold_ok(ls.drop_first(), config_step(st, ls[0], home, windows), home, windows);
    }
}

/// Every host read from an SSH configuration has a concrete alias: patterns
/// with wildcards never become hosts, and aliases are whole words.
pub proof fn lemma_ssh_hosts_concrete(content: Seq<char>, home: Option<Seq<char>>, windows: bool)
    ensures
        forall|i: int|
            0 <= i < ssh_config_hosts(content, home, windows).len() ==> concrete_name(
                #[trigger] ssh_config_hosts(content, home, windows)[i].alias,
            ),
{
    let init = ConfigState { hosts: seq![], current: None };
    lemma_fold_ok(lines(content), init, home, windows);
    let st = config_fold(lines(content), init, home, windows);
    lemma_closed_concrete(st.hosts, st.current);
}

// ---------------------------------------------------------------- reading

fn skip_ws(v: &[char], lo: usize, hi: usize) -> (a: usize)
    requires
        lo <= hi <= v@.len(),
    ensures
        lo <= a <= hi,
        trim_start(v@.subrange(lo as int, hi as int)) == v@.subrange(a as int, hi as int),
{
    let mut a = lo;
    while a < hi && crate::text::is_whitespace(v[a])
        invariant
            lo <= a <= hi,
            hi <= v@.len(),
            trim_start(v@.subrange(lo as int, hi as int)) == trim_start(
                v@.subrange(a as int, hi as int),
            ),
        decreases hi - a,
    {
        assert(v@.subrange(a as int, hi as int).drop_first() =~= v@.subrange(a + 1, hi as int));
        a = a + 1;
    }
    a
}

/// The views of a sequence of strings.
pub open spec fn string_views(v: Seq<String>) -> Seq<Seq<char>> {
    v.map_values(|p: String| p@)
}

/// The white-space separated words of `v[lo..hi]`.
fn words_range(v: &[char], lo: usize, hi: usize) -> (r: Vec<String>)
    requires
        lo <= hi <= v@.len(),
    ensures
        string_views(r@) == words(v@.subrange(lo as int, hi as int)),
{
    let mut out: Vec<String> = Vec::new();
    let mut pos = lo;
    while pos < hi
        invariant
            lo <= pos <= hi,
            hi <= v@.len(),
            string_views(out@) + words(v@.subrange(pos as int, hi as int)) == words(
                v@.subrange(lo as int, hi as int),
            ),
        decreases hi - pos,
    {
        let ghost before = out@;
        let ghost s = v@.subrange(pos as int, hi as int);
        let a = skip_ws(v, pos, hi);
        let ghost t = v@.subrange(a as int, hi as int);
        if a == hi {
            assert(words(s) == Seq::<Seq<char>>::empty());
            assert(words(v@.subrange(hi as int, hi as int)) == Seq::<Seq<char>>::empty()) by {
                lemma_trim_start_len(v@.subrange(hi as int, hi as int));
            }
            pos = hi;
        } else {
            let k = find_in(v, a, hi, CharClass::Whitespace);
            proof {
                lemma_first_in(t, CharClass::Whitespace);
                lemma_trim_start_len(s);
            }
            assert(t.take(k - a) =~= v@.subrange(a as int, k as int));
            assert(t.skip(k - a) =~= v@.subrange(k as int, hi as int));
            let w = string_from_chars(copy_range(v, a, k).as_slice());
            out.push(w);
            assert(string_views(out@) =~= string_views(before) + seq![w@]);
            assert(words(s) == seq![t.take(k - a)] + words(t.skip(k - a)));
            pos = k;
            assert(string_views(out@) + words(v@.subrange(pos as int, hi as int))
                =~= string_views(before) + words(s));
        }
    }
    assert(words(v@.subrange(hi as int, hi as int)) == Seq::<Seq<char>>::empty()) by {
        lemma_trim_start_len(v@.subrange(hi as int, hi as int));
    }
    assert(string_views(out@) + Seq::<Seq<char>>::empty() =~= string_views(out@));
    out
}

fn clone_opt(o: &Option<String>) -> (r: Option<String>)
    ensures
        ostr(r) == ostr(*o),
{
    match o {
        Some(s) => Some(s.clone()),
        None => None,
    }
}

/// Appends the hosts that a closed block gives.
fn close_block(hosts: &mut Vec<SshHost>, raw: &RawHost)
    ensures
        host_views(final(hosts)@) == host_views(old(hosts)@) + hosts_for(raw@.patterns, raw@),
{
    let ghost ps = raw@.patterns;
    let mut i: usize = 0;
    assert(ps.skip(0) =~= ps);
    while i < raw.patterns.len()
        invariant
            i <= raw.patterns@.len(),
            ps == raw@.patterns,
            ps.len() == raw.patterns@.len(),
            host_views(hosts@) + hosts_for(ps.skip(i as int), raw@) == host_views(old(hosts)@)
                + hosts_for(ps, raw@),
        decreases raw.patterns@.len() - i,
    {
        let ghost before = hosts@;
        let p = &raw.patterns[i];
        assert(ps[i as int] == p@);
        assert(ps.skip(i as int).drop_first() =~= ps.skip(i + 1));
        let pc = chars_of(p.as_str());
        if !has_char(pc.as_slice(), '*') && !has_char(pc.as_slice(), '?') {
            let h = SshHost {
                alias: p.clone(),
                host_name: clone_opt(&raw.host_name),
                user: clone_opt(&raw.user),
                port: match raw.port {
                    Some(n) => n,
                    None => 22,
                },
                identity_file: clone_opt(&raw.identity_file),
            };
            hosts.push(h);
            assert(h@ == host_for(ps[i as int], raw@));
            assert(host_views(hosts@) =~= host_views(before) + seq![h@]);
        }
        i = i + 1;
    }
    assert(ps.skip(i as int) =~= Seq::<Seq<char>>::empty());
    assert(host_views(hosts@) + Seq::<HostView>::empty() =~= host_views(hosts@));
}

/// The view of the reader's exec state.
pub open spec fn state_view(hosts: Seq<SshHost>, current: Option<RawView>) -> ConfigState {
    ConfigState { hosts: host_views(hosts), current }
}

/// The view of an optional open block.
spec fn cur_view(c: Option<RawHost>) -> Option<RawView> {
    match c {
        Some(r) => Some(r@),
        None => None,
    }
}

fn keyword_is(k: &[char], word: &str) -> (r: bool)
    ensures
        r == (k@ == word@),
{
    let w = chars_of(word);
    let r = range_eq(k, 0, k.len(), w.as_slice());
    assert(k@.subrange(0, k@.len() as int) =~= k@);
    r
}

/// Which key an already lower-cased key text is (see `config_key`).
pub fn config_key_of(key_lower: &str) -> (r: ConfigKey)
    ensures
        r == config_key(key_lower@),
{
    let k = chars_of(key_lower);
    if keyword_is(k.as_slice(), "host") {
        ConfigKey::Host
    } else if keyword_is(k.as_slice(), "hostname") {
        ConfigKey::HostName
    } else if keyword_is(k.as_slice(), "user") {
        ConfigKey::User
    } else if keyword_is(k.as_slice(), "port") {
        ConfigKey::Port
    } else if keyword_is(k.as_slice(), "identityfile") {
        ConfigKey::IdentityFile
    } else {
        ConfigKey::Other
    }
}

/// `IdentityFile` expansion of `v[lo..hi]`.
fn expand_range(v: &[char], lo: usize, hi: usize, home: Option<&str>, windows: bool) -> (r: String)
    requires
        lo <= hi <= v@.len(),
    ensures
        r@ == expand_home(
            v@.subrange(lo as int, hi as int),
            crate::paths::opt_view(home),
            windows,
        ),
{
    let ghost value = v@.subrange(lo as int, hi as int);
    let text = string_from_chars(copy_range(v, lo, hi).as_slice());
    if hi - lo >= 2 && v[lo] == '~' && v[lo + 1] == '/' {
        assert(value[0] == v@[lo as int] && value[1] == v@[lo + 1]);
        match home {
            Some(h) => {
                let rest = string_from_chars(copy_range(v, lo + 2, hi).as_slice());
                assert(value.skip(2) =~= v@.subrange(lo + 2, hi as int));
                join_in(windows, h, rest.as_str())
            },
            None => text,
        }
    } else {
        proof {
            if hi - lo >= 2 {
                assert(value[0] == v@[lo as int] && value[1] == v@[lo + 1]);
            }
        }
        text
    }
}

/// Reads the line `v[lo..hi]` into the reader's state.
fn read_config_line(
    v: &[char],
    lo: usize,
    hi: usize,
    hosts: &mut Vec<SshHost>,
    current: &mut Option<RawHost>,
    home: Option<&str>,
    windows: bool,
)
    requires
        lo <= hi <= v@.len(),
    ensures
        state_view(final(hosts)@, cur_view(*final(current))) == config_step(
            state_view(old(hosts)@, cur_view(*old(current))),
            v@.subrange(lo as int, hi as int),
            crate::paths::opt_view(home),
            windows,
        ),
{
    let ghost st = state_view(hosts@, cur_view(*current));
    let (a, b) = trim_range(v, lo, hi);
    let ghost line = v@.subrange(a as int, b as int);
    if a == b || v[a] == '#' {
        proof {
            if a < b {
                assert(line[0] == v@[a as int]);
            }
        }
        return;
    }
    assert(line[0] == v@[a as int]);
    let k = find_in(v, a, b, CharClass::KeySep);
    if k == b {
        return;
    }
    let (ka, kb) = trim_range(v, a, k);
    let (va, vb) = trim_range(v, k + 1, b);
    assert(line.take(k - a) =~= v@.subrange(a as int, k as int));
    assert(line.skip(k - a + 1) =~= v@.subrange(k + 1, b as int));
    let key_text = string_from_chars(copy_range(v, ka, kb).as_slice());
    let lowered = to_lowercase(key_text.as_str());
    let ghost value = v@.subrange(va as int, vb as int);
    let kind = config_key_of(lowered.as_str());
    if kind == ConfigKey::Host {
        let patterns = words_range(v, va, vb);
        match &*current {
            Some(raw) => close_block(hosts, raw),
            None => {},
        }
        *current = Some(
            RawHost { patterns, host_name: None, user: None, port: None, identity_file: None },
        );
        proof {
            let r = current->Some_0;
            assert(r@.patterns == string_views(patterns@));
        }
        return;
    }
    match current {
        None => {},
        Some(raw) => {
            match kind {
                ConfigKey::HostName => {
                    raw.host_name = Some(string_from_chars(copy_range(v, va, vb).as_slice()));
                },
                ConfigKey::User => {
                    raw.user = Some(string_from_chars(copy_range(v, va, vb).as_slice()));
                },
                ConfigKey::Port => {
                    raw.port = parse_u16_range(v, va, vb);
                },
                ConfigKey::IdentityFile => {
                    raw.identity_file = Some(expand_range(v, va, vb, home, windows));
                },
                _ => {},
            }
        },
    }
}

/// The hosts that an SSH configuration text names, reading `~/` in
/// `IdentityFile` as the given home directory, joined as Windows (`windows`)
/// or other platforms join paths.
pub fn parse_ssh_config_in(content: &str, home: Option<&str>, windows: bool) -> (hosts: Vec<
    SshHost,
>)
    ensures
        host_views(hosts@) == ssh_config_hosts(content@, crate::paths::opt_view(home), windows),
{
    let ghost hv = crate::paths::opt_view(home);
    let v = chars_of(content);
    let n = v.len();
    let mut hosts: Vec<SshHost> = Vec::new();
    let mut current: Option<RawHost> = None;
    let mut pos: usize = 0;
    assert(v@.skip(0) =~= v@);
    assert(host_views(hosts@) =~= Seq::<HostView>::empty());
    while pos < n
        invariant
            pos <= n,
            n == v@.len(),
            v@ == content@,
            hv == crate::paths::opt_view(home),
            ({
                let st = config_fold(
                    lines(v@.skip(pos as int)),
                    state_view(hosts@, cur_view(current)),
                    hv,
                    windows,
                );
                closed_hosts(st.hosts, st.current) == ssh_config_hosts(content@, hv, windows)
            }),
        decreases n - pos,
    {
        let e = find_in(v.as_slice(), pos, n, CharClass::Newline);
        let ghost s = v@.skip(pos as int);
        assert(s =~= v@.subrange(pos as int, n as int));
        assert(s.take(e - pos) =~= v@.subrange(pos as int, e as int));
        let ghost ls = lines(s);
        let ghost first = if e < n { s.take(e - pos) } else { s };
        assert(ls[0] == first);
        assert(ls.drop_first() == (if e < n { lines(v@.skip(e + 1)) } else { seq![] })) by {
            if e < n {
                assert(s.skip(e - pos + 1) =~= v@.skip(e + 1));
            }
        }
        assert(ls[0] == v@.subrange(pos as int, e as int));
        let ghost st0 = state_view(hosts@, cur_view(current));
        assert(config_fold(ls, st0, hv, windows) == config_fold(
            ls.drop_first(),
            config_step(st0, ls[0], hv, windows),
            hv,
            windows,
        ));
        read_config_line(v.as_slice(), pos, e, &mut hosts, &mut current, home, windows);
        let ghost st1 = state_view(hosts@, cur_view(current));
        assert(st1 == config_step(st0, ls[0], hv, windows));
        if e < n {
            pos = e + 1;
        } else {
            pos = n;
            assert(lines(v@.skip(n as int)) =~= seq![]) by {
                assert(v@.skip(n as int) =~= Seq::<char>::empty());
            }
        }
        assert(lines(v@.skip(pos as int)) == ls.drop_first());
        assert(config_fold(lines(v@.skip(pos as int)), st1, hv, windows) == config_fold(
            ls,
            st0,
            hv,
            windows,
        ));
    }
    assert(lines(v@.skip(pos as int)) =~= seq![]) by {
        assert(v@.skip(pos as int) =~= Seq::<char>::empty());
    }
    match &current {
        Some(raw) => close_block(&mut hosts, raw),
        None => {},
    }
    hosts
}

/// The hosts that an SSH configuration text names; a leading `~/` in an
/// `IdentityFile` is read as the current user's home directory, joined as
/// this platform joins paths.
pub fn parse_ssh_config(content: &str) -> (r: Result<Vec<SshHost>, String>)
    ensures
        r matches Ok(hosts) && exists|h: Option<Seq<char>>, w: bool|
            host_views(hosts@) == ssh_config_hosts(content@, h, w),
{
    let windows = windows_paths();
    let home = user_home();
    let hosts = match &home {
        Some(h) => parse_ssh_config_in(content, Some(h.as_str()), windows),
        None => parse_ssh_config_in(content, None, windows),
    };
    proof {
        let h = match home {
            Some(h) => Some(h@),
            None => None,
        };
        assert(host_views(hosts@) == ssh_config_hosts(content@, h, windows));
    }
    Ok(hosts)
}

} // verus!
