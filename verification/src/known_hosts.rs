//! `known_hosts` files: reading entries, matching host patterns, checking a
//! server key (trust on first use), and the line that records a new key.

use vstd::prelude::*;
use crate::base64::{
    b64_value, base64_decode, base64_encode, decode_spec, encode_spec, lemma_base64_roundtrip,
    lemma_encode_chars,
};
use crate::text::{
    chars_of, concat_chars, copy_range, decimal, decimal_text, find_in, first_in, in_class,
    is_digit, is_ws, lemma_decimal, lemma_first_in_concat, lemma_first_in_none, lemma_lines_append,
    lemma_parse_decimal, lemma_trim_noop, lines, parse_u16, parse_u16_range, range_eq, split_on,
    string_from_chars, trim, trim_range, CharClass,
};

verus! {

/// One entry of a `known_hosts` file, as the logic reads it.
pub struct KnownHostView {
    pub host_pattern: Seq<char>,
    pub key_type: Seq<char>,
    pub key_data: Seq<u8>,
}

/// A parsed `known_hosts` entry.
pub struct KnownHost {
    /// Host name, `[host]:port`, or a comma separated list of them.
    pub host_pattern: String,
    /// Key type marker, such as `ssh-ed25519`.
    pub key_type: String,
    /// Decoded public key blob.
    pub key_data: Vec<u8>,
}

impl View for KnownHost {
    type V = KnownHostView;

    open spec fn view(&self) -> KnownHostView {
        KnownHostView {
            host_pattern: self.host_pattern@,
            key_type: self.key_type@,
            key_data: self.key_data@,
        }
    }
}

/// The views of a sequence of entries.
pub open spec fn entry_views(v: Seq<KnownHost>) -> Seq<KnownHostView> {
    v.map_values(|e: KnownHost| e@)
}

// ---------------------------------------------------------------- reading

/// `s.splitn(3, ' ')` when it gives three pieces.
pub open spec fn split3(s: Seq<char>) -> Option<(Seq<char>, Seq<char>, Seq<char>)> {
    let i = first_in(s, CharClass::Space);
    if i >= s.len() {
        None
    } else {
        let t = s.skip(i + 1);
        let j = first_in(t, CharClass::Space);
        if j >= t.len() {
            None
        } else {
            Some((s.take(i), t.take(j), t.skip(j + 1)))
        }
    }
}

/// The entry a line holds: blank lines, comments, lines with fewer than three
/// fields and key blobs that are not base64 hold none; a leading `@marker`
/// field is skipped.
pub open spec fn entry_of_line(raw: Seq<char>) -> Option<KnownHostView> {
    let line = trim(raw);
    if line.len() == 0 || line[0] == '#' {
        None
    } else {
        let rest = if line[0] == '@' {
            match split3(line) {
                Some(parts) => Some(parts.2),
                None => None,
            }
        } else {
            Some(line)
        };
        match rest {
            None => None,
            Some(r) => match split3(r) {
                None => None,
                Some(parts) => match decode_spec(parts.2) {
                    Ok(data) => Some(
                        KnownHostView { host_pattern: parts.0, key_type: parts.1, key_data: data },
                    ),
                    Err(_) => None,
                },
            },
        }
    }
}

/// The entries that a sequence of lines holds, in order.
pub open spec fn entries_of_lines(ls: Seq<Seq<char>>) -> Seq<KnownHostView>
    decreases ls.len(),
{
    if ls.len() == 0 {
        seq![]
    } else {
        match entry_of_line(ls[0]) {
            Some(e) => seq![e] + entries_of_lines(ls.drop_first()),
            None => entries_of_lines(ls.drop_first()),
        }
    }
}

/// The entries of a `known_hosts` text.
pub open spec fn known_hosts_entries(content: Seq<char>) -> Seq<KnownHostView> {
    entries_of_lines(lines(content))
}

pub proof fn lemma_entries_of_lines_append(a: Seq<Seq<char>>, b: Seq<Seq<char>>)
    ensures
        entries_of_lines(a + b) == entries_of_lines(a) + entries_of_lines(b),
    decreases a.len(),
{
    if a.len() == 0 {
        assert(a + b =~= b);
    } else {
        assert((a + b).drop_first() =~= a.drop_first() + b);
        lemma_entries_of_lines_append(a.drop_first(), b);
        assert((a + b)[0] == a[0]);
        match entry_of_line(a[0]) {
            Some(e) => {
                assert(seq![e] + (entries_of_lines(a.drop_first()) + entries_of_lines(b))
                    =~= seq![e] + entries_of_lines(a.drop_first()) + entries_of_lines(b));
            },
            None => {},
        }
    }
}

/// Positions of the first two spaces of `v[lo..hi]`, when there are two.
fn split3_range(v: &[char], lo: usize, hi: usize) -> (r: Option<(usize, usize)>)
    requires
        lo <= hi <= v@.len(),
    ensures
        match split3(v@.subrange(lo as int, hi as int)) {
            None => r is None,
            Some(parts) => r matches Some(ij) && lo <= ij.0 && ij.0 < ij.1 && ij.1 < hi
                && parts.0 == v@.subrange(lo as int, ij.0 as int)
                && parts.1 == v@.subrange(ij.0 + 1, ij.1 as int)
                && parts.2 == v@.subrange(ij.1 + 1, hi as int),
        },
{
    let ghost s = v@.subrange(lo as int, hi as int);
    let i = find_in(v, lo, hi, CharClass::Space);
    if i == hi {
        return None;
    }
    let ghost t = s.skip(i - lo + 1);
    assert(t =~= v@.subrange(i + 1, hi as int));
    let j = find_in(v, i + 1, hi, CharClass::Space);
    if j == hi {
        return None;
    }
    assert(s.take(i - lo) =~= v@.subrange(lo as int, i as int));
    assert(t.take(j - i - 1) =~= v@.subrange(i + 1, j as int));
    assert(t.skip(j - i) =~= v@.subrange(j + 1, hi as int));
    Some((i, j))
}

/// The entry held by the line `v[lo..hi]`.
fn entry_in_range(v: &[char], lo: usize, hi: usize) -> (r: Option<KnownHost>)
    requires
        lo <= hi <= v@.len(),
    ensures
        match entry_of_line(v@.subrange(lo as int, hi as int)) {
            None => r is None,
            Some(e) => r matches Some(k) && k@ == e,
        },
{
    let (a, b) = trim_range(v, lo, hi);
    if a == b || v[a] == '#' {
        return None;
    }
    let ghost line = v@.subrange(a as int, b as int);
    assert(line[0] == v@[a as int]);
    let mut ra = a;
    if v[a] == '@' {
        match split3_range(v, a, b) {
            None => {
                return None;
            },
            Some(ij) => {
                ra = ij.1 + 1;
            },
        }
    }
    match split3_range(v, ra, b) {
        None => None,
        Some(ij) => {
            let pattern = string_from_chars(copy_range(v, ra, ij.0).as_slice());
            let key_type = string_from_chars(copy_range(v, ij.0 + 1, ij.1).as_slice());
            let data_text = string_from_chars(copy_range(v, ij.1 + 1, b).as_slice());
            match base64_decode(data_text.as_str()) {
                Ok(data) => Some(KnownHost { host_pattern: pattern, key_type, key_data: data }),
                Err(_) => None,
            }
        },
    }
}

/// Reads the entries of a `known_hosts` text, line by line, skipping lines
/// that hold none.
pub fn parse_known_hosts(content: &str) -> (entries: Vec<KnownHost>)
    ensures
        entry_views(entries@) == known_hosts_entries(content@),
{
    let v = chars_of(content);
    let n = v.len();
    let mut out: Vec<KnownHost> = Vec::new();
    let mut pos: usize = 0;
    assert(v@.skip(0) =~= v@);
    while pos < n
        invariant
            pos <= n,
            n == v@.len(),
            v@ == content@,
            entry_views(out@) + entries_of_lines(lines(v@.skip(pos as int)))
                == known_hosts_entries(content@),
        decreases n - pos,
    {
        let e = find_in(v.as_slice(), pos, n, CharClass::Newline);
        let ghost s = v@.skip(pos as int);
        assert(s =~= v@.subrange(pos as int, n as int));
        assert(s.take(e - pos) =~= v@.subrange(pos as int, e as int));
        let ghost ls = lines(s);
        let ghost first = if e < n { s.take(e - pos) } else { s };
        assert(ls[0] == first);
        assert(ls.drop_first() == (if e < n { lines(v@.skip(e + 1)) } else { seq![] })) by {
            if e < n {
                assert(s.skip(e - pos + 1) =~= v@.skip(e + 1));
            }
        }
        let ghost before = out@;
        let item = entry_in_range(v.as_slice(), pos, e);
        match item {
            Some(k) => {
                out.push(k);
                assert(entry_views(out@) =~= entry_views(before) + seq![k@]);
            },
            None => {},
        }
        if e < n {
            pos = e + 1;
        } else {
            pos = n;
            assert(lines(v@.skip(n as int)) =~= seq![]) by {
                assert(v@.skip(n as int) =~= Seq::<char>::empty());
            }
        }
        assert(entry_views(out@) + entries_of_lines(lines(v@.skip(pos as int)))
            == known_hosts_entries(content@)) by {
            assert(entries_of_lines(ls) == (match entry_of_line(ls[0]) {
                Some(x) => seq![x] + entries_of_lines(ls.drop_first()),
                None => entries_of_lines(ls.drop_first()),
            }));
            if item is Some {
                assert(entry_views(before) + entries_of_lines(ls) =~= entry_views(out@)
                    + entries_of_lines(ls.drop_first()));
            }
        }
    }
    assert(lines(v@.skip(pos as int)) =~= seq![]) by {
        assert(v@.skip(pos as int) =~= Seq::<char>::empty());
    }
    assert(entry_views(out@) =~= entry_views(out@) + Seq::<KnownHostView>::empty());
    out
}

// ---------------------------------------------------------------- matching

/// Index of the first `"]:"` in `s`, or `s.len()` when there is none.
pub open spec fn find_close(s: Seq<char>) -> int
    decreases s.len(),
{
    if s.len() < 2 {
        s.len() as int
    } else if s[0] == ']' && s[1] == ':' {
        0
    } else {
        1 + find_close(s.drop_first())
    }
}

proof fn lemma_find_close(s: Seq<char>)
    ensures
        0 <= find_close(s) <= s.len(),
        find_close(s) < s.len() ==> find_close(s) + 1 < s.len() && s[find_close(s)] == ']'
            && s[find_close(s) + 1] == ':',
        forall|j: int|
            0 <= j < find_close(s) && j + 1 < s.len() ==> !(#[trigger] s[j] == ']' && s[j + 1]
                == ':'),
    decreases s.len(),
{
    if s.len() >= 2 && !(s[0] == ']' && s[1] == ':') {
        let t = s.drop_first();
        lemma_find_close(t);
        assert forall|j: int|
            0 <= j < find_close(s) && j + 1 < s.len() implies !(#[trigger] s[j] == ']' && s[j
                + 1] == ':') by {
            if j > 0 {
                assert(s[j] == t[j - 1] && s[j + 1] == t[j]);
            }
        }
    }
}

proof fn lemma_find_close_unique(s: Seq<char>, k: int)
    requires
        0 <= k,
        k + 1 < s.len(),
        s[k] == ']' && s[k + 1] == ':',
        forall|j: int| 0 <= j < k ==> !(#[trigger] s[j] == ']' && s[j + 1] == ':'),
    ensures
        find_close(s) == k,
{
    lemma_find_close(s);
    let f = find_close(s);
    if f < k {
        assert(!(s[f] == ']' && s[f + 1] == ':'));
    }
    if k < f {
        assert(!(s[k] == ']' && s[k + 1] == ':'));
    }
}

/// Whether one (trimmed) pattern of an entry names `host` on `port`:
/// hashed patterns (`|...`) never match, `[host]:port` matches that host and
/// port, and a plain host name matches that host on port 22 only.
pub open spec fn piece_matches(pat: Seq<char>, host: Seq<char>, port: u16) -> bool {
    if pat.len() > 0 && pat[0] == '|' {
        false
    } else if pat.len() > 0 && pat[0] == '[' && find_close(pat) < pat.len() {
        let e = find_close(pat);
        match parse_u16(pat.subrange(e + 2, pat.len() as int)) {
            Some(p) => pat.subrange(1, e) == host && p == port,
            None => false,
        }
    } else {
        pat == host && port == 22
    }
}

/// Whether some piece of a comma separated list matches.
pub open spec fn any_piece_matches(pieces: Seq<Seq<char>>, host: Seq<char>, port: u16) -> bool
    decreases pieces.len(),
{
    pieces.len() > 0 && (piece_matches(trim(pieces[0]), host, port) || any_piece_matches(
        pieces.drop_first(),
        host,
        port,
    ))
}

/// Whether an entry's host pattern names `host` on `port`.
pub open spec fn host_matches_spec(pattern: Seq<char>, host: Seq<char>, port: u16) -> bool {
    any_piece_matches(split_on(pattern, CharClass::Comma), host, port)
}

fn find_close_range(v: &[char], lo: usize, hi: usize) -> (k: usize)
    requires
        lo <= hi <= v@.len(),
    ensures
        lo <= k <= hi,
        k - lo == find_close(v@.subrange(lo as int, hi as int)),
{
    let ghost s = v@.subrange(lo as int, hi as int);
    let mut k = lo;
    while hi - k > 1 && !(v[k] == ']' && v[k + 1] == ':')
        invariant
            lo <= k <= hi,
            hi <= v@.len(),
            s == v@.subrange(lo as int, hi as int),
            forall|j: int| 0 <= j < k - lo ==> !(#[trigger] s[j] == ']' && s[j + 1] == ':'),
        decreases hi - k,
    {
        assert(s[k - lo] == v@[k as int] && s[k - lo + 1] == v@[k + 1]);
        k = k + 1;
    }
    proof {
        lemma_find_close(s);
        if hi - k > 1 {
            assert(s[k - lo] == v@[k as int] && s[k - lo + 1] == v@[k + 1]);
            lemma_find_close_unique(s, k - lo);
        } else {
            let f = find_close(s);
            if f < s.len() {
                assert(f + 1 < s.len());
                assert(s[f] == ']' && s[f + 1] == ':');
                assert(f >= k - lo);
                assert(false);
            }
        }
    }
    if hi - k > 1 {
        k
    } else {
        hi
    }
}

fn piece_matches_range(v: &[char], lo: usize, hi: usize, host: &[char], port: u16) -> (r: bool)
    requires
        lo <= hi <= v@.len(),
    ensures
        r == piece_matches(v@.subrange(lo as int, hi as int), host@, port),
{
    let ghost pat = v@.subrange(lo as int, hi as int);
    if lo < hi && v[lo] == '|' {
        assert(pat[0] == v@[lo as int]);
        return false;
    }
    if lo < hi {
        assert(pat[0] == v@[lo as int]);
    }
    let e = find_close_range(v, lo, hi);
    if lo < hi && v[lo] == '[' && e < hi {
        proof {
            lemma_find_close(pat);
        }
        assert(v@.subrange(e + 2, hi as int) =~= pat.subrange(e - lo + 2, pat.len() as int));
        assert(v@.subrange(lo + 1, e as int) =~= pat.subrange(1, e - lo));
        match parse_u16_range(v, e + 2, hi) {
            Some(p) => range_eq(v, lo + 1, e, host) && p == port,
            None => false,
        }
    } else {
        range_eq(v, lo, hi, host) && port == 22
    }
}

/// Whether the host pattern of a `known_hosts` entry names `host` on `port`.
pub fn host_matches(pattern: &str, host: &str, port: u16) -> (r: bool)
    ensures
        r == host_matches_spec(pattern@, host@, port),
{
    let v = chars_of(pattern);
    let h = chars_of(host);
    let n = v.len();
    let mut pos: usize = 0;
    assert(v@.skip(0) =~= v@);
    loop
        invariant
            pos <= n,
            n == v@.len(),
            v@ == pattern@,
            h@ == host@,
            host_matches_spec(pattern@, host@, port) == any_piece_matches(
                split_on(v@.skip(pos as int), CharClass::Comma),
                host@,
                port,
            ),
        decreases n - pos,
    {
        let k = find_in(v.as_slice(), pos, n, CharClass::Comma);
        let ghost s = v@.skip(pos as int);
        let ghost ps = split_on(s, CharClass::Comma);
        assert(s =~= v@.subrange(pos as int, n as int));
        let (a, b) = trim_range(v.as_slice(), pos, k);
        assert(ps[0] == v@.subrange(pos as int, k as int)) by {
            assert(s.take(k - pos) =~= v@.subrange(pos as int, k as int));
        }
        let here = piece_matches_range(v.as_slice(), a, b, h.as_slice(), port);
        assert(any_piece_matches(ps, host@, port) == (here || any_piece_matches(
            ps.drop_first(),
            host@,
            port,
        )));
        if here {
            return true;
        }
        if k == n {
            assert(ps.drop_first() =~= Seq::<Seq<char>>::empty());
            return false;
        }
        assert(ps.drop_first() == split_on(v@.skip(k + 1), CharClass::Comma)) by {
            assert(s.skip(k - pos + 1) =~= v@.skip(k + 1));
        }
        pos = k + 1;
    }
}

// ---------------------------------------------------------------- checking

/// Whether some entry's pattern names `host` on `port`.
pub open spec fn names_host(entries: Seq<KnownHostView>, host: Seq<char>, port: u16) -> bool {
    exists|i: int| 0 <= i < entries.len() && host_matches_spec(#[trigger] entries[i].host_pattern, host, port)
}

/// Whether some entry that names `host` on `port` holds this key type and blob.
pub open spec fn holds_key(
    entries: Seq<KnownHostView>,
    host: Seq<char>,
    port: u16,
    key_type: Seq<char>,
    key_data: Seq<u8>,
) -> bool {
    exists|i: int|
        0 <= i < entries.len() && host_matches_spec(#[trigger] entries[i].host_pattern, host, port)
            && entries[i].key_type == key_type && entries[i].key_data == key_data
}

/// The error text for a server key that differs from the recorded one.
pub open spec fn mismatch_message(host: Seq<char>, port: u16) -> Seq<char> {
    "HOST KEY MISMATCH for "@ + host + seq![':'] + decimal(port as nat)
        + " \u{2014} possible man-in-the-middle attack! Remove the old entry from ~/.ssh/known_hosts if this is expected."@
}

/// The verdict on a server key: `Ok(true)` when an entry naming the host
/// holds this key type and blob, the mismatch error when entries name the
/// host but none of them holds it, `Ok(false)` when no entry names the host.
pub open spec fn host_key_verdict(
    entries: Seq<KnownHostView>,
    host: Seq<char>,
    port: u16,
    key_type: Seq<char>,
    key_data: Seq<u8>,
) -> Result<bool, Seq<char>> {
    if holds_key(entries, host, port, key_type, key_data) {
        Ok(true)
    } else if names_host(entries, host, port) {
        Err(mismatch_message(host, port))
    } else {
        Ok(false)
    }
}

fn bytes_eq(a: &[u8], b: &[u8]) -> (r: bool)
    ensures
        r == (a@ == b@),
{
    if a.len() != b.len() {
        return false;
    }
    let mut i: usize = 0;
    while i < a.len()
        invariant
            a@.len() == b@.len(),
            i <= a@.len(),
            forall|j: int| 0 <= j < i ==> a@[j] == b@[j],
        decreases a@.len() - i,
    {
        if a[i] != b[i] {
            return false;
        }
        i = i + 1;
    }
    assert(a@ =~= b@);
    true
}

fn mismatch_error(host: &str, port: u16) -> (msg: String)
    ensures
        msg@ == mismatch_message(host@, port),
{
    let mut v = chars_of("HOST KEY MISMATCH for ");
    let h = chars_of(host);
    concat_chars(&mut v, h.as_slice());
    v.push(':');
    let d = decimal_text(port as u64);
    concat_chars(&mut v, d.as_slice());
    let tail = chars_of(
        " \u{2014} possible man-in-the-middle attack! Remove the old entry from ~/.ssh/known_hosts if this is expected.",
    );
    concat_chars(&mut v, tail.as_slice());
    assert(v@ =~= mismatch_message(host@, port));
    string_from_chars(v.as_slice())
}

/// Checks a server key against parsed entries: accepted when an entry
/// naming the host holds it, refused when entries name the host but none
/// holds it, unknown when no entry names the host.
pub fn check_host_key(
    entries: &[KnownHost],
    host: &str,
    port: u16,
    key_type: &str,
    key_data: &[u8],
) -> (r: Result<bool, String>)
    ensures
        match host_key_verdict(entry_views(entries@), host@, port, key_type@, key_data@) {
            Ok(b) => r == Ok::<bool, String>(b),
            Err(m) => r is Err && r->Err_0@ == m,
        },
{
    let ghost all = entry_views(entries@);
    let kt = chars_of(key_type);
    let mut named = false;
    let mut i: usize = 0;
    while i < entries.len()
        invariant
            i <= entries@.len(),
            all == entry_views(entries@),
            all.len() == entries@.len(),
            kt@ == key_type@,
            named == exists|j: int| 0 <= j < i && host_matches_spec(#[trigger] all[j].host_pattern, host@, port),
            forall|j: int|
                0 <= j < i && host_matches_spec(#[trigger] all[j].host_pattern, host@, port) ==> !(
                all[j].key_type == key_type@ && all[j].key_data == key_data@),
        decreases entries@.len() - i,
    {
        let entry = &entries[i];
        assert(all[i as int] == entry@);
        let ghost old_named = named;
        let m = host_matches(entry.host_pattern.as_str(), host, port);
        if m {
            let et = chars_of(entry.key_type.as_str());
            let same = range_eq(et.as_slice(), 0, et.len(), kt.as_slice()) && bytes_eq(
                entry.key_data.as_slice(),
                key_data,
            );
            assert(et@.subrange(0, et@.len() as int) =~= et@);
            if same {
                assert(holds_key(all, host@, port, key_type@, key_data@)) by {
                    assert(host_matches_spec(all[i as int].host_pattern, host@, port));
                }
                return Ok(true);
            }
            named = true;
        }
        proof {
            if m {
                assert(host_matches_spec(all[i as int].host_pattern, host@, port));
            } else {
                assert forall|j: int|
                    0 <= j < i + 1 && host_matches_spec(#[trigger] all[j].host_pattern, host@, port)
                        implies j < i by {}
            }
        }
        i = i + 1;
    }
    assert(!holds_key(all, host@, port, key_type@, key_data@));
    if named {
        Err(mismatch_error(host, port))
    } else {
        Ok(false)
    }
}

/// Checks the key a server presents against the text of a `known_hosts` file
/// (empty when there is no such file): `Ok(true)` when an entry naming
/// `host` on `port` holds this key, the mismatch error when entries name the
/// host but none holds it, and `Ok(false)` when no entry names the host (a
/// first connection).
pub fn verify_host_key(
    known_hosts: &str,
    host: &str,
    port: u16,
    key_type: &str,
    key_data: &[u8],
) -> (r: Result<bool, String>)
    ensures
        match host_key_verdict(
            known_hosts_entries(known_hosts@),
            host@,
            port,
            key_type@,
            key_data@,
        ) {
            Ok(b) => r == Ok::<bool, String>(b),
            Err(m) => r is Err && r->Err_0@ == m,
        },
{
    let entries = parse_known_hosts(known_hosts);
    check_host_key(entries.as_slice(), host, port, key_type, key_data)
}

// ---------------------------------------------------------------- recording

/// How a new entry names the host: the bare name on port 22, `[host]:port`
/// on any other port.
pub open spec fn host_pattern_for(host: Seq<char>, port: u16) -> Seq<char> {
    if port == 22 {
        host
    } else {
        seq!['['] + host + seq![']', ':'] + decimal(port as nat)
    }
}

/// The line that records a key: pattern, key type and base64 blob, separated
/// by single spaces and ended by a newline.
pub open spec fn known_hosts_line_spec(
    host: Seq<char>,
    port: u16,
    key_type: Seq<char>,
    key_data: Seq<u8>,
) -> Seq<char> {
    host_pattern_for(host, port) + seq![' '] + key_type + seq![' '] + encode_spec(key_data)
        + seq!['\n']
}

/// The line to append to `known_hosts` to trust `key_type`/`key_data` for
/// `host` on `port`.
pub fn known_hosts_line(host: &str, port: u16, key_type: &str, key_data: &[u8]) -> (r: String)
    ensures
        r@ == known_hosts_line_spec(host@, port, key_type@, key_data@),
{
    let h = chars_of(host);
    let mut v: Vec<char> = Vec::new();
    if port == 22 {
        concat_chars(&mut v, h.as_slice());
    } else {
        v.push('[');
        concat_chars(&mut v, h.as_slice());
        v.push(']');
        v.push(':');
        let d = decimal_text(port as u64);
        concat_chars(&mut v, d.as_slice());
    }
    assert(v@ =~= host_pattern_for(host@, port));
    v.push(' ');
    let kt = chars_of(key_type);
    concat_chars(&mut v, kt.as_slice());
    v.push(' ');
    let enc = base64_encode(key_data);
    let ec = chars_of(enc.as_str());
    concat_chars(&mut v, ec.as_slice());
    v.push('\n');
    assert(v@ =~= known_hosts_line_spec(host@, port, key_type@, key_data@));
    string_from_chars(v.as_slice())
}

// ---------------------------------------------------------------- trust on first use

/// A host name that a recorded line names unambiguously: not empty, with no
/// white space or `,`; without `]:` where it stands in brackets (any port
/// but 22) or starts with `[`; and, standing bare on port 22, not starting
/// like a comment, a marker or a hashed name.
pub open spec fn recordable_host(host: Seq<char>, port: u16) -> bool {
    &&& host.len() > 0
    &&& forall|i: int| 0 <= i < host.len() ==> !is_ws(#[trigger] host[i]) && host[i] != ','
    &&& (port != 22 || host[0] == '[') ==> forall|i: int|
        0 <= i && i + 1 < host.len() ==> !(#[trigger] host[i] == ']' && host[i + 1] == ':')
    &&& port == 22 ==> host[0] != '#' && host[0] != '@' && host[0] != '|'
}

/// A key type with no white space in it.
pub open spec fn recordable_key_type(key_type: Seq<char>) -> bool {
    forall|i: int| 0 <= i < key_type.len() ==> !is_ws(#[trigger] key_type[i])
}

proof fn lemma_alphabet_not_ws(c: char)
    requires
        b64_value(c) is Some || c == '=',
    ensures
        !is_ws(c),
        c != ',',
{
}

proof fn lemma_pattern_facts(host: Seq<char>, port: u16)
    requires
        recordable_host(host, port),
    ensures
        ({
            let p = host_pattern_for(host, port);
            &&& p.len() > 0
            &&& forall|i: int| 0 <= i < p.len() ==> !is_ws(#[trigger] p[i]) && p[i] != ','
            &&& p[0] != '#' && p[0] != '@'
            &&& host_matches_spec(p, host, port)
        }),
{
    let p = host_pattern_for(host, port);
    if port == 22 {
        assert(forall|i: int| 0 <= i < p.len() ==> !is_ws(#[trigger] p[i]) && p[i] != ',');
        lemma_find_close(host);
        if host[0] == '[' && find_close(host) < host.len() {
            let f = find_close(host);
            assert(host[f] == ']' && host[f + 1] == ':');
        }
        assert(piece_matches(p, host, port));
    } else {
        let d = decimal(port as nat);
        lemma_decimal(d.len() as nat);
        lemma_decimal(port as nat);
        assert(p == seq!['['] + host + seq![']', ':'] + d);
        assert forall|i: int| 0 <= i < p.len() implies !is_ws(#[trigger] p[i]) && p[i] != ',' by {
            if 1 <= i < 1 + host.len() {
                assert(p[i] == host[i - 1]);
            } else if i >= 3 + host.len() {
                assert(p[i] == d[i - 3 - host.len()]);
                assert(is_digit(d[i - 3 - host.len()]));
            }
        }
        let e: int = 1 + host.len() as int;
        assert(p[e] == ']' && p[e + 1] == ':');
        assert forall|j: int| 0 <= j < e implies !(#[trigger] p[j] == ']' && p[j + 1] == ':') by {
            if j >= 1 {
                assert(p[j] == host[j - 1]);
                if j < host.len() {
                    assert(p[j + 1] == host[j]);
                    assert(!(host[j - 1] == ']' && host[j] == ':'));
                } else {
                    assert(p[j + 1] == ']');
                }
            }
        }
        lemma_find_close_unique(p, e);
        assert(p.subrange(e + 2, p.len() as int) =~= d);
        assert(p.subrange(1, e) =~= host);
        lemma_parse_decimal(port);
        assert(piece_matches(p, host, port));
    }
    lemma_trim_noop(p);
    lemma_first_in_none(p, CharClass::Comma);
    let ps = split_on(p, CharClass::Comma);
    assert(ps == seq![p]);
    assert(any_piece_matches(ps, host, port));
}

proof fn lemma_recorded_entry(host: Seq<char>, port: u16, key_type: Seq<char>, key_data: Seq<u8>)
    requires
        recordable_host(host, port),
        recordable_key_type(key_type),
        key_data.len() > 0,
    ensures
        ({
            let line = known_hosts_line_spec(host, port, key_type, key_data);
            let e = KnownHostView {
                host_pattern: host_pattern_for(host, port),
                key_type,
                key_data,
            };
            &&& lines(line) == seq![line.drop_last()]
            &&& entry_of_line(line.drop_last()) == Some(e)
            &&& host_matches_spec(e.host_pattern, host, port)
        }),
{
    let p = host_pattern_for(host, port);
    let enc = encode_spec(key_data);
    let line = known_hosts_line_spec(host, port, key_type, key_data);
    let t = p + seq![' '] + key_type + seq![' '] + enc;
    lemma_pattern_facts(host, port);
    lemma_encode_chars(key_data);
    lemma_base64_roundtrip(key_data);
    assert(line == t + seq!['\n']);
    assert(line.drop_last() =~= t);
    assert forall|i: int| 0 <= i < t.len() implies !is_ws(#[trigger] t[i]) || t[i] == ' ' by {
        if i < p.len() {
            assert(t[i] == p[i]);
        } else if p.len() < i < p.len() + 1 + key_type.len() {
            assert(t[i] == key_type[i - p.len() - 1]);
        } else if i > p.len() + 1 + key_type.len() {
            let k = i - p.len() - 2 - key_type.len();
            assert(t[i] == enc[k]);
            lemma_alphabet_not_ws(enc[k]);
        }
    }
    // the line has no newline before its end
    lemma_first_in_concat(t, seq!['\n'], CharClass::Newline);
    assert(line.take(t.len() as int) =~= t);
    assert(line.skip(t.len() as int + 1) =~= Seq::<char>::empty());
    assert(lines(line.skip(t.len() as int + 1)) =~= seq![]);
    assert(lines(line) =~= seq![t]);
    // trimming keeps it
    assert(t[0] == p[0]);
    assert(t.last() == enc.last());
    lemma_alphabet_not_ws(enc.last());
    lemma_trim_noop(t);
    // the three fields
    assert forall|i: int| 0 <= i < p.len() implies !in_class(CharClass::Space, #[trigger] p[i]) by {}
    lemma_first_in_concat(p, seq![' '] + key_type + seq![' '] + enc, CharClass::Space);
    assert(t =~= p + (seq![' '] + key_type + seq![' '] + enc));
    let rest = t.skip(p.len() as int + 1);
    assert(rest =~= key_type + (seq![' '] + enc));
    assert forall|i: int| 0 <= i < key_type.len() implies !in_class(
        CharClass::Space,
        #[trigger] key_type[i],
    ) by {}
    lemma_first_in_concat(key_type, seq![' '] + enc, CharClass::Space);
    assert(t.take(p.len() as int) =~= p);
    assert(rest.take(key_type.len() as int) =~= key_type);
    assert(rest.skip(key_type.len() as int + 1) =~= enc);
    assert(split3(t) == Some((p, key_type, enc)));
}

/// The entries of a file after the line for a key is appended: those it had,
/// then the recorded entry, which names the host.
proof fn lemma_recorded_entries(
    content: Seq<char>,
    host: Seq<char>,
    port: u16,
    key_type: Seq<char>,
    key_data: Seq<u8>,
)
    requires
        content.len() == 0 || content.last() == '\n',
        recordable_host(host, port),
        recordable_key_type(key_type),
        key_data.len() > 0,
    ensures
        known_hosts_entries(content + known_hosts_line_spec(host, port, key_type, key_data))
            == known_hosts_entries(content) + seq![
            KnownHostView { host_pattern: host_pattern_for(host, port), key_type, key_data },
        ],
        host_matches_spec(host_pattern_for(host, port), host, port),
{
    let line = known_hosts_line_spec(host, port, key_type, key_data);
    let e = KnownHostView { host_pattern: host_pattern_for(host, port), key_type, key_data };
    lemma_recorded_entry(host, port, key_type, key_data);
    lemma_lines_append(content, line);
    lemma_entries_of_lines_append(lines(content), lines(line));
    let one = seq![line.drop_last()];
    assert(one.drop_first() =~= Seq::<Seq<char>>::empty());
    assert(entries_of_lines(one.drop_first()) =~= seq![]);
    assert(one[0] == line.drop_last());
    assert(entries_of_lines(one) =~= seq![e]);
}

/// Trust on first use: once the line for a key is appended to a file, checking
/// that same key for that host gives `Ok(true)`.
pub proof fn lemma_recorded_key_verifies(
    content: Seq<char>,
    host: Seq<char>,
    port: u16,
    key_type: Seq<char>,
    key_data: Seq<u8>,
)
    requires
        content.len() == 0 || content.last() == '\n',
        recordable_host(host, port),
        recordable_key_type(key_type),
        key_data.len() > 0,
    ensures
        host_key_verdict(
            known_hosts_entries(content + known_hosts_line_spec(host, port, key_type, key_data)),
            host,
            port,
            key_type,
            key_data,
        ) == Ok::<bool, Seq<char>>(true),
{
    lemma_recorded_entries(content, host, port, key_type, key_data);
    let all = known_hosts_entries(content + known_hosts_line_spec(host, port, key_type, key_data));
    let n = known_hosts_entries(content).len() as int;
    assert(all[n].host_pattern == host_pattern_for(host, port));
    assert(holds_key(all, host, port, key_type, key_data));
}

/// Once a key is recorded for a host that no entry named, any other key
/// type or blob presented for that host is refused with the mismatch error.
pub proof fn lemma_recorded_key_rejects_other(
    content: Seq<char>,
    host: Seq<char>,
    port: u16,
    key_type: Seq<char>,
    key_data: Seq<u8>,
    other_type: Seq<char>,
    other_data: Seq<u8>,
)
    requires
        content.len() == 0 || content.last() == '\n',
        !names_host(known_hosts_entries(content), host, port),
        recordable_host(host, port),
        recordable_key_type(key_type),
        key_data.len() > 0,
        other_type != key_type || other_data != key_data,
    ensures
        host_key_verdict(
            known_hosts_entries(content + known_hosts_line_spec(host, port, key_type, key_data)),
            host,
            port,
            other_type,
            other_data,
        ) == Err::<bool, Seq<char>>(mismatch_message(host, port)),
{
    lemma_recorded_entries(content, host, port, key_type, key_data);
    let before = known_hosts_entries(content);
    let all = known_hosts_entries(content + known_hosts_line_spec(host, port, key_type, key_data));
    let n = before.len() as int;
    assert(all[n].host_pattern == host_pattern_for(host, port));
    assert(names_host(all, host, port));
    assert forall|i: int|
        0 <= i < all.len() && host_matches_spec(#[trigger] all[i].host_pattern, host, port) implies !(
        all[i].key_type == other_type && all[i].key_data == other_data) by {
        if i < n {
            assert(all[i] == before[i]);
            assert(host_matches_spec(before[i].host_pattern, host, port));
        }
    }
}

} // verus!
