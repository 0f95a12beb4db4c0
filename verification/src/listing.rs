//! Directory listings: the entry record, its derived fields (hidden flag,
//! extension, size), permission strings, and the order entries are shown in.

use vstd::prelude::*;
use crate::text::{chars_of, lowercase, string_from_chars, to_lowercase, copy_range};

verus! {

/// One entry of a directory listing.
pub struct FileInfo {
    pub name: String,
    pub is_dir: bool,
    pub size: u64,
    pub modified: Option<String>,
    pub extension: String,
    pub is_hidden: bool,
    pub is_symlink: bool,
    pub permissions: String,
}

/// A listing entry as the logic reads it.
pub struct FileInfoView {
    pub name: Seq<char>,
    pub is_dir: bool,
    pub size: u64,
    pub modified: Option<Seq<char>>,
    pub extension: Seq<char>,
    pub is_hidden: bool,
    pub is_symlink: bool,
    pub permissions: Seq<char>,
}

impl View for FileInfo {
    type V = FileInfoView;

    open spec fn view(&self) -> FileInfoView {
        FileInfoView {
            name: self.name@,
            is_dir: self.is_dir,
            size: self.size,
            modified: match self.modified {
                Some(m) => Some(m@),
                None => None,
            },
            extension: self.extension@,
            is_hidden: self.is_hidden,
            is_symlink: self.is_symlink,
            permissions: self.permissions@,
        }
    }
}

/// The views of a sequence of entries.
pub open spec fn info_views(v: Seq<FileInfo>) -> Seq<FileInfoView> {
    v.map_values(|f: FileInfo| f@)
}

// ---------------------------------------------------------------- entries

/// Index of the last `c` in `s`, or -1.
pub open spec fn last_index(s: Seq<char>, c: char) -> int
    decreases s.len(),
{
    if s.len() == 0 {
        -1
    } else if s.last() == c {
        s.len() - 1
    } else {
        last_index(s.drop_last(), c)
    }
}

pub proof fn lemma_last_index(s: Seq<char>, c: char)
    ensures
        -1 <= last_index(s, c) < s.len(),
        last_index(s, c) >= 0 ==> s[last_index(s, c)] == c,
        forall|j: int| last_index(s, c) < j < s.len() ==> #[trigger] s[j] != c,
    decreases s.len(),
{
    if s.len() > 0 && s.last() != c {
        lemma_last_index(s.drop_last(), c);
        assert forall|j: int| last_index(s, c) < j < s.len() implies #[trigger] s[j] != c by {
            if j < s.len() - 1 {
                assert(s[j] == s.drop_last()[j]);
            }
        }
    }
}

/// The index of the last `c` in `v[..end]`.
fn find_last(v: &[char], end: usize, c: char) -> (d: Option<usize>)
    requires
        end <= v@.len(),
    ensures
        match d {
            Some(i) => last_index(v@.take(end as int), c) == i && i < end,
            None => last_index(v@.take(end as int), c) == -1,
        },
{
    proof {
        lemma_last_index(v@.take(end as int), c);
    }
    let mut k = end;
    while k > 0 && v[k - 1] != c
        invariant
            k <= end <= v@.len(),
            last_index(v@.take(end as int), c) == last_index(v@.take(k as int), c),
        decreases k,
    {
        assert(v@.take(k as int).drop_last() =~= v@.take(k - 1));
        k = k - 1;
    }
    if k == 0 {
        assert(v@.take(0) =~= Seq::<char>::empty());
        None
    } else {
        assert(v@.take(k as int).last() == v@[k - 1]);
        Some(k - 1)
    }
}

/// The last component of a `/`-separated path, as `Path::file_name` finds
/// it: trailing separators and `.` components are passed over, and a path
/// that ends in `..` or has no component has none.
pub open spec fn file_name_of(s: Seq<char>) -> Option<Seq<char>>
    decreases s.len(),
{
    if s.len() == 0 {
        None
    } else if s.last() == '/' {
        file_name_of(s.drop_last())
    } else {
        let k = last_index(s, '/');
        let seg = s.skip(k + 1);
        if seg == seq!['.'] {
            proof {
                lemma_last_index(s, '/');
            }
            file_name_of(s.take(k + 1))
        } else if seg == seq!['.', '.'] {
            None
        } else {
            Some(seg)
        }
    }
}

/// The extension of a path, as `Path::extension` gives it: the text after
/// the last dot of its last component, unless that component has no dot or
/// has its only dot in front.
pub open spec fn extension_of(name: Seq<char>) -> Option<Seq<char>> {
    match file_name_of(name) {
        None => None,
        Some(f) => {
            let d = last_index(f, '.');
            if d <= 0 {
                None
            } else {
                Some(f.skip(d + 1))
            }
        },
    }
}

/// The bounds of the last component of `v[..end]` (see `file_name_of`).
fn file_name_range(v: &[char], end: usize) -> (r: Option<(usize, usize)>)
    requires
        end <= v@.len(),
    ensures
        match file_name_of(v@.take(end as int)) {
            None => r is None,
            Some(f) => r matches Some(ab) && ab.0 <= ab.1 <= end && f == v@.subrange(
                ab.0 as int,
                ab.1 as int,
            ),
        },
    decreases end,
{
    if end == 0 {
        return None;
    }
    let ghost s = v@.take(end as int);
    if v[end - 1] == '/' {
        assert(s.drop_last() =~= v@.take(end - 1));
        return file_name_range(v, end - 1);
    }
    let start = match find_last(v, end, '/') {
        Some(k) => k + 1,
        None => 0,
    };
    proof {
        lemma_last_index(s, '/');
    }
    assert(s.skip(last_index(s, '/') + 1) =~= v@.subrange(start as int, end as int));
    let is_dot = end - start == 1 && v[start] == '.';
    let is_dot_dot = end - start == 2 && v[start] == '.' && v[start + 1] == '.';
    let ghost seg = v@.subrange(start as int, end as int);
    proof {
        if is_dot {
            assert(seg =~= seq!['.']);
        }
        if is_dot_dot {
            assert(seg =~= seq!['.', '.']);
        }
        if seg == seq!['.'] {
            assert(seg.len() == 1 && seg[0] == v@[start as int]);
        }
        if seg == seq!['.', '.'] {
            assert(seg.len() == 2 && seg[0] == v@[start as int] && seg[1] == v@[start + 1]);
        }
    }
    assert(s.last() == v@[end - 1]);
    if is_dot {
        assert(s.take(start as int) =~= v@.take(start as int));
        return file_name_range(v, start);
    }
    if is_dot_dot {
        return None;
    }
    Some((start, end))
}

/// The lower-cased extension that a listing shows for an entry: nothing
/// for directories and names without an extension.
pub open spec fn shown_extension(name: Seq<char>, is_dir: bool) -> Seq<char> {
    if is_dir {
        seq![]
    } else {
        match extension_of(name) {
            Some(e) => lowercase(e),
            None => seq![],
        }
    }
}

/// The listing entry for a directory entry.
pub open spec fn entry_view(
    name: Seq<char>,
    is_dir: bool,
    len: u64,
    modified: Option<Seq<char>>,
    is_symlink: bool,
    permissions: Seq<char>,
) -> FileInfoView {
    FileInfoView {
        name,
        is_dir,
        size: if is_dir {
            0
        } else {
            len
        },
        modified,
        extension: shown_extension(name, is_dir),
        is_hidden: name.len() > 0 && name[0] == '.',
        is_symlink,
        permissions,
    }
}

/// Builds the listing entry for a directory entry: hidden when its name
/// starts with a dot, size 0 for directories, and the lower-cased extension
/// of files.
pub fn entry_info(
    name: String,
    is_dir: bool,
    len: u64,
    modified: Option<String>,
    is_symlink: bool,
    permissions: String,
) -> (r: FileInfo)
    ensures
        r@ == entry_view(
            name@,
            is_dir,
            len,
            match modified {
                Some(m) => Some(m@),
                None => None,
            },
            is_symlink,
            permissions@,
        ),
{
    let v = chars_of(name.as_str());
    let is_hidden = v.len() > 0 && v[0] == '.';
    let empty: Vec<char> = Vec::new();
    let extension = if is_dir {
        string_from_chars(empty.as_slice())
    } else {
        match file_name_range(v.as_slice(), v.len()) {
            None => {
                assert(v@.take(v@.len() as int) =~= v@);
                string_from_chars(empty.as_slice())
            },
            Some(ab) => {
                assert(v@.take(v@.len() as int) =~= v@);
                let f = copy_range(v.as_slice(), ab.0, ab.1);
                match find_last(f.as_slice(), f.len(), '.') {
                    Some(d) if d > 0 => {
                        assert(f@.take(f@.len() as int) =~= f@);
                        let ext = string_from_chars(copy_range(f.as_slice(), d + 1, f.len()).as_slice());
                        assert(f@.subrange(d + 1, f@.len() as int) =~= f@.skip(d + 1));
                        to_lowercase(ext.as_str())
                    },
                    _ => {
                        assert(f@.take(f@.len() as int) =~= f@);
                        string_from_chars(empty.as_slice())
                    },
                }
            },
        }
    };
    proof {
        if v@.len() > 0 {
            assert(name@[0] == v@[0]);
        }
    }
    FileInfo {
        name,
        is_dir,
        size: if is_dir {
            0
        } else {
            len
        },
        modified,
        extension,
        is_hidden,
        is_symlink,
        permissions,
    }
}

/// Whether a remote directory entry is listed: empty names and `.` are not.
pub fn keep_remote_entry(name: &str) -> (r: bool)
    ensures
        r == !(name@.len() == 0 || name@ == seq!['.']),
{
    let v = chars_of(name);
    let r = !(v.len() == 0 || (v.len() == 1 && v[0] == '.'));
    proof {
        if v@.len() == 1 && v@[0] == '.' {
            assert(v@ =~= seq!['.']);
        }
        if v@ == seq!['.'] {
            assert(v@.len() == 1);
        }
    }
    r
}

// ---------------------------------------------------------------- order

/// `a < b` for strings, as `Ord for str` compares them: by code points, a
/// proper prefix first.
pub open spec fn lex_lt(a: Seq<char>, b: Seq<char>) -> bool
    decreases a.len(),
{
    if a.len() == 0 {
        b.len() > 0
    } else if b.len() == 0 {
        false
    } else if a[0] != b[0] {
        (a[0] as u32) < (b[0] as u32)
    } else {
        lex_lt(a.drop_first(), b.drop_first())
    }
}

/// `a` comes before `b` in the order of `str`: at the first position where
/// they differ `a` has the smaller character, or `a` is a proper prefix of
/// `b`.
pub open spec fn differs_first_smaller(a: Seq<char>, b: Seq<char>) -> bool {
    ||| exists|i: int|
        0 <= i < a.len() && i < b.len() && a.take(i) == b.take(i) && (#[trigger] a[i] as u32) < (
        b[i] as u32)
    ||| (a.len() < b.len() && b.take(a.len() as int) == a)
}

/// `lex_lt` is the order of `str`: decided at the first differing character,
/// with a proper prefix first.
pub proof fn lemma_lex_lt_is_str_order(a: Seq<char>, b: Seq<char>)
    ensures
        lex_lt(a, b) <==> differs_first_smaller(a, b),
    decreases a.len(),
{
    if a.len() == 0 {
        if b.len() > 0 {
            assert(b.take(0) =~= a);
        }
    } else if b.len() == 0 {
    } else {
        let a1 = a.drop_first();
        let b1 = b.drop_first();
        lemma_lex_lt_is_str_order(a1, b1);
        if a[0] != b[0] {
            if (a[0] as u32) < (b[0] as u32) {
                assert(a.take(0) =~= b.take(0));
            }
            if differs_first_smaller(a, b) {
                if exists|i: int|
                    0 <= i < a.len() && i < b.len() && a.take(i) == b.take(i) && (
                    #[trigger] a[i] as u32) < (b[i] as u32) {
                    let i = choose|i: int|
                        0 <= i < a.len() && i < b.len() && a.take(i) == b.take(i) && (
                        #[trigger] a[i] as u32) < (b[i] as u32);
                    if i > 0 {
                        assert(a.take(i)[0] == b.take(i)[0]);
                    }
                } else {
                    assert(b.take(a.len() as int)[0] == a[0]);
                }
            }
        } else {
            // the first characters agree: both sides move one step on
            if differs_first_smaller(a1, b1) {
                if exists|i: int|
                    0 <= i < a1.len() && i < b1.len() && a1.take(i) == b1.take(i) && (
                    #[trigger] a1[i] as u32) < (b1[i] as u32) {
                    let i = choose|i: int|
                        0 <= i < a1.len() && i < b1.len() && a1.take(i) == b1.take(i) && (
                        #[trigger] a1[i] as u32) < (b1[i] as u32);
                    assert(a.take(i + 1) =~= seq![a[0]] + a1.take(i));
                    assert(b.take(i + 1) =~= seq![b[0]] + b1.take(i));
                    assert(a[i + 1] == a1[i]);
                    assert(b[i + 1] == b1[i]);
                } else {
                    assert(b.take(a.len() as int) =~= seq![b[0]] + b1.take(a1.len() as int));
                    assert(a =~= seq![a[0]] + a1);
                }
            }
            if differs_first_smaller(a, b) {
                if exists|i: int|
                    0 <= i < a.len() && i < b.len() && a.take(i) == b.take(i) && (
                    #[trigger] a[i] as u32) < (b[i] as u32) {
                    let i = choose|i: int|
                        0 <= i < a.len() && i < b.len() && a.take(i) == b.take(i) && (
                        #[trigger] a[i] as u32) < (b[i] as u32);
                    assert(i > 0);
                    assert(a1.take(i - 1) =~= a.take(i).drop_first());
                    assert(b1.take(i - 1) =~= b.take(i).drop_first());
                    assert(a1[i - 1] == a[i]);
                    assert(b1[i - 1] == b[i]);
                } else {
                    assert(b1.take(a1.len() as int) =~= b.take(a.len() as int).drop_first());
                    assert(a1 =~= a.drop_first());
                }
            }
        }
    }
}

/// Whether `a` is shown before `b`: directories before files, then by
/// lower-cased name.
pub open spec fn listed_before(a: FileInfoView, b: FileInfoView) -> bool {
    ||| (a.is_dir && !b.is_dir)
    ||| (a.is_dir == b.is_dir && lex_lt(lowercase(a.name), lowercase(b.name)))
}

/// Where `x` goes into a listing shown in order: after every entry not
/// shown after it.
pub open spec fn insert_pos(s: Seq<FileInfoView>, x: FileInfoView) -> int
    decreases s.len(),
{
    if s.len() == 0 {
        0
    } else if listed_before(x, s[0]) {
        0
    } else {
        1 + insert_pos(s.drop_first(), x)
    }
}

/// The entries in the order a listing shows them; entries that compare
/// equal keep their relative order (a stable sort).
pub open spec fn sort_entries(s: Seq<FileInfoView>) -> Seq<FileInfoView>
    decreases s.len(),
{
    if s.len() == 0 {
        seq![]
    } else {
        let sorted = sort_entries(s.drop_last());
        sorted.insert(insert_pos(sorted, s.last()), s.last())
    }
}

proof fn lemma_insert_pos(s: Seq<FileInfoView>, x: FileInfoView)
    ensures
        0 <= insert_pos(s, x) <= s.len(),
        forall|j: int| 0 <= j < insert_pos(s, x) ==> !listed_before(x, #[trigger] s[j]),
        insert_pos(s, x) < s.len() ==> listed_before(x, s[insert_pos(s, x)]),
    decreases s.len(),
{
    if s.len() > 0 && !listed_before(x, s[0]) {
        let t = s.drop_first();
        lemma_insert_pos(t, x);
        assert forall|j: int| 0 <= j < insert_pos(s, x) implies !listed_before(x, #[trigger] s[j]) by {
            if j > 0 {
                assert(s[j] == t[j - 1]);
            }
        }
    }
}

proof fn lemma_sort_len(s: Seq<FileInfoView>)
    ensures
        sort_entries(s).len() == s.len(),
    decreases s.len(),
{
    if s.len() > 0 {
        lemma_sort_len(s.drop_last());
        lemma_insert_pos(sort_entries(s.drop_last()), s.last());
    }
}

fn lex_less(a: &[char], b: &[char]) -> (r: bool)
    ensures
        r == lex_lt(a@, b@),
{
    let mut i: usize = 0;
    assert(a@.skip(0) =~= a@);
    assert(b@.skip(0) =~= b@);
    while i < a.len() && i < b.len() && a[i] == b[i]
        invariant
            i <= a@.len(),
            i <= b@.len(),
            lex_lt(a@, b@) == lex_lt(a@.skip(i as int), b@.skip(i as int)),
        decreases a@.len() - i,
    {
        assert(a@.skip(i as int).drop_first() =~= a@.skip(i + 1));
        assert(b@.skip(i as int).drop_first() =~= b@.skip(i + 1));
        i = i + 1;
    }
    if i == a.len() {
        i < b.len()
    } else if i == b.len() {
        false
    } else {
        assert(a@.skip(i as int)[0] == a@[i as int]);
        assert(b@.skip(i as int)[0] == b@[i as int]);
        (a[i] as u32) < (b[i] as u32)
    }
}

fn before(a_dir: bool, a_key: &[char], b_dir: bool, b_key: &[char]) -> (r: bool)
    ensures
        r == ((a_dir && !b_dir) || (a_dir == b_dir && lex_lt(a_key@, b_key@))),
{
    (a_dir && !b_dir) || (a_dir == b_dir && lex_less(a_key, b_key))
}

/// Sorts entries as a listing shows them (see `sort_entries`).
pub fn sort_listing(entries: Vec<FileInfo>) -> (r: Vec<FileInfo>)
    ensures
        info_views(r@) == sort_entries(info_views(entries@)),
{
    let ghost input = info_views(entries@);
    let mut out: Vec<FileInfo> = Vec::new();
    let mut keys: Vec<Vec<char>> = Vec::new();
    let mut rest = entries;
    let n = rest.len();
    assert(info_views(out@) =~= sort_entries(input.take(0)));
    let mut i: usize = 0;
    while i < n
        invariant
            i <= n,
            n == input.len(),
            rest@.len() == n - i,
            forall|j: int| 0 <= j < n - i ==> #[trigger] rest@[j]@ == input[i + j],
            info_views(out@) == sort_entries(input.take(i as int)),
            keys@.len() == out@.len(),
            forall|j: int| 0 <= j < out@.len() ==> #[trigger] keys@[j]@ == lowercase(out@[j].name@),
        decreases n - i,
    {
        let ghost r0 = rest@;
        let x = rest.remove(0);
        assert(x@ == input[i as int]) by {
            assert(r0[0]@ == input[i + 0]);
        }
        assert forall|j: int| 0 <= j < n - i - 1 implies #[trigger] rest@[j]@ == input[i + 1 + j] by {
            assert(rest@[j] == r0[j + 1]);
            assert(r0[j + 1]@ == input[i + (j + 1)]);
        }
        let xkey = chars_of(to_lowercase(x.name.as_str()).as_str());
        let ghost sorted = info_views(out@);
        let mut p: usize = 0;
        assert(sorted.skip(0) =~= sorted);
        while p < out.len() && !before(x.is_dir, xkey.as_slice(), out[p].is_dir, keys[p].as_slice())
            invariant
                p <= out@.len(),
                sorted == info_views(out@),
                keys@.len() == out@.len(),
                forall|j: int| 0 <= j < out@.len() ==> #[trigger] keys@[j]@ == lowercase(out@[j].name@),
                xkey@ == lowercase(x.name@),
                insert_pos(sorted, x@) == p + insert_pos(sorted.skip(p as int), x@),
            decreases out@.len() - p,
        {
            assert(sorted.skip(p as int)[0] == out@[p as int]@);
            assert(sorted.skip(p as int).drop_first() =~= sorted.skip(p + 1));
            p = p + 1;
        }
        proof {
            if p < out@.len() {
                assert(sorted.skip(p as int)[0] == out@[p as int]@);
            }
        }
        assert(insert_pos(sorted, x@) == p);
        let ghost xv = x@;
        let ghost k0 = keys@;
        let ghost o0 = out@;
        out.insert(p, x);
        keys.insert(p, xkey);
        assert(input.take(i + 1).drop_last() =~= input.take(i as int));
        assert(info_views(out@) =~= sorted.insert(p as int, xv));
        assert forall|j: int| 0 <= j < out@.len() implies #[trigger] keys@[j]@ == lowercase(out@[j].name@) by {
            if j < p {
                assert(keys@[j] == k0[j] && out@[j] == o0[j]);
            } else if j > p {
                assert(keys@[j] == k0[j - 1] && out@[j] == o0[j - 1]);
            }
        }
        i = i + 1;
    }
    assert(input.take(n as int) =~= input);
    out
}

/// The `..` entry that heads every listing.
pub open spec fn parent_entry() -> FileInfoView {
    FileInfoView {
        name: seq!['.', '.'],
        is_dir: true,
        size: 0,
        modified: None,
        extension: seq![],
        is_hidden: false,
        is_symlink: false,
        permissions: seq![],
    }
}

/// A directory listing: the `..` entry, then the entries in the order that
/// `sort_entries` gives (directories first, then by lower-cased name).
pub fn listing(entries: Vec<FileInfo>) -> (r: Vec<FileInfo>)
    ensures
        info_views(r@) == seq![parent_entry()] + sort_entries(info_views(entries@)),
{
    let mut sorted = sort_listing(entries);
    let empty: Vec<char> = Vec::new();
    let parent = FileInfo {
        name: string_from_chars(chars_of("..").as_slice()),
        is_dir: true,
        size: 0,
        modified: None,
        extension: string_from_chars(empty.as_slice()),
        is_hidden: false,
        is_symlink: false,
        permissions: string_from_chars(empty.as_slice()),
    };
    proof {
        reveal_strlit("..");
        assert(parent.name@ =~= seq!['.', '.']);
        assert(parent@ == parent_entry());
    }
    let ghost s0 = info_views(sorted@);
    sorted.insert(0, parent);
    assert(info_views(sorted@) =~= seq![parent_entry()] + s0);
    sorted
}

// ---------------------------------------------------------------- laws

proof fn lemma_lex_irreflexive(a: Seq<char>)
    ensures
        !lex_lt(a, a),
    decreases a.len(),
{
    if a.len() > 0 {
        lemma_lex_irreflexive(a.drop_first());
    }
}

proof fn lemma_lex_transitive(a: Seq<char>, b: Seq<char>, c: Seq<char>)
    requires
        lex_lt(a, b),
        lex_lt(b, c),
    ensures
        lex_lt(a, c),
    decreases a.len(),
{
    if a.len() > 0 && b.len() > 0 && c.len() > 0 && a[0] == b[0] && b[0] == c[0] {
        lemma_lex_transitive(a.drop_first(), b.drop_first(), c.drop_first());
    }
}

proof fn lemma_before_irreflexive(a: FileInfoView)
    ensures
        !listed_before(a, a),
{
    lemma_lex_irreflexive(lowercase(a.name));
}

proof fn lemma_before_transitive(a: FileInfoView, b: FileInfoView, c: FileInfoView)
    requires
        listed_before(a, b),
        listed_before(b, c),
    ensures
        listed_before(a, c),
{
    if a.is_dir == b.is_dir && b.is_dir == c.is_dir {
        lemma_lex_transitive(lowercase(a.name), lowercase(b.name), lowercase(c.name));
    }
}

/// No entry is shown after one that should come after it.
pub open spec fn in_listing_order(s: Seq<FileInfoView>) -> bool {
    forall|i: int, j: int| 0 <= i < j < s.len() ==> !listed_before(#[trigger] s[j], #[trigger] s[i])
}

/// Sorting puts the entries in listing order: directories before files,
/// and names in order (compared lower-cased) within each group.
pub proof fn lemma_sort_entries_ordered(s: Seq<FileInfoView>)
    ensures
        in_listing_order(sort_entries(s)),
    decreases s.len(),
{
    if s.len() > 0 {
        let sorted = sort_entries(s.drop_last());
        lemma_sort_entries_ordered(s.drop_last());
        let x = s.last();
        lemma_insert_pos(sorted, x);
        let p = insert_pos(sorted, x);
        let r = sorted.insert(p, x);
        assert forall|i: int, j: int| 0 <= i < j < r.len() implies !listed_before(
            #[trigger] r[j],
            #[trigger] r[i],
        ) by {
            if j < p {
                assert(r[i] == sorted[i] && r[j] == sorted[j]);
            } else if j == p {
                assert(r[i] == sorted[i]);
            } else if i == p {
                assert(r[j] == sorted[j - 1]);
                assert(listed_before(x, sorted[p]));
                if listed_before(sorted[j - 1], x) {
                    lemma_before_transitive(sorted[j - 1], x, sorted[p]);
                    if j - 1 == p {
                        lemma_before_irreflexive(sorted[p]);
                    }
                }
            } else if i < p {
                assert(r[i] == sorted[i] && r[j] == sorted[j - 1]);
            } else {
                assert(r[i] == sorted[i - 1] && r[j] == sorted[j - 1]);
            }
        }
    }
}

/// Sorting keeps every entry, each as often as it occurs.
pub proof fn lemma_sort_entries_permutes(s: Seq<FileInfoView>)
    ensures
        sort_entries(s).to_multiset() == s.to_multiset(),
    decreases s.len(),
{
    broadcast use vstd::seq_lib::to_multiset_insert, vstd::seq_lib::to_multiset_build;

    if s.len() > 0 {
        let sorted = sort_entries(s.drop_last());
        lemma_sort_entries_permutes(s.drop_last());
        lemma_insert_pos(sorted, s.last());
        assert(s.drop_last().push(s.last()) =~= s);
    } else {
        assert(sort_entries(s) =~= s);
    }
}

// ---------------------------------------------------------------- permissions

/// The nine read/write/execute bits of a file mode.
pub struct PermissionBits {
    pub owner_read: bool,
    pub owner_write: bool,
    pub owner_exec: bool,
    pub group_read: bool,
    pub group_write: bool,
    pub group_exec: bool,
    pub other_read: bool,
    pub other_write: bool,
    pub other_exec: bool,
}

/// `c` when the bit is set, `-` otherwise.
pub open spec fn flag(b: bool, c: char) -> char {
    if b {
        c
    } else {
        '-'
    }
}

/// The `rwxrwxrwx` text of a mode, `-` for each clear bit.
pub open spec fn permissions_text(p: PermissionBits) -> Seq<char> {
    seq![
        flag(p.owner_read, 'r'),
        flag(p.owner_write, 'w'),
        flag(p.owner_exec, 'x'),
        flag(p.group_read, 'r'),
        flag(p.group_write, 'w'),
        flag(p.group_exec, 'x'),
        flag(p.other_read, 'r'),
        flag(p.other_write, 'w'),
        flag(p.other_exec, 'x'),
    ]
}

/// Whether the bits grant a right (0 read, 1 write, 2 execute) to a class
/// of users (0 the owner, 1 the group, 2 everyone else).
pub open spec fn grants(p: PermissionBits, class: int, right: int) -> bool {
    if class == 0 {
        if right == 0 {
            p.owner_read
        } else if right == 1 {
            p.owner_write
        } else {
            p.owner_exec
        }
    } else if class == 1 {
        if right == 0 {
            p.group_read
        } else if right == 1 {
            p.group_write
        } else {
            p.group_exec
        }
    } else {
        if right == 0 {
            p.other_read
        } else if right == 1 {
            p.other_write
        } else {
            p.other_exec
        }
    }
}

/// The letter `ls` shows for a granted right.
pub open spec fn right_letter(right: int) -> char {
    if right == 0 {
        'r'
    } else if right == 1 {
        'w'
    } else {
        'x'
    }
}

/// The permission text has three characters per class (owner, group,
/// others, in that order), one per right (read, write, execute, in that
/// order): the right's letter when the class has it, `-` when not.
pub proof fn lemma_permissions_text_layout(p: PermissionBits)
    ensures
        permissions_text(p).len() == 9,
        forall|class: int, right: int|
            0 <= class < 3 && 0 <= right < 3 ==> permissions_text(p)[3 * class + right] == if #[trigger] grants(
                p,
                class,
                right,
            ) {
                right_letter(right)
            } else {
                '-'
            },
{
    assert forall|class: int, right: int| 0 <= class < 3 && 0 <= right < 3 implies permissions_text(p)[3
        * class + right] == if #[trigger] grants(p, class, right) {
        right_letter(right)
    } else {
        '-'
    } by {
        if class == 0 {
            if right == 0 {} else if right == 1 {} else {}
        } else if class == 1 {
            if right == 0 {} else if right == 1 {} else {}
        } else {
            if right == 0 {} else if right == 1 {} else {}
        }
    }
}

/// Formats permission bits as `rwxr-x---` and the like.
pub fn format_permissions(perm: &PermissionBits) -> (s: String)
    ensures
        s@ == permissions_text(*perm),
{
    let mut v: Vec<char> = Vec::new();
    v.push(if perm.owner_read { 'r' } else { '-' });
    v.push(if perm.owner_write { 'w' } else { '-' });
    v.push(if perm.owner_exec { 'x' } else { '-' });
    v.push(if perm.group_read { 'r' } else { '-' });
    v.push(if perm.group_write { 'w' } else { '-' });
    v.push(if perm.group_exec { 'x' } else { '-' });
    v.push(if perm.other_read { 'r' } else { '-' });
    v.push(if perm.other_write { 'w' } else { '-' });
    v.push(if perm.other_exec { 'x' } else { '-' });
    assert(v@ =~= permissions_text(*perm));
    string_from_chars(v.as_slice())
}

} // verus!
