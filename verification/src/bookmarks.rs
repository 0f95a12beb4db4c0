//! Bookmarked directories: an ordered list of paths that adding keeps free
//! of repeats.

use vstd::prelude::*;

verus! {

/// The views of a sequence of strings.
pub open spec fn path_views(v: Seq<String>) -> Seq<Seq<char>> {
    v.map_values(|p: String| p@)
}

/// The list after adding `p`: unchanged when `p` is already in it, else `p`
/// appended.
pub open spec fn added(s: Seq<Seq<char>>, p: Seq<char>) -> Seq<Seq<char>> {
    if s.contains(p) {
        s
    } else {
        s.push(p)
    }
}

/// The list without any occurrence of `p`, the others in their order.
pub open spec fn removed(s: Seq<Seq<char>>, p: Seq<char>) -> Seq<Seq<char>>
    decreases s.len(),
{
    if s.len() == 0 {
        s
    } else if s.last() == p {
        removed(s.drop_last(), p)
    } else {
        removed(s.drop_last(), p).push(s.last())
    }
}

/// The bookmarked paths, in the order they were added.
pub struct Bookmarks {
    pub paths: Vec<String>,
}

impl View for Bookmarks {
    type V = Seq<Seq<char>>;

    open spec fn view(&self) -> Seq<Seq<char>> {
        path_views(self.paths@)
    }
}

fn str_eq(a: &String, b: &str) -> (r: bool)
    ensures
        r == (a@ == b@),
{
    let x = crate::text::chars_of(a.as_str());
    let y = crate::text::chars_of(b);
    let r = crate::text::range_eq(x.as_slice(), 0, x.len(), y.as_slice());
    assert(x@.subrange(0, x@.len() as int) =~= x@);
    r
}

impl Bookmarks {
    /// Bookmarks holding the given paths (as read from the bookmarks file).
    pub fn new(paths: Vec<String>) -> (b: Self)
        ensures
            b@ == path_views(paths@),
    {
        Bookmarks { paths }
    }

    /// The bookmarked paths.
    pub fn list(&self) -> (r: Vec<String>)
        ensures
            path_views(r@) == self@,
    {
        let mut r: Vec<String> = Vec::new();
        let mut i: usize = 0;
        while i < self.paths.len()
            invariant
                i <= self.paths@.len(),
                path_views(r@) == path_views(self.paths@).take(i as int),
            decreases self.paths@.len() - i,
        {
            let ghost before = r@;
            let c = self.paths[i].clone();
            assert(c@ == self.paths@[i as int]@);
            r.push(c);
            assert(path_views(r@) =~= path_views(before).push(c@));
            i = i + 1;
            assert(path_views(r@) =~= path_views(self.paths@).take(i as int));
        }
        assert(path_views(self.paths@).take(i as int) =~= path_views(self.paths@));
        r
    }

    /// Whether `path` is bookmarked.
    pub fn contains(&self, path: &str) -> (r: bool)
        ensures
            r == self@.contains(path@),
    {
        let mut i: usize = 0;
        while i < self.paths.len()
            invariant
                i <= self.paths@.len(),
                forall|j: int| 0 <= j < i ==> self@[j] != path@,
            decreases self.paths@.len() - i,
        {
            if str_eq(&self.paths[i], path) {
                assert(self@[i as int] == path@);
                return true;
            }
            i = i + 1;
        }
        false
    }

    /// Bookmarks `path`, appending it unless it is bookmarked already.
    pub fn add(&mut self, path: String)
        ensures
            final(self)@ == added(old(self)@, path@),
    {
        if !self.contains(path.as_str()) {
            let ghost before = self@;
            self.paths.push(path);
            assert(self@ =~= before.push(path@));
        }
    }

    /// Removes every bookmark equal to `path`, keeping the others in order.
    pub fn remove(&mut self, path: &str)
        ensures
            final(self)@ == removed(old(self)@, path@),
    {
        let ghost all = self@;
        let mut kept: Vec<String> = Vec::new();
        let mut i: usize = 0;
        while i < self.paths.len()
            invariant
                i <= self.paths@.len(),
                all == path_views(self.paths@),
                path_views(kept@) == removed(all.take(i as int), path@),
            decreases self.paths@.len() - i,
        {
            assert(all.take(i + 1).drop_last() =~= all.take(i as int));
            if !str_eq(&self.paths[i], path) {
                let ghost before = kept@;
                kept.push(self.paths[i].clone());
                assert(path_views(kept@) =~= path_views(before).push(all[i as int]));
            }
            i = i + 1;
        }
        assert(all.take(i as int) =~= all);
        self.paths = kept;
    }
}

// ---------------------------------------------------------------- laws

/// After adding a path, it is bookmarked.
pub proof fn lemma_added_contains(s: Seq<Seq<char>>, p: Seq<char>)
    ensures
        added(s, p).contains(p),
{
    if !s.contains(p) {
        assert(s.push(p)[s.len() as int] == p);
    }
}

/// Adding the same path twice is adding it once.
pub proof fn lemma_added_idempotent(s: Seq<Seq<char>>, p: Seq<char>)
    ensures
        added(added(s, p), p) == added(s, p),
{
    lemma_added_contains(s, p);
}

/// Adding keeps a list free of repeats.
pub proof fn lemma_added_no_duplicates(s: Seq<Seq<char>>, p: Seq<char>)
    requires
        s.no_duplicates(),
    ensures
        added(s, p).no_duplicates(),
{
    if !s.contains(p) {
        let t = s.push(p);
        assert forall|i: int, j: int| 0 <= i < t.len() && 0 <= j < t.len() && i != j implies t[i]
            != t[j] by {
            if i < s.len() && j < s.len() {
                assert(t[i] == s[i] && t[j] == s[j]);
            } else if i < s.len() {
                assert(t[i] == s[i]);
            } else if j < s.len() {
                assert(t[j] == s[j]);
            }
        }
    }
}

proof fn lemma_removed_facts(s: Seq<Seq<char>>, p: Seq<char>)
    ensures
        !removed(s, p).contains(p),
        forall|q: Seq<char>| q != p ==> (removed(s, p).contains(q) <==> s.contains(q)),
    decreases s.len(),
{
    if s.len() > 0 {
        let r = removed(s.drop_last(), p);
        lemma_removed_facts(s.drop_last(), p);
        let d = s.drop_last();
        let rs = removed(s, p);
        assert forall|q: Seq<char>| q != p implies (rs.contains(q) <==> s.contains(q)) by {
            if s.contains(q) {
                let k = choose|k: int| 0 <= k < s.len() && s[k] == q;
                if k < s.len() - 1 {
                    assert(d[k] == q);
                    assert(d.contains(q));
                    assert(r.contains(q));
                    let m = choose|m: int| 0 <= m < r.len() && r[m] == q;
                    assert(rs[m] == q);
                } else {
                    assert(rs[rs.len() - 1] == q);
                }
            }
            if rs.contains(q) {
                let k = choose|k: int| 0 <= k < rs.len() && rs[k] == q;
                if s.last() != p && k == r.len() {
                    assert(s[s.len() - 1] == q);
                } else {
                    assert(r[k] == q);
                    assert(r.contains(q));
                    assert(d.contains(q));
                    let m = choose|m: int| 0 <= m < d.len() && d[m] == q;
                    assert(s[m] == q);
                }
            }
        }
        if s.last() != p {
            assert forall|k: int| 0 <= k < removed(s, p).len() implies removed(s, p)[k] != p by {
                if k < r.len() {
                    assert(removed(s, p)[k] == r[k]);
                }
            }
        }
    }
}

/// After removing a path, it is no longer bookmarked, and every other path
/// is bookmarked exactly when it was before.
pub proof fn lemma_removed_only_that(s: Seq<Seq<char>>, p: Seq<char>)
    ensures
        !removed(s, p).contains(p),
        forall|q: Seq<char>| q != p ==> (removed(s, p).contains(q) <==> s.contains(q)),
{
    lemma_removed_facts(s, p);
}

proof fn lemma_removed_absent(s: Seq<Seq<char>>, p: Seq<char>)
    requires
        !s.contains(p),
    ensures
        removed(s, p) == s,
    decreases s.len(),
{
    if s.len() > 0 {
        assert(!s.drop_last().contains(p)) by {
            if s.drop_last().contains(p) {
                let k = choose|k: int| 0 <= k < s.drop_last().len() && s.drop_last()[k] == p;
                assert(s[k] == p);
            }
        }
        lemma_removed_absent(s.drop_last(), p);
        assert(s[s.len() - 1] != p);
        assert(s.drop_last().push(s.last()) =~= s);
    }
}

/// Removing a path that was just added (and was not there before) gives the
/// list back unchanged.
pub proof fn lemma_remove_undoes_add(s: Seq<Seq<char>>, p: Seq<char>)
    requires
        !s.contains(p),
    ensures
        removed(added(s, p), p) == s,
{
    lemma_removed_absent(s, p);
    assert(s.push(p).drop_last() =~= s);
}

} // verus!
