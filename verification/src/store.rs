//! The override store: every project's overrides, keyed by the project's
//! git directory, the override's origin and its anchor.
use crate::hunks::HunkHeader;
use crate::model::{
    bytes_eq, copy_bytes, location_path, LocationView, OverrideView, SubHunkOriginLocation,
    SubHunkOverride,
};
use crate::apply::{
    all_fit, apply_all, apply_all_marks, apply_overrides_to_assignments, fits_on_paths, ids_match,
    kept_marks, outcomes_view, overrides_view, OutcomeView, OverrideOutcome,
};
use crate::model::{AssignmentView, HunkAssignment};
use crate::overrides::{assignment_fits, views_of};
use vstd::prelude::*;

verus! {

/// The key of a stored override: git directory, origin location, anchor.
pub open spec fn override_key(gitdir: Seq<u8>, ov: OverrideView) -> (Seq<u8>, LocationView, HunkHeader) {
    (gitdir, ov.origin, ov.anchor)
}

/// The key of a store entry.
pub open spec fn entry_key(e: (Vec<u8>, SubHunkOverride)) -> (Seq<u8>, LocationView, HunkHeader) {
    override_key(e.0@, e.1@)
}

/// Some entry of `s` has key `k`.
pub open spec fn has_key(s: Seq<(Vec<u8>, SubHunkOverride)>, k: (Seq<u8>, LocationView, HunkHeader)) -> bool {
    exists|i: int| 0 <= i < s.len() && #[trigger] entry_key(s[i]) == k
}

/// The overrides of the entries `s`, by key.
pub open spec fn overrides_map(s: Seq<(Vec<u8>, SubHunkOverride)>) -> Map<
    (Seq<u8>, LocationView, HunkHeader),
    OverrideView,
> {
    Map::new(
        |k: (Seq<u8>, LocationView, HunkHeader)| has_key(s, k),
        |k: (Seq<u8>, LocationView, HunkHeader)|
            s[choose|i: int| 0 <= i < s.len() && #[trigger] entry_key(s[i]) == k].1@,
    )
}

/// No two entries share a key.
pub open spec fn keys_distinct(s: Seq<(Vec<u8>, SubHunkOverride)>) -> bool {
    forall|i: int, j: int|
        0 <= i < j < s.len() ==> #[trigger] entry_key(s[i]) != #[trigger] entry_key(s[j])
}

/// The byte views of a sequence of byte vectors, as a set.
pub open spec fn gitdir_set(p: Seq<Vec<u8>>) -> Set<Seq<u8>> {
    Set::new(|g: Seq<u8>| exists|i: int| 0 <= i < p.len() && #[trigger] p[i]@ == g)
}

/// The view of the store: the overrides by key, and the git directories
/// that have a project in the store (a project stays once created, even
/// when it holds no override any more).
pub struct StoreView {
    pub overrides: Map<(Seq<u8>, LocationView, HunkHeader), OverrideView>,
    pub projects: Set<Seq<u8>>,
}

/// Every project's overrides, keyed by origin and anchor.
pub struct OverrideStore {
    entries: Vec<(Vec<u8>, SubHunkOverride)>,
    projects: Vec<Vec<u8>>,
}

impl View for OverrideStore {
    type V = StoreView;

    closed spec fn view(&self) -> StoreView {
        StoreView { overrides: overrides_map(self.entries@), projects: gitdir_set(self.projects@) }
    }
}

impl OverrideStore {
    /// The store's invariant: one entry per key, and every entry belongs to
    /// a project of the store.
    pub closed spec fn wf(&self) -> bool {
        &&& keys_distinct(self.entries@)
        &&& forall|i: int|
            0 <= i < self.entries@.len() ==> gitdir_set(self.projects@).contains(
                #[trigger] self.entries@[i].0@,
            )
    }

    /// An empty store.
    pub fn new() -> (r: Self)
        ensures
            r.wf(),
            r@.overrides == Map::<(Seq<u8>, LocationView, HunkHeader), OverrideView>::empty(),
            r@.projects == Set::<Seq<u8>>::empty(),
    {
        let r = OverrideStore { entries: Vec::new(), projects: Vec::new() };
        assert(r@.overrides =~= Map::<(Seq<u8>, LocationView, HunkHeader), OverrideView>::empty());
        assert(r@.projects =~= Set::<Seq<u8>>::empty());
        r
    }
}

/// Each key of the store is the key of its override: the stored override
/// carries the origin and the anchor it is stored under.
pub proof fn lemma_store_keys_match(store: &OverrideStore, k: (Seq<u8>, LocationView, HunkHeader))
    requires
        store.wf(),
        store@.overrides.contains_key(k),
    ensures
        store@.overrides[k].origin == k.1,
        store@.overrides[k].anchor == k.2,
        store@.projects.contains(k.0),
{
    let s = store.entries@;
    let i = choose|i: int| 0 <= i < s.len() && #[trigger] entry_key(s[i]) == k;
    assert(entry_key(s[i]) == k);
    assert(gitdir_set(store.projects@).contains(s[i].0@));
}

/// The override at an entry is the map's value at its key.
proof fn lemma_map_at(s: Seq<(Vec<u8>, SubHunkOverride)>, i: int)
    requires
        keys_distinct(s),
        0 <= i < s.len(),
    ensures
        overrides_map(s).contains_key(entry_key(s[i])),
        overrides_map(s)[entry_key(s[i])] == s[i].1@,
{
    let k = entry_key(s[i]);
    assert(has_key(s, k));
    let j = choose|j: int| 0 <= j < s.len() && #[trigger] entry_key(s[j]) == k;
    if j != i {
        if j < i {
            assert(entry_key(s[j]) != entry_key(s[i]));
        } else {
            assert(entry_key(s[i]) != entry_key(s[j]));
        }
    }
}

/// Replacing an entry by one with the same key updates the map at that key.
proof fn lemma_map_update(s: Seq<(Vec<u8>, SubHunkOverride)>, i: int, e: (Vec<u8>, SubHunkOverride))
    requires
        keys_distinct(s),
        0 <= i < s.len(),
        entry_key(e) == entry_key(s[i]),
    ensures
        keys_distinct(s.update(i, e)),
        overrides_map(s.update(i, e)) == overrides_map(s).insert(entry_key(e), e.1@),
{
    let t = s.update(i, e);
    assert forall|a: int, b: int| 0 <= a < b < t.len() implies #[trigger] entry_key(t[a])
        != #[trigger] entry_key(t[b]) by {
        assert(entry_key(t[a]) == entry_key(s[a]));
        assert(entry_key(t[b]) == entry_key(s[b]));
    }
    let m = overrides_map(s).insert(entry_key(e), e.1@);
    assert forall|k: (Seq<u8>, LocationView, HunkHeader)| #[trigger]
        overrides_map(t).contains_key(k) <==> m.contains_key(k) by {
        if has_key(t, k) {
            let j = choose|j: int| 0 <= j < t.len() && #[trigger] entry_key(t[j]) == k;
            assert(entry_key(s[j]) == k);
        }
        if has_key(s, k) {
            let j = choose|j: int| 0 <= j < s.len() && #[trigger] entry_key(s[j]) == k;
            assert(entry_key(t[j]) == k);
        }
        if k == entry_key(e) {
            assert(entry_key(t[i]) == k);
        }
    }
    assert forall|k: (Seq<u8>, LocationView, HunkHeader)| #[trigger]
        overrides_map(t).contains_key(k) implies overrides_map(t)[k] == m[k] by {
        let j = choose|j: int| 0 <= j < t.len() && #[trigger] entry_key(t[j]) == k;
        lemma_map_at(t, j);
        if j == i {
        } else {
            assert(t[j] == s[j]);
            lemma_map_at(s, j);
        }
    }
    assert(overrides_map(t) =~= m);
}

/// Appending an entry under a new key adds that key to the map.
proof fn lemma_map_push(s: Seq<(Vec<u8>, SubHunkOverride)>, e: (Vec<u8>, SubHunkOverride))
    requires
        keys_distinct(s),
        !has_key(s, entry_key(e)),
    ensures
        keys_distinct(s.push(e)),
        overrides_map(s.push(e)) == overrides_map(s).insert(entry_key(e), e.1@),
{
    let t = s.push(e);
    assert forall|a: int, b: int| 0 <= a < b < t.len() implies #[trigger] entry_key(t[a])
        != #[trigger] entry_key(t[b]) by {
        assert(t[a] == s[a]);
        if b < s.len() {
            assert(t[b] == s[b]);
        } else {
            assert(entry_key(s[a]) != entry_key(e));
        }
    }
    let m = overrides_map(s).insert(entry_key(e), e.1@);
    assert forall|k: (Seq<u8>, LocationView, HunkHeader)| #[trigger]
        overrides_map(t).contains_key(k) <==> m.contains_key(k) by {
        if has_key(t, k) {
            let j = choose|j: int| 0 <= j < t.len() && #[trigger] entry_key(t[j]) == k;
            if j < s.len() {
                assert(t[j] == s[j]);
                assert(has_key(s, k));
            }
        }
        if has_key(s, k) {
            let j = choose|j: int| 0 <= j < s.len() && #[trigger] entry_key(s[j]) == k;
            assert(t[j] == s[j]);
            assert(entry_key(t[j]) == k);
        }
        if k == entry_key(e) {
            assert(entry_key(t[s.len() as int]) == k);
        }
    }
    assert forall|k: (Seq<u8>, LocationView, HunkHeader)| #[trigger]
        overrides_map(t).contains_key(k) implies overrides_map(t)[k] == m[k] by {
        let j = choose|j: int| 0 <= j < t.len() && #[trigger] entry_key(t[j]) == k;
        lemma_map_at(t, j);
        if j < s.len() {
            assert(t[j] == s[j]);
            lemma_map_at(s, j);
        }
    }
    assert(overrides_map(t) =~= m);
}

/// Removing an entry removes its key from the map.
proof fn lemma_map_remove(s: Seq<(Vec<u8>, SubHunkOverride)>, i: int)
    requires
        keys_distinct(s),
        0 <= i < s.len(),
    ensures
        keys_distinct(s.remove(i)),
        overrides_map(s.remove(i)) == overrides_map(s).remove(entry_key(s[i])),
{
    let t = s.remove(i);
    let ki = entry_key(s[i]);
    assert forall|a: int, b: int| 0 <= a < b < t.len() implies #[trigger] entry_key(t[a])
        != #[trigger] entry_key(t[b]) by {
        let a2 = if a < i { a } else { a + 1 };
        let b2 = if b < i { b } else { b + 1 };
        assert(t[a] == s[a2]);
        assert(t[b] == s[b2]);
    }
    let m = overrides_map(s).remove(ki);
    assert forall|k: (Seq<u8>, LocationView, HunkHeader)| #[trigger]
        overrides_map(t).contains_key(k) <==> m.contains_key(k) by {
        if has_key(t, k) {
            let j = choose|j: int| 0 <= j < t.len() && #[trigger] entry_key(t[j]) == k;
            let j2 = if j < i { j } else { j + 1 };
            assert(t[j] == s[j2]);
            assert(entry_key(s[j2]) == k);
            if j2 < i {
                assert(entry_key(s[j2]) != entry_key(s[i]));
            } else {
                assert(entry_key(s[i]) != entry_key(s[j2]));
            }
        }
        if has_key(s, k) && k != ki {
            let j = choose|j: int| 0 <= j < s.len() && #[trigger] entry_key(s[j]) == k;
            assert(j != i);
            let j2 = if j < i { j } else { j - 1 };
            assert(t[j2] == s[j]);
            assert(entry_key(t[j2]) == k);
        }
    }
    assert forall|k: (Seq<u8>, LocationView, HunkHeader)| #[trigger]
        overrides_map(t).contains_key(k) implies overrides_map(t)[k] == m[k] by {
        let j = choose|j: int| 0 <= j < t.len() && #[trigger] entry_key(t[j]) == k;
        lemma_map_at(t, j);
        let j2 = if j < i { j } else { j + 1 };
        assert(t[j] == s[j2]);
        lemma_map_at(s, j2);
    }
    assert(overrides_map(t) =~= m);
}

/// The store with `ov` stored for project `gitdir` under its own origin
/// and anchor, replacing what was stored there; the project exists after.
pub open spec fn store_insert(v: StoreView, gitdir: Seq<u8>, ov: OverrideView) -> StoreView {
    StoreView {
        overrides: v.overrides.insert(override_key(gitdir, ov), ov),
        projects: v.projects.insert(gitdir),
    }
}

/// The store without the override under key `k`.
pub open spec fn store_remove(v: StoreView, k: (Seq<u8>, LocationView, HunkHeader)) -> StoreView {
    StoreView { overrides: v.overrides.remove(k), projects: v.projects }
}

/// Which origins a listing keeps.
pub enum LocationFilter {
    /// Every origin.
    All,
    /// Worktree-anchored origins.
    Worktree,
    /// Origins anchored in the commit with this raw object id.
    Commit { id: Vec<u8> },
}

/// The view of a location filter.
pub enum FilterView {
    All,
    Worktree,
    Commit(Seq<u8>),
}

impl View for LocationFilter {
    type V = FilterView;

    open spec fn view(&self) -> FilterView {
        match self {
            LocationFilter::All => FilterView::All,
            LocationFilter::Worktree => FilterView::Worktree,
            LocationFilter::Commit { id } => FilterView::Commit(id@),
        }
    }
}

/// The filter `f` keeps origin `loc`.
pub open spec fn keeps(f: FilterView, loc: LocationView) -> bool {
    match f {
        FilterView::All => true,
        FilterView::Worktree => loc is Worktree,
        FilterView::Commit(id) => loc matches LocationView::Commit(c, _) && c == id,
    }
}

/// `r` lists, once each and in some order, exactly the overrides of project
/// `gitdir` whose origin `f` keeps.
pub open spec fn is_listing(v: StoreView, gitdir: Seq<u8>, f: FilterView, r: Seq<OverrideView>) -> bool {
    &&& forall|i: int, j: int|
        0 <= i < j < r.len() ==> override_key(gitdir, #[trigger] r[i]) != override_key(
            gitdir,
            #[trigger] r[j],
        )
    &&& forall|i: int|
        0 <= i < r.len() ==> keeps(f, (#[trigger] r[i]).origin) && v.overrides.contains_key(
            override_key(gitdir, r[i]),
        ) && v.overrides[override_key(gitdir, r[i])] == r[i]
    &&& forall|k: (Seq<u8>, LocationView, HunkHeader)|
        #[trigger] v.overrides.contains_key(k) && k.0 == gitdir && keeps(f, k.1) ==> exists|i: int|
            0 <= i < r.len() && override_key(gitdir, #[trigger] r[i]) == k
}

impl OverrideStore {
    /// The index of the entry stored under `(gitdir, loc, anchor)`.
    fn find_entry(&self, gitdir: &[u8], loc: &SubHunkOriginLocation, anchor: HunkHeader) -> (r:
        Option<usize>)
        ensures
            r matches Some(i) ==> i < self.entries@.len() && entry_key(self.entries@[i as int]) == (
                gitdir@,
                loc@,
                anchor,
            ),
            r is None ==> !has_key(self.entries@, (gitdir@, loc@, anchor)),
    {
        let ghost k = (gitdir@, loc@, anchor);
        let mut i: usize = 0;
        while i < self.entries.len()
            invariant
                0 <= i <= self.entries@.len(),
                k == (gitdir@, loc@, anchor),
                forall|j: int| 0 <= j < i ==> #[trigger] entry_key(self.entries@[j]) != k,
            decreases self.entries.len() - i,
        {
            let e = &self.entries[i];
            if bytes_eq(e.0.as_slice(), gitdir) && e.1.origin.same_as(loc) && e.1.anchor == anchor {
                return Some(i);
            }
            i += 1;
        }
        None
    }

    /// Whether project `gitdir` exists.
    fn has_project(&self, gitdir: &[u8]) -> (r: bool)
        ensures
            r == gitdir_set(self.projects@).contains(gitdir@),
    {
        let mut i: usize = 0;
        while i < self.projects.len()
            invariant
                0 <= i <= self.projects@.len(),
                forall|j: int| 0 <= j < i ==> #[trigger] self.projects@[j]@ != gitdir@,
            decreases self.projects.len() - i,
        {
            if bytes_eq(self.projects[i].as_slice(), gitdir) {
                return true;
            }
            i += 1;
        }
        false
    }

    /// Create project `gitdir` if it does not exist yet.
    fn add_project(&mut self, gitdir: &[u8])
        ensures
            gitdir_set(final(self).projects@) == gitdir_set(old(self).projects@).insert(gitdir@),
            final(self).entries == old(self).entries,
    {
        let ghost before = self.projects@;
        if !self.has_project(gitdir) {
            let mut g: Vec<u8> = Vec::new();
            let mut i: usize = 0;
            while i < gitdir.len()
                invariant
                    0 <= i <= gitdir@.len(),
                    g@ == gitdir@.take(i as int),
                decreases gitdir.len() - i,
            {
                g.push(gitdir[i]);
                assert(g@ =~= gitdir@.take(i + 1));
                i += 1;
            }
            assert(gitdir@.take(gitdir@.len() as int) =~= gitdir@);
            self.projects.push(g);
            assert(gitdir_set(self.projects@) =~= gitdir_set(before).insert(gitdir@)) by {
                assert(self.projects@[before.len() as int]@ == gitdir@);
                assert forall|x: Seq<u8>| gitdir_set(before).contains(x) implies gitdir_set(
                    self.projects@,
                ).contains(x) by {
                    let j = choose|j: int| 0 <= j < before.len() && #[trigger] before[j]@ == x;
                    assert(self.projects@[j] == before[j]);
                }
                assert forall|x: Seq<u8>| gitdir_set(self.projects@).contains(x) implies gitdir_set(
                    before,
                ).insert(gitdir@).contains(x) by {
                    let j = choose|j: int| 0 <= j < self.projects@.len() && #[trigger] self.projects@[j]@
                        == x;
                    if j < before.len() {
                        assert(self.projects@[j] == before[j]);
                    }
                }
            }
        } else {
            assert(gitdir_set(self.projects@) =~= gitdir_set(before).insert(gitdir@));
        }
    }

    /// Store `ov` for project `gitdir` under its own origin and anchor.
    fn insert(&mut self, gitdir: &[u8], ov: SubHunkOverride)
        requires
            old(self).wf(),
        ensures
            final(self).wf(),
            final(self)@ == store_insert(old(self)@, gitdir@, ov@),
    {
        let ghost before = self.entries@;
        let ghost v0 = self@;
        let ghost ovv = ov@;
        let found = self.find_entry(gitdir, &ov.origin, ov.anchor);
        self.add_project(gitdir);
        let g = copy_bytes_slice(gitdir);
        let e = (g, ov);
        assert(entry_key(e) == override_key(gitdir@, ovv));
        match found {
            Some(i) => {
                self.entries.set(i, e);
                proof {
                    lemma_map_update(before, i as int, e);
                }
            },
            None => {
                self.entries.push(e);
                proof {
                    lemma_map_push(before, e);
                }
            },
        }
        proof {
            assert forall|i: int| 0 <= i < self.entries@.len() implies gitdir_set(
                self.projects@,
            ).contains(#[trigger] self.entries@[i].0@) by {
                if i < before.len() && self.entries@[i] == before[i] {
                    assert(gitdir_set(old(self).projects@).contains(before[i].0@));
                }
            }
            assert(self@.overrides == store_insert(v0, gitdir@, ovv).overrides);
            assert(self@.projects == store_insert(v0, gitdir@, ovv).projects);
        }
    }

    /// Remove and return the override stored under `(gitdir, loc, anchor)`.
    fn remove_key(&mut self, gitdir: &[u8], loc: &SubHunkOriginLocation, anchor: HunkHeader) -> (r:
        Option<SubHunkOverride>)
        requires
            old(self).wf(),
        ensures
            final(self).wf(),
            final(self)@ == store_remove(old(self)@, (gitdir@, loc@, anchor)),
            r matches Some(o) ==> old(self)@.overrides.contains_key((gitdir@, loc@, anchor))
                && old(self)@.overrides[(gitdir@, loc@, anchor)] == o@,
            r is None ==> !old(self)@.overrides.contains_key((gitdir@, loc@, anchor)),
    {
        let ghost before = self.entries@;
        let ghost v0 = self@;
        let ghost k = (gitdir@, loc@, anchor);
        match self.find_entry(gitdir, loc, anchor) {
            Some(i) => {
                proof {
                    lemma_map_at(before, i as int);
                    lemma_map_remove(before, i as int);
                }
                let e = self.entries.remove(i);
                proof {
                    assert forall|j: int| 0 <= j < self.entries@.len() implies gitdir_set(
                        self.projects@,
                    ).contains(#[trigger] self.entries@[j].0@) by {
                        let j2 = if j < i { j } else { j + 1 };
                        assert(self.entries@[j] == before[j2]);
                    }
                    assert(self@.overrides == store_remove(v0, k).overrides);
                }
                Some(e.1)
            },
            None => {
                assert(self@.overrides =~= v0.overrides.remove(k));
                None
            },
        }
    }
}

/// A copy of a byte slice.
fn copy_bytes_slice(b: &[u8]) -> (r: Vec<u8>)
    ensures
        r@ == b@,
{
    let mut g: Vec<u8> = Vec::new();
    let mut i: usize = 0;
    while i < b.len()
        invariant
            0 <= i <= b@.len(),
            g@ == b@.take(i as int),
        decreases b.len() - i,
    {
        g.push(b[i]);
        assert(g@ =~= b@.take(i + 1));
        i += 1;
    }
    assert(b@.take(b@.len() as int) =~= b@);
    g
}

/// Whether filter `keep` keeps origin `loc`.
fn keeps_location(keep: &LocationFilter, loc: &SubHunkOriginLocation) -> (r: bool)
    ensures
        r == keeps(keep@, loc@),
{
    match keep {
        LocationFilter::All => true,
        LocationFilter::Worktree => loc.is_worktree(),
        LocationFilter::Commit { id } => match loc {
            SubHunkOriginLocation::Commit { id: c, .. } => bytes_eq(c.as_slice(), id.as_slice()),
            SubHunkOriginLocation::Worktree { .. } => false,
        },
    }
}

/// The overrides of project `gitdir` whose origin `keep` keeps.
fn list_overrides_filtered(store: &OverrideStore, gitdir: &[u8], keep: &LocationFilter) -> (r: Vec<
    SubHunkOverride,
>)
    requires
        store.wf(),
    ensures
        is_listing(store@, gitdir@, keep@, overrides_view(r@)),
{
    let ghost s = store.entries@;
    let ghost g = gitdir@;
    let ghost mut idxs: Seq<int> = seq![];
    let mut out: Vec<SubHunkOverride> = Vec::new();
    let mut i: usize = 0;
    while i < store.entries.len()
        invariant
            0 <= i <= s.len(),
            s == store.entries@,
            g == gitdir@,
            store.wf(),
            idxs.len() == out@.len(),
            forall|a: int|
                0 <= a < idxs.len() ==> 0 <= #[trigger] idxs[a] < i && out@[a]@ == s[idxs[a]].1@
                    && s[idxs[a]].0@ == g && keeps(keep@, s[idxs[a]].1.origin@),
            forall|a: int, b: int| 0 <= a < b < idxs.len() ==> #[trigger] idxs[a] < #[trigger] idxs[b],
            forall|j: int|
                0 <= j < i && (#[trigger] s[j]).0@ == g && keeps(keep@, s[j].1.origin@) ==> exists|
                    a: int,
                | 0 <= a < idxs.len() && idxs[a] == j,
        decreases s.len() - i,
    {
        let e = &store.entries[i];
        if bytes_eq(e.0.as_slice(), gitdir) && keeps_location(keep, &e.1.origin) {
            let d = e.1.duplicate();
            out.push(d);
            proof {
                let old_idxs = idxs;
                idxs = idxs.push(i as int);
                assert forall|j: int|
                    0 <= j < i + 1 && (#[trigger] s[j]).0@ == g && keeps(keep@, s[j].1.origin@) implies exists|
                    a: int,
                | 0 <= a < idxs.len() && idxs[a] == j by {
                    if j < i {
                        let a = choose|a: int| 0 <= a < old_idxs.len() && old_idxs[a] == j;
                        assert(idxs[a] == j);
                    } else {
                        assert(idxs[old_idxs.len() as int] == j);
                    }
                }
            }
        }
        i += 1;
    }
    proof {
        let r = overrides_view(out@);
        assert forall|a: int| 0 <= a < r.len() implies #[trigger] override_key(g, r[a]) == entry_key(
            s[idxs[a]],
        ) by {
            assert(r[a] == out@[a]@);
        }
        assert forall|a: int, b: int| 0 <= a < b < r.len() implies override_key(g, #[trigger] r[a])
            != override_key(g, #[trigger] r[b]) by {
            assert(override_key(g, r[a]) == entry_key(s[idxs[a]]));
            assert(override_key(g, r[b]) == entry_key(s[idxs[b]]));
            assert(idxs[a] < idxs[b]);
        }
        assert forall|a: int| 0 <= a < r.len() implies keeps(keep@, (#[trigger] r[a]).origin)
            && store@.overrides.contains_key(override_key(g, r[a])) && store@.overrides[override_key(
            g,
            r[a],
        )] == r[a] by {
            assert(override_key(g, r[a]) == entry_key(s[idxs[a]]));
            lemma_map_at(s, idxs[a]);
        }
        assert forall|k: (Seq<u8>, LocationView, HunkHeader)|
            #[trigger] store@.overrides.contains_key(k) && k.0 == g && keeps(keep@, k.1) implies exists|
            a: int,
        | 0 <= a < r.len() && override_key(g, #[trigger] r[a]) == k by {
            let j = choose|j: int| 0 <= j < s.len() && #[trigger] entry_key(s[j]) == k;
            assert(s[j].0@ == g);
            let a = choose|a: int| 0 <= a < idxs.len() && idxs[a] == j;
            assert(override_key(g, r[a]) == entry_key(s[idxs[a]]));
        }
    }
    out
}

/// List **all** overrides for the project at `gitdir`, regardless of
/// origin, once each and in no particular order.
pub fn list_overrides(store: &OverrideStore, gitdir: &[u8]) -> (r: Vec<SubHunkOverride>)
    requires
        store.wf(),
    ensures
        is_listing(store@, gitdir@, FilterView::All, overrides_view(r@)),
{
    list_overrides_filtered(store, gitdir, &LocationFilter::All)
}

/// List only the **worktree-anchored** overrides for `gitdir`.
///
/// Commit-anchored overrides reference hunks inside a specific commit's
/// diff and must not be reconciled against the worktree.
pub fn list_worktree_overrides(store: &OverrideStore, gitdir: &[u8]) -> (r: Vec<SubHunkOverride>)
    requires
        store.wf(),
    ensures
        is_listing(store@, gitdir@, FilterView::Worktree, overrides_view(r@)),
{
    list_overrides_filtered(store, gitdir, &LocationFilter::Worktree)
}

/// List only the overrides for `gitdir` anchored in the commit with raw
/// object id `commit_id`.
pub fn list_commit_overrides(store: &OverrideStore, gitdir: &[u8], commit_id: &[u8]) -> (r: Vec<
    SubHunkOverride,
>)
    requires
        store.wf(),
    ensures
        is_listing(store@, gitdir@, FilterView::Commit(commit_id@), overrides_view(r@)),
{
    let id = copy_bytes_slice(commit_id);
    let f = LocationFilter::Commit { id };
    list_overrides_filtered(store, gitdir, &f)
}

/// Insert or replace an override; its own origin and anchor are its key.
pub fn upsert_override(store: &mut OverrideStore, gitdir: &[u8], ov: SubHunkOverride)
    requires
        old(store).wf(),
    ensures
        final(store).wf(),
        final(store)@ == store_insert(old(store)@, gitdir@, ov@),
{
    store.insert(gitdir, ov);
}

/// Insert or replace an override at an explicit origin `location`, which
/// becomes the stored override's origin as well as its key.
///
/// The location's path must be the override's path.
pub fn upsert_override_at(
    store: &mut OverrideStore,
    gitdir: &[u8],
    location: SubHunkOriginLocation,
    ov: SubHunkOverride,
)
    requires
        old(store).wf(),
        location_path(location@) == ov.path@,
    ensures
        final(store).wf(),
        final(store)@ == store_insert(old(store)@, gitdir@, OverrideView { origin: location@, ..ov@ }),
{
    let mut ov = ov;
    ov.origin = location;
    store.insert(gitdir, ov);
}

/// The store key of the worktree-anchored override of `path` at `anchor`.
pub open spec fn worktree_key(gitdir: Seq<u8>, path: Seq<u8>, anchor: HunkHeader) -> (
    Seq<u8>,
    LocationView,
    HunkHeader,
) {
    (gitdir, LocationView::Worktree(path), anchor)
}

/// The store key of the override of `path` at `anchor` in commit `id`.
pub open spec fn commit_key(gitdir: Seq<u8>, id: Seq<u8>, path: Seq<u8>, anchor: HunkHeader) -> (
    Seq<u8>,
    LocationView,
    HunkHeader,
) {
    (gitdir, LocationView::Commit(id, path), anchor)
}

/// What the store holds under key `k`.
pub open spec fn stored_at(v: StoreView, k: (Seq<u8>, LocationView, HunkHeader)) -> Option<
    OverrideView,
> {
    if v.overrides.contains_key(k) {
        Some(v.overrides[k])
    } else {
        None
    }
}

/// The view of an optional override.
pub open spec fn opt_override(o: Option<SubHunkOverride>) -> Option<OverrideView> {
    match o {
        Some(ov) => Some(ov@),
        None => None,
    }
}

/// A copy of the override stored under `(gitdir, loc, anchor)`.
fn get_at(store: &OverrideStore, gitdir: &[u8], loc: &SubHunkOriginLocation, anchor: HunkHeader) -> (r:
    Option<SubHunkOverride>)
    requires
        store.wf(),
    ensures
        opt_override(r) == stored_at(store@, (gitdir@, loc@, anchor)),
{
    match store.find_entry(gitdir, loc, anchor) {
        Some(i) => {
            proof {
                lemma_map_at(store.entries@, i as int);
            }
            Some(store.entries[i].1.duplicate())
        },
        None => None,
    }
}

/// Look up the worktree-anchored override of `path` at `anchor`.
pub fn get_override(store: &OverrideStore, gitdir: &[u8], path: &[u8], anchor: HunkHeader) -> (r:
    Option<SubHunkOverride>)
    requires
        store.wf(),
    ensures
        opt_override(r) == stored_at(store@, worktree_key(gitdir@, path@, anchor)),
{
    let loc = SubHunkOriginLocation::worktree(copy_bytes_slice(path));
    get_at(store, gitdir, &loc, anchor)
}

/// Look up the override of `path` at `anchor` anchored in the commit with
/// raw object id `commit_id`.
pub fn get_commit_override(
    store: &OverrideStore,
    gitdir: &[u8],
    commit_id: &[u8],
    path: &[u8],
    anchor: HunkHeader,
) -> (r: Option<SubHunkOverride>)
    requires
        store.wf(),
    ensures
        opt_override(r) == stored_at(store@, commit_key(gitdir@, commit_id@, path@, anchor)),
{
    let loc = SubHunkOriginLocation::commit(copy_bytes_slice(commit_id), copy_bytes_slice(path));
    get_at(store, gitdir, &loc, anchor)
}

/// Remove the worktree-anchored override of `path` at `anchor`, returning
/// it if there was one.
pub fn remove_override(store: &mut OverrideStore, gitdir: &[u8], path: &[u8], anchor: HunkHeader) -> (r:
    Option<SubHunkOverride>)
    requires
        old(store).wf(),
    ensures
        final(store).wf(),
        final(store)@ == store_remove(old(store)@, worktree_key(gitdir@, path@, anchor)),
        opt_override(r) == stored_at(old(store)@, worktree_key(gitdir@, path@, anchor)),
{
    let loc = SubHunkOriginLocation::worktree(copy_bytes_slice(path));
    store.remove_key(gitdir, &loc, anchor)
}

/// The worktree keys of project `gitdir` named by `(path, anchor)` pairs.
pub open spec fn dropped_keys(gitdir: Seq<u8>, keys: Seq<(Seq<u8>, HunkHeader)>) -> Set<
    (Seq<u8>, LocationView, HunkHeader),
> {
    Set::new(
        |k: (Seq<u8>, LocationView, HunkHeader)|
            exists|j: int|
                0 <= j < keys.len() && k == worktree_key(gitdir, keys[j].0, #[trigger] keys[j].1),
    )
}

/// The views of `(path, anchor)` pairs.
pub open spec fn path_keys_view(keys: Seq<(Vec<u8>, HunkHeader)>) -> Seq<(Seq<u8>, HunkHeader)> {
    keys.map_values(|p: (Vec<u8>, HunkHeader)| (p.0@, p.1))
}

/// The store without the worktree overrides of project `gitdir` named by
/// `keys`.
pub open spec fn store_drop(v: StoreView, gitdir: Seq<u8>, keys: Seq<(Seq<u8>, HunkHeader)>) -> StoreView {
    StoreView { overrides: v.overrides.remove_keys(dropped_keys(gitdir, keys)), projects: v.projects }
}

/// Drop the worktree-anchored overrides whose `(path, anchor)` are listed
/// in `keys`.
pub fn drop_overrides(store: &mut OverrideStore, gitdir: &[u8], keys: &[(Vec<u8>, HunkHeader)])
    requires
        old(store).wf(),
    ensures
        final(store).wf(),
        final(store)@ == store_drop(old(store)@, gitdir@, path_keys_view(keys@)),
{
    let ghost v0 = store@;
    let ghost kv = path_keys_view(keys@);
    let mut i: usize = 0;
    assert(store@.overrides =~= v0.overrides.remove_keys(dropped_keys(gitdir@, kv.take(0))));
    while i < keys.len()
        invariant
            0 <= i <= keys@.len(),
            kv == path_keys_view(keys@),
            store.wf(),
            store@.projects == v0.projects,
            store@.overrides == v0.overrides.remove_keys(dropped_keys(gitdir@, kv.take(i as int))),
        decreases keys.len() - i,
    {
        let loc = SubHunkOriginLocation::worktree(copy_bytes(&keys[i].0));
        let _ = store.remove_key(gitdir, &loc, keys[i].1);
        proof {
            let k = worktree_key(gitdir@, kv[i as int].0, kv[i as int].1);
            assert(kv[i as int] == (keys@[i as int].0@, keys@[i as int].1));
            assert(dropped_keys(gitdir@, kv.take(i + 1)) =~= dropped_keys(gitdir@, kv.take(i as int)).insert(k)) by {
                assert forall|x: (Seq<u8>, LocationView, HunkHeader)| #[trigger] dropped_keys(gitdir@, kv.take(i + 1)).contains(x)
                    implies dropped_keys(gitdir@, kv.take(i as int)).insert(k).contains(x) by {
                    let j = choose|j: int| 0 <= j < kv.take(i + 1).len() && x == worktree_key(gitdir@, kv.take(i + 1)[j].0, #[trigger] kv.take(i + 1)[j].1);
                    if j < i {
                        assert(kv.take(i as int)[j] == kv.take(i + 1)[j]);
                    }
                }
                assert forall|x: (Seq<u8>, LocationView, HunkHeader)| #[trigger] dropped_keys(gitdir@, kv.take(i as int)).insert(k).contains(x)
                    implies dropped_keys(gitdir@, kv.take(i + 1)).contains(x) by {
                    if x == k {
                        assert(kv.take(i + 1)[i as int] == kv[i as int]);
                    } else {
                        let j = choose|j: int| 0 <= j < kv.take(i as int).len() && x == worktree_key(gitdir@, kv.take(i as int)[j].0, #[trigger] kv.take(i as int)[j].1);
                        assert(kv.take(i as int)[j] == kv.take(i + 1)[j]);
                    }
                }
            }
            assert(store@.overrides =~= v0.overrides.remove_keys(dropped_keys(gitdir@, kv.take(i + 1))));
        }
        i += 1;
    }
    assert(kv.take(keys@.len() as int) =~= kv);
}

/// The store with the overrides `ms` inserted in turn for project `gitdir`.
pub open spec fn store_insert_all(v: StoreView, gitdir: Seq<u8>, ms: Seq<OverrideView>) -> StoreView
    decreases ms.len(),
{
    if ms.len() == 0 {
        v
    } else {
        store_insert(store_insert_all(v, gitdir, ms.drop_last()), gitdir, ms.last())
    }
}

/// Move the worktree override of `path` at `old_anchor` to the migrated
/// overrides `ms`: when project `gitdir` exists, the old key goes and each
/// migrated override is stored under its own key; otherwise nothing changes.
pub open spec fn store_migrate(
    v: StoreView,
    gitdir: Seq<u8>,
    path: Seq<u8>,
    old_anchor: HunkHeader,
    ms: Seq<OverrideView>,
) -> StoreView {
    if v.projects.contains(gitdir) {
        store_insert_all(store_remove(v, worktree_key(gitdir, path, old_anchor)), gitdir, ms)
    } else {
        v
    }
}

/// Move a stored override from its old `(path, old_anchor)` key to the
/// migrated overrides, each stored under its own key.
pub fn migrate_stored_override_multi(
    store: &mut OverrideStore,
    gitdir: &[u8],
    path: &[u8],
    old_anchor: HunkHeader,
    migrated: Vec<SubHunkOverride>,
)
    requires
        old(store).wf(),
    ensures
        final(store).wf(),
        final(store)@ == store_migrate(old(store)@, gitdir@, path@, old_anchor, overrides_view(migrated@)),
{
    if !store.has_project(gitdir) {
        return;
    }
    let ghost ms = overrides_view(migrated@);
    let loc = SubHunkOriginLocation::worktree(copy_bytes_slice(path));
    let _ = store.remove_key(gitdir, &loc, old_anchor);
    let ghost v1 = store@;
    let mut i: usize = 0;
    assert(ms.take(0) =~= Seq::<OverrideView>::empty());
    while i < migrated.len()
        invariant
            0 <= i <= migrated@.len(),
            ms == overrides_view(migrated@),
            store.wf(),
            store@ == store_insert_all(v1, gitdir@, ms.take(i as int)),
        decreases migrated.len() - i,
    {
        let m = migrated[i].duplicate();
        store.insert(gitdir, m);
        proof {
            assert(ms.take(i + 1).drop_last() =~= ms.take(i as int));
            assert(ms.take(i + 1).last() == migrated@[i as int]@);
        }
        i += 1;
    }
    assert(ms.take(migrated@.len() as int) =~= ms);
}

/// Move a stored override from its old `(path, old_anchor)` key to the
/// migrated override's own key.
pub fn migrate_stored_override(
    store: &mut OverrideStore,
    gitdir: &[u8],
    path: &[u8],
    old_anchor: HunkHeader,
    migrated: SubHunkOverride,
)
    requires
        old(store).wf(),
    ensures
        final(store).wf(),
        final(store)@ == store_migrate(old(store)@, gitdir@, path@, old_anchor, seq![migrated@]),
{
    let ghost mv = migrated@;
    let v = vec![migrated];
    assert(overrides_view(v@) =~= seq![mv]);
    migrate_stored_override_multi(store, gitdir, path, old_anchor, v);
}

/// The store after the migrations among the first `n` outcomes of the
/// overrides `ovs` of project `gitdir`, in order.
pub open spec fn migrate_upto(
    v: StoreView,
    gitdir: Seq<u8>,
    ovs: Seq<OverrideView>,
    outs: Seq<OutcomeView>,
    n: int,
) -> StoreView
    decreases n,
{
    if n <= 0 {
        v
    } else {
        let prev = migrate_upto(v, gitdir, ovs, outs, n - 1);
        match outs[n - 1] {
            OutcomeView::Migrated(ms) => store_migrate(prev, gitdir, ovs[n - 1].path, ovs[n - 1].anchor, ms),
            _ => prev,
        }
    }
}

/// The `(path, anchor)` keys of the overrides among the first `n` whose
/// outcome is a drop, in order.
pub open spec fn drop_keys_upto(ovs: Seq<OverrideView>, outs: Seq<OutcomeView>, n: int) -> Seq<
    (Seq<u8>, HunkHeader),
>
    decreases n,
{
    if n <= 0 {
        seq![]
    } else {
        let prev = drop_keys_upto(ovs, outs, n - 1);
        if outs[n - 1] is Drop {
            prev.push((ovs[n - 1].path, ovs[n - 1].anchor))
        } else {
            prev
        }
    }
}

/// The store after a reconcile of the overrides `ovs` of project `gitdir`
/// with outcomes `outs`: first every migration, in order, then every drop.
pub open spec fn reconcile_store(
    v: StoreView,
    gitdir: Seq<u8>,
    ovs: Seq<OverrideView>,
    outs: Seq<OutcomeView>,
) -> StoreView {
    store_drop(
        migrate_upto(v, gitdir, ovs, outs, ovs.len() as int),
        gitdir,
        drop_keys_upto(ovs, outs, ovs.len() as int),
    )
}

/// A copy of a list of overrides.
fn copy_overrides(v: &Vec<SubHunkOverride>) -> (r: Vec<SubHunkOverride>)
    ensures
        overrides_view(r@) == overrides_view(v@),
{
    let mut out: Vec<SubHunkOverride> = Vec::new();
    let mut i: usize = 0;
    while i < v.len()
        invariant
            0 <= i <= v@.len(),
            overrides_view(out@) == overrides_view(v@.take(i as int)),
        decreases v.len() - i,
    {
        let ghost prev = out@;
        out.push(v[i].duplicate());
        assert(overrides_view(out@) =~= overrides_view(v@.take(i + 1))) by {
            assert(overrides_view(prev).len() == i);
            assert forall|k: int| 0 <= k < i + 1 implies #[trigger] overrides_view(out@)[k]
                == overrides_view(v@.take(i + 1))[k] by {
                if k < i {
                    assert(out@[k] == prev[k]);
                    assert(overrides_view(prev)[k] == overrides_view(v@.take(i as int))[k]);
                }
            }
        }
        i += 1;
    }
    assert(v@.take(v@.len() as int) =~= v@);
    out
}

/// Every assignment on the path of a worktree-anchored override of project
/// `gitdir` fits: the assignments that reconciling may carve.
pub open spec fn fits_on_stored_paths(v: StoreView, gitdir: Seq<u8>, s: Seq<AssignmentView>) -> bool {
    forall|k: int, key: (Seq<u8>, LocationView, HunkHeader)|
        #![trigger s[k], v.overrides[key]]
        0 <= k < s.len() && v.overrides.contains_key(key) && key.0 == gitdir && key.1 is Worktree
            && s[k].path_bytes == v.overrides[key].path ==> assignment_fits(s[k])
}

/// Apply the worktree-anchored overrides of project `gitdir` to
/// `assignments`, then update the store from the outcomes: migrated
/// overrides move to their new keys and unmatched ones are dropped.
///
/// The overrides are applied in the order the store lists them; the
/// result is stated for that listing.
pub fn reconcile_with_overrides(
    store: &mut OverrideStore,
    gitdir: &[u8],
    assignments: &mut Vec<HunkAssignment>,
)
    requires
        old(store).wf(),
        fits_on_stored_paths(old(store)@, gitdir@, views_of(old(assignments)@)),
    ensures
        final(store).wf(),
        all_fit(views_of(old(assignments)@)) ==> all_fit(views_of(final(assignments)@)),
        exists|ovs: Seq<OverrideView>|
            #[trigger] is_listing(old(store)@, gitdir@, FilterView::Worktree, ovs)
                && fits_on_paths(views_of(final(assignments)@), ovs)
                && views_of(final(assignments)@) == apply_all(
                views_of(old(assignments)@),
                ovs,
                ovs.len() as int,
            ).0 && ids_match(
                final(assignments)@,
                apply_all_marks(
                    views_of(old(assignments)@),
                    kept_marks(old(assignments)@),
                    ovs,
                    ovs.len() as int,
                ),
            ) && final(store)@ == reconcile_store(
                old(store)@,
                gitdir@,
                ovs,
                apply_all(views_of(old(assignments)@), ovs, ovs.len() as int).1,
            ),
{
    let ghost v0 = store@;
    let ghost a0 = views_of(assignments@);
    let ghost asg0 = assignments@;
    let overrides = list_worktree_overrides(store, gitdir);
    let ghost ovs = overrides_view(overrides@);
    assert(fits_on_paths(a0, ovs)) by {
        assert forall|k: int, j: int|
            0 <= k < a0.len() && 0 <= j < ovs.len() && a0[k].path_bytes == ovs[j].path implies assignment_fits(
            a0[k],
        ) by {
            let key = override_key(gitdir@, ovs[j]);
            assert(v0.overrides[key] == ovs[j]);
        }
    }
    if overrides.len() == 0 {
        proof {
            let outs = apply_all(a0, ovs, 0).1;
            assert(drop_keys_upto(ovs, outs, 0) =~= Seq::<(Seq<u8>, HunkHeader)>::empty());
            assert(dropped_keys(gitdir@, drop_keys_upto(ovs, outs, 0)) =~= Set::empty());
            assert(v0.overrides.remove_keys(Set::empty()) =~= v0.overrides);
            assert(is_listing(v0, gitdir@, FilterView::Worktree, ovs));
            assert(ids_match(asg0, kept_marks(asg0)));
        }
        return;
    }
    let outcomes = apply_overrides_to_assignments(assignments, overrides.as_slice());
    let ghost outs = outcomes_view(outcomes@);
    let mut to_drop: Vec<(Vec<u8>, HunkHeader)> = Vec::new();
    let mut i: usize = 0;
    assert(path_keys_view(to_drop@) =~= drop_keys_upto(ovs, outs, 0));
    while i < overrides.len()
        invariant
            0 <= i <= overrides@.len(),
            ovs == overrides_view(overrides@),
            outs == outcomes_view(outcomes@),
            outcomes@.len() == overrides@.len(),
            store.wf(),
            store@ == migrate_upto(v0, gitdir@, ovs, outs, i as int),
            path_keys_view(to_drop@) == drop_keys_upto(ovs, outs, i as int),
        decreases overrides.len() - i,
    {
        let ov = &overrides[i];
        assert(ovs[i as int] == ov@);
        assert(outs[i as int] == outcomes@[i as int]@);
        let ghost before = to_drop@;
        match &outcomes[i] {
            OverrideOutcome::KeepAsIs => {},
            OverrideOutcome::Drop => {
                to_drop.push((copy_bytes(&ov.path), ov.anchor));
                assert(path_keys_view(to_drop@) =~= path_keys_view(before).push((ov.path@, ov.anchor)));
            },
            OverrideOutcome::Migrated(list) => {
                let ms = copy_overrides(list);
                migrate_stored_override_multi(store, gitdir, ov.path.as_slice(), ov.anchor, ms);
            },
        }
        i += 1;
    }
    drop_overrides(store, gitdir, to_drop.as_slice());
    assert(is_listing(v0, gitdir@, FilterView::Worktree, ovs));
}

/// Reading after a write: right after `ov` is stored, its key holds it,
/// and every other key holds what it held before.
pub proof fn lemma_get_after_upsert(
    v: StoreView,
    gitdir: Seq<u8>,
    ov: OverrideView,
    k: (Seq<u8>, LocationView, HunkHeader),
)
    ensures
        stored_at(store_insert(v, gitdir, ov), override_key(gitdir, ov)) == Some(ov),
        k != override_key(gitdir, ov) ==> stored_at(store_insert(v, gitdir, ov), k) == stored_at(
            v,
            k,
        ),
{
}

/// A second write to the same key replaces the first.
pub proof fn lemma_upsert_replaces(v: StoreView, gitdir: Seq<u8>, a: OverrideView, b: OverrideView)
    requires
        override_key(gitdir, a) == override_key(gitdir, b),
    ensures
        store_insert(store_insert(v, gitdir, a), gitdir, b) == store_insert(v, gitdir, b),
{
    assert(store_insert(store_insert(v, gitdir, a), gitdir, b).overrides =~= store_insert(
        v,
        gitdir,
        b,
    ).overrides);
    assert(store_insert(store_insert(v, gitdir, a), gitdir, b).projects =~= store_insert(
        v,
        gitdir,
        b,
    ).projects);
}

/// Removing what was just written leaves the key empty; when the key was
/// empty before the write, the overrides are back to what they were.
pub proof fn lemma_remove_after_upsert(v: StoreView, gitdir: Seq<u8>, ov: OverrideView)
    ensures
        stored_at(
            store_remove(store_insert(v, gitdir, ov), override_key(gitdir, ov)),
            override_key(gitdir, ov),
        ) is None,
        !v.overrides.contains_key(override_key(gitdir, ov)) ==> store_remove(
            store_insert(v, gitdir, ov),
            override_key(gitdir, ov),
        ).overrides == v.overrides,
{
    if !v.overrides.contains_key(override_key(gitdir, ov)) {
        assert(store_remove(store_insert(v, gitdir, ov), override_key(gitdir, ov)).overrides
            =~= v.overrides);
    }
}

/// Storing a commit-anchored override changes no worktree lookup.
pub proof fn lemma_commit_overrides_isolated(
    v: StoreView,
    gitdir: Seq<u8>,
    ov: OverrideView,
    g: Seq<u8>,
    path: Seq<u8>,
    anchor: HunkHeader,
)
    requires
        ov.origin is Commit,
    ensures
        stored_at(store_insert(v, gitdir, ov), worktree_key(g, path, anchor)) == stored_at(
            v,
            worktree_key(g, path, anchor),
        ),
{
}

/// Inserting overrides none of which has key `k` leaves `k` as it was.
proof fn lemma_insert_all_other(v: StoreView, gitdir: Seq<u8>, ms: Seq<OverrideView>, k: (
    Seq<u8>,
    LocationView,
    HunkHeader,
))
    requires
        forall|j: int| 0 <= j < ms.len() ==> override_key(gitdir, #[trigger] ms[j]) != k,
    ensures
        stored_at(store_insert_all(v, gitdir, ms), k) == stored_at(v, k),
    decreases ms.len(),
{
    if ms.len() > 0 {
        assert forall|j: int| 0 <= j < ms.drop_last().len() implies override_key(
            gitdir,
            #[trigger] ms.drop_last()[j],
        ) != k by {
            assert(ms.drop_last()[j] == ms[j]);
        }
        lemma_insert_all_other(v, gitdir, ms.drop_last(), k);
        assert(override_key(gitdir, ms[ms.len() - 1]) != k);
    }
}

/// The outcomes of applying overrides in turn: one per override, each that
/// of its override applied to the assignments the earlier ones left.
pub proof fn lemma_apply_all_outcomes(a: Seq<crate::model::AssignmentView>, ovs: Seq<OverrideView>, n: int)
    requires
        0 <= n,
    ensures
        apply_all(a, ovs, n).1.len() == n,
        forall|i: int|
            0 <= i < n ==> #[trigger] apply_all(a, ovs, n).1[i] == crate::apply::apply_one(
                apply_all(a, ovs, i).0,
                ovs[i],
            ).1,
    decreases n,
{
    if n > 0 {
        lemma_apply_all_outcomes(a, ovs, n - 1);
        assert forall|i: int| 0 <= i < n implies #[trigger] apply_all(a, ovs, n).1[i]
            == crate::apply::apply_one(apply_all(a, ovs, i).0, ovs[i]).1 by {
            if i < n - 1 {
                assert(apply_all(a, ovs, n).1[i] == apply_all(a, ovs, n - 1).1[i]);
            }
        }
    }
}

/// A migrated outcome of a worktree override lists only overrides with that
/// override's origin.
proof fn lemma_outcome_origin(s: Seq<crate::model::AssignmentView>, ov: OverrideView)
    ensures
        crate::apply::apply_one(s, ov).1 matches OutcomeView::Migrated(ms) ==> forall|j: int|
            0 <= j < ms.len() ==> (#[trigger] ms[j]).origin == ov.origin,
{
    crate::migrate::lemma_migrate_keeps_origin(ov, s);
    let ms0 = crate::migrate::spec_migrate(ov, s);
    let ms = ms0.map_values(|p: (int, OverrideView)| p.1);
    assert forall|j: int| 0 <= j < ms.len() implies (#[trigger] ms[j]).origin == ov.origin by {
        assert(ms[j] == ms0[j].1);
    }
}

/// A worktree reconcile of project `gitdir` leaves every override that is
/// not worktree-anchored in that project exactly as it was: commit-anchored
/// overrides and other projects' overrides survive it untouched.
pub proof fn lemma_reconcile_keeps_other_overrides(
    v: StoreView,
    gitdir: Seq<u8>,
    a: Seq<crate::model::AssignmentView>,
    ovs: Seq<OverrideView>,
    k: (Seq<u8>, LocationView, HunkHeader),
)
    requires
        is_listing(v, gitdir, FilterView::Worktree, ovs),
        k.0 != gitdir || k.1 is Commit,
    ensures
        stored_at(
            reconcile_store(v, gitdir, ovs, apply_all(a, ovs, ovs.len() as int).1),
            k,
        ) == stored_at(v, k),
{
    let outs = apply_all(a, ovs, ovs.len() as int).1;
    lemma_apply_all_outcomes(a, ovs, ovs.len() as int);
    lemma_migrate_upto_other(v, gitdir, a, ovs, outs, k, ovs.len() as int);
    let m = migrate_upto(v, gitdir, ovs, outs, ovs.len() as int);
    let keys = drop_keys_upto(ovs, outs, ovs.len() as int);
    assert(!dropped_keys(gitdir, keys).contains(k));
}

/// The migrations of a worktree reconcile leave key `k` as it was.
proof fn lemma_migrate_upto_other(
    v: StoreView,
    gitdir: Seq<u8>,
    a: Seq<crate::model::AssignmentView>,
    ovs: Seq<OverrideView>,
    outs: Seq<OutcomeView>,
    k: (Seq<u8>, LocationView, HunkHeader),
    n: int,
)
    requires
        is_listing(v, gitdir, FilterView::Worktree, ovs),
        k.0 != gitdir || k.1 is Commit,
        0 <= n <= ovs.len(),
        outs.len() == ovs.len(),
        forall|i: int|
            0 <= i < ovs.len() ==> #[trigger] outs[i] == crate::apply::apply_one(
                apply_all(a, ovs, i).0,
                ovs[i],
            ).1,
    ensures
        stored_at(migrate_upto(v, gitdir, ovs, outs, n), k) == stored_at(v, k),
    decreases n,
{
    if n > 0 {
        lemma_migrate_upto_other(v, gitdir, a, ovs, outs, k, n - 1);
        let prev = migrate_upto(v, gitdir, ovs, outs, n - 1);
        let ov = ovs[n - 1];
        assert(keeps(FilterView::Worktree, ov.origin));
        match outs[n - 1] {
            OutcomeView::Migrated(ms) => {
                lemma_outcome_origin(apply_all(a, ovs, n - 1).0, ov);
                if prev.projects.contains(gitdir) {
                    let r = store_remove(prev, worktree_key(gitdir, ov.path, ov.anchor));
                    assert forall|j: int| 0 <= j < ms.len() implies override_key(
                        gitdir,
                        #[trigger] ms[j],
                    ) != k by {
                        assert(ms[j].origin == ov.origin);
                    }
                    lemma_insert_all_other(r, gitdir, ms, k);
                }
            },
            _ => {},
        }
    }
}

/// The keys of project `gitdir`.
pub open spec fn project_keys(gitdir: Seq<u8>) -> Set<(Seq<u8>, LocationView, HunkHeader)> {
    Set::new(|k: (Seq<u8>, LocationView, HunkHeader)| k.0 == gitdir)
}

impl OverrideStore {
    /// The index of some entry of project `gitdir`.
    fn find_project_entry(&self, gitdir: &[u8]) -> (r: Option<usize>)
        ensures
            r matches Some(i) ==> i < self.entries@.len() && self.entries@[i as int].0@ == gitdir@,
            r is None ==> forall|i: int| 0 <= i < self.entries@.len() ==> (#[trigger] self.entries@[i]).0@ != gitdir@,
    {
        let mut i: usize = 0;
        while i < self.entries.len()
            invariant
                0 <= i <= self.entries@.len(),
                forall|j: int| 0 <= j < i ==> (#[trigger] self.entries@[j]).0@ != gitdir@,
            decreases self.entries.len() - i,
        {
            if bytes_eq(self.entries[i].0.as_slice(), gitdir) {
                return Some(i);
            }
            i += 1;
        }
        None
    }

    /// The index of project `gitdir` in the project list.
    fn find_project(&self, gitdir: &[u8]) -> (r: Option<usize>)
        ensures
            r matches Some(i) ==> i < self.projects@.len() && self.projects@[i as int]@ == gitdir@,
            r is None ==> !gitdir_set(self.projects@).contains(gitdir@),
    {
        let mut i: usize = 0;
        while i < self.projects.len()
            invariant
                0 <= i <= self.projects@.len(),
                forall|j: int| 0 <= j < i ==> #[trigger] self.projects@[j]@ != gitdir@,
            decreases self.projects.len() - i,
        {
            if bytes_eq(self.projects[i].as_slice(), gitdir) {
                return Some(i);
            }
            i += 1;
        }
        None
    }
}

/// Forget every project and override.
pub fn clear_store_for_tests(store: &mut OverrideStore)
    requires
        old(store).wf(),
    ensures
        final(store).wf(),
        final(store)@.overrides == Map::<(Seq<u8>, LocationView, HunkHeader), OverrideView>::empty(),
        final(store)@.projects == Set::<Seq<u8>>::empty(),
{
    clear_store_for_tests_at(store, None);
}

/// Forget project `gitdir` and its overrides, or every project when
/// `gitdir` is `None`.
pub fn clear_store_for_tests_at(store: &mut OverrideStore, gitdir: Option<&[u8]>)
    requires
        old(store).wf(),
    ensures
        final(store).wf(),
        gitdir is None ==> final(store)@.overrides == Map::<
            (Seq<u8>, LocationView, HunkHeader),
            OverrideView,
        >::empty() && final(store)@.projects == Set::<Seq<u8>>::empty(),
        gitdir matches Some(g) ==> final(store)@.overrides == old(store)@.overrides.remove_keys(
            project_keys(g@),
        ) && final(store)@.projects == old(store)@.projects.remove(g@),
{
    match gitdir {
        None => {
            store.entries = Vec::new();
            store.projects = Vec::new();
            assert(store@.overrides =~= Map::<(Seq<u8>, LocationView, HunkHeader), OverrideView>::empty());
            assert(store@.projects =~= Set::<Seq<u8>>::empty());
        },
        Some(g) => {
            clear_project(store, g);
        },
    }
}

/// Forget project `gitdir` and its overrides.
fn clear_project(store: &mut OverrideStore, gitdir: &[u8])
    requires
        old(store).wf(),
    ensures
        final(store).wf(),
        final(store)@.overrides == old(store)@.overrides.remove_keys(project_keys(gitdir@)),
        final(store)@.projects == old(store)@.projects.remove(gitdir@),
{
    let ghost g = gitdir@;
    let ghost m0 = store@.overrides;
    let mut found = store.find_project_entry(gitdir);
    while found.is_some()
        invariant
            store.wf(),
            g == gitdir@,
            store@.overrides.remove_keys(project_keys(g)) == m0.remove_keys(project_keys(g)),
            store@.projects == old(store)@.projects,
            found matches Some(i) ==> i < store.entries@.len() && store.entries@[i as int].0@ == g,
            found is None ==> forall|i: int|
                0 <= i < store.entries@.len() ==> (#[trigger] store.entries@[i]).0@ != g,
        decreases store.entries@.len(),
    {
        let i = found.unwrap();
        let ghost before = store.entries@;
        proof {
            lemma_map_remove(before, i as int);
        }
        store.entries.remove(i);
        proof {
            assert forall|j: int| 0 <= j < store.entries@.len() implies gitdir_set(
                store.projects@,
            ).contains(#[trigger] store.entries@[j].0@) by {
                let j2 = if j < i { j } else { j + 1 };
                assert(store.entries@[j] == before[j2]);
            }
            let k = entry_key(before[i as int]);
            assert(project_keys(g).contains(k));
            assert(overrides_map(before).remove(k).remove_keys(project_keys(g)) =~= overrides_map(
                before,
            ).remove_keys(project_keys(g)));
        }
        found = store.find_project_entry(gitdir);
    }
    proof {
        assert(store@.overrides =~= store@.overrides.remove_keys(project_keys(g))) by {
            assert forall|k: (Seq<u8>, LocationView, HunkHeader)| store@.overrides.contains_key(k)
                implies !project_keys(g).contains(k) by {
                let j = choose|j: int| 0 <= j < store.entries@.len() && #[trigger] entry_key(
                    store.entries@[j],
                ) == k;
                assert(store.entries@[j].0@ != g);
            }
        }
    }
    let ghost mid_entries = store.entries@;
    let mut p = store.find_project(gitdir);
    while p.is_some()
        invariant
            g == gitdir@,
            store.entries@ == mid_entries,
            keys_distinct(store.entries@),
            forall|i: int| 0 <= i < store.entries@.len() ==> (#[trigger] store.entries@[i]).0@ != g,
            forall|i: int|
                0 <= i < store.entries@.len() ==> gitdir_set(store.projects@).contains(
                    #[trigger] store.entries@[i].0@,
                ) || store.entries@[i].0@ == g,
            gitdir_set(store.projects@).remove(g) == old(store)@.projects.remove(g),
            p matches Some(i) ==> i < store.projects@.len() && store.projects@[i as int]@ == g,
            p is None ==> !gitdir_set(store.projects@).contains(g),
        decreases store.projects@.len(),
    {
        let i = p.unwrap();
        let ghost before = store.projects@;
        store.projects.remove(i);
        proof {
            let mid = store.projects@;
            assert forall|x: Seq<u8>| #[trigger] gitdir_set(mid).remove(g).contains(x) <==> gitdir_set(
                before,
            ).remove(g).contains(x) by {
                if x != g && gitdir_set(before).contains(x) {
                    let j = choose|j: int| 0 <= j < before.len() && #[trigger] before[j]@ == x;
                    assert(j != i);
                    let j2 = if j < i { j } else { j - 1 };
                    assert(mid[j2] == before[j]);
                }
                if gitdir_set(mid).contains(x) {
                    let j = choose|j: int| 0 <= j < mid.len() && #[trigger] mid[j]@ == x;
                    let j2 = if j < i { j } else { j + 1 };
                    assert(mid[j] == before[j2]);
                }
            }
            assert(gitdir_set(mid).remove(g) =~= gitdir_set(before).remove(g));
            assert forall|e: int| 0 <= e < store.entries@.len() implies gitdir_set(store.projects@).contains(
                #[trigger] store.entries@[e].0@,
            ) || store.entries@[e].0@ == g by {
                let x = store.entries@[e].0@;
                if gitdir_set(before).contains(x) && x != g {
                    assert(gitdir_set(before).remove(g).contains(x));
                    assert(gitdir_set(mid).remove(g).contains(x));
                }
            }
        }
        p = store.find_project(gitdir);
    }
    proof {
        assert(store@.projects =~= old(store)@.projects.remove(g)) by {
            assert(gitdir_set(store.projects@) =~= gitdir_set(store.projects@).remove(g));
        }
    }
}

} // verus!
