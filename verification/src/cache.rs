//! The frequency cache: how often each path was asked for, and the bodies of
//! the paths asked for most.

use crate::bytes::{copy_bytes, same_bytes};
use vstd::prelude::*;

verus! {

/// A path with the number of times it was asked for.
pub struct Entry {
    pub path: Vec<u8>,
    pub count: u64,
}

/// A path with the bytes of its file.
pub struct FileBody {
    pub path: Vec<u8>,
    pub body: Vec<u8>,
}

/// The access counts of all paths seen, in the order of their first request,
/// and the bodies of at most `capacity` of them.
pub struct Cache {
    capacity: usize,
    counts: Vec<Entry>,
    bodies: Vec<FileBody>,
}

/// Paths with their counts, in the order of first request.
pub type Tally = Seq<(Seq<u8>, nat)>;

/// Paths with their bodies.
pub type Files = Seq<(Seq<u8>, Seq<u8>)>;

/// The mathematical value of a list of files.
pub open spec fn files_view(files: Seq<FileBody>) -> Files {
    Seq::new(files.len(), |i: int| (files[i].path@, files[i].body@))
}

/// A count after one more access. It stays at the largest value once there.
pub open spec fn bump(count: nat) -> nat {
    if count < u64::MAX {
        count + 1
    } else {
        count
    }
}

/// The place of `path` in `t`, where it has one.
pub open spec fn place_of(t: Tally, path: Seq<u8>) -> Option<int> {
    if exists|i: int| 0 <= i < t.len() && t[i].0 == path {
        Some(choose|i: int| 0 <= i < t.len() && t[i].0 == path)
    } else {
        None
    }
}

/// How often `path` was asked for, by `t`.
pub open spec fn count_at(t: Tally, path: Seq<u8>) -> nat {
    match place_of(t, path) {
        Some(i) => t[i].1,
        None => 0,
    }
}

/// No path has two places in `t`.
pub open spec fn distinct_paths(t: Tally) -> bool {
    forall|i: int, j: int| 0 <= i < j < t.len() ==> t[i].0 != t[j].0
}

/// The tally after one more access to `path`.
pub open spec fn recorded(t: Tally, path: Seq<u8>) -> Tally {
    match place_of(t, path) {
        Some(i) => t.update(i, (path, bump(t[i].1))),
        None => t.push((path, 1)),
    }
}

/// The entry at `i` ranks before the entry at `j`: it has the higher count,
/// or the same count and was seen first.
pub open spec fn outranks(t: Tally, i: int, j: int) -> bool {
    t[i].1 > t[j].1 || (t[i].1 == t[j].1 && i < j)
}

/// `sel` lists the places of the `k` highest-ranking entries of `t` (all of
/// them where there are fewer), highest first.
pub open spec fn is_top(t: Tally, k: nat, sel: Seq<int>) -> bool {
    &&& sel.len() == if k < t.len() { k } else { t.len() }
    &&& forall|a: int| 0 <= a < sel.len() ==> 0 <= #[trigger] sel[a] < t.len()
    &&& forall|a: int, b: int|
        0 <= a < b < sel.len() ==> outranks(t, #[trigger] sel[a], #[trigger] sel[b])
    &&& forall|a: int, j: int|
        0 <= a < sel.len() && 0 <= j < t.len() && !sel.contains(j) ==> #[trigger] outranks(
            t,
            sel[a],
            j,
        )
}

/// The places of the `k` highest-ranking entries of `t`, highest first.
pub open spec fn ranking(t: Tally, k: nat) -> Seq<int> {
    choose|sel: Seq<int>| is_top(t, k, sel)
}

/// The body filed under `path`, where there is one: the first such.
pub open spec fn body_in(files: Files, path: Seq<u8>) -> Option<Seq<u8>>
    decreases files.len(),
{
    if files.len() == 0 {
        None
    } else if files[0].0 == path {
        Some(files[0].1)
    } else {
        body_in(files.skip(1), path)
    }
}

/// The bodies to hold for the entries at the places `sel`, in that order:
/// for each the cached body, else the loaded one, else none.
pub open spec fn kept(sel: Seq<int>, t: Tally, cached: Files, loaded: Files) -> Files
    decreases sel.len(),
{
    if sel.len() == 0 {
        Seq::empty()
    } else {
        let rest = kept(sel.drop_last(), t, cached, loaded);
        let path = t[sel.last()].0;
        match body_in(cached, path) {
            Some(body) => rest.push((path, body)),
            None => match body_in(loaded, path) {
                Some(body) => rest.push((path, body)),
                None => rest,
            },
        }
    }
}

/// The paths among the entries at the places `sel` that have no cached body,
/// in that order.
pub open spec fn lacking(sel: Seq<int>, t: Tally, cached: Files) -> Seq<Seq<u8>>
    decreases sel.len(),
{
    if sel.len() == 0 {
        Seq::empty()
    } else {
        let rest = lacking(sel.drop_last(), t, cached);
        let path = t[sel.last()].0;
        if body_in(cached, path) is None {
            rest.push(path)
        } else {
            rest
        }
    }
}

/// The view of a list of paths.
pub open spec fn paths_view(paths: Seq<Vec<u8>>) -> Seq<Seq<u8>> {
    Seq::new(paths.len(), |i: int| paths[i]@)
}

/// The view of a list of places.
pub open spec fn places_view(places: Seq<usize>) -> Seq<int> {
    Seq::new(places.len(), |i: int| places[i] as int)
}

/// Where no path has two places, a place that holds `path` is its place.
proof fn lemma_place(t: Tally, path: Seq<u8>, i: int)
    requires
        distinct_paths(t),
        0 <= i < t.len(),
        t[i].0 == path,
    ensures
        place_of(t, path) == Some(i),
{
    let c = choose|c: int| 0 <= c < t.len() && t[c].0 == path;
    if c < i {
        assert(t[c].0 != t[i].0);
    } else if i < c {
        assert(t[i].0 != t[c].0);
    }
}

/// One more access to `path` raises the count of `path` by one, up to the
/// largest count, and leaves every other count as it was: no count ever
/// falls.
pub proof fn lemma_recorded_counts(t: Tally, path: Seq<u8>, p: Seq<u8>)
    requires
        distinct_paths(t),
    ensures
        distinct_paths(recorded(t, path)),
        count_at(recorded(t, path), p) == if p == path {
            bump(count_at(t, p))
        } else {
            count_at(t, p)
        },
        count_at(recorded(t, path), p) >= count_at(t, p),
{
    let after = recorded(t, path);
    match place_of(t, path) {
        Some(i) => {
            assert(after.len() == t.len());
            assert forall|a: int, b: int| 0 <= a < b < after.len() implies after[a].0
                != after[b].0 by {
                assert(t[a].0 != t[b].0);
            }
            if p == path {
                lemma_place(after, p, i);
            } else {
                match place_of(t, p) {
                    Some(j) => {
                        assert(after[j] == t[j]);
                        lemma_place(after, p, j);
                    },
                    None => {
                        assert forall|j: int| 0 <= j < after.len() implies after[j].0 != p by {
                            assert(t[j].0 != p || j == i);
                        }
                    },
                }
            }
        },
        None => {
            let last = t.len() as int;
            assert forall|a: int, b: int| 0 <= a < b < after.len() implies after[a].0
                != after[b].0 by {
                if b < last {
                    assert(t[a].0 != t[b].0);
                } else {
                    assert(t[a].0 != path);
                }
            }
            if p == path {
                lemma_place(after, p, last);
            } else {
                match place_of(t, p) {
                    Some(j) => {
                        assert(after[j] == t[j]);
                        lemma_place(after, p, j);
                    },
                    None => {
                        assert forall|j: int| 0 <= j < after.len() implies after[j].0 != p by {
                            if j < last {
                                assert(t[j].0 != p);
                            }
                        }
                    },
                }
            }
        },
    }
}

/// Two lists of the `k` highest-ranking entries agree on their first `upto`
/// places.
proof fn lemma_top_agree(t: Tally, k: nat, s1: Seq<int>, s2: Seq<int>, upto: int)
    requires
        is_top(t, k, s1),
        is_top(t, k, s2),
        0 <= upto <= s1.len(),
    ensures
        forall|x: int| 0 <= x < upto ==> s1[x] == s2[x],
    decreases upto,
{
    if upto > 0 {
        lemma_top_agree(t, k, s1, s2, upto - 1);
        let x = upto - 1;
        if s1[x] != s2[x] {
            lemma_ahead(t, k, s1, s2, x);
            lemma_ahead(t, k, s2, s1, x);
        }
    }
}

/// Where two such lists agree before `x` and differ at `x`, the entry of the
/// first one ranks before that of the second.
proof fn lemma_ahead(t: Tally, k: nat, s1: Seq<int>, s2: Seq<int>, x: int)
    requires
        is_top(t, k, s1),
        is_top(t, k, s2),
        0 <= x < s1.len(),
        forall|y: int| 0 <= y < x ==> s1[y] == s2[y],
        s1[x] != s2[x],
    ensures
        outranks(t, s1[x], s2[x]),
{
    let j = s2[x];
    if s1.contains(j) {
        let y = choose|y: int| 0 <= y < s1.len() && s1[y] == j;
        if y < x {
            assert(s2[y] == s1[y]);
            assert(outranks(t, s2[y], s2[x]));
        } else {
            assert(outranks(t, s1[x], s1[y]));
        }
    } else {
        assert(outranks(t, s1[x], j));
    }
}

/// The `k` highest-ranking entries are determined by the tally: any list that
/// holds them highest first is the ranking.
pub proof fn lemma_ranking_unique(t: Tally, k: nat, sel: Seq<int>)
    requires
        is_top(t, k, sel),
    ensures
        sel == ranking(t, k),
        is_top(t, k, ranking(t, k)),
{
    let r = ranking(t, k);
    lemma_top_agree(t, k, sel, r, sel.len() as int);
    assert(sel =~= r);
}

/// No more bodies are kept than places are given.
pub proof fn lemma_kept_len(sel: Seq<int>, t: Tally, cached: Files, loaded: Files)
    ensures
        kept(sel, t, cached, loaded).len() <= sel.len(),
    decreases sel.len(),
{
    if sel.len() > 0 {
        lemma_kept_len(sel.drop_last(), t, cached, loaded);
    }
}

/// Where every entry at the places `sel` has a cached or a loaded body, the
/// bodies kept are those of exactly these entries, in the same order.
pub proof fn lemma_kept_all(sel: Seq<int>, t: Tally, cached: Files, loaded: Files)
    requires
        forall|a: int|
            0 <= a < sel.len() ==> body_in(cached, t[#[trigger] sel[a]].0) is Some || body_in(
                loaded,
                t[sel[a]].0,
            ) is Some,
    ensures
        kept(sel, t, cached, loaded).len() == sel.len(),
        forall|a: int|
            0 <= a < sel.len() ==> (#[trigger] kept(sel, t, cached, loaded)[a]).0 == t[sel[a]].0,
    decreases sel.len(),
{
    if sel.len() > 0 {
        let front = sel.drop_last();
        assert forall|a: int| 0 <= a < front.len() implies body_in(
            cached,
            t[#[trigger] front[a]].0,
        ) is Some || body_in(loaded, t[front[a]].0) is Some by {
            assert(front[a] == sel[a]);
        }
        lemma_kept_all(front, t, cached, loaded);
        assert(sel.last() == sel[sel.len() - 1]);
        assert forall|a: int| 0 <= a < sel.len() implies (#[trigger] kept(
            sel,
            t,
            cached,
            loaded,
        )[a]).0 == t[sel[a]].0 by {
            if a < front.len() {
                assert(front[a] == sel[a]);
            }
        }
    }
}

/// A path at one of the places `sel` that has no cached body is among those
/// lacking.
pub proof fn lemma_lacking_has(sel: Seq<int>, t: Tally, cached: Files, a: int)
    requires
        0 <= a < sel.len(),
        body_in(cached, t[sel[a]].0) is None,
    ensures
        lacking(sel, t, cached).contains(t[sel[a]].0),
    decreases sel.len(),
{
    let all = lacking(sel, t, cached);
    let path = t[sel[a]].0;
    if a == sel.len() - 1 {
        assert(all[all.len() - 1] == path);
    } else {
        let front = sel.drop_last();
        assert(front[a] == sel[a]);
        lemma_lacking_has(front, t, cached, a);
        let rest = lacking(front, t, cached);
        let i = choose|i: int| 0 <= i < rest.len() && rest[i] == path;
        assert(all[i] == path);
    }
}

/// Every body kept belongs to one of the places `sel`: nothing else stays.
pub proof fn lemma_kept_within(sel: Seq<int>, t: Tally, cached: Files, loaded: Files, x: int)
    requires
        0 <= x < kept(sel, t, cached, loaded).len(),
    ensures
        exists|a: int| 0 <= a < sel.len() && kept(sel, t, cached, loaded)[x].0 == t[sel[a]].0,
    decreases sel.len(),
{
    if sel.len() > 0 {
        let front = sel.drop_last();
        let rest = kept(front, t, cached, loaded);
        if x < rest.len() {
            lemma_kept_within(front, t, cached, loaded, x);
            let a = choose|a: int| 0 <= a < front.len() && rest[x].0 == t[front[a]].0;
            assert(front[a] == sel[a]);
            assert(kept(sel, t, cached, loaded)[x].0 == t[sel[a]].0);
        } else {
            let a = sel.len() - 1;
            assert(kept(sel, t, cached, loaded)[x].0 == t[sel[a]].0);
        }
    }
}

/// Where every file that the cache lacks was loaded, the cache then holds the
/// bodies of exactly the `k` highest-ranking paths, highest first, and no
/// more than `k` of them.
pub proof fn lemma_refresh_holds_top(t: Tally, k: nat, cached: Files, loaded: Files)
    requires
        is_top(t, k, ranking(t, k)),
        forall|p: Seq<u8>| #[trigger]
            lacking(ranking(t, k), t, cached).contains(p) ==> body_in(loaded, p) is Some,
    ensures
        kept(ranking(t, k), t, cached, loaded).len() == ranking(t, k).len(),
        kept(ranking(t, k), t, cached, loaded).len() <= k,
        forall|a: int|
            0 <= a < ranking(t, k).len() ==> (#[trigger] kept(
                ranking(t, k),
                t,
                cached,
                loaded,
            )[a]).0 == t[ranking(t, k)[a]].0,
{
    let sel = ranking(t, k);
    assert forall|a: int| 0 <= a < sel.len() implies body_in(cached, t[#[trigger] sel[a]].0) is Some
        || body_in(loaded, t[sel[a]].0) is Some by {
        if body_in(cached, t[sel[a]].0) is None {
            lemma_lacking_has(sel, t, cached, a);
        }
    }
    lemma_kept_all(sel, t, cached, loaded);
}

/// The first body filed under `path` in `files`, where there is one.
pub fn find_body(files: &Vec<FileBody>, path: &[u8]) -> (r: Option<usize>)
    ensures
        match r {
            Some(i) => i < files.len() && body_in(files_view(files@), path@) == Some(
                files@[i as int].body@,
            ),
            None => body_in(files_view(files@), path@) is None,
        },
{
    let ghost all = files_view(files@);
    let mut i: usize = 0;
    proof {
        assert(all.skip(0) =~= all);
    }
    while i < files.len()
        invariant
            i <= files.len(),
            all == files_view(files@),
            body_in(all, path@) == body_in(all.skip(i as int), path@),
        decreases files.len() - i,
    {
        proof {
            assert(all.skip(i as int)[0] == all[i as int]);
            assert(all.skip(i as int).skip(1) =~= all.skip(i + 1));
        }
        if same_bytes(files[i].path.as_slice(), path) {
            return Some(i);
        }
        i += 1;
    }
    None
}

impl Cache {
    /// The access counts, in the order of first request.
    pub closed spec fn tally(&self) -> Tally {
        Seq::new(self.counts@.len(), |i: int| (self.counts@[i].path@, self.counts@[i].count as nat))
    }

    /// The cached bodies.
    pub closed spec fn cached(&self) -> Files {
        files_view(self.bodies@)
    }

    /// The number of bodies that may be cached.
    pub closed spec fn limit(&self) -> nat {
        self.capacity as nat
    }

    /// No path is counted twice, no count is zero, no more bodies are cached
    /// than the limit allows, and every cached path is a counted one.
    pub closed spec fn wf(&self) -> bool {
        &&& forall|i: int, j: int|
            0 <= i < j < self.counts@.len() ==> self.counts@[i].path@ != self.counts@[j].path@
        &&& forall|i: int| 0 <= i < self.counts@.len() ==> self.counts@[i].count >= 1
        &&& self.bodies@.len() <= self.capacity
        &&& forall|x: int|
            0 <= x < self.bodies@.len() ==> place_of(
                self.tally(),
                (#[trigger] self.bodies@[x]).path@,
            ) is Some
    }

    /// What `wf` says, over the views.
    pub proof fn lemma_wf(&self)
        requires
            self.wf(),
        ensures
            self.cached().len() <= self.limit(),
            distinct_paths(self.tally()),
            forall|i: int| 0 <= i < self.tally().len() ==> self.tally()[i].1 >= 1,
            forall|x: int|
                0 <= x < self.cached().len() ==> place_of(
                    self.tally(),
                    (#[trigger] self.cached()[x]).0,
                ) is Some,
    {
        assert forall|x: int| 0 <= x < self.cached().len() implies place_of(
            self.tally(),
            (#[trigger] self.cached()[x]).0,
        ) is Some by {
            assert(self.cached()[x].0 == self.bodies@[x].path@);
        }
    }

    /// An empty cache for at most `capacity` bodies.
    pub fn new(capacity: usize) -> (r: Cache)
        ensures
            r.wf(),
            r.limit() == capacity,
            r.tally() == Seq::<(Seq<u8>, nat)>::empty(),
            r.cached() == Seq::<(Seq<u8>, Seq<u8>)>::empty(),
    {
        let r = Cache { capacity, counts: Vec::new(), bodies: Vec::new() };
        proof {
            assert(r.tally() =~= Seq::<(Seq<u8>, nat)>::empty());
            assert(r.cached() =~= Seq::<(Seq<u8>, Seq<u8>)>::empty());
        }
        r
    }

    /// The number of bodies that may be cached.
    pub fn capacity(&self) -> (r: usize)
        ensures
            r == self.limit(),
    {
        self.capacity
    }

    /// The number of bodies cached.
    pub fn len(&self) -> (r: usize)
        ensures
            r == self.cached().len(),
    {
        self.bodies.len()
    }

    /// The place of `path` among the counts, where it has one.
    fn place(&self, path: &[u8]) -> (r: Option<usize>)
        requires
            self.wf(),
        ensures
            match r {
                Some(i) => i < self.counts@.len() && place_of(self.tally(), path@) == Some(
                    i as int,
                ),
                None => place_of(self.tally(), path@) is None,
            },
    {
        let mut i: usize = 0;
        while i < self.counts.len()
            invariant
                self.wf(),
                i <= self.counts@.len(),
                forall|j: int| 0 <= j < i ==> self.tally()[j].0 != path@,
            decreases self.counts.len() - i,
        {
            if same_bytes(self.counts[i].path.as_slice(), path) {
                proof {
                    let t = self.tally();
                    assert(t[i as int].0 == path@);
                    let c = choose|c: int| 0 <= c < t.len() && t[c].0 == path@;
                    assert(c == i) by {
                        if c < i {
                            assert(self.tally()[c].0 != path@);
                        } else if c > i {
                            assert(self.counts@[i as int].path@ != self.counts@[c].path@);
                        }
                    }
                }
                return Some(i);
            }
            i += 1;
        }
        None
    }

    /// How often `path` was asked for.
    pub fn count(&self, path: &[u8]) -> (r: u64)
        requires
            self.wf(),
        ensures
            r == count_at(self.tally(), path@),
    {
        match self.place(path) {
            Some(i) => self.counts[i].count,
            None => 0,
        }
    }

    /// Counts one more access to `path`.
    pub fn record(&mut self, path: &[u8])
        requires
            old(self).wf(),
        ensures
            final(self).wf(),
            final(self).limit() == old(self).limit(),
            final(self).cached() == old(self).cached(),
            final(self).tally() == recorded(old(self).tally(), path@),
    {
        match self.place(path) {
            Some(i) => {
                let seen: u64 = self.counts[i].count;
                let next: u64 = if seen < u64::MAX {
                    seen + 1
                } else {
                    seen
                };
                let entry = Entry { path: copy_bytes(path), count: next };
                self.counts.set(i, entry);
                proof {
                    assert(final(self).tally() =~= recorded(old(self).tally(), path@));
                    assert forall|x: int| 0 <= x < self.bodies@.len() implies place_of(
                        self.tally(),
                        (#[trigger] self.bodies@[x]).path@,
                    ) is Some by {
                        let p = self.bodies@[x].path@;
                        let before = old(self).tally();
                        assert(place_of(before, old(self).bodies@[x].path@) is Some);
                        let c = choose|c: int| 0 <= c < before.len() && before[c].0 == p;
                        assert(before[i as int].0 == path@);
                        assert(self.tally()[c].0 == p);
                    }
                }
            },
            None => {
                let entry = Entry { path: copy_bytes(path), count: 1 };
                self.counts.push(entry);
                proof {
                    assert(final(self).tally() =~= recorded(old(self).tally(), path@));
                    assert forall|i: int, j: int| 0 <= i < j < self.counts@.len() implies self.counts@[i].path@
                        != self.counts@[j].path@ by {
                        if j == self.counts@.len() - 1 {
                            assert(old(self).tally()[i].0 != path@);
                        }
                    }
                    assert forall|x: int| 0 <= x < self.bodies@.len() implies place_of(
                        self.tally(),
                        (#[trigger] self.bodies@[x]).path@,
                    ) is Some by {
                        let p = self.bodies@[x].path@;
                        let before = old(self).tally();
                        assert(place_of(before, old(self).bodies@[x].path@) is Some);
                        let c = choose|c: int| 0 <= c < before.len() && before[c].0 == p;
                        assert(self.tally()[c].0 == p);
                    }
                }
            },
        }
    }

    /// Whether the entry at `i` ranks before the entry at `j`.
    fn ahead(&self, i: usize, j: usize) -> (r: bool)
        requires
            i < self.counts@.len(),
            j < self.counts@.len(),
        ensures
            r == outranks(self.tally(), i as int, j as int),
    {
        let ci: u64 = self.counts[i].count;
        let cj: u64 = self.counts[j].count;
        ci > cj || (ci == cj && i < j)
    }

    /// The places of the highest-ranking entries, as many as the limit
    /// allows, highest first.
    fn select(&self) -> (r: Vec<usize>)
        ensures
            is_top(self.tally(), self.limit(), places_view(r@)),
            places_view(r@) == ranking(self.tally(), self.limit()),
            forall|a: int| 0 <= a < r@.len() ==> r@[a] < self.counts@.len(),
    {
        let n: usize = self.counts.len();
        let ghost t = self.tally();
        let mut order: Vec<usize> = Vec::new();
        let mut i: usize = 0;
        while i < n
            invariant
                i <= n,
                order@.len() == i,
                forall|b: int| 0 <= b < i ==> order@[b] == b,
            decreases n - i,
        {
            order.push(i);
            i += 1;
        }
        let ghost mut inv: Seq<int> = Seq::new(n as nat, |j: int| j);
        let m: usize = if self.capacity < n {
            self.capacity
        } else {
            n
        };
        let mut a: usize = 0;
        while a < m
            invariant
                n == self.counts@.len(),
                t == self.tally(),
                a <= m <= n,
                order@.len() == n,
                inv.len() == n,
                forall|b: int| 0 <= b < n ==> (#[trigger] order@[b]) < n && inv[order@[b] as int] == b,
                forall|j: int| 0 <= j < n ==> 0 <= (#[trigger] inv[j]) < n && order@[inv[j]] == j,
                forall|x: int, y: int|
                    0 <= x < a && x < y < n ==> outranks(
                        t,
                        #[trigger] order@[x] as int,
                        #[trigger] order@[y] as int,
                    ),
            decreases m - a,
        {
            let mut best: usize = a;
            let mut y: usize = a + 1;
            while y < n
                invariant
                    n == self.counts@.len(),
                    t == self.tally(),
                    a <= best < y <= n,
                    order@.len() == n,
                    inv.len() == n,
                    forall|b: int|
                        0 <= b < n ==> (#[trigger] order@[b]) < n && inv[order@[b] as int] == b,
                    forall|z: int|
                        a <= z < y && z != best ==> outranks(
                            t,
                            order@[best as int] as int,
                            #[trigger] order@[z] as int,
                        ),
                decreases n - y,
            {
                if self.ahead(order[y], order[best]) {
                    best = y;
                } else {
                    proof {
                        assert(order@[y as int] != order@[best as int]);
                    }
                }
                y += 1;
            }
            let first: usize = order[a];
            let chosen: usize = order[best];
            proof {
                assert forall|x: int| 0 <= x < a implies outranks(
                    t,
                    #[trigger] order@[x] as int,
                    chosen as int,
                ) && outranks(t, order@[x] as int, first as int) by {
                    assert(outranks(t, order@[x] as int, order@[best as int] as int));
                    assert(outranks(t, order@[x] as int, order@[a as int] as int));
                }
                inv = inv.update(chosen as int, a as int).update(first as int, best as int);
            }
            order.set(a, chosen);
            order.set(best, first);
            a += 1;
        }
        let mut sel: Vec<usize> = Vec::new();
        let mut c: usize = 0;
        while c < m
            invariant
                c <= m <= n,
                order@.len() == n,
                sel@.len() == c,
                forall|b: int| 0 <= b < c ==> sel@[b] == order@[b],
            decreases m - c,
        {
            sel.push(order[c]);
            c += 1;
        }
        proof {
            let sv = places_view(sel@);
            assert forall|x: int, j: int|
                0 <= x < sv.len() && 0 <= j < t.len() && !sv.contains(j) implies #[trigger] outranks(
                t,
                sv[x],
                j,
            ) by {
                let at = inv[j];
                if at < m {
                    assert(sv[at] == j);
                }
                assert(outranks(t, order@[x] as int, order@[at] as int));
            }
            assert forall|x: int, y: int| 0 <= x < y < sv.len() implies outranks(
                t,
                #[trigger] sv[x],
                #[trigger] sv[y],
            ) by {
                assert(outranks(t, order@[x] as int, order@[y] as int));
            }
            assert(is_top(t, self.limit(), sv));
            lemma_ranking_unique(t, self.limit(), sv);
        }
        sel
    }

    /// The paths among the highest-ranking entries that have no cached body,
    /// highest first: the files to read before `cache_message`.
    pub fn missing(&self) -> (r: Vec<Vec<u8>>)
        ensures
            is_top(self.tally(), self.limit(), ranking(self.tally(), self.limit())),
            paths_view(r@) == lacking(
                ranking(self.tally(), self.limit()),
                self.tally(),
                self.cached(),
            ),
    {
        let sel = self.select();
        let ghost sv = places_view(sel@);
        let ghost t = self.tally();
        let mut out: Vec<Vec<u8>> = Vec::new();
        let mut a: usize = 0;
        proof {
            assert(paths_view(out@) =~= lacking(sv.take(0), t, self.cached()));
        }
        while a < sel.len()
            invariant
                a <= sel@.len(),
                sv == places_view(sel@),
                t == self.tally(),
                forall|b: int| 0 <= b < sel@.len() ==> sel@[b] < self.counts@.len(),
                paths_view(out@) == lacking(sv.take(a as int), t, self.cached()),
            decreases sel.len() - a,
        {
            let at: usize = sel[a];
            proof {
                assert(sv.take(a + 1).drop_last() =~= sv.take(a as int));
                assert(sv.take(a + 1).last() == at);
            }
            let path = &self.counts[at].path;
            if find_body(&self.bodies, path.as_slice()).is_none() {
                let ghost before = paths_view(out@);
                out.push(copy_bytes(path.as_slice()));
                proof {
                    assert(paths_view(out@) =~= before.push(path@));
                }
            }
            a += 1;
        }
        proof {
            assert(sv.take(sel@.len() as int) =~= sv);
        }
        out
    }

    /// Brings the cached bodies up to date with the counts: keeps a body for
    /// each of the highest-ranking entries that has one cached or among
    /// `loaded`, and drops all others.
    pub fn refresh(&mut self, loaded: &Vec<FileBody>)
        requires
            old(self).wf(),
        ensures
            final(self).wf(),
            final(self).limit() == old(self).limit(),
            final(self).tally() == old(self).tally(),
            is_top(old(self).tally(), old(self).limit(), ranking(old(self).tally(), old(self).limit())),
            final(self).cached() == kept(
                ranking(old(self).tally(), old(self).limit()),
                old(self).tally(),
                old(self).cached(),
                files_view(loaded@),
            ),
    {
        let sel = self.select();
        let ghost sv = places_view(sel@);
        let ghost t = self.tally();
        let ghost had = self.cached();
        let ghost got = files_view(loaded@);
        let mut fresh: Vec<FileBody> = Vec::new();
        let mut a: usize = 0;
        proof {
            assert(files_view(fresh@) =~= kept(sv.take(0), t, had, got));
        }
        while a < sel.len()
            invariant
                a <= sel@.len(),
                sv == places_view(sel@),
                t == self.tally(),
                had == self.cached(),
                got == files_view(loaded@),
                forall|b: int| 0 <= b < sel@.len() ==> sel@[b] < self.counts@.len(),
                files_view(fresh@) == kept(sv.take(a as int), t, had, got),
            decreases sel.len() - a,
        {
            let at: usize = sel[a];
            proof {
                assert(sv.take(a + 1).drop_last() =~= sv.take(a as int));
                assert(sv.take(a + 1).last() == at);
            }
            let path = &self.counts[at].path;
            let ghost before = files_view(fresh@);
            match find_body(&self.bodies, path.as_slice()) {
                Some(i) => {
                    let body = copy_bytes(self.bodies[i].body.as_slice());
                    fresh.push(FileBody { path: copy_bytes(path.as_slice()), body });
                    proof {
                        assert(files_view(fresh@) =~= before.push((path@, body@)));
                    }
                },
                None => match find_body(loaded, path.as_slice()) {
                    Some(i) => {
                        let body = copy_bytes(loaded[i].body.as_slice());
                        fresh.push(FileBody { path: copy_bytes(path.as_slice()), body });
                        proof {
                            assert(files_view(fresh@) =~= before.push((path@, body@)));
                        }
                    },
                    None => {},
                },
            }
            a += 1;
        }
        proof {
            assert(sv.take(sel@.len() as int) =~= sv);
            lemma_kept_len(sv, t, had, got);
            assert forall|x: int| 0 <= x < fresh@.len() implies place_of(
                t,
                (#[trigger] fresh@[x]).path@,
            ) is Some by {
                lemma_kept_within(sv, t, had, got, x);
                let a = choose|a: int|
                    0 <= a < sv.len() && kept(sv, t, had, got)[x].0 == t[sv[a]].0;
                assert(files_view(fresh@)[x].0 == fresh@[x].path@);
                assert(t[sv[a]].0 == fresh@[x].path@);
            }
        }
        self.bodies = fresh;
    }

    /// The cached body of `path`, where there is one.
    pub fn lookup(&self, path: &[u8]) -> (r: Option<Vec<u8>>)
        ensures
            match r {
                Some(body) => body_in(self.cached(), path@) == Some(body@),
                None => body_in(self.cached(), path@) is None,
            },
    {
        match find_body(&self.bodies, path) {
            Some(i) => Some(copy_bytes(self.bodies[i].body.as_slice())),
            None => None,
        }
    }

    /// Counts one more access to `path` and names the files that the cache
    /// now wants and does not hold.
    pub fn cache_targets(&mut self, path: &[u8]) -> (r: Vec<Vec<u8>>)
        requires
            old(self).wf(),
        ensures
            final(self).wf(),
            final(self).limit() == old(self).limit(),
            final(self).cached() == old(self).cached(),
            final(self).tally() == recorded(old(self).tally(), path@),
            is_top(
                final(self).tally(),
                final(self).limit(),
                ranking(final(self).tally(), final(self).limit()),
            ),
            paths_view(r@) == lacking(
                ranking(final(self).tally(), final(self).limit()),
                final(self).tally(),
                final(self).cached(),
            ),
    {
        self.record(path);
        self.missing()
    }

    /// Takes in the files that were read, drops what no longer ranks among
    /// the most requested, and hands out the cached body of `path`, where
    /// there is one.
    pub fn cache_message(&mut self, path: &[u8], loaded: &Vec<FileBody>) -> (r: Option<Vec<u8>>)
        requires
            old(self).wf(),
        ensures
            final(self).wf(),
            final(self).limit() == old(self).limit(),
            final(self).tally() == old(self).tally(),
            is_top(old(self).tally(), old(self).limit(), ranking(old(self).tally(), old(self).limit())),
            final(self).cached() == kept(
                ranking(old(self).tally(), old(self).limit()),
                old(self).tally(),
                old(self).cached(),
                files_view(loaded@),
            ),
            match r {
                Some(body) => body_in(final(self).cached(), path@) == Some(body@),
                None => body_in(final(self).cached(), path@) is None,
            },
    {
        self.refresh(loaded);
        self.lookup(path)
    }
}

} // verus!
