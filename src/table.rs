//! The table of recent projects: at most one entry per path, each opened at
//! least once, with the operations that record, list, remove and clear them.

use vstd::prelude::*;

use crate::project::{
    entries, lemma_listed_before_total, lemma_listed_before_transitive, listed_before, project_name, project_name_of, sorted_recent, ProjectEntry,
    RecentProject,
};
use crate::text::{text_less, text_lt};

verus! {

/// How many projects a listing holds when the caller gives no limit.
pub const DEFAULT_LIMIT: usize = 10;

/// No two entries share a path.
pub open spec fn unique_paths(rows: Seq<ProjectEntry>) -> bool {
    forall|i: int, j: int|
        0 <= i < rows.len() && 0 <= j < rows.len() && #[trigger] rows[i].path
            == #[trigger] rows[j].path ==> i == j
}

/// Paths are unique and every entry was opened at least once.
pub open spec fn well_formed(rows: Seq<ProjectEntry>) -> bool {
    &&& unique_paths(rows)
    &&& forall|i: int| 0 <= i < rows.len() ==> #[trigger] rows[i].access_count >= 1
}

/// Some entry has path `p`.
pub open spec fn has_path(rows: Seq<ProjectEntry>, p: Seq<char>) -> bool {
    exists|i: int| 0 <= i < rows.len() && #[trigger] rows[i].path == p
}

/// The position of the entry with path `p`, where there is one.
pub open spec fn path_index(rows: Seq<ProjectEntry>, p: Seq<char>) -> int {
    choose|i: int| 0 <= i < rows.len() && #[trigger] rows[i].path == p
}

/// The stored time after an access at `now`: never earlier than before.
pub open spec fn later_of(previous: Seq<char>, now: Seq<char>) -> Seq<char> {
    if text_lt(now, previous) {
        previous
    } else {
        now
    }
}

/// An entry after one more access at `now`.
pub open spec fn touched(e: ProjectEntry, now: Seq<char>) -> ProjectEntry {
    ProjectEntry {
        path: e.path,
        name: e.name,
        last_accessed: later_of(e.last_accessed, now),
        access_count: e.access_count + 1,
    }
}

/// The entry made by the first access to `p` at `now`.
pub open spec fn fresh_entry(p: Seq<char>, now: Seq<char>) -> ProjectEntry {
    ProjectEntry { path: p, name: project_name_of(p), last_accessed: now, access_count: 1 }
}

/// The table after an access to `p` at `now`: the entry of `p` is touched in
/// place, or a fresh one is added at the end.
pub open spec fn accessed(rows: Seq<ProjectEntry>, p: Seq<char>, now: Seq<char>) -> Seq<
    ProjectEntry,
> {
    if has_path(rows, p) {
        let i = path_index(rows, p);
        rows.update(i, touched(rows[i], now))
    } else {
        rows.push(fresh_entry(p, now))
    }
}

/// The counter of `p` is already at the largest value it can hold.
pub open spec fn count_saturated(rows: Seq<ProjectEntry>, p: Seq<char>) -> bool {
    has_path(rows, p) && rows[path_index(rows, p)].access_count >= i32::MAX
}

/// The number of projects a listing asks for.
pub open spec fn limit_or_default(limit: Option<usize>) -> nat {
    match limit {
        Some(n) => n as nat,
        None => DEFAULT_LIMIT as nat,
    }
}

/// `r` lists the first `n` projects of `rows` (all of them where there are
/// fewer), most recent first: an entry listed earlier was accessed later, or
/// at the same time and at least as often, and no entry left out may be
/// listed before one that was kept.
pub open spec fn is_listing(rows: Seq<ProjectEntry>, n: nat, r: Seq<ProjectEntry>) -> bool {
    &&& r.len() == (if n < rows.len() {
        n
    } else {
        rows.len()
    })
    &&& sorted_recent(r)
    &&& unique_paths(r)
    &&& forall|i: int| 0 <= i < r.len() ==> rows.contains(#[trigger] r[i])
    &&& forall|k: int, i: int|
        0 <= k < rows.len() && 0 <= i < r.len() && !r.contains(rows[k]) ==> listed_before(
            #[trigger] r[i],
            #[trigger] rows[k],
        )
}

proof fn lemma_insert_keeps_order(s: Seq<ProjectEntry>, pos: int, x: ProjectEntry)
    requires
        sorted_recent(s),
        0 <= pos <= s.len(),
        forall|i: int| 0 <= i < pos ==> listed_before(#[trigger] s[i], x),
        pos < s.len() ==> !listed_before(s[pos], x),
    ensures
        sorted_recent(s.insert(pos, x)),
{
    s.insert_ensures(pos, x);
    let t = s.insert(pos, x);
    assert forall|i: int, j: int| 0 <= i < j < t.len() implies listed_before(
        #[trigger] t[i],
        #[trigger] t[j],
    ) by {
        if i == pos {
            lemma_listed_before_total(s[pos], x);
            if j - 1 > pos {
                lemma_listed_before_transitive(x, s[pos], s[j - 1]);
            }
        } else if i < pos && j > pos {
            assert(t[j] == s[j - 1]);
        } else if i > pos {
            assert(t[i] == s[i - 1]);
            assert(t[j] == s[j - 1]);
        }
    }
}

/// The table without the entry of `p`.
pub open spec fn removed(rows: Seq<ProjectEntry>, p: Seq<char>) -> Seq<ProjectEntry> {
    rows.filter(|e: ProjectEntry| e.path != p)
}

/// A table of recent projects.
pub struct RecentProjects {
    rows: Vec<RecentProject>,
}

impl View for RecentProjects {
    type V = Seq<ProjectEntry>;

    closed spec fn view(&self) -> Seq<ProjectEntry> {
        entries(self.rows@)
    }
}

impl RecentProjects {
    pub open spec fn wf(&self) -> bool {
        well_formed(self@)
    }

    /// An empty table.
    pub fn new() -> (r: RecentProjects)
        ensures
            r@ == Seq::<ProjectEntry>::empty(),
            r.wf(),
    {
        let r = RecentProjects { rows: Vec::new() };
        assert(r@ =~= Seq::<ProjectEntry>::empty());
        r
    }

    /// The table holding `rows` in that order, where they are well formed.
    pub fn from_rows(rows: Vec<RecentProject>) -> (r: Option<RecentProjects>)
        ensures
            r is Some <==> well_formed(entries(rows@)),
            r is Some ==> r->0@ == entries(rows@),
    {
        let ghost e = entries(rows@);
        let n = rows.len();
        let mut i: usize = 0;
        while i < n
            invariant
                n == rows@.len(),
                e == entries(rows@),
                i <= n,
                forall|a: int| 0 <= a < i ==> #[trigger] e[a].access_count >= 1,
                forall|a: int, b: int|
                    0 <= a < i && 0 <= b < n && #[trigger] e[a].path == #[trigger] e[b].path
                        ==> a == b,
            decreases n - i,
        {
            if rows[i].access_count < 1 {
                assert(e[i as int].access_count < 1);
                return None;
            }
            let mut j: usize = 0;
            while j < n
                invariant
                    n == rows@.len(),
                    e == entries(rows@),
                    i < n,
                    j <= n,
                    forall|b: int|
                        0 <= b < j && #[trigger] e[b].path == e[i as int].path ==> b == i,
                decreases n - j,
            {
                if j != i && rows[j].path == rows[i].path {
                    assert(e[j as int].path == e[i as int].path);
                    return None;
                }
                j = j + 1;
            }
            i = i + 1;
        }
        Some(RecentProjects { rows })
    }

    /// How many projects the table holds.
    pub fn len(&self) -> (r: usize)
        ensures
            r == self@.len(),
    {
        self.rows.len()
    }

    /// Where the project at `path` stands, if the table holds one.
    fn position(&self, path: &String) -> (r: Option<usize>)
        requires
            self.wf(),
        ensures
            r is None <==> !has_path(self@, path@),
            r is Some ==> r->0 == path_index(self@, path@) && r->0 < self@.len(),
    {
        let n = self.rows.len();
        let mut i: usize = 0;
        while i < n
            invariant
                self.wf(),
                n == self@.len(),
                i <= n,
                forall|a: int| 0 <= a < i ==> #[trigger] self@[a].path != path@,
            decreases n - i,
        {
            if self.rows[i].path == *path {
                assert(self@[i as int].path == path@);
                assert(has_path(self@, path@));
                let ghost k = path_index(self@, path@);
                assert(self@[k].path == self@[i as int].path);
                return Some(i);
            }
            i = i + 1;
        }
        None
    }

    /// A copy of the project at `path`, if the table holds one.
    pub fn find(&self, path: &String) -> (r: Option<RecentProject>)
        requires
            self.wf(),
        ensures
            r is None <==> !has_path(self@, path@),
            r is Some ==> r->0@ == self@[path_index(self@, path@)],
    {
        match self.position(path) {
            Some(i) => Some(self.rows[i].duplicate()),
            None => None,
        }
    }
}

/// Copies of all `rows`, most recent first.
fn sorted_copy(rows: &Vec<RecentProject>) -> (out: Vec<RecentProject>)
    requires
        unique_paths(entries(rows@)),
    ensures
        out@.len() == rows@.len(),
        sorted_recent(entries(out@)),
        unique_paths(entries(out@)),
        forall|i: int| 0 <= i < out@.len() ==> entries(rows@).contains(#[trigger] entries(out@)[i]),
        forall|k: int| 0 <= k < rows@.len() ==> entries(out@).contains(#[trigger] entries(rows@)[k]),
{
    let ghost e = entries(rows@);
    let n = rows.len();
    let mut out: Vec<RecentProject> = Vec::new();
    let mut k: usize = 0;
    while k < n
        invariant
            n == rows@.len(),
            e == entries(rows@),
            unique_paths(e),
            k <= n,
            out@.len() == k,
            sorted_recent(entries(out@)),
            unique_paths(entries(out@)),
            forall|i: int|
                0 <= i < out@.len() ==> exists|w: int|
                    0 <= w < k && #[trigger] entries(out@)[i] == e[w],
            forall|w: int| 0 <= w < k ==> entries(out@).contains(#[trigger] e[w]),
        decreases n - k,
    {
        let x = rows[k].duplicate();
        let ghost o = entries(out@);
        let mut pos: usize = 0;
        while pos < out.len() && out[pos].lists_before(&x)
            invariant
                o == entries(out@),
                pos <= out@.len(),
                x@ == e[k as int],
                forall|i: int| 0 <= i < pos ==> listed_before(#[trigger] o[i], x@),
            decreases out@.len() - pos,
        {
            pos = pos + 1;
        }
        proof {
            lemma_insert_keeps_order(o, pos as int, x@);
            o.insert_ensures(pos as int, x@);
        }
        out.insert(pos, x);
        proof {
            let t = entries(out@);
            assert(t =~= o.insert(pos as int, e[k as int]));
            assert forall|i: int| 0 <= i < t.len() implies exists|w: int|
                0 <= w < k + 1 && #[trigger] t[i] == e[w] by {
                if i < pos {
                    assert(t[i] == o[i]);
                } else if i > pos {
                    assert(t[i] == o[i - 1]);
                } else {
                    assert(t[i] == e[k as int]);
                }
            }
            assert forall|w: int| 0 <= w < k + 1 implies t.contains(#[trigger] e[w]) by {
                if w == k {
                    assert(t[pos as int] == e[w]);
                } else {
                    assert(o.contains(e[w]));
                    let a = choose|a: int| 0 <= a < o.len() && o[a] == e[w];
                    if a < pos {
                        assert(t[a] == e[w]);
                    } else {
                        assert(t[a + 1] == e[w]);
                    }
                }
            }
            assert forall|i: int, j: int|
                0 <= i < t.len() && 0 <= j < t.len() && #[trigger] t[i].path == #[trigger] t[j].path
                    implies i == j by {
                if i != j && (i == pos || j == pos) {
                    let other = if i == pos { j } else { i };
                    let a = if other < pos { other } else { other - 1 };
                    assert(t[other] == o[a]);
                    let w = choose|w: int| 0 <= w < k && #[trigger] o[a] == e[w];
                    assert(e[w].path == e[k as int].path);
                } else if i != j {
                    let a = if i < pos { i } else { i - 1 };
                    let b = if j < pos { j } else { j - 1 };
                    assert(o[a].path == o[b].path);
                }
            }
        }
        k = k + 1;
    }
    out
}

/// The projects of the table, most recent first: at most `limit` of them,
/// or `DEFAULT_LIMIT` where no limit is given.
pub fn get_recent_projects(projects: &RecentProjects, limit: Option<usize>) -> (r: Vec<
    RecentProject,
>)
    requires
        projects.wf(),
    ensures
        is_listing(projects@, limit_or_default(limit), entries(r@)),
{
    let n = match limit {
        Some(n) => n,
        None => DEFAULT_LIMIT,
    };
    let mut out = sorted_copy(&projects.rows);
    let ghost full = entries(out@);
    out.truncate(n);
    proof {
        let e = projects@;
        let r = entries(out@);
        assert(r =~= full.subrange(0, r.len() as int));
        assert forall|i: int| 0 <= i < r.len() implies e.contains(#[trigger] r[i]) by {
            assert(r[i] == full[i]);
        }
        assert forall|k: int, i: int|
            0 <= k < e.len() && 0 <= i < r.len() && !r.contains(e[k]) implies listed_before(
            #[trigger] r[i],
            #[trigger] e[k],
        ) by {
            assert(full.contains(e[k]));
            let t = choose|t: int| 0 <= t < full.len() && full[t] == e[k];
            if t < r.len() {
                assert(r[t] == e[k]);
            }
            assert(r[i] == full[i]);
        }
    }
    out
}

/// Records that the project at `path` was opened at time `now`.
///
/// The entry of `path` gets one more access and the later of its stored time
/// and `now`; without one, a fresh entry is added with one access and the
/// final segment of `path` as its name. Fails, changing nothing, only where
/// the counter of `path` cannot grow.
pub fn add_recent_project(projects: &mut RecentProjects, path: String, now: String) -> (r: Result<
    (),
    String,
>)
    requires
        old(projects).wf(),
    ensures
        final(projects).wf(),
        r is Err <==> count_saturated(old(projects)@, path@),
        r is Ok ==> final(projects)@ == accessed(old(projects)@, path@, now@),
        r is Err ==> final(projects)@ == old(projects)@,
{
    match projects.position(&path) {
        Some(i) => {
            let count = projects.rows[i].access_count;
            if count == i32::MAX {
                return Err(String::from_str("the access count of this project cannot grow"));
            }
            let previous = &projects.rows[i];
            let stamp = if text_less(now.as_str(), previous.last_accessed.as_str()) {
                previous.last_accessed.clone()
            } else {
                now
            };
            let entry = RecentProject {
                path: previous.path.clone(),
                name: previous.name.clone(),
                last_accessed: stamp,
                access_count: count + 1,
            };
            let ghost before = projects@;
            projects.rows.set(i, entry);
            assert(projects@ =~= accessed(before, path@, now@));
            Ok(())
        },
        None => {
            let name = project_name(&path);
            let entry = RecentProject { path, name, last_accessed: now, access_count: 1 };
            let ghost before = projects@;
            projects.rows.push(entry);
            assert(projects@ =~= accessed(before, path@, now@));
            assert(projects.wf()) by {
                assert(forall|a: int| 0 <= a < before.len() ==> #[trigger] before[a].path != path@);
            }
            Ok(())
        },
    }
}

/// Forgets the project at `path`; a path the table does not hold is no error.
pub fn remove_recent_project(projects: &mut RecentProjects, path: String)
    requires
        old(projects).wf(),
    ensures
        final(projects).wf(),
        final(projects)@ == removed(old(projects)@, path@),
{
    let ghost e = projects@;
    let n = projects.rows.len();
    let mut kept: Vec<RecentProject> = Vec::new();
    let mut i: usize = 0;
    while i < n
        invariant
            e == projects@,
            well_formed(e),
            n == e.len(),
            i <= n,
            entries(kept@) == removed(e.subrange(0, i as int), path@),
            unique_paths(entries(kept@)),
            forall|a: int|
                0 <= a < kept@.len() ==> exists|w: int|
                    0 <= w < i && #[trigger] entries(kept@)[a] == e[w],
        decreases n - i,
    {
        let ghost before = entries(kept@);
        proof {
            reveal(Seq::filter);
            assert(e.subrange(0, i + 1).drop_last() =~= e.subrange(0, i as int));
            assert(e.subrange(0, i + 1).last() == e[i as int]);
        }
        if !(projects.rows[i].path == path) {
            kept.push(projects.rows[i].duplicate());
            proof {
                let t = entries(kept@);
                assert(t =~= before.push(e[i as int]));
                assert forall|a: int| 0 <= a < t.len() implies exists|w: int|
                    0 <= w < i + 1 && #[trigger] t[a] == e[w] by {
                    if a < before.len() {
                        assert(t[a] == before[a]);
                    } else {
                        assert(t[a] == e[i as int]);
                    }
                }
                assert forall|a: int, b: int|
                    0 <= a < t.len() && 0 <= b < t.len() && #[trigger] t[a].path
                        == #[trigger] t[b].path implies a == b by {
                    if a != b && (a == before.len() || b == before.len()) {
                        let other = if a == before.len() { b } else { a };
                        assert(t[other] == before[other]);
                        let w = choose|w: int| 0 <= w < i && #[trigger] before[other] == e[w];
                        assert(e[w].path == e[i as int].path);
                    } else if a != b {
                        assert(before[a].path == before[b].path);
                    }
                }
            }
        }
        i = i + 1;
    }
    assert(e.subrange(0, n as int) =~= e);
    projects.rows = kept;
    assert forall|a: int| 0 <= a < projects@.len() implies #[trigger] projects@[a].access_count
        >= 1 by {
        let w = choose|w: int| 0 <= w < n && #[trigger] projects@[a] == e[w];
    }
}

/// Forgets every project.
pub fn clear_recent_projects(projects: &mut RecentProjects)
    ensures
        final(projects).wf(),
        final(projects)@ == Seq::<ProjectEntry>::empty(),
{
    projects.rows.clear();
    assert(projects@ =~= Seq::<ProjectEntry>::empty());
}

} // verus!
