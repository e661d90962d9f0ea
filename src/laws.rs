//! What holds of the table across its operations.

use vstd::prelude::*;

use crate::project::{listed_before, project_name_of, ProjectEntry};
use crate::table::{
    accessed, has_path, is_listing, path_index, removed, well_formed,
};
use crate::text::{lemma_text_lt_irreflexive, lemma_text_lt_total, text_lt};

verus! {

/// The first access to a path adds exactly one entry, at the end: it holds
/// the path, one access, the time of the access and the path's final segment
/// as its name. The other entries stay as they were, and paths stay unique.
pub proof fn first_access_adds_one_entry(rows: Seq<ProjectEntry>, p: Seq<char>, now: Seq<char>)
    requires
        well_formed(rows),
        !has_path(rows, p),
    ensures
        ({
            let a = accessed(rows, p, now);
            &&& a.len() == rows.len() + 1
            &&& well_formed(a)
            &&& a.subrange(0, rows.len() as int) == rows
            &&& a[rows.len() as int].path == p
            &&& a[rows.len() as int].access_count == 1
            &&& a[rows.len() as int].name == project_name_of(p)
            &&& a[rows.len() as int].last_accessed == now
            &&& forall|i: int| 0 <= i < a.len() && #[trigger] a[i].path == p ==> i == rows.len()
        }),
{
    let a = accessed(rows, p, now);
    assert(a.subrange(0, rows.len() as int) =~= rows);
    assert forall|i: int| 0 <= i < rows.len() implies #[trigger] a[i].path != p by {
        assert(a[i] == rows[i]);
    }
}

/// A further access to a recorded path adds no entry: it counts one more
/// access of that entry, whose stored time does not go back and is no
/// earlier than the access. Everything else stays, and paths stay unique.
pub proof fn repeated_access_counts_once(rows: Seq<ProjectEntry>, p: Seq<char>, now: Seq<char>)
    requires
        well_formed(rows),
        has_path(rows, p),
    ensures
        ({
            let a = accessed(rows, p, now);
            let i = path_index(rows, p);
            &&& 0 <= i < rows.len()
            &&& a.len() == rows.len()
            &&& well_formed(a)
            &&& a[i].path == p
            &&& a[i].name == rows[i].name
            &&& a[i].access_count == rows[i].access_count + 1
            &&& !text_lt(a[i].last_accessed, rows[i].last_accessed)
            &&& !text_lt(a[i].last_accessed, now)
            &&& forall|j: int| 0 <= j < a.len() && j != i ==> #[trigger] a[j] == rows[j]
            &&& forall|j: int| 0 <= j < a.len() && #[trigger] a[j].path == p ==> j == i
        }),
{
    let a = accessed(rows, p, now);
    let i = path_index(rows, p);
    lemma_text_lt_total(now, rows[i].last_accessed);
    lemma_text_lt_irreflexive(now);
    lemma_text_lt_irreflexive(rows[i].last_accessed);
    assert forall|j: int, k: int|
        0 <= j < a.len() && 0 <= k < a.len() && #[trigger] a[j].path == #[trigger] a[k].path
            implies j == k by {
        assert(rows[j].path == a[j].path && rows[k].path == a[k].path);
    }
    assert forall|j: int| 0 <= j < a.len() && #[trigger] a[j].path == p implies j == i by {
        assert(rows[j].path == p);
    }
}

/// A listing holds at most the requested number of entries, and each entry
/// was accessed later than the next, or at the same time and at least as often.
pub proof fn listing_is_bounded_and_ordered(rows: Seq<ProjectEntry>, n: nat, r: Seq<ProjectEntry>)
    requires
        is_listing(rows, n, r),
    ensures
        r.len() <= n,
        forall|i: int, j: int|
            0 <= i < j < r.len() ==> text_lt(r[j].last_accessed, r[i].last_accessed) || (
            r[i].last_accessed == r[j].last_accessed && r[i].access_count >= r[j].access_count),
{
    assert forall|i: int, j: int| 0 <= i < j < r.len() implies text_lt(
        r[j].last_accessed,
        r[i].last_accessed,
    ) || (r[i].last_accessed == r[j].last_accessed && r[i].access_count
        >= r[j].access_count) by {
        assert(listed_before(r[i], r[j]));
    }
}

/// Once a path is removed, no listing of the table holds it.
pub proof fn removed_path_is_never_listed(
    rows: Seq<ProjectEntry>,
    p: Seq<char>,
    n: nat,
    r: Seq<ProjectEntry>,
)
    requires
        is_listing(removed(rows, p), n, r),
    ensures
        forall|i: int| 0 <= i < r.len() ==> #[trigger] r[i].path != p,
{
    broadcast use vstd::seq_lib::group_filter_ensures;

    let kept = removed(rows, p);
    assert forall|i: int| 0 <= i < r.len() implies #[trigger] r[i].path != p by {
        assert(kept.contains(r[i]));
        let k = choose|k: int| 0 <= k < kept.len() && kept[k] == r[i];
        assert(kept[k].path != p);
    }
}

/// Removing a path that the table does not hold leaves it as it was.
pub proof fn removing_absent_path_changes_nothing(rows: Seq<ProjectEntry>, p: Seq<char>)
    requires
        !has_path(rows, p),
    ensures
        removed(rows, p) == rows,
    decreases rows.len(),
{
    reveal(Seq::filter);
    if rows.len() > 0 {
        let rest = rows.drop_last();
        assert(!has_path(rest, p)) by {
            assert forall|i: int| 0 <= i < rest.len() implies #[trigger] rest[i].path != p by {
                assert(rest[i] == rows[i]);
            }
        }
        removing_absent_path_changes_nothing(rest, p);
        assert(rows.last().path != p);
        assert(rest.push(rows.last()) =~= rows);
    }
}

/// A cleared table lists nothing, whatever the limit.
pub proof fn cleared_table_lists_nothing(n: nat, r: Seq<ProjectEntry>)
    requires
        is_listing(Seq::<ProjectEntry>::empty(), n, r),
    ensures
        r.len() == 0,
{
}

/// A listing with a limit of zero is empty, whatever the table holds.
pub proof fn zero_limit_lists_nothing(rows: Seq<ProjectEntry>, r: Seq<ProjectEntry>)
    requires
        is_listing(rows, 0, r),
    ensures
        r.len() == 0,
{
}

} // verus!
