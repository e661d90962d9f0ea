//! One remembered project, its mathematical view, the order in which
//! projects are listed, and the display name derived from a path.

use vstd::prelude::*;

use crate::text::{lemma_text_lt_total, lemma_text_lt_transitive, text_less, text_lt};

verus! {

/// A remembered project: its path (the identity), a display name, the time of
/// the last access as stored text, and how many times it was opened.
#[derive(Debug, Clone)]
pub struct RecentProject {
    pub path: String,
    pub name: String,
    pub last_accessed: String,
    pub access_count: i32,
}

/// The view of a `RecentProject`.
pub struct ProjectEntry {
    pub path: Seq<char>,
    pub name: Seq<char>,
    pub last_accessed: Seq<char>,
    pub access_count: int,
}

impl View for RecentProject {
    type V = ProjectEntry;

    open spec fn view(&self) -> ProjectEntry {
        ProjectEntry {
            path: self.path@,
            name: self.name@,
            last_accessed: self.last_accessed@,
            access_count: self.access_count as int,
        }
    }
}

/// The views of a sequence of projects.
pub open spec fn entries(v: Seq<RecentProject>) -> Seq<ProjectEntry> {
    v.map_values(|p: RecentProject| p@)
}

/// `a` may be listed before `b`: it was accessed later, or at the same time
/// and at least as often.
pub open spec fn listed_before(a: ProjectEntry, b: ProjectEntry) -> bool {
    text_lt(b.last_accessed, a.last_accessed) || (a.last_accessed == b.last_accessed
        && a.access_count >= b.access_count)
}

pub proof fn lemma_listed_before_total(a: ProjectEntry, b: ProjectEntry)
    ensures
        listed_before(a, b) || listed_before(b, a),
{
    lemma_text_lt_total(a.last_accessed, b.last_accessed);
}

pub proof fn lemma_listed_before_transitive(a: ProjectEntry, b: ProjectEntry, c: ProjectEntry)
    requires
        listed_before(a, b),
        listed_before(b, c),
    ensures
        listed_before(a, c),
{
    if text_lt(b.last_accessed, a.last_accessed) && text_lt(c.last_accessed, b.last_accessed) {
        lemma_text_lt_transitive(c.last_accessed, b.last_accessed, a.last_accessed);
    }
}

/// Every earlier entry of `s` may be listed before every later one.
pub open spec fn sorted_recent(s: Seq<ProjectEntry>) -> bool {
    forall|i: int, j: int| 0 <= i < j < s.len() ==> listed_before(#[trigger] s[i], #[trigger] s[j])
}

impl RecentProject {
    /// A copy of this project.
    pub fn duplicate(&self) -> (r: RecentProject)
        ensures
            r@ == self@,
    {
        RecentProject {
            path: self.path.clone(),
            name: self.name.clone(),
            last_accessed: self.last_accessed.clone(),
            access_count: self.access_count,
        }
    }

    /// Whether this project may be listed before `other`.
    pub fn lists_before(&self, other: &RecentProject) -> (r: bool)
        ensures
            r == listed_before(self@, other@),
    {
        text_less(other.last_accessed.as_str(), self.last_accessed.as_str()) || (
        self.last_accessed == other.last_accessed && self.access_count >= other.access_count)
    }
}

/// The final component of a path as `std::path::Path::file_name` finds it,
/// when there is one.
pub uninterp spec fn final_segment(path: Seq<char>) -> Option<Seq<char>>;

/// The display name of a project at `path`: its final segment, or the whole
/// path where it has none.
pub open spec fn project_name_of(path: Seq<char>) -> Seq<char> {
    match final_segment(path) {
        Some(name) => name,
        None => path,
    }
}

/// Relies on `std::path::Path::file_name` for the last normal component of
/// the path; its text is converted back to a `String`.
#[verifier::external_body]
fn file_name_of(path: &str) -> (r: Option<String>)
    ensures
        r is None ==> final_segment(path@) is None,
        r is Some ==> final_segment(path@) == Some(r->0@),
{
    match std::path::Path::new(path).file_name() {
        Some(os) => match os.to_str() {
            Some(s) => Some(s.to_string()),
            None => None,
        },
        None => None,
    }
}

/// The display name given the final segment found in `path`, if any.
pub fn name_from_segment(path: &String, segment: Option<String>) -> (r: String)
    ensures
        r@ == (match segment {
            Some(s) => s@,
            None => path@,
        }),
{
    match segment {
        Some(s) => s,
        None => path.clone(),
    }
}

/// The display name of a project at `path`.
pub fn project_name(path: &String) -> (r: String)
    ensures
        r@ == project_name_of(path@),
{
    let segment = file_name_of(path.as_str());
    name_from_segment(path, segment)
}

} // verus!
