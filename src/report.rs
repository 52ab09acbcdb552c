//! The structured record of a run: what was discovered, what was chosen,
//! and how each purge went.
use vstd::prelude::*;
use crate::clean::{CleanupOutcome, clone_error};
use crate::scan::DiscoveredProject;
use crate::walk::{names_view, paths_view, copy_path, bytes_equal};

verus! {

/// A discovered project as the record lists it.
pub struct ReportProject {
    pub path: Vec<Vec<u8>>,
    pub target_size: String,
    pub selected: bool,
}

/// A purge outcome as the record lists it.
pub struct ReportResult {
    pub path: Vec<Vec<u8>>,
    pub success: bool,
    pub error: Option<String>,
}

pub struct CleanupReport {
    pub total_projects: usize,
    pub to_clean_count: usize,
    pub projects: Vec<ReportProject>,
    pub results: Vec<ReportResult>,
}

fn path_listed(paths: &Vec<Vec<Vec<u8>>>, p: &Vec<Vec<u8>>) -> (r: bool)
    ensures
        r == paths_view(paths@).contains(names_view(p@)),
{
    let mut i: usize = 0;
    while i < paths.len()
        invariant
            i <= paths@.len(),
            forall|k: int| 0 <= k < i ==> paths_view(paths@)[k] != names_view(p@),
        decreases paths.len() - i,
    {
        if same_path(&paths[i], p) {
            assert(paths_view(paths@)[i as int] == names_view(p@));
            return true;
        }
        i += 1;
    }
    false
}

fn same_path(a: &Vec<Vec<u8>>, b: &Vec<Vec<u8>>) -> (r: bool)
    ensures
        r == (names_view(a@) == names_view(b@)),
{
    if a.len() != b.len() {
        assert(names_view(a@).len() != names_view(b@).len());
        return false;
    }
    let mut i: usize = 0;
    while i < a.len()
        invariant
            a@.len() == b@.len(),
            i <= a@.len(),
            forall|k: int| 0 <= k < i ==> a@[k]@ == b@[k]@,
        decreases a.len() - i,
    {
        if !bytes_equal(&a[i], &b[i]) {
            assert(names_view(a@)[i as int] != names_view(b@)[i as int]);
            return false;
        }
        i += 1;
    }
    assert(names_view(a@) =~= names_view(b@));
    true
}

/// The record of a run: counts, each discovered project with whether it was
/// chosen, and each outcome.
pub fn build_report(
    projects: &Vec<DiscoveredProject>,
    to_clean: &Vec<Vec<Vec<u8>>>,
    results: &Vec<CleanupOutcome>,
) -> (r: CleanupReport)
    ensures
        r.total_projects == projects@.len(),
        r.to_clean_count == to_clean@.len(),
        r.projects@.len() == projects@.len(),
        forall|i: int| 0 <= i < projects@.len() ==> {
            &&& names_view((#[trigger] r.projects@[i]).path@) == projects@[i].path_view()
            &&& r.projects@[i].target_size@ == projects@[i].target_size@
            &&& r.projects@[i].selected == paths_view(to_clean@).contains(projects@[i].path_view())
        },
        r.results@.len() == results@.len(),
        forall|i: int| 0 <= i < results@.len() ==> {
            &&& names_view((#[trigger] r.results@[i]).path@) == results@[i].path_view()
            &&& r.results@[i].success == results@[i].succeeded()
            &&& r.results@[i].error == results@[i].error
        },
{
    let mut entries: Vec<ReportProject> = Vec::new();
    let mut i: usize = 0;
    while i < projects.len()
        invariant
            i <= projects@.len(),
            entries@.len() == i,
            forall|k: int| 0 <= k < i ==> {
                &&& names_view((#[trigger] entries@[k]).path@) == projects@[k].path_view()
                &&& entries@[k].target_size@ == projects@[k].target_size@
                &&& entries@[k].selected == paths_view(to_clean@).contains(projects@[k].path_view())
            },
        decreases projects.len() - i,
    {
        let p = &projects[i];
        let selected = path_listed(to_clean, &p.path);
        entries.push(ReportProject { path: copy_path(&p.path), target_size: p.target_size.clone(), selected });
        i += 1;
    }
    let mut outs: Vec<ReportResult> = Vec::new();
    let mut j: usize = 0;
    while j < results.len()
        invariant
            j <= results@.len(),
            outs@.len() == j,
            forall|k: int| 0 <= k < j ==> {
                &&& names_view((#[trigger] outs@[k]).path@) == results@[k].path_view()
                &&& outs@[k].success == results@[k].succeeded()
                &&& outs@[k].error == results@[k].error
            },
        decreases results.len() - j,
    {
        let o = &results[j];
        outs.push(ReportResult { path: copy_path(&o.path), success: o.is_success(), error: clone_error(&o.error) });
        j += 1;
    }
    CleanupReport { total_projects: projects.len(), to_clean_count: to_clean.len(), projects: entries, results: outs }
}

/// How many outcomes succeeded and how many failed.
pub fn summary_counts(results: &Vec<CleanupOutcome>) -> (r: (usize, usize))
    ensures
        r.0 + r.1 == results@.len(),
        r.1 as int == results@.filter(|o: CleanupOutcome| !o.succeeded()).len(),
{
    let mut ok: usize = 0;
    let mut failed: usize = 0;
    let mut i: usize = 0;
    while i < results.len()
        invariant
            i <= results@.len(),
            ok + failed == i,
            failed as int == results@.take(i as int).filter(|o: CleanupOutcome| !o.succeeded()).len(),
        decreases results.len() - i,
    {
        assert(results@.take(i + 1).drop_last() =~= results@.take(i as int));
        assert(results@.take(i + 1).last() == results@[i as int]);
        reveal_with_fuel(Seq::filter, 1);
        if results[i].is_success() {
            ok += 1;
        } else {
            failed += 1;
        }
        i += 1;
    }
    assert(results@.take(i as int) =~= results@);
    (ok, failed)
}

} // verus!
