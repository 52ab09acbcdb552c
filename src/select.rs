//! The four ways of choosing, among the discovered projects, those to
//! purge: asking about each in turn, asking once for a range, keeping those
//! at or above a size threshold, and taking all.
use vstd::prelude::*;
use crate::scan::DiscoveredProject;
use crate::size::{parse_size, size_value};
use crate::text::{trimmed, trim_chars, is_word, matches_word, decimal_value, parse_decimal, same_text};
use crate::walk::{paths_view, copy_path};

verus! {

/// How the projects to purge are chosen.
#[derive(Clone, Copy, Debug, PartialEq, Eq, Structural)]
pub enum AskMode {
    /// Ask about each project in turn.
    RealTime,
    /// Show the list, then ask once for all, none or a range.
    AfterScan,
    /// Take those at or above the size threshold.
    Auto,
    /// Take all, unattended.
    SelectAll,
}

/// The mode a name stands for: `real-time`, `after-scan`, `auto`, `none`.
pub fn ask_mode_of(name: &str) -> (r: Option<AskMode>)
    ensures
        r == crate::cli::ask_mode_of_spec(name@),
{
    if same_text(name, "real-time") {
        Some(AskMode::RealTime)
    } else if same_text(name, "after-scan") {
        Some(AskMode::AfterScan)
    } else if same_text(name, "auto") {
        Some(AskMode::Auto)
    } else if same_text(name, "none") {
        Some(AskMode::SelectAll)
    } else {
        None
    }
}

/// The paths of the first `keep.len()` projects whose flag is set, in order.
pub open spec fn chosen_paths(ps: Seq<DiscoveredProject>, keep: Seq<bool>) -> Seq<Seq<Seq<u8>>>
    recommends
        keep.len() <= ps.len(),
    decreases keep.len(),
{
    if keep.len() == 0 {
        Seq::empty()
    } else {
        let r = chosen_paths(ps, keep.drop_last());
        if keep.last() { r.push(ps[keep.len() - 1].path_view()) } else { r }
    }
}

fn collect_chosen(projects: &Vec<DiscoveredProject>, keep: &Vec<bool>) -> (r: Vec<Vec<Vec<u8>>>)
    requires
        keep@.len() <= projects@.len(),
    ensures
        paths_view(r@) == chosen_paths(projects@, keep@),
{
    let mut r: Vec<Vec<Vec<u8>>> = Vec::new();
    let mut i: usize = 0;
    while i < keep.len()
        invariant
            i <= keep@.len() <= projects@.len(),
            paths_view(r@) == chosen_paths(projects@, keep@.take(i as int)),
        decreases keep.len() - i,
    {
        assert(keep@.take(i + 1).drop_last() =~= keep@.take(i as int));
        if keep[i] {
            let ghost before = r@;
            r.push(copy_path(&projects[i].path));
            assert(paths_view(r@) =~= paths_view(before).push(projects@[i as int].path_view()));
        }
        i += 1;
    }
    assert(keep@.take(i as int) =~= keep@);
    r
}

/// Every project taken.
pub open spec fn all_flags(n: nat) -> Seq<bool> {
    Seq::new(n, |i: int| true)
}

fn flags_all(n: usize) -> (r: Vec<bool>)
    ensures
        r@ == all_flags(n as nat),
{
    let mut r: Vec<bool> = Vec::new();
    while r.len() < n
        invariant
            r@.len() <= n,
            forall|k: int| 0 <= k < r@.len() ==> r@[k],
        decreases n - r@.len(),
    {
        r.push(true);
    }
    assert(r@ =~= all_flags(n as nat));
    r
}

/// Takes every discovered project.
pub fn none_ask(projects: &Vec<DiscoveredProject>) -> (r: Vec<Vec<Vec<u8>>>)
    ensures
        paths_view(r@) == chosen_paths(projects@, all_flags(projects@.len())),
{
    let flags = flags_all(projects.len());
    collect_chosen(projects, &flags)
}

/// A project's build-output size read back from its rendered size, zero
/// where it cannot be read.
pub open spec fn size_of(p: DiscoveredProject) -> nat {
    match size_value(p.target_size@) {
        Some(v) => v,
        None => 0,
    }
}

pub open spec fn threshold_flags(ps: Seq<DiscoveredProject>, threshold: u64) -> Seq<bool> {
    Seq::new(ps.len(), |i: int| size_of(ps[i]) >= threshold)
}

/// Takes the projects whose size is at least the threshold; with no
/// threshold, takes none.
pub fn auto_ask(projects: &Vec<DiscoveredProject>, threshold: Option<u64>) -> (r: Vec<Vec<Vec<u8>>>)
    ensures
        paths_view(r@) == match threshold {
            None => Seq::empty(),
            Some(t) => chosen_paths(projects@, threshold_flags(projects@, t)),
        },
{
    let t = match threshold {
        None => {
            let r: Vec<Vec<Vec<u8>>> = Vec::new();
            assert(paths_view(r@) =~= Seq::empty());
            return r;
        },
        Some(t) => t,
    };
    let mut flags: Vec<bool> = Vec::new();
    let mut i: usize = 0;
    while i < projects.len()
        invariant
            i <= projects@.len(),
            flags@.len() == i,
            forall|k: int| 0 <= k < i ==> flags@[k] == (size_of(projects@[k]) >= t),
        decreases projects.len() - i,
    {
        let size = match parse_size(projects[i].target_size.as_str()) {
            Some(v) => v,
            None => 0,
        };
        flags.push(size >= t);
        i += 1;
    }
    assert(flags@ =~= threshold_flags(projects@, t));
    collect_chosen(projects, &flags)
}

/// An answer to the question asked about one project.
#[derive(Clone, Copy, Debug, PartialEq, Eq, Structural)]
pub enum ItemReply {
    /// `y` or `s`: purge this one.
    Select,
    /// `n`: keep this one.
    Skip,
    /// `q`: ask no more; what was chosen stands.
    Quit,
    /// Anything else: ask again.
    Invalid,
}

pub open spec fn item_reply_of(t: Seq<char>) -> ItemReply {
    if is_word(t, "y"@) || is_word(t, "s"@) {
        ItemReply::Select
    } else if is_word(t, "n"@) {
        ItemReply::Skip
    } else if is_word(t, "q"@) {
        ItemReply::Quit
    } else {
        ItemReply::Invalid
    }
}

/// Reads an answer, trimmed and in any case.
pub fn item_reply(input: &str) -> (r: ItemReply)
    ensures
        r == item_reply_of(trimmed(input@)),
{
    let t = trim_chars(input);
    if matches_word(&t, "y") || matches_word(&t, "s") {
        ItemReply::Select
    } else if matches_word(&t, "n") {
        ItemReply::Skip
    } else if matches_word(&t, "q") {
        ItemReply::Quit
    } else {
        ItemReply::Invalid
    }
}

/// Asking about each project in turn: which one is asked about, and what
/// was decided for those before it.
pub struct PerItemSelection {
    total: usize,
    quit: bool,
    keep: Vec<bool>,
}

impl PerItemSelection {
    /// The decision made for each project asked about so far, in order.
    pub closed spec fn decisions(&self) -> Seq<bool> {
        self.keep@
    }

    pub closed spec fn total_spec(&self) -> nat {
        self.total as nat
    }

    pub closed spec fn has_quit(&self) -> bool {
        self.quit
    }

    pub closed spec fn wf(&self) -> bool {
        self.keep@.len() <= self.total
    }

    /// No project asked about yet, out of `total`.
    pub fn new(total: usize) -> (r: PerItemSelection)
        ensures
            r.wf(),
            r.total_spec() == total,
            r.decisions() == Seq::<bool>::empty(),
            !r.has_quit(),
    {
        PerItemSelection { total, quit: false, keep: Vec::new() }
    }

    /// The position of the project to ask about, or `None` once each was
    /// answered or the operator quit.
    pub fn current(&self) -> (r: Option<usize>)
        requires
            self.wf(),
        ensures
            r == (if self.has_quit() || self.decisions().len() == self.total_spec() {
                None
            } else {
                Some(self.decisions().len() as usize)
            }),
    {
        if self.quit || self.keep.len() == self.total {
            None
        } else {
            Some(self.keep.len())
        }
    }

    /// Takes the operator's answer about the current project.
    pub fn respond(&mut self, input: &str) -> (r: ItemReply)
        requires
            old(self).wf(),
            !old(self).has_quit(),
            old(self).decisions().len() < old(self).total_spec(),
        ensures
            r == item_reply_of(trimmed(input@)),
            final(self).wf(),
            final(self).total_spec() == old(self).total_spec(),
            final(self).has_quit() == (r == ItemReply::Quit),
            final(self).decisions() == match r {
                ItemReply::Select => old(self).decisions().push(true),
                ItemReply::Skip => old(self).decisions().push(false),
                _ => old(self).decisions(),
            },
    {
        let r = item_reply(input);
        match r {
            ItemReply::Select => self.keep.push(true),
            ItemReply::Skip => self.keep.push(false),
            ItemReply::Quit => self.quit = true,
            ItemReply::Invalid => {},
        }
        r
    }

    /// The paths chosen so far.
    pub fn selection(&self, projects: &Vec<DiscoveredProject>) -> (r: Vec<Vec<Vec<u8>>>)
        requires
            self.wf(),
            projects@.len() == self.total_spec(),
        ensures
            paths_view(r@) == chosen_paths(projects@, self.decisions()),
    {
        collect_chosen(projects, &self.keep)
    }
}

/// What one answer to the list of all projects asks for.
#[derive(Clone, Copy, Debug, PartialEq, Eq, Structural)]
pub enum BatchChoice {
    /// `all`
    All,
    /// `none`
    Nothing,
    /// `start-end`: the projects numbered `start` to `end`, counted from 1.
    Range(usize, usize),
    /// Anything else: ask again.
    Invalid,
}

/// Whether `t` holds exactly one `-`, at `p`.
pub open spec fn single_dash_at(t: Seq<char>, p: int) -> bool {
    0 <= p < t.len() && t[p] == '-' && forall|k: int| 0 <= k < t.len() && #[trigger] t[k] == '-' ==> k == p
}

pub open spec fn fits_usize(v: Option<nat>) -> bool {
    match v {
        Some(n) => n <= usize::MAX,
        None => false,
    }
}

/// What a trimmed answer asks for: `all` or `none` in any case, or two
/// decimal numbers joined by a single `-`.
pub open spec fn batch_choice_of(t: Seq<char>) -> BatchChoice {
    if is_word(t, "all"@) {
        BatchChoice::All
    } else if is_word(t, "none"@) {
        BatchChoice::Nothing
    } else if exists|p: int| single_dash_at(t, p) {
        let p = choose|p: int| single_dash_at(t, p);
        let a = decimal_value(t.take(p));
        let b = decimal_value(t.skip(p + 1));
        if fits_usize(a) && fits_usize(b) {
            BatchChoice::Range(a->Some_0 as usize, b->Some_0 as usize)
        } else {
            BatchChoice::Invalid
        }
    } else {
        BatchChoice::Invalid
    }
}

/// Reads an answer to the list of all projects.
pub fn batch_choice(input: &str) -> (r: BatchChoice)
    ensures
        r == batch_choice_of(trimmed(input@)),
{
    let t = trim_chars(input);
    if matches_word(&t, "all") {
        return BatchChoice::All;
    }
    if matches_word(&t, "none") {
        return BatchChoice::Nothing;
    }
    let mut dashes: usize = 0;
    let mut p: usize = 0;
    let mut i: usize = 0;
    while i < t.len()
        invariant
            i <= t@.len(),
            dashes <= i,
            dashes == 0 ==> forall|k: int| 0 <= k < i ==> t@[k] != '-',
            dashes >= 1 ==> p < i && t@[p as int] == '-',
            dashes == 1 ==> forall|k: int| 0 <= k < i && #[trigger] t@[k] == '-' ==> k == p,
            dashes >= 2 ==> exists|k: int| 0 <= k < i && k != p && #[trigger] t@[k] == '-',
        decreases t.len() - i,
    {
        if t[i] == '-' {
            if dashes == 0 {
                p = i;
            }
            dashes = dashes + 1;
        }
        i += 1;
    }
    if dashes != 1 {
        proof {
            if dashes >= 2 {
                assert forall|q: int| !single_dash_at(t@, q) by {
                    let k = choose|k: int| 0 <= k < t@.len() && k != p && #[trigger] t@[k] == '-';
                    if single_dash_at(t@, q) {
                        assert(k == q);
                        assert(p == q);
                    }
                }
            } else {
                assert forall|q: int| !single_dash_at(t@, q) by {
                    if single_dash_at(t@, q) {
                        assert(t@[q] == '-');
                    }
                }
            }
        }
        return BatchChoice::Invalid;
    }
    assert(single_dash_at(t@, p as int));
    assert(t@.subrange(0, p as int) =~= t@.take(p as int));
    assert(t@.subrange(p + 1, t@.len() as int) =~= t@.skip(p + 1));
    let a = parse_decimal(&t, 0, p);
    let b = parse_decimal(&t, p + 1, t.len());
    proof {
        let q = choose|q: int| single_dash_at(t@, q);
        assert(q == p);
    }
    match (a, b) {
        (Some(a), Some(b)) => BatchChoice::Range(a, b),
        _ => BatchChoice::Invalid,
    }
}

/// The projects a range takes: those numbered `start` to `end` (from 1),
/// as far as the list goes.
pub open spec fn range_flags(n: nat, start: nat, end: nat) -> Seq<bool> {
    Seq::new(n, |i: int| start <= i + 1 && i + 1 <= end)
}

/// The paths an answer to the list chooses, or `None` where the answer is
/// to be asked again.
pub fn batch_select(projects: &Vec<DiscoveredProject>, choice: BatchChoice) -> (r: Option<Vec<Vec<Vec<u8>>>>)
    ensures
        match choice {
            BatchChoice::All => r is Some && paths_view(r->Some_0@) == chosen_paths(
                projects@,
                all_flags(projects@.len()),
            ),
            BatchChoice::Nothing => r is Some && paths_view(r->Some_0@) == Seq::<Seq<Seq<u8>>>::empty(),
            BatchChoice::Range(a, b) => r is Some && paths_view(r->Some_0@) == chosen_paths(
                projects@,
                range_flags(projects@.len(), a as nat, b as nat),
            ),
            BatchChoice::Invalid => r is None,
        },
{
    match choice {
        BatchChoice::All => Some(none_ask(projects)),
        BatchChoice::Nothing => {
            let r: Vec<Vec<Vec<u8>>> = Vec::new();
            assert(paths_view(r@) =~= Seq::<Seq<Seq<u8>>>::empty());
            Some(r)
        },
        BatchChoice::Range(a, b) => {
            let mut flags: Vec<bool> = Vec::new();
            let mut i: usize = 0;
            while i < projects.len()
                invariant
                    i <= projects@.len(),
                    flags@.len() == i,
                    forall|k: int| 0 <= k < i ==> flags@[k] == (a <= k + 1 && k + 1 <= b),
                decreases projects.len() - i,
            {
                flags.push(a <= i + 1 && i + 1 <= b);
                i += 1;
            }
            assert(flags@ =~= range_flags(projects@.len(), a as nat, b as nat));
            Some(collect_chosen(projects, &flags))
        },
        BatchChoice::Invalid => None,
    }
}

} // verus!
