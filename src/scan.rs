//! The decisions of a scan: which enumerated directories are inspected, the
//! progress events each inspection yields, the shared record of what was
//! found, and the final order of the discovered projects.
use vstd::prelude::*;
use vstd::seq_lib::*;
use vstd::multiset::Multiset;
use crate::walk::{names_view, copy_path, bytes_equal};

verus! {

/// A project whose build-output directory was found: its path relative to
/// the scan root, and the rendered size of its build output.
pub struct DiscoveredProject {
    pub path: Vec<Vec<u8>>,
    pub target_size: String,
}

impl DiscoveredProject {
    pub open spec fn path_view(&self) -> Seq<Seq<u8>> {
        names_view(self.path@)
    }
}

impl DiscoveredProject {
    /// A copy of the project.
    pub fn duplicate(&self) -> (r: DiscoveredProject)
        ensures
            r.path_view() == self.path_view(),
            r.target_size@ == self.target_size@,
    {
        DiscoveredProject { path: copy_path(&self.path), target_size: self.target_size.clone() }
    }
}

/// A progress event of a scan, sent from a worker to the single renderer.
pub enum ScanProgress {
    Visiting(Vec<Vec<u8>>, usize),
    Found(DiscoveredProject),
    Scanned(usize),
    Done,
}

/// What a progress event says.
pub enum ProgressView {
    Visiting(Seq<Seq<u8>>, nat),
    Found(Seq<Seq<u8>>, Seq<char>),
    Scanned(nat),
    Done,
}

impl ScanProgress {
    pub open spec fn view(&self) -> ProgressView {
        match self {
            ScanProgress::Visiting(p, d) => ProgressView::Visiting(names_view(p@), *d as nat),
            ScanProgress::Found(p) => ProgressView::Found(p.path_view(), p.target_size@),
            ScanProgress::Scanned(n) => ProgressView::Scanned(*n as nat),
            ScanProgress::Done => ProgressView::Done,
        }
    }
}

pub open spec fn events_view(v: Seq<ScanProgress>) -> Seq<ProgressView> {
    Seq::new(v.len(), |i: int| v[i].view())
}

/// The events a worker sends once it has inspected a directory, the
/// `count`-th so far: the project found there, if any; a count update when
/// `count` is a multiple of ten; and a count update for the last directory
/// of the walk.
pub open spec fn finish_events(found: Option<DiscoveredProject>, count: nat, is_last: bool) -> Seq<ProgressView> {
    let f = match found {
        Some(p) => seq![ProgressView::Found(p.path_view(), p.target_size@)],
        None => Seq::empty(),
    };
    let tens = if count % 10 == 0 { seq![ProgressView::Scanned(count)] } else { Seq::empty() };
    let last = if is_last { seq![ProgressView::Scanned(count)] } else { Seq::empty() };
    f + tens + last
}

/// Relies on `glob::Pattern::new` and `glob::Pattern::matches`: whether the
/// pattern is a valid glob and matches the whole path text.
pub uninterp spec fn glob_excludes(pattern: Seq<char>, path: Seq<char>) -> bool;

/// Relies on `glob::Pattern::new` and `glob::Pattern::matches`; a pattern
/// that does not compile excludes nothing.
#[verifier::external_body]
fn pattern_excludes(pattern: &str, path: &str) -> (r: bool)
    ensures
        r == glob_excludes(pattern@, path@),
{
    match glob::Pattern::new(pattern) {
        Ok(p) => p.matches(path),
        Err(_) => false,
    }
}

pub open spec fn excluded_by(patterns: Seq<String>, path: Seq<char>) -> bool {
    exists|i: int| 0 <= i < patterns.len() && glob_excludes(#[trigger] patterns[i]@, path)
}

/// Whether any of the exclusion patterns matches the full path text.
pub fn is_excluded(path: &str, patterns: &Vec<String>) -> (r: bool)
    ensures
        r == excluded_by(patterns@, path@),
{
    let mut i: usize = 0;
    while i < patterns.len()
        invariant
            i <= patterns@.len(),
            forall|k: int| 0 <= k < i ==> !glob_excludes(#[trigger] patterns@[k]@, path@),
        decreases patterns.len() - i,
    {
        if pattern_excludes(patterns[i].as_str(), path) {
            return true;
        }
        i += 1;
    }
    false
}

pub open spec fn within_depth(depth: nat, max_depth: Option<u32>) -> bool {
    match max_depth {
        Some(m) => depth <= m,
        None => true,
    }
}

/// Whether a worker inspects a directory at `depth` below the root whose
/// full path text is `path`: it is within the depth limit and no exclusion
/// pattern matches it.
pub fn should_inspect(depth: usize, max_depth: Option<u32>, path: &str, patterns: &Vec<String>) -> (r: bool)
    ensures
        r == (within_depth(depth as nat, max_depth) && !excluded_by(patterns@, path@)),
{
    match max_depth {
        Some(m) => {
            if depth > m as usize {
                return false;
            }
        },
        None => {},
    }
    !is_excluded(path, patterns)
}

pub open spec fn indent_spec(depth: nat) -> nat {
    if depth == 0 { 0 } else { 2 * (depth - 1) as nat }
}

/// Spaces before a `Visiting` line: two for each level below the first
/// (held at `usize::MAX`).
pub fn indent_width(depth: usize) -> (r: usize)
    ensures
        r == if indent_spec(depth as nat) > usize::MAX { usize::MAX as nat } else { indent_spec(depth as nat) },
{
    if depth == 0 {
        0
    } else if depth - 1 > usize::MAX / 2 {
        usize::MAX
    } else {
        2 * (depth - 1)
    }
}

/// Strict byte-wise lexicographic order.
pub open spec fn bytes_lt(a: Seq<u8>, b: Seq<u8>) -> bool
    decreases a.len(),
{
    if b.len() == 0 {
        false
    } else if a.len() == 0 {
        true
    } else if a[0] != b[0] {
        a[0] < b[0]
    } else {
        bytes_lt(a.drop_first(), b.drop_first())
    }
}

/// Strict lexicographic order of paths, component by component.
pub open spec fn components_lt(a: Seq<Seq<u8>>, b: Seq<Seq<u8>>) -> bool
    decreases a.len(),
{
    if b.len() == 0 {
        false
    } else if a.len() == 0 {
        true
    } else if a[0] != b[0] {
        bytes_lt(a[0], b[0])
    } else {
        components_lt(a.drop_first(), b.drop_first())
    }
}

/// The order of discovered projects: shallower first, then by path.
pub open spec fn discovery_lt(a: Seq<Seq<u8>>, b: Seq<Seq<u8>>) -> bool {
    a.len() < b.len() || (a.len() == b.len() && components_lt(a, b))
}

/// No project stands after one that it precedes.
pub open spec fn discovery_sorted(s: Seq<DiscoveredProject>) -> bool {
    forall|i: int, j: int| 0 <= i < j < s.len() ==> !discovery_lt(#[trigger] s[j].path_view(), #[trigger] s[i].path_view())
}

proof fn lemma_bytes_lt_transitive(a: Seq<u8>, b: Seq<u8>, c: Seq<u8>)
    requires
        bytes_lt(a, b),
        bytes_lt(b, c),
    ensures
        bytes_lt(a, c),
    decreases a.len(),
{
    if a.len() > 0 && b.len() > 0 && c.len() > 0 && a[0] == b[0] && b[0] == c[0] {
        lemma_bytes_lt_transitive(a.drop_first(), b.drop_first(), c.drop_first());
    }
}

proof fn lemma_bytes_lt_irreflexive(a: Seq<u8>)
    ensures
        !bytes_lt(a, a),
    decreases a.len(),
{
    if a.len() > 0 {
        lemma_bytes_lt_irreflexive(a.drop_first());
    }
}

proof fn lemma_components_lt_transitive(a: Seq<Seq<u8>>, b: Seq<Seq<u8>>, c: Seq<Seq<u8>>)
    requires
        components_lt(a, b),
        components_lt(b, c),
    ensures
        components_lt(a, c),
    decreases a.len(),
{
    if a.len() > 0 && b.len() > 0 && c.len() > 0 {
        if a[0] == b[0] && b[0] == c[0] {
            lemma_components_lt_transitive(a.drop_first(), b.drop_first(), c.drop_first());
        } else if a[0] != b[0] && b[0] != c[0] {
            lemma_bytes_lt_transitive(a[0], b[0], c[0]);
            if a[0] == c[0] {
                lemma_bytes_lt_irreflexive(a[0]);
            }
        }
    }
}

proof fn lemma_components_lt_irreflexive(a: Seq<Seq<u8>>)
    ensures
        !components_lt(a, a),
    decreases a.len(),
{
    if a.len() > 0 {
        lemma_components_lt_irreflexive(a.drop_first());
    }
}

/// The order of discovered projects is a strict order.
pub proof fn lemma_discovery_order_strict(a: Seq<Seq<u8>>, b: Seq<Seq<u8>>, c: Seq<Seq<u8>>)
    ensures
        !discovery_lt(a, a),
        discovery_lt(a, b) && discovery_lt(b, c) ==> discovery_lt(a, c),
        discovery_lt(a, b) ==> !discovery_lt(b, a),
{
    lemma_components_lt_irreflexive(a);
    if discovery_lt(a, b) && discovery_lt(b, c) && a.len() == c.len() {
        lemma_components_lt_transitive(a, b, c);
    }
    if discovery_lt(a, b) && discovery_lt(b, a) {
        lemma_components_lt_transitive(a, b, a);
    }
}

fn bytes_less(a: &Vec<u8>, b: &Vec<u8>) -> (r: bool)
    ensures
        r == bytes_lt(a@, b@),
{
    let mut i: usize = 0;
    assert(a@.skip(0) =~= a@);
    assert(b@.skip(0) =~= b@);
    while i < a.len() && i < b.len()
        invariant
            i <= a@.len(),
            i <= b@.len(),
            bytes_lt(a@, b@) == bytes_lt(a@.skip(i as int), b@.skip(i as int)),
        decreases a.len() - i,
    {
        if a[i] != b[i] {
            return a[i] < b[i];
        }
        assert(a@.skip(i as int).drop_first() =~= a@.skip(i + 1));
        assert(b@.skip(i as int).drop_first() =~= b@.skip(i + 1));
        i += 1;
    }
    i < b.len()
}

fn components_less(a: &Vec<Vec<u8>>, b: &Vec<Vec<u8>>) -> (r: bool)
    ensures
        r == components_lt(names_view(a@), names_view(b@)),
{
    let ghost av = names_view(a@);
    let ghost bv = names_view(b@);
    let mut i: usize = 0;
    assert(av.skip(0) =~= av);
    assert(bv.skip(0) =~= bv);
    while i < a.len() && i < b.len()
        invariant
            i <= a@.len(),
            i <= b@.len(),
            av == names_view(a@),
            bv == names_view(b@),
            components_lt(av, bv) == components_lt(av.skip(i as int), bv.skip(i as int)),
        decreases a.len() - i,
    {
        if !bytes_equal(&a[i], &b[i]) {
            assert(av.skip(i as int)[0] == a@[i as int]@);
            assert(bv.skip(i as int)[0] == b@[i as int]@);
            return bytes_less(&a[i], &b[i]);
        }
        assert(av.skip(i as int).drop_first() =~= av.skip(i + 1));
        assert(bv.skip(i as int).drop_first() =~= bv.skip(i + 1));
        i += 1;
    }
    i < b.len()
}

/// Whether project `a` comes before project `b` in the discovery order.
pub fn discovery_less(a: &DiscoveredProject, b: &DiscoveredProject) -> (r: bool)
    ensures
        r == discovery_lt(a.path_view(), b.path_view()),
{
    if a.path.len() != b.path.len() {
        a.path.len() < b.path.len()
    } else {
        components_less(&a.path, &b.path)
    }
}

proof fn lemma_insert_multiset<A>(s: Seq<A>, i: int, x: A)
    requires
        0 <= i <= s.len(),
    ensures
        s.insert(i, x).to_multiset() == s.to_multiset().insert(x),
{
    broadcast use group_to_multiset_ensures;
    let l = s.subrange(0, i);
    let r = s.subrange(i, s.len() as int);
    assert(s.insert(i, x) =~= l.push(x) + r);
    assert(s =~= l + r);
    lemma_multiset_commutative(l.push(x), r);
    lemma_multiset_commutative(l, r);
    assert(s.insert(i, x).to_multiset() =~= s.to_multiset().insert(x));
}

/// Puts projects into the discovery order, whatever order they were
/// recorded in.
pub fn sort_projects(v: Vec<DiscoveredProject>) -> (r: Vec<DiscoveredProject>)
    ensures
        r@.to_multiset() == v@.to_multiset(),
        discovery_sorted(r@),
{
    broadcast use group_to_multiset_ensures;
    let mut input = v;
    let mut out: Vec<DiscoveredProject> = Vec::new();
    while input.len() > 0
        invariant
            out@.to_multiset().add(input@.to_multiset()) == v@.to_multiset(),
            discovery_sorted(out@),
        decreases input.len(),
    {
        let ghost before = input@;
        let x = input.pop().unwrap();
        assert(before =~= input@.push(x));
        let mut pos: usize = 0;
        while pos < out.len() && !discovery_less(&x, &out[pos])
            invariant
                pos <= out@.len(),
                forall|k: int| 0 <= k < pos ==> !discovery_lt(x.path_view(), #[trigger] out@[k].path_view()),
            decreases out.len() - pos,
        {
            pos += 1;
        }
        let ghost old_out = out@;
        out.insert(pos, x);
        proof {
            lemma_insert_multiset(old_out, pos as int, x);
            input@.to_multiset_ensures();
            assert(input@.push(x).to_multiset() =~= input@.to_multiset().insert(x));
            assert(before.to_multiset() == input@.to_multiset().insert(x));
            assert(old_out.to_multiset().add(before.to_multiset()) == v@.to_multiset());
            assert(out@.to_multiset().add(input@.to_multiset()) =~= v@.to_multiset());
            assert forall|i: int, j: int| 0 <= i < j < out@.len() implies !discovery_lt(
                #[trigger] out@[j].path_view(),
                #[trigger] out@[i].path_view(),
            ) by {
                if i < pos && j == pos {
                } else if i < pos && j > pos {
                    assert(out@[j] == old_out[j - 1]);
                } else if i == pos && j > pos {
                    assert(out@[j] == old_out[j - 1]);
                    let y = old_out[j - 1].path_view();
                    let z = old_out[pos as int].path_view();
                    lemma_discovery_order_strict(y, x.path_view(), z);
                    if j - 1 > pos {
                        assert(!discovery_lt(y, z));
                    }
                } else if i > pos {
                    assert(out@[j] == old_out[j - 1]);
                    assert(out@[i] == old_out[i - 1]);
                }
            }
        }
    }
    assert(input@.to_multiset() =~= Multiset::empty());
    assert(out@.to_multiset() =~= v@.to_multiset());
    out
}

/// The record a scan's workers share: the projects found and how many
/// directories have been inspected, out of how many the walk produced.
pub struct ScanLedger {
    scanned: usize,
    n_dirs: usize,
    projects: Vec<DiscoveredProject>,
}

impl ScanLedger {
    pub closed spec fn scanned_spec(&self) -> nat {
        self.scanned as nat
    }

    pub closed spec fn n_dirs_spec(&self) -> nat {
        self.n_dirs as nat
    }

    /// The projects recorded, in the order they were recorded.
    pub closed spec fn found(&self) -> Seq<DiscoveredProject> {
        self.projects@
    }

    /// An empty record for a walk of `n_dirs` directories.
    pub fn new(n_dirs: usize) -> (r: ScanLedger)
        ensures
            r.scanned_spec() == 0,
            r.n_dirs_spec() == n_dirs,
            r.found() == Seq::<DiscoveredProject>::empty(),
    {
        ScanLedger { scanned: 0, n_dirs, projects: Vec::new() }
    }

    pub fn scanned(&self) -> (r: usize)
        ensures
            r == self.scanned_spec(),
    {
        self.scanned
    }

    pub fn n_dirs(&self) -> (r: usize)
        ensures
            r == self.n_dirs_spec(),
    {
        self.n_dirs
    }

    /// Records that the directory at `index` of the walk was inspected, with
    /// the project found there if any, and returns the events to send for
    /// it, as `finish_events` describes.
    pub fn finish_dir(&mut self, index: usize, found: Option<DiscoveredProject>) -> (events: Vec<ScanProgress>)
        requires
            old(self).scanned_spec() < old(self).n_dirs_spec(),
            index < old(self).n_dirs_spec(),
        ensures
            final(self).scanned_spec() == old(self).scanned_spec() + 1,
            final(self).n_dirs_spec() == old(self).n_dirs_spec(),
            final(self).found() == match found {
                Some(p) => old(self).found().push(p),
                None => old(self).found(),
            },
            events_view(events@) == finish_events(
                found,
                final(self).scanned_spec(),
                index + 1 == old(self).n_dirs_spec(),
            ),
    {
        let mut events: Vec<ScanProgress> = Vec::new();
        match found {
            Some(p) => {
                events.push(ScanProgress::Found(p.duplicate()));
                self.projects.push(p);
            },
            None => {},
        }
        self.scanned = self.scanned + 1;
        if self.scanned % 10 == 0 {
            events.push(ScanProgress::Scanned(self.scanned));
        }
        if index + 1 == self.n_dirs {
            events.push(ScanProgress::Scanned(self.scanned));
        }
        assert(events_view(events@) =~= finish_events(found, self.scanned as nat, index + 1 == self.n_dirs));
        events
    }

    /// The projects found, in the discovery order.
    pub fn into_sorted(self) -> (r: Vec<DiscoveredProject>)
        ensures
            r@.to_multiset() == self.found().to_multiset(),
            discovery_sorted(r@),
    {
        sort_projects(self.projects)
    }
}

proof fn lemma_bytes_lt_total(a: Seq<u8>, b: Seq<u8>)
    requires
        a != b,
    ensures
        bytes_lt(a, b) || bytes_lt(b, a),
    decreases a.len(),
{
    if a.len() > 0 && b.len() > 0 && a[0] == b[0] {
        if a.drop_first() == b.drop_first() {
            assert(a =~= seq![a[0]] + a.drop_first());
            assert(b =~= seq![b[0]] + b.drop_first());
        }
        lemma_bytes_lt_total(a.drop_first(), b.drop_first());
    } else if a.len() == 0 && b.len() == 0 {
        assert(a =~= b);
    }
}

proof fn lemma_components_lt_total(a: Seq<Seq<u8>>, b: Seq<Seq<u8>>)
    requires
        a != b,
    ensures
        components_lt(a, b) || components_lt(b, a),
    decreases a.len(),
{
    if a.len() > 0 && b.len() > 0 {
        if a[0] == b[0] {
            if a.drop_first() == b.drop_first() {
                assert(a =~= seq![a[0]] + a.drop_first());
                assert(b =~= seq![b[0]] + b.drop_first());
            }
            lemma_components_lt_total(a.drop_first(), b.drop_first());
        } else {
            lemma_bytes_lt_total(a[0], b[0]);
        }
    } else if a.len() == 0 && b.len() == 0 {
        assert(a =~= b);
    }
}

/// Distinct paths are always ordered one way or the other.
pub proof fn lemma_discovery_order_total(a: Seq<Seq<u8>>, b: Seq<Seq<u8>>)
    requires
        a != b,
    ensures
        discovery_lt(a, b) || discovery_lt(b, a),
{
    if a.len() == b.len() {
        lemma_components_lt_total(a, b);
    }
}

pub open spec fn distinct_paths(s: Seq<DiscoveredProject>) -> bool {
    forall|i: int, j: int| 0 <= i < s.len() && 0 <= j < s.len() && i != j ==> (#[trigger] s[i]).path_view() != (#[trigger] s[j]).path_view()
}

/// The discovered list does not depend on the order in which workers
/// recorded their finds: two records holding the same projects, at distinct
/// paths, sort to the same list.
pub proof fn lemma_discovery_order_unique(a: Seq<DiscoveredProject>, b: Seq<DiscoveredProject>)
    requires
        a.to_multiset() == b.to_multiset(),
        distinct_paths(a),
        discovery_sorted(a),
        discovery_sorted(b),
    ensures
        a == b,
    decreases a.len(),
{
    broadcast use group_to_multiset_ensures;
    a.to_multiset_ensures();
    b.to_multiset_ensures();
    assert(a.len() == b.len());
    if a.len() == 0 {
        assert(a =~= b);
    } else {
        assert(a.contains(a[0]));
        assert(a.to_multiset().count(a[0]) > 0);
        assert(b.contains(a[0]));
        let k = choose|k: int| 0 <= k < b.len() && b[k] == a[0];
        assert(b.contains(b[0]));
        assert(b.to_multiset().count(b[0]) > 0);
        assert(a.contains(b[0]));
        let m = choose|m: int| 0 <= m < a.len() && a[m] == b[0];
        if a[0] != b[0] {
            // b[0] sits later in a, a[0] later in b: the two orders clash
            assert(k != 0);
            assert(m != 0);
            assert(a[m].path_view() != a[0].path_view());
            lemma_discovery_order_total(a[0].path_view(), b[0].path_view());
            assert(!discovery_lt(a[m].path_view(), a[0].path_view()));
            assert(!discovery_lt(b[k].path_view(), b[0].path_view()));
        }
        assert(b[0] == a[0]);
        let a1 = a.drop_first();
        let b1 = b.drop_first();
        assert(a.remove(0) =~= a1);
        assert(b.remove(0) =~= b1);
        assert(a1.to_multiset() == a.to_multiset().remove(a[0]));
        assert(b1.to_multiset() == b.to_multiset().remove(b[0]));
        assert forall|i: int, j: int| 0 <= i < a1.len() && 0 <= j < a1.len() && i != j implies
            (#[trigger] a1[i]).path_view() != (#[trigger] a1[j]).path_view() by {
            assert(a1[i] == a[i + 1]);
            assert(a1[j] == a[j + 1]);
        }
        assert forall|i: int, j: int| 0 <= i < j < a1.len() implies
            !discovery_lt(#[trigger] a1[j].path_view(), #[trigger] a1[i].path_view()) by {
            assert(a1[i] == a[i + 1]);
            assert(a1[j] == a[j + 1]);
        }
        assert forall|i: int, j: int| 0 <= i < j < b1.len() implies
            !discovery_lt(#[trigger] b1[j].path_view(), #[trigger] b1[i].path_view()) by {
            assert(b1[i] == b[i + 1]);
            assert(b1[j] == b[j + 1]);
        }
        lemma_discovery_order_unique(a1, b1);
        assert forall|i: int| 0 <= i < a.len() implies a[i] == b[i] by {
            if i > 0 {
                assert(a[i] == a1[i - 1]);
                assert(b[i] == b1[i - 1]);
            }
        }
        assert(a =~= b);
    }
}

} // verus!
