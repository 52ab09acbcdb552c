//! Enumeration of candidate directories under a scan root.
//!
//! A [`TreeWalker`] is a state machine: the caller asks for the next
//! directory, lists it, and hands the listing back. Paths are sequences of
//! name components relative to the root (the root itself is the empty path).
use vstd::prelude::*;

verus! {

/// Byte-wise lexicographic order, as `Vec<u8>` and `OsStr` compare.
pub open spec fn lex_le(a: Seq<u8>, b: Seq<u8>) -> bool
    decreases a.len(),
{
    if a.len() == 0 {
        true
    } else if b.len() == 0 {
        false
    } else if a[0] != b[0] {
        a[0] < b[0]
    } else {
        lex_le(a.drop_first(), b.drop_first())
    }
}

/// The names held by a vector of byte strings.
pub open spec fn names_view(v: Seq<Vec<u8>>) -> Seq<Seq<u8>> {
    Seq::new(v.len(), |i: int| v[i]@)
}

/// The paths held by a vector of component vectors.
pub open spec fn paths_view(v: Seq<Vec<Vec<u8>>>) -> Seq<Seq<Seq<u8>>> {
    Seq::new(v.len(), |i: int| names_view(v[i]@))
}

/// Names in ascending byte-wise order.
pub open spec fn sorted_names(s: Seq<Seq<u8>>) -> bool {
    forall|i: int, j: int| 0 <= i < j < s.len() ==> lex_le(#[trigger] s[i], #[trigger] s[j])
}

/// The name of the build-output directory, `target`, never entered by a
/// walk.
pub open spec fn pruned_name() -> Seq<u8> {
    seq![116u8, 97u8, 114u8, 103u8, 101u8, 116u8]
}

/// The children kept from a listing: every name but the pruned one,
/// sorted, each once.
pub open spec fn kept_children(listing: Seq<Seq<u8>>, ks: Seq<Seq<u8>>) -> bool {
    &&& sorted_names(ks)
    &&& ks.no_duplicates()
    &&& forall|c: Seq<u8>| #[trigger] ks.contains(c) <==> (listing.contains(c) && c != pruned_name())
}

/// The child paths of `parent` for the names `ks`, in order.
pub open spec fn child_paths(parent: Seq<Seq<u8>>, ks: Seq<Seq<u8>>) -> Seq<Seq<Seq<u8>>> {
    Seq::new(ks.len(), |i: int| parent.push(ks[i]))
}

/// The order in which a walk hands out directories: level by level, or
/// each directory before its subtree (pre-order). Siblings come in name
/// order either way.
#[derive(Clone, Copy, Debug, PartialEq, Eq, Structural)]
pub enum Strategy {
    BreadthFirst,
    DepthFirst,
}

/// The tree as the walker has read it: each listed directory and the names
/// its listing held.
pub type Listings = Map<Seq<Seq<u8>>, Seq<Seq<u8>>>;

/// A walk over the directories under a root, breadth-first or depth-first,
/// that never enters a build-output directory and hands out each directory
/// once.
pub struct TreeWalker {
    strategy: Strategy,
    pending: Vec<Vec<Vec<u8>>>,
    emitted: Vec<Vec<Vec<u8>>>,
    listings: Ghost<Listings>,
}

/// Relies on `<[Vec<u8>]>::sort`: a stable sort by `Vec<u8>`'s `Ord`, which
/// compares lexicographically.
#[verifier::external_body]
fn sort_names(v: &mut Vec<Vec<u8>>)
    ensures
        final(v)@.len() == old(v)@.len(),
        names_view(final(v)@).to_multiset() == names_view(old(v)@).to_multiset(),
        sorted_names(names_view(final(v)@)),
{
    v.sort();
}

pub(crate) fn bytes_equal(a: &Vec<u8>, b: &Vec<u8>) -> (r: bool)
    ensures
        r == (a@ == b@),
{
    if a.len() != b.len() {
        return false;
    }
    let mut i: usize = 0;
    while i < a.len()
        invariant
            a@.len() == b@.len(),
            i <= a@.len(),
            forall|k: int| 0 <= k < i ==> a@[k] == b@[k],
        decreases a.len() - i,
    {
        if a[i] != b[i] {
            return false;
        }
        i += 1;
    }
    assert(a@ =~= b@);
    true
}

fn pruned_name_bytes() -> (r: Vec<u8>)
    ensures
        r@ == pruned_name(),
{
    let r: Vec<u8> = vec![116u8, 97u8, 114u8, 103u8, 101u8, 116u8];
    assert(r@ =~= pruned_name());
    r
}

pub(crate) fn copy_bytes(a: &Vec<u8>) -> (r: Vec<u8>)
    ensures
        r@ == a@,
{
    let mut r: Vec<u8> = Vec::new();
    let mut i: usize = 0;
    while i < a.len()
        invariant
            i <= a@.len(),
            r@ == a@.subrange(0, i as int),
        decreases a.len() - i,
    {
        r.push(a[i]);
        i += 1;
        assert(r@ =~= a@.subrange(0, i as int));
    }
    assert(a@.subrange(0, a@.len() as int) =~= a@);
    r
}

/// A copy of a path.
pub fn copy_path(p: &Vec<Vec<u8>>) -> (r: Vec<Vec<u8>>)
    ensures
        names_view(r@) == names_view(p@),
{
    let mut r: Vec<Vec<u8>> = Vec::new();
    let mut i: usize = 0;
    while i < p.len()
        invariant
            i <= p@.len(),
            r@.len() == i,
            names_view(r@) == names_view(p@).subrange(0, i as int),
        decreases p.len() - i,
    {
        let ghost old_r = r@;
        let c = copy_bytes(&p[i]);
        r.push(c);
        assert(r@ == old_r.push(c));
        assert(names_view(old_r) == names_view(p@).subrange(0, i as int));
        assert forall|k: int| 0 <= k < i implies names_view(r@)[k] == names_view(old_r)[k] by {}
        i += 1;
        assert(names_view(r@) =~= names_view(p@).subrange(0, i as int));
    }
    assert(names_view(p@).subrange(0, p@.len() as int) =~= names_view(p@));
    r
}

fn contains_name(v: &Vec<Vec<u8>>, x: &Vec<u8>) -> (r: bool)
    ensures
        r == names_view(v@).contains(x@),
{
    let mut i: usize = 0;
    while i < v.len()
        invariant
            i <= v@.len(),
            forall|k: int| 0 <= k < i ==> names_view(v@)[k] != x@,
        decreases v.len() - i,
    {
        if bytes_equal(&v[i], x) {
            assert(names_view(v@)[i as int] == x@);
            return true;
        }
        i += 1;
    }
    false
}

/// The names of a listing that a walk descends into: the pruned name is
/// dropped, the rest sorted, each kept once.
pub fn keep_children(listing: Vec<Vec<u8>>) -> (r: Vec<Vec<u8>>)
    ensures
        kept_children(names_view(listing@), names_view(r@)),
{
    let ghost orig = names_view(listing@);
    let mut sorted = listing;
    sort_names(&mut sorted);
    let ghost s = names_view(sorted@);
    proof {
        broadcast use vstd::seq_lib::group_to_multiset_ensures;
        assert forall|c: Seq<u8>| s.contains(c) <==> orig.contains(c) by {
            assert(s.contains(c) <==> s.to_multiset().count(c) > 0);
            assert(orig.contains(c) <==> orig.to_multiset().count(c) > 0);
        }
    }
    let pruned = pruned_name_bytes();
    let mut out: Vec<Vec<u8>> = Vec::new();
    let mut j: usize = 0;
    while j < sorted.len()
        invariant
            j <= s.len(),
            s == names_view(sorted@),
            pruned@ == pruned_name(),
            sorted_names(s),
            sorted_names(names_view(out@)),
            names_view(out@).no_duplicates(),
            forall|a: int, m: int|
                0 <= a < out@.len() && j <= m < s.len() ==> lex_le(
                    #[trigger] names_view(out@)[a],
                    #[trigger] s[m],
                ),
            forall|c: Seq<u8>|
                #[trigger] names_view(out@).contains(c) <==> (exists|k: int|
                    0 <= k < j && s[k] == c && c != pruned_name()),
        decreases s.len() - j,
    {
        let ghost old_out = names_view(out@);
        let is_pruned = bytes_equal(&sorted[j], &pruned);
        let seen = contains_name(&out, &sorted[j]);
        if !is_pruned && !seen {
            let c = copy_bytes(&sorted[j]);
            out.push(c);
            proof {
                let ov = names_view(out@);
                assert(ov =~= old_out.push(s[j as int]));
                assert forall|c: Seq<u8>| #[trigger] ov.contains(c) <==> (exists|k: int|
                    0 <= k < j + 1 && s[k] == c && c != pruned_name()) by {
                    if ov.contains(c) {
                        let i = choose|i: int| 0 <= i < ov.len() && ov[i] == c;
                        if i == old_out.len() {
                            assert(s[j as int] == c);
                        } else {
                            assert(old_out[i] == c);
                            assert(old_out.contains(c));
                        }
                    }
                    if exists|k: int| 0 <= k < j + 1 && s[k] == c && c != pruned_name() {
                        let k = choose|k: int| 0 <= k < j + 1 && s[k] == c && c != pruned_name();
                        if k == j {
                            assert(ov[old_out.len() as int] == c);
                        } else {
                            assert(old_out.contains(c));
                            let i = choose|i: int| 0 <= i < old_out.len() && old_out[i] == c;
                            assert(ov[i] == c);
                        }
                    }
                }
            }
        } else {
            proof {
                assert forall|c: Seq<u8>| #[trigger] names_view(out@).contains(c) <==> (exists|k: int|
                    0 <= k < j + 1 && s[k] == c && c != pruned_name()) by {
                    if exists|k: int| 0 <= k < j + 1 && s[k] == c && c != pruned_name() {
                        let k = choose|k: int| 0 <= k < j + 1 && s[k] == c && c != pruned_name();
                        if k == j {
                            assert(names_view(out@).contains(c));
                        } else {
                            assert(exists|k: int| 0 <= k < j && s[k] == c && c != pruned_name());
                        }
                    }
                }
            }
        }
        j += 1;
    }
    proof {
        let ov = names_view(out@);
        assert forall|c: Seq<u8>| #[trigger] ov.contains(c) <==> (orig.contains(c) && c != pruned_name()) by {
            if orig.contains(c) && c != pruned_name() {
                assert(s.contains(c));
                let k = choose|k: int| 0 <= k < s.len() && s[k] == c;
                assert(exists|k: int| 0 <= k < j && s[k] == c && c != pruned_name());
            }
        }
    }
    out
}


/// Whether a path passes through the pruned directory name anywhere.
pub open spec fn enters_pruned(p: Seq<Seq<u8>>) -> bool {
    exists|k: int| 0 <= k < p.len() && p[k] == pruned_name()
}

impl TreeWalker {
    /// Directories already handed out, in the order of the walk.
    pub closed spec fn emitted(&self) -> Seq<Seq<Seq<u8>>> {
        paths_view(self.emitted@)
    }

    /// Directories found and not yet handed out, next first.
    pub closed spec fn pending(&self) -> Seq<Seq<Seq<u8>>> {
        paths_view(self.pending@)
    }

    /// The traversal order of the walk.
    pub closed spec fn order(&self) -> Strategy {
        self.strategy
    }

    /// The listing fed for each directory handed out.
    pub closed spec fn listed(&self) -> Listings {
        self.listings@
    }

    /// Every directory the walk knows of.
    pub open spec fn seen(&self) -> Seq<Seq<Seq<u8>>> {
        self.emitted() + self.pending()
    }

    pub open spec fn is_done(&self) -> bool {
        self.pending().len() == 0
    }

    pub closed spec fn wf(&self) -> bool {
        let seen = self.seen();
        let ls = self.listings@;
        &&& seen.contains(Seq::<Seq<u8>>::empty())
        &&& seen.no_duplicates()
        &&& forall|p: Seq<Seq<u8>>| #[trigger] ls.contains_key(p) <==> self.emitted().contains(p)
        &&& forall|i: int|
            0 <= i < seen.len() && (#[trigger] seen[i]).len() > 0 ==> {
                &&& ls.contains_key(seen[i].drop_last())
                &&& ls[seen[i].drop_last()].contains(seen[i].last())
                &&& seen[i].last() != pruned_name()
            }
        &&& forall|q: Seq<Seq<u8>>, c: Seq<u8>|
            ls.contains_key(q) && #[trigger] ls[q].contains(c) && c != pruned_name()
                ==> seen.contains(#[trigger] q.push(c))
        &&& forall|i: int| 0 <= i < seen.len() ==> !enters_pruned(#[trigger] seen[i])
    }

    /// A walk that starts at the root.
    pub fn new(strategy: Strategy) -> (r: TreeWalker)
        ensures
            r.wf(),
            r.order() == strategy,
            r.emitted() == Seq::<Seq<Seq<u8>>>::empty(),
            r.pending() == seq![Seq::<Seq<u8>>::empty()],
            r.listed() == Listings::empty(),
    {
        let root: Vec<Vec<u8>> = Vec::new();
        let mut pending: Vec<Vec<Vec<u8>>> = Vec::new();
        pending.push(root);
        let r = TreeWalker {
            strategy,
            pending,
            emitted: Vec::new(),
            listings: Ghost(Listings::empty()),
        };
        assert(names_view(r.pending@[0]@) =~= Seq::<Seq<u8>>::empty());
        assert(r.pending() =~= seq![Seq::<Seq<u8>>::empty()]);
        assert(r.emitted() =~= Seq::<Seq<Seq<u8>>>::empty());
        assert(r.seen() =~= seq![Seq::<Seq<u8>>::empty()]);
        assert(r.seen()[0] =~= Seq::<Seq<u8>>::empty());
        r
    }

    /// The directory to list next, or `None` when the walk is over.
    pub fn next_dir(&self) -> (r: Option<Vec<Vec<u8>>>)
        ensures
            match r {
                Some(p) => self.pending().len() > 0 && names_view(p@) == self.pending()[0],
                None => self.is_done(),
            },
    {
        if self.pending.len() == 0 {
            None
        } else {
            Some(copy_path(&self.pending[0]))
        }
    }

    /// The directories handed out so far, in order.
    pub fn visited(&self) -> (r: Vec<Vec<Vec<u8>>>)
        ensures
            paths_view(r@) == self.emitted(),
    {
        let mut r: Vec<Vec<Vec<u8>>> = Vec::new();
        let mut i: usize = 0;
        while i < self.emitted.len()
            invariant
                i <= self.emitted@.len(),
                r@.len() == i,
                forall|k: int| 0 <= k < i ==> names_view(#[trigger] r@[k]@) == names_view(self.emitted@[k]@),
            decreases self.emitted.len() - i,
        {
            let p = copy_path(&self.emitted[i]);
            r.push(p);
            i += 1;
        }
        assert(paths_view(r@) =~= self.emitted());
        r
    }

    /// Takes the listing of the directory that `next_dir` named: the
    /// directory is handed out, and its kept children become pending, after
    /// the other pending directories for a breadth-first walk and before them
    /// for a depth-first walk. An unreadable directory has an empty listing.
    pub fn advance(&mut self, listing: Vec<Vec<u8>>)
        requires
            old(self).wf(),
            !old(self).is_done(),
        ensures
            final(self).wf(),
            final(self).order() == old(self).order(),
            final(self).emitted() == old(self).emitted().push(old(self).pending()[0]),
            final(self).listed() == old(self).listed().insert(old(self).pending()[0], names_view(listing@)),
            exists|ks: Seq<Seq<u8>>| {
                &&& kept_children(names_view(listing@), ks)
                &&& final(self).pending() == match old(self).order() {
                    Strategy::BreadthFirst => old(self).pending().drop_first() + child_paths(old(self).pending()[0], ks),
                    Strategy::DepthFirst => child_paths(old(self).pending()[0], ks) + old(self).pending().drop_first(),
                }
            },
    {
        let ghost old_seen = self.seen();
        let ghost lv = names_view(listing@);
        let ghost ls = self.listings@;
        let ghost old_emitted = self.emitted();
        let ghost old_pending = self.pending();
        let dir = self.pending.remove(0);
        let ghost f = names_view(dir@);
        assert(f == old_pending[0]);
        let ks = keep_children(listing);
        let ghost kv = names_view(ks@);
        let mut kids: Vec<Vec<Vec<u8>>> = Vec::new();
        let mut i: usize = 0;
        while i < ks.len()
            invariant
                i <= ks@.len(),
                kv == names_view(ks@),
                f == names_view(dir@),
                kids@.len() == i,
                forall|k: int| 0 <= k < i ==> names_view(#[trigger] kids@[k]@) == f.push(kv[k]),
            decreases ks.len() - i,
        {
            let mut child = copy_path(&dir);
            let name = copy_bytes(&ks[i]);
            child.push(name);
            assert(names_view(child@) =~= f.push(kv[i as int]));
            kids.push(child);
            i += 1;
        }
        let ghost kp = paths_view(kids@);
        assert(kp =~= child_paths(f, kv));
        self.emitted.push(dir);
        match self.strategy {
            Strategy::BreadthFirst => {
                self.pending.append(&mut kids);
            },
            Strategy::DepthFirst => {
                kids.append(&mut self.pending);
                self.pending = kids;
            },
        }
        self.listings = Ghost(ls.insert(f, lv));
        proof {
            let rest = old_pending.drop_first();
            assert(self.emitted() =~= old_emitted.push(f));
            match self.strategy {
                Strategy::BreadthFirst => {
                    assert(self.pending() =~= rest + kp);
                },
                Strategy::DepthFirst => {
                    assert(self.pending() =~= kp + rest);
                },
            }
            self.lemma_advance_keeps_wf(old_emitted, old_pending, ls, f, lv, kv);
        }
    }

    proof fn lemma_advance_keeps_wf(
        &self,
        old_emitted: Seq<Seq<Seq<u8>>>,
        old_pending: Seq<Seq<Seq<u8>>>,
        ls: Listings,
        f: Seq<Seq<u8>>,
        lv: Seq<Seq<u8>>,
        kv: Seq<Seq<u8>>,
    )
        requires
            old_pending.len() > 0,
            f == old_pending[0],
            kept_children(lv, kv),
            self.emitted() == old_emitted.push(f),
            self.pending() == old_pending.drop_first() + child_paths(f, kv)
                || self.pending() == child_paths(f, kv) + old_pending.drop_first(),
            self.listings@ == ls.insert(f, lv),
            ({
                let seen = old_emitted + old_pending;
                &&& seen.contains(Seq::<Seq<u8>>::empty())
                &&& seen.no_duplicates()
                &&& forall|p: Seq<Seq<u8>>| #[trigger] ls.contains_key(p) <==> old_emitted.contains(p)
                &&& forall|i: int|
                    0 <= i < seen.len() && (#[trigger] seen[i]).len() > 0 ==> {
                        &&& ls.contains_key(seen[i].drop_last())
                        &&& ls[seen[i].drop_last()].contains(seen[i].last())
                        &&& seen[i].last() != pruned_name()
                    }
                &&& forall|q: Seq<Seq<u8>>, c: Seq<u8>|
                    ls.contains_key(q) && #[trigger] ls[q].contains(c) && c != pruned_name()
                        ==> seen.contains(#[trigger] q.push(c))
                &&& forall|i: int| 0 <= i < seen.len() ==> !enters_pruned(#[trigger] seen[i])
            }),
        ensures
            self.wf(),
    {
        let seen0 = old_emitted + old_pending;
        let rest = old_pending.drop_first();
        let kp = child_paths(f, kv);
        let seen1 = self.seen();
        let e1 = old_emitted.push(f);
        assert(e1 + rest =~= seen0);
        assert(seen0[old_emitted.len() as int] == f);
        // the directory handed out had not been listed before
        assert(!old_emitted.contains(f)) by {
            if old_emitted.contains(f) {
                let i = choose|i: int| 0 <= i < old_emitted.len() && old_emitted[i] == f;
                assert(seen0[i] == seen0[old_emitted.len() as int]);
            }
        }
        assert(!ls.contains_key(f));
        // its children are new
        assert forall|x: Seq<Seq<u8>>| kp.contains(x) implies !seen0.contains(x) && x.len() > 0
            && x.drop_last() == f by {
            let k = choose|k: int| 0 <= k < kp.len() && kp[k] == x;
            assert(x.drop_last() =~= f);
            if seen0.contains(x) {
                let i = choose|i: int| 0 <= i < seen0.len() && seen0[i] == x;
                assert(ls.contains_key(seen0[i].drop_last()));
            }
        }
        assert(kp.no_duplicates()) by {
            assert forall|a: int, b: int| 0 <= a < kp.len() && 0 <= b < kp.len() && a != b
                implies kp[a] != kp[b] by {
                assert(kp[a].last() == kv[a]);
                assert(kp[b].last() == kv[b]);
            }
        }
        lemma_concat_no_duplicates(seen0, kp);
        if self.pending() == rest + kp {
            assert(seen1 =~= seen0 + kp);
        } else {
            assert(seen1 =~= (e1 + kp) + rest);
            assert(e1 =~= seen0.subrange(0, e1.len() as int));
            assert(rest =~= seen0.subrange(e1.len() as int, seen0.len() as int));
            assert forall|a: int, b: int| 0 <= a < e1.len() && 0 <= b < rest.len()
                implies e1[a] != rest[b] by {
                assert(e1[a] == seen0[a]);
                assert(rest[b] == seen0[e1.len() + b]);
            }
            lemma_concat_no_duplicates(e1, kp);
            assert forall|a: int, b: int| 0 <= a < e1.len() && 0 <= b < kp.len()
                implies e1[a] != kp[b] by {
                assert(seen0.contains(e1[a]));
                assert(kp.contains(kp[b]));
            }
            assert forall|a: int, b: int| 0 <= a < (e1 + kp).len() && 0 <= b < rest.len()
                implies (e1 + kp)[a] != rest[b] by {
                assert(seen0.contains(rest[b]));
                if a >= e1.len() {
                    assert(kp.contains((e1 + kp)[a]));
                }
            }
            lemma_concat_no_duplicates(e1 + kp, rest);
        }
        // membership in the new set of known directories
        assert forall|x: Seq<Seq<u8>>| #[trigger] seen1.contains(x) <==> (seen0.contains(x) || kp.contains(x)) by {
            if self.pending() == rest + kp {
                lemma_concat_contains(seen0, kp, x);
            } else {
                lemma_concat_contains(e1, kp, x);
                lemma_concat_contains(e1 + kp, rest, x);
                lemma_concat_contains(e1, rest, x);
            }
        }
        let ls1 = self.listings@;
        assert forall|p: Seq<Seq<u8>>| #[trigger] ls1.contains_key(p) <==> self.emitted().contains(p) by {
            lemma_push_contains(old_emitted, f, p);
        }
        assert(seen1.contains(Seq::<Seq<u8>>::empty()));
        assert forall|i: int|
            0 <= i < seen1.len() && (#[trigger] seen1[i]).len() > 0 implies {
                &&& ls1.contains_key(seen1[i].drop_last())
                &&& ls1[seen1[i].drop_last()].contains(seen1[i].last())
                &&& seen1[i].last() != pruned_name()
            } by {
            let x = seen1[i];
            assert(seen1.contains(x));
            if seen0.contains(x) {
                let j = choose|j: int| 0 <= j < seen0.len() && seen0[j] == x;
                assert(ls.contains_key(seen0[j].drop_last()));
            } else {
                let k = choose|k: int| 0 <= k < kp.len() && kp[k] == x;
                assert(x.drop_last() =~= f);
                assert(kv.contains(kv[k]));
            }
        }
        assert forall|q: Seq<Seq<u8>>, c: Seq<u8>|
            ls1.contains_key(q) && #[trigger] ls1[q].contains(c) && c != pruned_name()
                implies seen1.contains(#[trigger] q.push(c)) by {
            if q == f {
                assert(kv.contains(c));
                let k = choose|k: int| 0 <= k < kv.len() && kv[k] == c;
                assert(kp[k] == q.push(c));
                assert(kp.contains(q.push(c)));
            } else {
                assert(seen0.contains(q.push(c)));
            }
        }
        assert forall|i: int| 0 <= i < seen1.len() implies !enters_pruned(#[trigger] seen1[i]) by {
            let x = seen1[i];
            assert(seen1.contains(x));
            if seen0.contains(x) {
                let j = choose|j: int| 0 <= j < seen0.len() && seen0[j] == x;
                assert(!enters_pruned(seen0[j]));
            } else {
                let k = choose|k: int| 0 <= k < kp.len() && kp[k] == x;
                assert(!enters_pruned(seen0[old_emitted.len() as int]));
                assert(kv.contains(kv[k]));
                if enters_pruned(x) {
                    let m = choose|m: int| 0 <= m < x.len() && x[m] == pruned_name();
                    if m < f.len() {
                        assert(f[m] == pruned_name());
                    }
                }
            }
        }
    }
}

proof fn lemma_concat_no_duplicates<A>(a: Seq<A>, b: Seq<A>)
    requires
        a.no_duplicates(),
        b.no_duplicates(),
        forall|i: int, j: int| 0 <= i < a.len() && 0 <= j < b.len() ==> a[i] != b[j],
    ensures
        (a + b).no_duplicates(),
{
    let s = a + b;
    assert forall|i: int, j: int| 0 <= i < s.len() && 0 <= j < s.len() && i != j implies s[i] != s[j] by {
        if i < a.len() && j >= a.len() {
            assert(s[j] == b[j - a.len()]);
        } else if j < a.len() && i >= a.len() {
            assert(s[i] == b[i - a.len()]);
        }
    }
}

proof fn lemma_concat_contains<A>(a: Seq<A>, b: Seq<A>, x: A)
    ensures
        (a + b).contains(x) <==> (a.contains(x) || b.contains(x)),
{
    if (a + b).contains(x) {
        let i = choose|i: int| 0 <= i < (a + b).len() && (a + b)[i] == x;
        if i >= a.len() {
            assert(b[i - a.len()] == x);
        }
    }
    if b.contains(x) {
        let i = choose|i: int| 0 <= i < b.len() && b[i] == x;
        assert((a + b)[a.len() + i] == x);
    }
    if a.contains(x) {
        let i = choose|i: int| 0 <= i < a.len() && a[i] == x;
        assert((a + b)[i] == x);
    }
}

proof fn lemma_push_contains<A>(a: Seq<A>, y: A, x: A)
    ensures
        a.push(y).contains(x) <==> (a.contains(x) || x == y),
{
    if a.push(y).contains(x) {
        let i = choose|i: int| 0 <= i < a.push(y).len() && a.push(y)[i] == x;
        if i < a.len() {
            assert(a[i] == x);
        }
    }
    if a.contains(x) {
        let i = choose|i: int| 0 <= i < a.len() && a[i] == x;
        assert(a.push(y)[i] == x);
    }
    if x == y {
        assert(a.push(y)[a.len() as int] == x);
    }
}

/// A walk reads a tree when every listing it was fed is that directory's
/// listing in the tree.
pub open spec fn reads_tree(w: TreeWalker, tree: Listings) -> bool {
    forall|q: Seq<Seq<u8>>| #[trigger] w.listed().contains_key(q) ==> tree.contains_key(q) && w.listed()[q] == tree[q]
}

/// No walk hands out, or holds pending, a directory whose path passes
/// through a directory bearing the build-output name: such a directory is
/// never entered.
pub proof fn lemma_pruned_never_entered(w: TreeWalker)
    requires
        w.wf(),
    ensures
        forall|i: int| 0 <= i < w.emitted().len() ==> !enters_pruned(#[trigger] w.emitted()[i]),
        forall|i: int| 0 <= i < w.pending().len() ==> !enters_pruned(#[trigger] w.pending()[i]),
{
    assert forall|i: int| 0 <= i < w.emitted().len() implies !enters_pruned(#[trigger] w.emitted()[i]) by {
        assert(w.seen()[i] == w.emitted()[i]);
    }
    assert forall|i: int| 0 <= i < w.pending().len() implies !enters_pruned(#[trigger] w.pending()[i]) by {
        assert(w.seen()[w.emitted().len() + i] == w.pending()[i]);
    }
}

/// Two finished walks over the same tree, whatever their orders (breadth-first
/// or depth-first), hand out the same set of directories; each hands out each
/// directory once.
pub proof fn lemma_strategies_agree(a: TreeWalker, b: TreeWalker, tree: Listings)
    requires
        a.wf(),
        b.wf(),
        a.is_done(),
        b.is_done(),
        reads_tree(a, tree),
        reads_tree(b, tree),
    ensures
        a.emitted().to_set() == b.emitted().to_set(),
        a.emitted().no_duplicates(),
        b.emitted().no_duplicates(),
{
    assert(a.seen() =~= a.emitted());
    assert(b.seen() =~= b.emitted());
    assert forall|p: Seq<Seq<u8>>| a.emitted().contains(p) <==> b.emitted().contains(p) by {
        if a.emitted().contains(p) {
            lemma_emitted_within(a, b, tree, p);
        }
        if b.emitted().contains(p) {
            lemma_emitted_within(b, a, tree, p);
        }
    }
    assert(a.emitted().to_set() =~= b.emitted().to_set());
}

proof fn lemma_emitted_within(a: TreeWalker, b: TreeWalker, tree: Listings, p: Seq<Seq<u8>>)
    requires
        a.wf(),
        b.wf(),
        a.is_done(),
        b.is_done(),
        reads_tree(a, tree),
        reads_tree(b, tree),
        a.emitted().contains(p),
    ensures
        b.emitted().contains(p),
    decreases p.len(),
{
    assert(a.seen() =~= a.emitted());
    assert(b.seen() =~= b.emitted());
    if p.len() == 0 {
        assert(p =~= Seq::<Seq<u8>>::empty());
    } else {
        let i = choose|i: int| 0 <= i < a.seen().len() && a.seen()[i] == p;
        let q = p.drop_last();
        let c = p.last();
        assert(a.listed().contains_key(q));
        assert(a.listed()[q].contains(c));
        assert(a.emitted().contains(q));
        lemma_emitted_within(a, b, tree, q);
        assert(b.listed().contains_key(q));
        assert(b.listed()[q] == tree[q]);
        assert(q.push(c) =~= p);
        assert(b.seen().contains(q.push(c)));
    }
}

} // verus!
