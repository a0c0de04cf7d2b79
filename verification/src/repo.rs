//! The in-memory repository model and the ancestry (reachability) relation.
//!
//! Commits are stored in a vector in which every parent stands strictly
//! before its children, the order any append-only history admits. That
//! ordering makes the ancestry relation a well-founded recursion over the
//! commit index.

use vstd::prelude::*;

verus! {

/// One commit: the raw bytes of its identifier, the indices of its parents in
/// [`Repo::commits`], its commit time in seconds, and its raw message bytes.
pub struct Commit {
    pub id: Vec<u8>,
    pub parents: Vec<usize>,
    pub time: i64,
    pub message: Vec<u8>,
}

/// The operational state a repository can be in (normal, or some operation in
/// progress).
#[derive(Clone, Copy, PartialEq, Eq, Structural, Debug)]
pub enum RepoState {
    Clean,
    Merge,
    Revert,
    RevertSequence,
    CherryPick,
    CherryPickSequence,
    Bisect,
    Rebase,
    RebaseInteractive,
    RebaseMerge,
    ApplyMailbox,
    ApplyMailboxOrRebase,
}

/// A named reference: a revision name and the commit it resolves to.
pub struct RefEntry {
    pub name: String,
    pub target: usize,
}

/// An open repository, reduced to the plain values this tool reads:
/// the commit graph, the resolvable reference names, the symbolic HEADs of
/// the two preferred remotes (as shorthand names, when they resolve), whether
/// the two preferred local branches exist, the commit HEAD resolves to (absent
/// on an unborn branch), HEAD's shorthand name, the configured remote names,
/// and the operational state.
pub struct Repo {
    pub commits: Vec<Commit>,
    pub refs: Vec<RefEntry>,
    pub origin_head: Option<String>,
    pub upstream_head: Option<String>,
    pub has_master: bool,
    pub has_main: bool,
    pub head: Option<usize>,
    pub head_name: Option<String>,
    pub remotes: Vec<String>,
    pub state: RepoState,
}

/// How many parents commit `i` has.
pub open spec fn num_parents(cs: Seq<Commit>, i: int) -> int {
    cs[i].parents@.len() as int
}

/// The `k`-th parent of commit `i`.
pub open spec fn parent_of(cs: Seq<Commit>, i: int, k: int) -> int {
    cs[i].parents@[k] as int
}

/// `j` is a direct parent of commit `i`.
pub open spec fn is_parent(cs: Seq<Commit>, i: int, j: int) -> bool {
    exists|k: int| 0 <= k < num_parents(cs, i) && #[trigger] parent_of(cs, i, k) == j
}

/// Every commit's parents stand strictly before it in the vector: the graph
/// is acyclic and stored parents-first.
pub open spec fn commits_wf(cs: Seq<Commit>) -> bool {
    forall|i: int, k: int|
        0 <= i < cs.len() && 0 <= k < num_parents(cs, i) ==> 0 <= #[trigger] parent_of(cs, i, k)
            < i
}

impl Repo {
    /// The model is internally consistent: the commit graph is stored
    /// parents-first and every reference, HEAD included, points into it.
    pub open spec fn wf(self) -> bool {
        &&& commits_wf(self.commits@)
        &&& (match self.head {
            Some(h) => h < self.commits@.len(),
            None => true,
        })
        &&& (forall|r: int|
            0 <= r < self.refs@.len() ==> (#[trigger] self.refs@[r]).target < self.commits@.len())
    }
}

/// Commit `j` is reachable from commit `i` through parent edges, `i` itself
/// included. This is the ancestry relation the divergence walk is stated
/// over.
pub open spec fn reaches(cs: Seq<Commit>, i: int, j: int) -> bool
    decreases i,
        when commits_wf(cs)
{
    if 0 <= i < cs.len() {
        i == j || (exists|k: int|
            0 <= k < num_parents(cs, i) && reaches(cs, #[trigger] parent_of(cs, i, k), j))
    } else {
        false
    }
}

/// Reachability restricted to walks whose every step starts at an index of at
/// least `lo` (the endpoint `j` itself is unconstrained). `reaches_via` at
/// `lo == 0` coincides with [`reaches`]; the marking pass lowers `lo` one
/// index at a time.
pub open spec fn reaches_via(cs: Seq<Commit>, i: int, j: int, lo: int) -> bool
    decreases i,
        when commits_wf(cs)
{
    if 0 <= i < cs.len() {
        i == j || (i >= lo && exists|k: int|
            0 <= k < num_parents(cs, i) && reaches_via(cs, #[trigger] parent_of(cs, i, k), j, lo))
    } else {
        false
    }
}

/// Lowering the floor keeps every walk admissible.
pub proof fn lemma_reaches_via_mono(cs: Seq<Commit>, i: int, j: int, lo1: int, lo2: int)
    requires
        commits_wf(cs),
        lo2 <= lo1,
        reaches_via(cs, i, j, lo1),
    ensures
        reaches_via(cs, i, j, lo2),
    decreases i,
{
    if i == j {
    } else {
        let k = choose|k: int|
            0 <= k < num_parents(cs, i) && reaches_via(cs, #[trigger] parent_of(cs, i, k), j, lo1);
        lemma_reaches_via_mono(cs, parent_of(cs, i, k), j, lo1, lo2);
        assert(reaches_via(cs, parent_of(cs, i, k), j, lo2));
    }
}

/// With the floor at zero no walk is excluded: the restricted relation is
/// plain reachability.
pub proof fn lemma_reaches_via_zero(cs: Seq<Commit>, i: int, j: int)
    requires
        commits_wf(cs),
    ensures
        reaches_via(cs, i, j, 0) == reaches(cs, i, j),
    decreases i,
{
    if 0 <= i < cs.len() {
        if i == j {
        } else {
            if reaches_via(cs, i, j, 0) {
                let k = choose|k: int|
                    0 <= k < num_parents(cs, i) && reaches_via(
                        cs,
                        #[trigger] parent_of(cs, i, k),
                        j,
                        0,
                    );
                lemma_reaches_via_zero(cs, parent_of(cs, i, k), j);
                assert(reaches(cs, parent_of(cs, i, k), j));
            }
            if reaches(cs, i, j) {
                let k = choose|k: int|
                    0 <= k < num_parents(cs, i) && reaches(cs, #[trigger] parent_of(cs, i, k), j);
                lemma_reaches_via_zero(cs, parent_of(cs, i, k), j);
                assert(reaches_via(cs, parent_of(cs, i, k), j, 0));
            }
        }
    }
}

/// A walk to `i` above the floor `i + 1`, extended by one parent edge of `i`,
/// is a walk above the floor `i`.
pub proof fn lemma_reaches_via_extend(cs: Seq<Commit>, s: int, i: int, j: int)
    requires
        commits_wf(cs),
        0 <= i < cs.len(),
        reaches_via(cs, s, i, i + 1),
        is_parent(cs, i, j),
    ensures
        reaches_via(cs, s, j, i),
    decreases s,
{
    let kj = choose|k: int| 0 <= k < num_parents(cs, i) && #[trigger] parent_of(cs, i, k) == j;
    if s == i {
        assert(reaches_via(cs, j, j, i));
        assert(0 <= kj < num_parents(cs, s) && reaches_via(cs, parent_of(cs, s, kj), j, i));
    } else {
        let k = choose|k: int|
            0 <= k < num_parents(cs, s) && reaches_via(cs, #[trigger] parent_of(cs, s, k), i, i + 1);
        lemma_reaches_via_extend(cs, parent_of(cs, s, k), i, j);
        assert(0 <= k < num_parents(cs, s) && reaches_via(cs, parent_of(cs, s, k), j, i));
    }
}

/// Lowering the floor from `i + 1` to `i` admits exactly the walks that run
/// through a parent edge of `i`: the recurrence the marking pass maintains.
pub proof fn lemma_reaches_via_step(cs: Seq<Commit>, s: int, j: int, i: int)
    requires
        commits_wf(cs),
        0 <= i < cs.len(),
    ensures
        reaches_via(cs, s, j, i) == (reaches_via(cs, s, j, i + 1) || (reaches_via(cs, s, i, i + 1)
            && is_parent(cs, i, j))),
    decreases (if s < 0 {
        0
    } else {
        s
    }),
{
    if !(0 <= s < cs.len()) {
    } else {
        if reaches_via(cs, s, j, i + 1) {
            lemma_reaches_via_mono(cs, s, j, i + 1, i);
        }
        if reaches_via(cs, s, i, i + 1) && is_parent(cs, i, j) {
            lemma_reaches_via_extend(cs, s, i, j);
        }
        if reaches_via(cs, s, j, i) {
            if s == j {
            } else {
                let k = choose|k: int|
                    0 <= k < num_parents(cs, s) && reaches_via(
                        cs,
                        #[trigger] parent_of(cs, s, k),
                        j,
                        i,
                    );
                let p = parent_of(cs, s, k);
                lemma_reaches_via_step(cs, p, j, i);
                if reaches_via(cs, p, j, i + 1) {
                    if s >= i + 1 {
                        assert(0 <= k < num_parents(cs, s) && reaches_via(cs, p, j, i + 1));
                        assert(reaches_via(cs, s, j, i + 1));
                    } else {
                        // s == i, so the parent lies below the floor i + 1 and
                        // the walk from it must be empty: j is that parent.
                        assert(p == j);
                        assert(reaches_via(cs, s, i, i + 1));
                        assert(0 <= k < num_parents(cs, i) && parent_of(cs, i, k) == j);
                        assert(is_parent(cs, i, j));
                    }
                } else {
                    assert(reaches_via(cs, p, i, i + 1) && is_parent(cs, i, j));
                    if s == i {
                        assert(reaches_via(cs, s, i, i + 1));
                    } else {
                        assert(0 <= k < num_parents(cs, s) && reaches_via(cs, p, i, i + 1));
                        assert(reaches_via(cs, s, i, i + 1));
                    }
                }
            }
        }
    }
}

} // verus!
