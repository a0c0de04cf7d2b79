//! The divergence walk: the commits reachable from HEAD but not from the
//! baseline, in commit-time order, newest first.

use crate::repo::{
    commits_wf, is_parent, lemma_reaches_via_step, lemma_reaches_via_zero, num_parents, parent_of,
    reaches, reaches_via, Commit, RefEntry, Repo,
};
use vstd::prelude::*;
use vstd::relations::sorted_by;
use vstd::seq_lib::group_to_multiset_ensures;
use vstd::seq_lib::lemma_sorted_unique;

verus! {

/// Why a divergence walk could not run.
#[derive(Clone, Copy, PartialEq, Eq, Structural, Debug)]
pub enum WalkError {
    /// The baseline name did not resolve to any reference.
    BaselineNotFound,
    /// HEAD does not resolve to a commit (unborn branch).
    HeadUnresolved,
}

/// What resolving a revision name against the reference table yields: the
/// target of the first entry carrying that name, if any.
pub open spec fn revparse_spec(refs: Seq<RefEntry>, name: Seq<char>) -> Option<int>
    decreases refs.len(),
{
    if refs.len() == 0 {
        None
    } else if refs[0].name@ == name {
        Some(refs[0].target as int)
    } else {
        revparse_spec(refs.drop_first(), name)
    }
}

/// Resolve a revision name to the commit it names.
pub fn revparse(repo: &Repo, name: &String) -> (r: Option<usize>)
    ensures
        match r {
            Some(t) => revparse_spec(repo.refs@, name@) == Some(t as int),
            None => revparse_spec(repo.refs@, name@) is None,
        },
{
    let n = repo.refs.len();
    let mut i: usize = 0;
    proof {
        assert(repo.refs@.skip(0) =~= repo.refs@);
    }
    while i < n
        invariant
            n == repo.refs@.len(),
            i <= n,
            revparse_spec(repo.refs@, name@) == revparse_spec(repo.refs@.skip(i as int), name@),
        decreases n - i,
    {
        proof {
            assert(repo.refs@.skip(i as int).drop_first() =~= repo.refs@.skip(i + 1));
        }
        if repo.refs[i].name == *name {
            return Some(repo.refs[i].target);
        }
        i = i + 1;
    }
    proof {
        assert(repo.refs@.skip(n as int).len() == 0);
    }
    None
}

/// Mark every commit reachable from `start`, in one pass from `start` down to
/// the oldest commit: a marked commit marks its parents. Parents stand
/// strictly earlier in the vector, so when the pass leaves an index its mark
/// is final.
fn reach_marks(commits: &Vec<Commit>, start: usize) -> (m: Vec<bool>)
    requires
        commits_wf(commits@),
        start < commits@.len(),
    ensures
        m@.len() == commits@.len(),
        forall|j: int| 0 <= j < m@.len() ==> m@[j] == reaches(commits@, start as int, j),
{
    let ghost cs = commits@;
    let n = commits.len();
    let mut m: Vec<bool> = vec![false; n];
    m[start] = true;
    let mut i: usize = start + 1;
    proof {
        assert forall|jj: int| 0 <= jj < n implies m@[jj] == reaches_via(
            cs,
            start as int,
            jj,
            i as int,
        ) by {
            assert(reaches_via(cs, start as int, jj, i as int) == (start as int == jj));
        }
    }
    while i > 0
        invariant
            commits_wf(cs),
            cs == commits@,
            n == cs.len(),
            m@.len() == n,
            start < n,
            i <= start + 1,
            forall|jj: int| 0 <= jj < n ==> m@[jj] == reaches_via(cs, start as int, jj, i as int),
        decreases i,
    {
        i = i - 1;
        if m[i] {
            let np = commits[i].parents.len();
            let mut k: usize = 0;
            while k < np
                invariant
                    commits_wf(cs),
                    cs == commits@,
                    n == cs.len(),
                    m@.len() == n,
                    start < n,
                    i < n,
                    k <= np,
                    np == num_parents(cs, i as int),
                    reaches_via(cs, start as int, i as int, i + 1),
                    forall|jj: int|
                        0 <= jj < n ==> m@[jj] == (reaches_via(cs, start as int, jj, i + 1) || (
                        exists|kk: int|
                            0 <= kk < k && #[trigger] parent_of(cs, i as int, kk) == jj)),
                decreases np - k,
            {
                let p = commits[i].parents[k];
                proof {
                    assert(parent_of(cs, i as int, k as int) == p as int);
                    assert(p < n);
                }
                let ghost m_old = m@;
                m[p] = true;
                proof {
                    assert forall|jj: int|
                        0 <= jj < n implies m@[jj] == (reaches_via(cs, start as int, jj, i + 1) || (
                    exists|kk: int|
                        0 <= kk < k + 1 && #[trigger] parent_of(cs, i as int, kk) == jj)) by {
                        if jj == p as int {
                            assert(parent_of(cs, i as int, k as int) == jj);
                        } else {
                            assert(m@[jj] == m_old[jj]);
                            assert forall|kk: int|
                                0 <= kk < k + 1 && #[trigger] parent_of(cs, i as int, kk)
                                    == jj implies 0 <= kk < k && parent_of(cs, i as int, kk)
                                == jj by {
                                assert(kk != k);
                            }
                        }
                    }
                }
                k = k + 1;
            }
            proof {
                assert forall|jj: int| 0 <= jj < n implies m@[jj] == reaches_via(
                    cs,
                    start as int,
                    jj,
                    i as int,
                ) by {
                    lemma_reaches_via_step(cs, start as int, jj, i as int);
                    assert((exists|kk: int|
                        0 <= kk < np && #[trigger] parent_of(cs, i as int, kk) == jj) == is_parent(
                        cs,
                        i as int,
                        jj,
                    ));
                }
            }
        } else {
            proof {
                assert forall|jj: int| 0 <= jj < n implies m@[jj] == reaches_via(
                    cs,
                    start as int,
                    jj,
                    i as int,
                ) by {
                    lemma_reaches_via_step(cs, start as int, jj, i as int);
                }
            }
        }
    }
    proof {
        assert forall|jj: int| 0 <= jj < n implies m@[jj] == reaches(cs, start as int, jj) by {
            lemma_reaches_via_zero(cs, start as int, jj);
        }
    }
    m
}

/// The commit time recorded at index `i`, zero outside the vector.
pub open spec fn time_at(cs: Seq<Commit>, i: int) -> int {
    if 0 <= i < cs.len() {
        cs[i].time as int
    } else {
        0
    }
}

/// Display order over commit indices: newer commit time first, ties broken
/// toward the higher index. A total order, so a sorted divergence list is
/// unique.
pub open spec fn shown_leq(cs: Seq<Commit>) -> spec_fn(usize, usize) -> bool {
    |a: usize, b: usize|
        time_at(cs, a as int) > time_at(cs, b as int) || (time_at(cs, a as int) == time_at(
            cs,
            b as int,
        ) && a >= b)
}

/// [`shown_leq`] really is a total order.
pub proof fn lemma_shown_leq_total(cs: Seq<Commit>)
    ensures
        vstd::relations::total_ordering(shown_leq(cs)),
{
    let leq = shown_leq(cs);
    assert forall|a: usize, b: usize| #[trigger] leq(a, b) || #[trigger] leq(b, a) by {}
    assert forall|a: usize, b: usize| #[trigger] leq(a, b) && #[trigger] leq(b, a) implies a
        == b by {}
    assert forall|a: usize, b: usize, c: usize|
        #[trigger] leq(a, b) && #[trigger] leq(b, c) implies leq(a, c) by {}
}

/// Does commit `a` come strictly before commit `b` in display order?
fn shown_strictly_before(commits: &Vec<Commit>, a: usize, b: usize) -> (r: bool)
    requires
        a < commits@.len(),
        b < commits@.len(),
    ensures
        r == !shown_leq(commits@)(b, a),
{
    let ta = commits[a].time;
    let tb = commits[b].time;
    ta > tb || (ta == tb && a > b)
}

/// Sort commit indices into display order by insertion.
fn sort_shown(commits: &Vec<Commit>, v: Vec<usize>) -> (r: Vec<usize>)
    requires
        forall|k: int| 0 <= k < v@.len() ==> (#[trigger] v@[k]) < commits@.len(),
    ensures
        r@.to_multiset() =~= v@.to_multiset(),
        sorted_by(r@, shown_leq(commits@)),
        forall|k: int| 0 <= k < r@.len() ==> (#[trigger] r@[k]) < commits@.len(),
{
    broadcast use group_to_multiset_ensures;

    let ghost leq = shown_leq(commits@);
    let mut out: Vec<usize> = Vec::new();
    let mut idx: usize = 0;
    proof {
        assert(v@.take(0).to_multiset() =~= out@.to_multiset());
    }
    while idx < v.len()
        invariant
            forall|k: int| 0 <= k < v@.len() ==> (#[trigger] v@[k]) < commits@.len(),
            forall|k: int| 0 <= k < out@.len() ==> (#[trigger] out@[k]) < commits@.len(),
            idx <= v@.len(),
            leq == shown_leq(commits@),
            out@.to_multiset() =~= v@.take(idx as int).to_multiset(),
            sorted_by(out@, leq),
        decreases v@.len() - idx,
    {
        let x = v[idx];
        let mut pos: usize = 0;
        while pos < out.len() && shown_strictly_before(commits, out[pos], x)
            invariant
                forall|k: int| 0 <= k < out@.len() ==> (#[trigger] out@[k]) < commits@.len(),
                x < commits@.len(),
                pos <= out@.len(),
                leq == shown_leq(commits@),
                forall|q: int| 0 <= q < pos ==> leq(#[trigger] out@[q], x),
            decreases out@.len() - pos,
        {
            pos = pos + 1;
        }
        proof {
            if pos < out@.len() {
                assert(leq(x, out@[pos as int]));
            }
        }
        let ghost out_old = out@;
        out.insert(pos, x);
        proof {
            vstd::seq_lib::to_multiset_insert(out_old, pos as int, x);
            vstd::seq_lib::to_multiset_build(v@.take(idx as int), x);
            out_old.insert_ensures(pos as int, x);
            assert(out@.to_multiset() =~= out_old.to_multiset().insert(x));
            assert(v@.take(idx + 1) =~= v@.take(idx as int).push(x));
            assert(v@.take(idx + 1).to_multiset() == v@.take(idx as int).push(x).to_multiset());
            assert(out@.to_multiset() =~= v@.take(idx + 1).to_multiset());
            assert forall|q1: int, q2: int| 0 <= q1 < q2 < out@.len() implies #[trigger] leq(
                out@[q1],
                out@[q2],
            ) by {
                if q2 < pos {
                    assert(out@[q1] == out_old[q1] && out@[q2] == out_old[q2]);
                } else if q2 == pos {
                    assert(out@[q1] == out_old[q1] && out@[q2] == x);
                } else if q1 < pos {
                    assert(out@[q1] == out_old[q1] && out@[q2] == out_old[q2 - 1]);
                    assert(leq(out_old[q1], x));
                    if q2 - 1 > q1 {
                        assert(leq(out_old[q1], out_old[q2 - 1]));
                    }
                } else if q1 == pos {
                    assert(out@[q1] == x && out@[q2] == out_old[q2 - 1]);
                    assert(leq(x, out_old[pos as int]));
                    if q2 - 1 > pos {
                        assert(leq(out_old[pos as int], out_old[q2 - 1]));
                    }
                } else {
                    assert(out@[q1] == out_old[q1 - 1] && out@[q2] == out_old[q2 - 1]);
                }
            }
        }
        idx = idx + 1;
    }
    proof {
        assert(v@.take(v@.len() as int) =~= v@);
    }
    out
}

/// A resolved name points at one of the reference targets.
proof fn lemma_revparse_target_in_refs(refs: Seq<RefEntry>, name: Seq<char>)
    requires
        revparse_spec(refs, name) is Some,
    ensures
        exists|k: int|
            0 <= k < refs.len() && (#[trigger] refs[k]).target as int == revparse_spec(
                refs,
                name,
            ).unwrap(),
    decreases refs.len(),
{
    if refs[0].name@ == name {
        assert(refs[0].target as int == revparse_spec(refs, name).unwrap());
    } else {
        lemma_revparse_target_in_refs(refs.drop_first(), name);
        let k = choose|k: int|
            0 <= k < refs.drop_first().len() && (#[trigger] refs.drop_first()[k]).target as int
                == revparse_spec(refs.drop_first(), name).unwrap();
        assert(refs[k + 1] == refs.drop_first()[k]);
    }
}

/// Commit `j` belongs to the divergence of `head` from `base`: reachable from
/// `head`, not reachable from `base`.
pub open spec fn in_divergence(cs: Seq<Commit>, head: int, base: int, j: int) -> bool {
    reaches(cs, head, j) && !reaches(cs, base, j)
}

/// Everything a successful walk promises of its output: the indices shown
/// are exactly the divergence of `head` from `base`, each shown once, in
/// display order (commit time, newest first).
pub open spec fn divergence_post(cs: Seq<Commit>, head: int, base: int, s: Seq<usize>) -> bool {
    &&& s.no_duplicates()
    &&& sorted_by(s, shown_leq(cs))
    &&& (forall|k: int| 0 <= k < s.len() ==> (#[trigger] s[k]) < cs.len())
    &&& (forall|j: usize|
        j < cs.len() ==> (#[trigger] s.contains(j) <==> in_divergence(cs, head, base, j as int)))
}

/// Walk the divergence: resolve the baseline name and HEAD, then list the
/// commits reachable from HEAD but not from the baseline, newest first.
///
/// A baseline name that does not resolve is an error, never silently
/// defaulted; an unresolved HEAD (unborn branch) is an error as well.
pub fn compute_divergence(repo: &Repo, baseline_name: &String) -> (r: Result<
    Vec<usize>,
    WalkError,
>)
    requires
        repo.wf(),
    ensures
        r is Ok <==> (revparse_spec(repo.refs@, baseline_name@) is Some && repo.head is Some),
        match r {
            Ok(v) => divergence_post(
                repo.commits@,
                repo.head.unwrap() as int,
                revparse_spec(repo.refs@, baseline_name@).unwrap(),
                v@,
            ),
            Err(e) => match e {
                WalkError::BaselineNotFound => revparse_spec(repo.refs@, baseline_name@) is None,
                WalkError::HeadUnresolved => revparse_spec(repo.refs@, baseline_name@) is Some
                    && repo.head is None,
            },
        },
{
    let ghost cs = repo.commits@;
    let base = match revparse(repo, baseline_name) {
        Some(b) => b,
        None => {
            return Err(WalkError::BaselineNotFound);
        },
    };
    let head = match repo.head {
        Some(h) => h,
        None => {
            return Err(WalkError::HeadUnresolved);
        },
    };
    proof {
        lemma_revparse_target_in_refs(repo.refs@, baseline_name@);
    }
    let hm = reach_marks(&repo.commits, head);
    let bm = reach_marks(&repo.commits, base);
    let n = repo.commits.len();
    let mut cand: Vec<usize> = Vec::new();
    let mut i: usize = 0;
    while i < n
        invariant
            n == cs.len(),
            cs == repo.commits@,
            i <= n,
            hm@.len() == n,
            bm@.len() == n,
            head < n,
            base < n,
            forall|j: int| 0 <= j < n ==> hm@[j] == reaches(cs, head as int, j),
            forall|j: int| 0 <= j < n ==> bm@[j] == reaches(cs, base as int, j),
            forall|k: int| 0 <= k < cand@.len() ==> (#[trigger] cand@[k]) < i,
            forall|k1: int, k2: int| 0 <= k1 < k2 < cand@.len() ==> cand@[k1] < cand@[k2],
            forall|j: usize|
                j < i ==> (#[trigger] cand@.contains(j) <==> in_divergence(
                    cs,
                    head as int,
                    base as int,
                    j as int,
                )),
        decreases n - i,
    {
        let ghost c_old = cand@;
        let take = hm[i] && !bm[i];
        if take {
            cand.push(i);
        }
        proof {
            assert forall|j: usize| j < i + 1 implies (#[trigger] cand@.contains(j)
                <==> in_divergence(cs, head as int, base as int, j as int)) by {
                if take {
                    assert(cand@ == c_old.push(i));
                    assert(cand@[c_old.len() as int] == i);
                    if j == i {
                        assert(cand@.contains(j));
                    } else {
                        assert(cand@.contains(j) <==> c_old.contains(j)) by {
                            if cand@.contains(j) {
                                let k = choose|k: int| 0 <= k < cand@.len() && cand@[k] == j;
                                assert(c_old[k] == j);
                            }
                            if c_old.contains(j) {
                                let k = choose|k: int| 0 <= k < c_old.len() && c_old[k] == j;
                                assert(cand@[k] == j);
                            }
                        }
                    }
                } else {
                    if j == i {
                        assert(!cand@.contains(j)) by {
                            if cand@.contains(j) {
                                let k = choose|k: int| 0 <= k < cand@.len() && cand@[k] == j;
                                assert(cand@[k] < i);
                            }
                        }
                    }
                }
            }
        }
        i = i + 1;
    }
    proof {
        assert(cand@.no_duplicates()) by {
            assert forall|k1: int, k2: int|
                0 <= k1 < cand@.len() && 0 <= k2 < cand@.len() && k1 != k2 implies cand@[k1]
                != cand@[k2] by {
                if k1 < k2 {
                    assert(cand@[k1] < cand@[k2]);
                } else {
                    assert(cand@[k2] < cand@[k1]);
                }
            }
        }
    }
    let out = sort_shown(&repo.commits, cand);
    proof {
        broadcast use group_to_multiset_ensures;

        cand@.lemma_multiset_has_no_duplicates();
        out@.lemma_multiset_has_no_duplicates_conv();
        assert forall|j: usize| j < cs.len() implies (#[trigger] out@.contains(j) <==> in_divergence(
            cs,
            head as int,
            base as int,
            j as int,
        )) by {
            assert(out@.to_multiset().count(j) == cand@.to_multiset().count(j));
            assert(out@.contains(j) <==> out@.to_multiset().count(j) > 0);
            assert(cand@.contains(j) <==> cand@.to_multiset().count(j) > 0);
        }
    }
    Ok(out)
}

/// When the baseline is HEAD itself, nothing diverges: any sequence the
/// walk's contract admits is empty.
pub proof fn lemma_divergence_of_head_is_empty(cs: Seq<Commit>, h: int, s: Seq<usize>)
    requires
        divergence_post(cs, h, h, s),
    ensures
        s =~= Seq::<usize>::empty(),
{
    if s.len() > 0 {
        assert(s.contains(s[0]));
        assert(in_divergence(cs, h, h, s[0] as int));
    }
}

/// The baseline commit and each of its ancestors stay out of the walk's
/// output.
pub proof fn lemma_divergence_excludes_baseline_ancestors(
    cs: Seq<Commit>,
    h: int,
    b: int,
    j: usize,
    s: Seq<usize>,
)
    requires
        divergence_post(cs, h, b, s),
        reaches(cs, b, j as int),
    ensures
        !s.contains(j),
{
    if s.contains(j) {
        let k = choose|k: int| 0 <= k < s.len() && s[k] == j;
        assert(s[k] < cs.len());
        assert(in_divergence(cs, h, b, j as int));
    }
}

/// In particular the baseline commit itself is never shown.
pub proof fn lemma_divergence_excludes_baseline(cs: Seq<Commit>, h: int, b: usize, s: Seq<usize>)
    requires
        divergence_post(cs, h, b as int, s),
        commits_wf(cs),
        b < cs.len(),
    ensures
        !s.contains(b),
{
    assert(reaches(cs, b as int, b as int));
    lemma_divergence_excludes_baseline_ancestors(cs, h, b as int, b, s);
}

/// Everything shown is new on HEAD: reachable from it, not from the
/// baseline.
pub proof fn lemma_divergence_members(cs: Seq<Commit>, h: int, b: int, s: Seq<usize>, k: int)
    requires
        divergence_post(cs, h, b, s),
        0 <= k < s.len(),
    ensures
        reaches(cs, h, s[k] as int),
        !reaches(cs, b, s[k] as int),
{
    assert(s.contains(s[k]));
    assert(in_divergence(cs, h, b, s[k] as int));
}

/// The walk's contract pins its output completely: two sequences that both
/// meet it for the same repository, HEAD and baseline are equal. Repeating
/// the walk on an unchanged repository therefore repeats the sequence.
pub proof fn lemma_divergence_deterministic(
    cs: Seq<Commit>,
    h: int,
    b: int,
    s1: Seq<usize>,
    s2: Seq<usize>,
)
    requires
        divergence_post(cs, h, b, s1),
        divergence_post(cs, h, b, s2),
    ensures
        s1 =~= s2,
{
    broadcast use group_to_multiset_ensures;

    lemma_shown_leq_total(cs);
    s1.lemma_multiset_has_no_duplicates();
    s2.lemma_multiset_has_no_duplicates();
    assert forall|x: usize| s1.to_multiset().count(x) == s2.to_multiset().count(x) by {
        assert(s1.contains(x) <==> s1.to_multiset().count(x) > 0);
        assert(s2.contains(x) <==> s2.to_multiset().count(x) > 0);
        if s1.contains(x) {
            let k = choose|k: int| 0 <= k < s1.len() && s1[k] == x;
            assert(s1[k] < cs.len());
            assert(s2.contains(x));
        }
        if s2.contains(x) {
            let k = choose|k: int| 0 <= k < s2.len() && s2[k] == x;
            assert(s2[k] < cs.len());
            assert(s1.contains(x));
        }
    }
    assert(s1.to_multiset() =~= s2.to_multiset());
    lemma_sorted_unique(s1, s2, shown_leq(cs));
}

} // verus!
