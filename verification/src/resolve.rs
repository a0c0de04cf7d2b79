//! The baseline-branch heuristic: which branch to compare HEAD against when
//! the user names none.

use crate::repo::Repo;
use vstd::prelude::*;

verus! {

/// The name the heuristic picks, as a priority chain: the symbolic HEAD of
/// the remote "origin", then of "upstream"; then the local branch "master",
/// then "main"; and as a last resort the literal "master", whether or not
/// such a branch exists.
pub open spec fn baseline_spec(r: Repo) -> Seq<char> {
    match r.origin_head {
        Some(n) => n@,
        None => match r.upstream_head {
            Some(n) => n@,
            None => if r.has_master {
                "master"@
            } else if r.has_main {
                "main"@
            } else {
                "master"@
            },
        },
    }
}

/// Infer the baseline branch name. Total: it always returns a name, but the
/// name is not guaranteed to resolve — resolution stays with the caller.
pub fn resolve_baseline_branch(repo: &Repo) -> (r: String)
    ensures
        r@ == baseline_spec(*repo),
{
    match &repo.origin_head {
        Some(n) => n.clone(),
        None => match &repo.upstream_head {
            Some(n) => n.clone(),
            None => if repo.has_master {
                "master".to_owned()
            } else if repo.has_main {
                "main".to_owned()
            } else {
                "master".to_owned()
            },
        },
    }
}

/// The baseline actually compared against: the explicitly supplied name when
/// there is one, otherwise the inferred one.
pub fn baseline_or_default(repo: &Repo, explicit: Option<String>) -> (r: String)
    ensures
        r@ == match explicit {
            Some(n) => n@,
            None => baseline_spec(*repo),
        },
{
    match explicit {
        Some(n) => n,
        None => resolve_baseline_branch(repo),
    }
}

/// A remote symbolic HEAD of "origin" wins over everything else, whatever
/// local branches exist.
pub proof fn lemma_origin_head_wins(r: Repo, n: String)
    requires
        r.origin_head == Some(n),
    ensures
        baseline_spec(r) == n@,
{
}

/// With no remote symbolic HEAD, the local candidates decide: "master" when
/// it exists, otherwise "main" when it exists.
pub proof fn lemma_local_branch_order(r: Repo)
    requires
        r.origin_head is None,
        r.upstream_head is None,
    ensures
        r.has_master ==> baseline_spec(r) == "master"@,
        !r.has_master && r.has_main ==> baseline_spec(r) == "main"@,
{
}

/// With nothing to go by, the heuristic still answers: the literal "master".
pub proof fn lemma_default_is_master(r: Repo)
    requires
        r.origin_head is None,
        r.upstream_head is None,
        !r.has_master,
        !r.has_main,
    ensures
        baseline_spec(r) == "master"@,
{
}

} // verus!
