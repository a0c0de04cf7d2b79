//! What the terminal shows: short commit identifiers, message headlines,
//! the current-branch line and the repository-state tag.

use crate::repo::{Commit, RepoState};
use vstd::prelude::*;
use vstd::string::StringExecFns;

verus! {

/// The views of a list of names.
pub open spec fn views_of(names: Seq<String>) -> Seq<Seq<char>> {
    names.map_values(|n: String| n@)
}

/// A list of names joined by a separator.
pub open spec fn joined(names: Seq<Seq<char>>, sep: Seq<char>) -> Seq<char>
    decreases names.len(),
{
    if names.len() == 0 {
        Seq::empty()
    } else if names.len() == 1 {
        names[0]
    } else {
        joined(names.drop_last(), sep) + sep + names.last()
    }
}

/// The comma-joined list of configured remote names, for the status line.
pub fn remote_list(names: &Vec<String>) -> (r: String)
    ensures
        r@ == joined(views_of(names@), ", "@),
{
    let mut r = String::new();
    let mut i: usize = 0;
    proof {
        assert(views_of(names@).take(0) =~= Seq::<Seq<char>>::empty());
    }
    while i < names.len()
        invariant
            i <= names@.len(),
            r@ == joined(views_of(names@).take(i as int), ", "@),
        decreases names@.len() - i,
    {
        if i > 0 {
            r.append(", ");
        }
        r.append(names[i].as_str());
        proof {
            let m = views_of(names@);
            assert(m.take(i + 1).drop_last() =~= m.take(i as int));
            assert(m.take(i + 1).last() == names@[i as int]@);
        }
        i = i + 1;
    }
    proof {
        assert(views_of(names@).take(names@.len() as int) =~= views_of(names@));
    }
    r
}

/// The ASCII code of the lower-case hex digit for a nibble.
pub open spec fn hex_digit(n: u8) -> u8 {
    if n < 10 {
        (48 + n) as u8
    } else {
        (87 + n) as u8
    }
}

/// The lower-case hexadecimal rendering of a byte string, as ASCII bytes:
/// two digits per byte, high nibble first.
pub open spec fn hex_of(bs: Seq<u8>) -> Seq<u8>
    decreases bs.len(),
{
    if bs.len() == 0 {
        Seq::empty()
    } else {
        hex_of(bs.drop_last()) + seq![hex_digit(bs.last() / 16), hex_digit(bs.last() % 16)]
    }
}

/// Render an identifier's bytes in hexadecimal.
pub fn hex_bytes(id: &Vec<u8>) -> (r: Vec<u8>)
    ensures
        r@ == hex_of(id@),
{
    let mut r: Vec<u8> = Vec::new();
    let mut i: usize = 0;
    proof {
        assert(id@.take(0) =~= Seq::<u8>::empty());
    }
    while i < id.len()
        invariant
            i <= id@.len(),
            r@ == hex_of(id@.take(i as int)),
        decreases id@.len() - i,
    {
        let b = id[i];
        let hi = b / 16;
        let lo = b % 16;
        r.push(if hi < 10 { 48 + hi } else { 87 + hi });
        r.push(if lo < 10 { 48 + lo } else { 87 + lo });
        proof {
            assert(id@.take(i + 1).drop_last() =~= id@.take(i as int));
            assert(id@.take(i + 1).last() == id@[i as int]);
            assert(r@ =~= hex_of(id@.take(i + 1)));
        }
        i = i + 1;
    }
    proof {
        assert(id@.take(id@.len() as int) =~= id@);
    }
    r
}

/// The display length of a short identifier: seven hex digits, or the whole
/// rendering when it is shorter.
pub open spec fn short_len(bs: Seq<u8>) -> int {
    if 2 * bs.len() < 7 {
        2 * bs.len() as int
    } else {
        7
    }
}

/// The short form of a commit identifier: the first seven hex digits of its
/// canonical rendering, a display convenience with no uniqueness promise.
pub fn short_id(id: &Vec<u8>) -> (r: Vec<u8>)
    ensures
        r@ == hex_of(id@).take(short_len(id@)),
{
    let mut h = hex_bytes(id);
    proof {
        lemma_hex_len(id@);
    }
    if h.len() > 7 {
        h.truncate(7);
    } else {
        proof {
            assert(h@.take(h@.len() as int) =~= h@);
        }
    }
    h
}

/// A hex rendering is twice as long as its input.
pub proof fn lemma_hex_len(bs: Seq<u8>)
    ensures
        hex_of(bs).len() == 2 * bs.len(),
    decreases bs.len(),
{
    if bs.len() > 0 {
        lemma_hex_len(bs.drop_last());
    }
}

/// Where the first line of a message ends: the index of its first line feed,
/// or the length when there is none.
pub open spec fn first_nl(bs: Seq<u8>) -> int
    decreases bs.len(),
{
    if bs.len() == 0 {
        0
    } else if bs[0] == 10 {
        0
    } else {
        1 + first_nl(bs.drop_first())
    }
}

/// The headline of a message: everything before its first line feed, with a
/// trailing carriage return dropped. Empty for an empty message.
pub open spec fn first_line_of(bs: Seq<u8>) -> Seq<u8> {
    let line = bs.take(first_nl(bs));
    if line.len() > 0 && line.last() == 13 {
        line.drop_last()
    } else {
        line
    }
}

/// Extract the headline of a commit message. Message bytes are arbitrary;
/// no decoding happens here, so nothing can fail.
pub fn first_line(msg: &Vec<u8>) -> (r: Vec<u8>)
    ensures
        r@ == first_line_of(msg@),
{
    let n = msg.len();
    let mut i: usize = 0;
    proof {
        assert(msg@.skip(0) =~= msg@);
    }
    while i < n && msg[i] != 10
        invariant
            n == msg@.len(),
            i <= n,
            first_nl(msg@) == i + first_nl(msg@.skip(i as int)),
        decreases n - i,
    {
        proof {
            assert(msg@.skip(i as int)[0] == msg@[i as int]);
            assert(msg@.skip(i as int).drop_first() =~= msg@.skip(i + 1));
        }
        i = i + 1;
    }
    proof {
        if i < n {
            assert(msg@.skip(i as int)[0] == msg@[i as int]);
        } else {
            assert(msg@.skip(i as int).len() == 0);
        }
        assert(first_nl(msg@) == i as int);
    }
    let end = if i > 0 && msg[i - 1] == 13 {
        i - 1
    } else {
        i
    };
    let mut r: Vec<u8> = Vec::new();
    let mut k: usize = 0;
    while k < end
        invariant
            end <= msg@.len(),
            k <= end,
            r@ == msg@.take(k as int),
        decreases end - k,
    {
        r.push(msg[k]);
        proof {
            assert(msg@.take(k + 1) =~= msg@.take(k as int).push(msg@[k as int]));
        }
        k = k + 1;
    }
    proof {
        if i > 0 && msg@[i - 1] == 13 {
            assert(msg@.take(end as int) =~= msg@.take(i as int).drop_last());
            assert(msg@.take(i as int).last() == 13);
        } else {
            assert(msg@.take(end as int) == first_line_of(msg@));
        }
    }
    r
}

/// The display pieces of one commit row: its short identifier and its
/// message headline.
pub open spec fn summary_of(c: Commit) -> (Seq<u8>, Seq<u8>) {
    (hex_of(c.id@).take(short_len(c.id@)), first_line_of(c.message@))
}

/// The display pieces for each walked commit, in walk order.
pub fn commit_summaries(commits: &Vec<Commit>, order: &Vec<usize>) -> (r: Vec<(Vec<u8>, Vec<u8>)>)
    requires
        forall|k: int| 0 <= k < order@.len() ==> (#[trigger] order@[k]) < commits@.len(),
    ensures
        r@.len() == order@.len(),
        forall|k: int|
            0 <= k < order@.len() ==> ((#[trigger] r@[k]).0@, r@[k].1@) == summary_of(
                commits@[order@[k] as int],
            ),
{
    let mut r: Vec<(Vec<u8>, Vec<u8>)> = Vec::new();
    let mut k: usize = 0;
    while k < order.len()
        invariant
            forall|q: int| 0 <= q < order@.len() ==> (#[trigger] order@[q]) < commits@.len(),
            k <= order@.len(),
            r@.len() == k,
            forall|q: int|
                0 <= q < k ==> ((#[trigger] r@[q]).0@, r@[q].1@) == summary_of(
                    commits@[order@[q] as int],
                ),
        decreases order@.len() - k,
    {
        let i = order[k];
        let sid = short_id(&commits[i].id);
        let line = first_line(&commits[i].message);
        r.push((sid, line));
        k = k + 1;
    }
    r
}

/// The shorthand of the branch HEAD points to, or the literal placeholder
/// "HEAD" when HEAD has no shorthand (unborn branch, empty repository).
pub fn branch_display(head_name: &Option<String>) -> (r: String)
    ensures
        r@ == match *head_name {
            Some(n) => n@,
            None => "HEAD"@,
        },
{
    match head_name {
        Some(n) => n.clone(),
        None => "HEAD".to_owned(),
    }
}

impl RepoState {
    /// The tag shown for each operational state.
    pub open spec fn label_spec(self) -> Seq<char> {
        match self {
            RepoState::Clean => "Clean"@,
            RepoState::Merge => "Merge"@,
            RepoState::Revert => "Revert"@,
            RepoState::RevertSequence => "RevertSequence"@,
            RepoState::CherryPick => "CherryPick"@,
            RepoState::CherryPickSequence => "CherryPickSequence"@,
            RepoState::Bisect => "Bisect"@,
            RepoState::Rebase => "Rebase"@,
            RepoState::RebaseInteractive => "RebaseInteractive"@,
            RepoState::RebaseMerge => "RebaseMerge"@,
            RepoState::ApplyMailbox => "ApplyMailbox"@,
            RepoState::ApplyMailboxOrRebase => "ApplyMailboxOrRebase"@,
        }
    }

    /// The human-readable tag for the repository-state line.
    pub fn label(&self) -> (r: String)
        ensures
            r@ == self.label_spec(),
    {
        match self {
            RepoState::Clean => "Clean".to_owned(),
            RepoState::Merge => "Merge".to_owned(),
            RepoState::Revert => "Revert".to_owned(),
            RepoState::RevertSequence => "RevertSequence".to_owned(),
            RepoState::CherryPick => "CherryPick".to_owned(),
            RepoState::CherryPickSequence => "CherryPickSequence".to_owned(),
            RepoState::Bisect => "Bisect".to_owned(),
            RepoState::Rebase => "Rebase".to_owned(),
            RepoState::RebaseInteractive => "RebaseInteractive".to_owned(),
            RepoState::RebaseMerge => "RebaseMerge".to_owned(),
            RepoState::ApplyMailbox => "ApplyMailbox".to_owned(),
            RepoState::ApplyMailboxOrRebase => "ApplyMailboxOrRebase".to_owned(),
        }
    }
}

} // verus!
