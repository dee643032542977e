//! Worktree registry: the records discovered from per-worktree marker
//! files, recency ordering, and lookup by name. Walking the worktrees
//! directory and parsing each marker is the caller's job; the records
//! come here as plain values.

use vstd::multiset::Multiset;
use vstd::prelude::*;

use crate::strings::ends_with_slash_name;
use crate::strings::spec_ends_with_slash_name;
use crate::strings::str_eq;

verus! {

broadcast use vstd::seq_lib::group_to_multiset_ensures;

/// One discovered worktree: its names, places, port claim, and a creation
/// time in seconds since the epoch, used only for recency ordering.
#[derive(Debug, Clone)]
pub struct WorktreeRecord {
    pub project_name: String,
    pub name: String,
    pub branch: String,
    pub original_dir: String,
    pub worktree_dir: String,
    pub allocation_key: String,
    pub ports: Vec<u16>,
    pub created_at: u64,
}

/// How `resolve` answers: one match, none, or several candidates for the
/// operator to pick from.
#[derive(Debug)]
pub enum ResolveOutcome {
    Found(WorktreeRecord),
    NotFound,
    Ambiguous(Vec<WorktreeRecord>),
}

/// A record answers to `name` when it is the worktree's own name or the
/// trailing `/name` segment of the record's allocation key.
pub open spec fn record_matches(w: WorktreeRecord, name: Seq<char>) -> bool {
    w.name@ == name || spec_ends_with_slash_name(w.allocation_key@, name)
}

/// The records among the first `n` that answer to `name`, in input order.
pub open spec fn matching_prefix(ws: Seq<WorktreeRecord>, name: Seq<char>, n: int) -> Seq<
    WorktreeRecord,
>
    decreases n,
{
    if n <= 0 {
        Seq::empty()
    } else {
        matching_prefix(ws, name, n - 1) + (if record_matches(ws[n - 1], name) {
            seq![ws[n - 1]]
        } else {
            Seq::empty()
        })
    }
}

/// Every record of `ws` that answers to `name`, in input order.
pub open spec fn matching_records(ws: Seq<WorktreeRecord>, name: Seq<char>) -> Seq<
    WorktreeRecord,
> {
    matching_prefix(ws, name, ws.len() as int)
}

fn record_matches_exec(w: &WorktreeRecord, name: &str) -> (r: bool)
    ensures
        r == record_matches(*w, name@),
{
    if str_eq(w.name.as_str(), name) {
        return true;
    }
    ends_with_slash_name(w.allocation_key.as_str(), name)
}

/// Find the worktree a name denotes among the given records, which the
/// caller lists in the order it wants candidates presented (most recent
/// first, as `sort_by_created_desc` leaves them). Exactly one match is
/// found; none is `NotFound`; several are `Ambiguous`, carrying every
/// match in order for an interactive pick.
pub fn resolve(worktrees: Vec<WorktreeRecord>, name: &str) -> (r: ResolveOutcome)
    ensures
        ({
            let ms = matching_records(worktrees@, name@);
            match r {
                ResolveOutcome::Found(w) => ms.len() == 1 && w == ms[0],
                ResolveOutcome::NotFound => ms.len() == 0,
                ResolveOutcome::Ambiguous(c) => ms.len() >= 2 && c@ == ms,
            }
        }),
{
    let ghost ws = worktrees@;
    let mut rest = worktrees;
    let mut found: Vec<WorktreeRecord> = Vec::new();
    let ghost i: int = 0;
    while rest.len() > 0
        invariant
            0 <= i <= ws.len(),
            rest@ =~= ws.subrange(i, ws.len() as int),
            found@ == matching_prefix(ws, name@, i),
        decreases rest@.len(),
    {
        let w = rest.remove(0);
        proof {
            assert(w == ws[i]);
            assert(rest@ =~= ws.subrange(i + 1, ws.len() as int));
        }
        if record_matches_exec(&w, name) {
            found.push(w);
        }
        proof {
            assert(matching_prefix(ws, name@, i + 1) =~= found@);
            i = i + 1;
        }
    }
    if found.len() == 0 {
        ResolveOutcome::NotFound
    } else if found.len() == 1 {
        let w = found.pop().unwrap();
        ResolveOutcome::Found(w)
    } else {
        ResolveOutcome::Ambiguous(found)
    }
}

/// The records sorted most recently created first.
pub open spec fn sorted_by_created_desc(ws: Seq<WorktreeRecord>) -> bool {
    forall|i: int, j: int|
        0 <= i <= j < ws.len() ==> (#[trigger] ws[i]).created_at >= (#[trigger] ws[j]).created_at
}

/// Sort the discovered records most recently created first: the order a
/// human picks from, so recency comes first on purpose. The records are
/// only rearranged, never changed.
pub fn sort_by_created_desc(worktrees: &mut Vec<WorktreeRecord>)
    ensures
        sorted_by_created_desc(final (worktrees)@),
        final (worktrees)@.to_multiset() == old(worktrees)@.to_multiset(),
        final (worktrees)@.len() == old(worktrees)@.len(),
{
    let mut out: Vec<WorktreeRecord> = Vec::new();
    let ghost orig = worktrees@;
    while worktrees.len() > 0
        invariant
            sorted_by_created_desc(out@),
            out@.to_multiset().add(worktrees@.to_multiset()) =~= orig.to_multiset(),
            forall|a: int, b: int|
                0 <= a < out@.len() && 0 <= b < worktrees@.len() ==> (#[trigger] out@[a]).created_at
                    >= (#[trigger] worktrees@[b]).created_at,
        decreases worktrees@.len(),
    {
        let mut best: usize = 0;
        let mut j: usize = 1;
        while j < worktrees.len()
            invariant
                worktrees@.len() > 0,
                best < j <= worktrees@.len(),
                forall|b: int|
                    0 <= b < j ==> worktrees@[best as int].created_at >= (
                    #[trigger] worktrees@[b]).created_at,
            decreases worktrees@.len() - j,
        {
            if worktrees[j].created_at > worktrees[best].created_at {
                best = j;
            }
            j = j + 1;
        }
        let ghost pre = worktrees@;
        let picked = worktrees.remove(best);
        let ghost pre_out = out@;
        out.push(picked);
        proof {
            assert(pre.remove(best as int).to_multiset() =~= pre.to_multiset().remove(picked));
            assert(pre_out.push(picked).to_multiset() =~= pre_out.to_multiset().insert(picked));
            assert(pre.to_multiset().count(picked) > 0) by {
                assert(pre.contains(picked));
            }
            assert(out@.to_multiset().add(worktrees@.to_multiset()) =~= orig.to_multiset());
            assert forall|a: int, b: int|
                0 <= a < out@.len() && 0 <= b < worktrees@.len() implies (
            #[trigger] out@[a]).created_at >= (#[trigger] worktrees@[b]).created_at by {
                let b2 = if b < best { b } else { b + 1 };
                assert(worktrees@[b] == pre[b2]);
                if a < pre_out.len() {
                    assert(out@[a] == pre_out[a]);
                } else {
                    assert(out@[a] == picked);
                }
            }
        }
    }
    proof {
        assert(worktrees@.to_multiset() =~= Multiset::empty());
        assert(out@.to_multiset() =~= orig.to_multiset());
        assert(out@.to_multiset().len() == out@.len());
        assert(orig.to_multiset().len() == orig.len());
    }
    *worktrees = out;
}

proof fn lemma_matching_prefix_from(ws: Seq<WorktreeRecord>, name: Seq<char>, n: int, x: int)
    requires
        0 <= n <= ws.len(),
        0 <= x < matching_prefix(ws, name, n).len(),
    ensures
        exists|j: int|
            0 <= j < n && matching_prefix(ws, name, n)[x] == ws[j] && record_matches(
                #[trigger] ws[j],
                name,
            ),
    decreases n,
{
    let mp = matching_prefix(ws, name, n);
    let prev = matching_prefix(ws, name, n - 1);
    if x < prev.len() {
        lemma_matching_prefix_from(ws, name, n - 1, x);
        let j = choose|j: int|
            0 <= j < n - 1 && prev[x] == ws[j] && record_matches(#[trigger] ws[j], name);
        assert(mp[x] == ws[j]);
    } else {
        assert(record_matches(ws[n - 1], name));
        assert(mp[x] == ws[n - 1]);
    }
}

/// Candidates keep the order of the records they were taken from: every
/// candidate answers to the name, comes from the scanned records, and a
/// most-recent-first list yields its candidates most recent first — the
/// order an ambiguity is presented in.
pub proof fn lemma_matching_keeps_order(ws: Seq<WorktreeRecord>, name: Seq<char>)
    requires
        sorted_by_created_desc(ws),
    ensures
        sorted_by_created_desc(matching_records(ws, name)),
        forall|x: int|
            0 <= x < matching_records(ws, name).len() ==> record_matches(
                #[trigger] matching_records(ws, name)[x],
                name,
            ) && ws.contains(matching_records(ws, name)[x]),
{
    lemma_matching_prefix_sorted(ws, name, ws.len() as int);
    assert forall|x: int| 0 <= x < matching_records(ws, name).len() implies record_matches(
        #[trigger] matching_records(ws, name)[x],
        name,
    ) && ws.contains(matching_records(ws, name)[x]) by {
        lemma_matching_prefix_from(ws, name, ws.len() as int, x);
    }
}

proof fn lemma_matching_prefix_sorted(ws: Seq<WorktreeRecord>, name: Seq<char>, n: int)
    requires
        sorted_by_created_desc(ws),
        0 <= n <= ws.len(),
    ensures
        sorted_by_created_desc(matching_prefix(ws, name, n)),
    decreases n,
{
    if n > 0 {
        lemma_matching_prefix_sorted(ws, name, n - 1);
        let mp = matching_prefix(ws, name, n);
        let prev = matching_prefix(ws, name, n - 1);
        assert forall|i: int, j: int| 0 <= i <= j < mp.len() implies (
        #[trigger] mp[i]).created_at >= (#[trigger] mp[j]).created_at by {
            if j < prev.len() {
                assert(mp[i] == prev[i] && mp[j] == prev[j]);
            } else if i < prev.len() {
                lemma_matching_prefix_from(ws, name, n - 1, i);
                let j2 = choose|j2: int|
                    0 <= j2 < n - 1 && prev[i] == ws[j2] && record_matches(#[trigger] ws[j2], name);
                assert(ws[j2].created_at >= ws[n - 1].created_at);
                assert(mp[j] == ws[n - 1]);
            }
        }
    }
}

/// Turn an operator's 1-based menu choice into an index into the
/// displayed list of `count` candidates; zero or a too-large number is a
/// user error, answered with `None`.
pub fn selection_index(count: usize, choice: usize) -> (r: Option<usize>)
    ensures
        match r {
            Some(i) => 1 <= choice <= count && i == choice - 1,
            None => choice == 0 || choice > count,
        },
{
    if choice == 0 || choice > count {
        None
    } else {
        Some(choice - 1)
    }
}

} // verus!
