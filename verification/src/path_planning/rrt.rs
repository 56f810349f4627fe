use vstd::prelude::*;

use crate::seq_util::reversed;

verus! {

/// Starting at `node` and following parent links, every index visited is in
/// range and a node without a parent is reached within `n` steps.
pub open spec fn ends_within(parents: Seq<Option<usize>>, node: Option<usize>, n: nat) -> bool
    decreases n,
{
    match node {
        None => true,
        Some(j) => n > 0 && j < parents.len() && ends_within(parents, parents[j as int], (n - 1) as nat),
    }
}

/// Following parent links from `idx` stays in range and ends at a node
/// without a parent.
pub open spec fn reaches_root(parents: Seq<Option<usize>>, idx: usize) -> bool {
    exists|n: nat| #[trigger] ends_within(parents, Some(idx), n)
}

/// Whether following parent links from `goal_idx` stays in range and ends
/// at a node without a parent within `parents.len()` links.
pub fn has_path_to_root(parents: &Vec<Option<usize>>, goal_idx: usize) -> (b: bool)
    ensures
        b == ends_within(parents@, Some(goal_idx), parents@.len() + 1),
        b ==> reaches_root(parents@, goal_idx),
        b ==> exists|p: Seq<usize>| #![trigger p.len()] p.len() >= 1 && p[0] == goal_idx && (forall|k: int|
            0 <= k < p.len() ==> #[trigger] p[k] < parents@.len()) && (forall|k: int|
            0 <= k < p.len() - 1 ==> parents@[#[trigger] p[k] as int] == Some(p[k + 1]))
            && parents@[p[p.len() - 1] as int] is None,
        (exists|p: Seq<usize>| #![trigger p.len()] p.len() >= 1 && p[0] == goal_idx && (forall|k: int|
            0 <= k < p.len() ==> #[trigger] p[k] < parents@.len()) && (forall|k: int|
            0 <= k < p.len() - 1 ==> parents@[#[trigger] p[k] as int] == Some(p[k + 1]))
            && parents@[p[p.len() - 1] as int] is None && p.no_duplicates()) ==> b,
{
    let len: usize = parents.len();
    let mut cur: Option<usize> = Some(goal_idx);
    let mut steps: usize = 0;
    let ghost total: nat = (len + 1) as nat;
    let ghost chain_exists: bool = exists|p: Seq<usize>| #![trigger p.len()] p.len() >= 1 && p[0] == goal_idx && (forall|k: int|
            0 <= k < p.len() ==> #[trigger] p[k] < parents@.len()) && (forall|k: int|
            0 <= k < p.len() - 1 ==> parents@[#[trigger] p[k] as int] == Some(p[k + 1]))
            && parents@[p[p.len() - 1] as int] is None && p.no_duplicates();
    let ghost q: Seq<usize> = choose|p: Seq<usize>| #![trigger p.len()] p.len() >= 1 && p[0] == goal_idx && (forall|k: int|
            0 <= k < p.len() ==> #[trigger] p[k] < parents@.len()) && (forall|k: int|
            0 <= k < p.len() - 1 ==> parents@[#[trigger] p[k] as int] == Some(p[k + 1]))
            && parents@[p[p.len() - 1] as int] is None && p.no_duplicates();
    let ghost mut vis: Seq<usize> = Seq::empty();
    proof {
        if chain_exists {
            lemma_distinct_below(q, len as nat);
            reveal(root_chain);
        }
    }
    #[verifier::loop_isolation(false)]
    while steps < len
        invariant
            len == parents@.len(),
            total == len + 1,
            steps <= len,
            ends_within(parents@, Some(goal_idx), total) == ends_within(
                parents@,
                cur,
                (total - steps) as nat,
            ),
            vis.len() == steps,
            steps == 0 ==> cur == Some(goal_idx),
            steps > 0 ==> vis[0] == goal_idx && cur == parents@[vis[steps - 1] as int],
            forall|k: int| 0 <= k < vis.len() ==> #[trigger] vis[k] < parents@.len(),
            forall|k: int|
                0 <= k < vis.len() - 1 ==> parents@[#[trigger] vis[k] as int] == Some(vis[k + 1]),
            chain_exists ==> {
                &&& root_chain(parents@, goal_idx, q)
                &&& q.len() <= len
                &&& steps <= q.len()
                &&& steps < q.len() ==> cur == Some(q[steps as int])
                &&& steps == q.len() ==> cur is None
            },
        decreases len - steps,
    {
        match cur {
            None => {
                proof {
                    assert(vis.len() >= 1);
                    assert(vis[vis.len() - 1] == vis[steps - 1]);
                    let p = vis;
                    assert(p.len() >= 1 && p[0] == goal_idx && (forall|k: int|
            0 <= k < p.len() ==> #[trigger] p[k] < parents@.len()) && (forall|k: int|
            0 <= k < p.len() - 1 ==> parents@[#[trigger] p[k] as int] == Some(p[k + 1]))
            && parents@[p[p.len() - 1] as int] is None);
                }
                return true;
            },
            Some(j) => {
                proof {
                    if chain_exists {
                        lemma_root_chain_step(parents@, goal_idx, q, steps as int);
                    }
                }
                if j >= len {
                    return false;
                }
                let ghost old_vis = vis;
                proof {
                    vis = vis.push(j);
                    if steps > 0 {
                        assert(vis[steps - 1] == old_vis[steps - 1]);
                    }
                    assert forall|k: int| 0 <= k < vis.len() - 1 implies parents@[#[trigger] vis[k] as int]
                        == Some(vis[k + 1]) by {
                        if k < steps - 1 {
                            assert(vis[k] == old_vis[k] && vis[k + 1] == old_vis[k + 1]);
                        } else {
                            assert(vis[k] == old_vis[steps - 1]);
                        }
                    }
                    if chain_exists {
                        lemma_root_chain_step(parents@, goal_idx, q, steps as int);
                    }
                }
                cur = parents[j];
                steps = steps + 1;
            },
        }
    }
    match cur {
        None => {
            proof {
                assert(vis.len() >= 1);
                let p = vis;
                assert(p.len() >= 1 && p[0] == goal_idx && (forall|k: int|
            0 <= k < p.len() ==> #[trigger] p[k] < parents@.len()) && (forall|k: int|
            0 <= k < p.len() - 1 ==> parents@[#[trigger] p[k] as int] == Some(p[k + 1]))
            && parents@[p[p.len() - 1] as int] is None);
            }
            true
        },
        Some(j) => {
            if j >= len {
                false
            } else {
                proof {
                    reveal_with_fuel(ends_within, 2);
                }
                let r = parents[j].is_none();
                proof {
                    if r {
                        let p = vis.push(j);
                        assert(p[p.len() - 1] == j);
                        assert forall|k: int| 0 <= k < p.len() - 1 implies parents@[#[trigger] p[k] as int]
                            == Some(p[k + 1]) by {
                            if k < vis.len() - 1 {
                                assert(p[k] == vis[k] && p[k + 1] == vis[k + 1]);
                            } else {
                                assert(p[k] == vis[steps - 1]);
                            }
                        }
                        assert(p.len() >= 1 && p[0] == goal_idx && (forall|k: int|
            0 <= k < p.len() ==> #[trigger] p[k] < parents@.len()) && (forall|k: int|
            0 <= k < p.len() - 1 ==> parents@[#[trigger] p[k] as int] == Some(p[k + 1]))
            && parents@[p[p.len() - 1] as int] is None);
                    }
                }
                r
            }
        },
    }
}

/// `p` is the chain of parent links from `goal` to a node without a parent.
#[verifier::opaque]
spec fn root_chain(parents: Seq<Option<usize>>, goal_idx: usize, p: Seq<usize>) -> bool {
    p.len() >= 1 && p[0] == goal_idx && (forall|k: int|
            0 <= k < p.len() ==> #[trigger] p[k] < parents.len()) && (forall|k: int|
            0 <= k < p.len() - 1 ==> parents[#[trigger] p[k] as int] == Some(p[k + 1]))
            && parents[p[p.len() - 1] as int] is None
}

/// One step along a root chain.
proof fn lemma_root_chain_step(parents: Seq<Option<usize>>, goal_idx: usize, p: Seq<usize>, k: int)
    requires
        root_chain(parents, goal_idx, p),
        0 <= k < p.len(),
    ensures
        p[0] == goal_idx,
        p[k] < parents.len(),
        parents[p[k] as int] == (if k + 1 < p.len() {
            Some(p[k + 1])
        } else {
            None::<usize>
        }),
{
    reveal(root_chain);
}

/// A sequence of distinct indices below `n` has at most `n` elements.
proof fn lemma_distinct_below(s: Seq<usize>, n: nat)
    requires
        s.no_duplicates(),
        forall|k: int| 0 <= k < s.len() ==> #[trigger] s[k] < n,
    ensures
        s.len() <= n,
    decreases n,
{
    if n == 0 {
        if s.len() > 0 {
            assert(s[0] < 0);
        }
    } else if exists|k: int| 0 <= k < s.len() && #[trigger] s[k] == n - 1 {
        let k: int = choose|k: int| 0 <= k < s.len() && #[trigger] s[k] == n - 1;
        let t = s.remove(k);
        s.remove_ensures(k);
        assert forall|i: int| 0 <= i < t.len() implies #[trigger] t[i] < n - 1 by {
            if i < k {
                assert(t[i] == s[i]);
            } else {
                assert(t[i] == s[i + 1]);
            }
        }
        assert forall|i: int, j: int| 0 <= i < j < t.len() implies t[i] != t[j] by {
            let si: int = if i < k { i } else { i + 1 };
            let sj: int = if j < k { j } else { j + 1 };
            assert(t[i] == s[si] && t[j] == s[sj]);
        }
        lemma_distinct_below(t, (n - 1) as nat);
    } else {
        assert forall|i: int| 0 <= i < s.len() implies #[trigger] s[i] < n - 1 by {
            assert(s[i] != n - 1);
        }
        lemma_distinct_below(s, (n - 1) as nat);
    }
}

/// The node indices from the root of `goal_idx`'s branch down to
/// `goal_idx`, following parent links.
pub fn extract_path(parents: &Vec<Option<usize>>, goal_idx: usize) -> (path: Vec<usize>)
    requires
        reaches_root(parents@, goal_idx),
    ensures
        path@.len() >= 1,
        path@.last() == goal_idx,
        parents@[path@[0] as int] is None,
        forall|i: int| 0 <= i < path@.len() ==> #[trigger] path@[i] < parents@.len(),
        forall|i: int|
            0 < i < path@.len() ==> parents@[#[trigger] path@[i] as int] == Some(path@[i - 1]),
        (forall|i: int| 0 < i < parents@.len() ==> #[trigger] parents@[i] is Some) ==> path@[0]
            == 0,
{
    let ghost fuel: nat = choose|n: nat| #[trigger] ends_within(parents@, Some(goal_idx), n);
    let mut back: Vec<usize> = Vec::new();
    let mut current: Option<usize> = Some(goal_idx);
    let ghost mut left: nat = fuel;
    loop
        invariant
            ends_within(parents@, current, left),
            back@.len() == 0 ==> current == Some(goal_idx),
            back@.len() > 0 ==> back@[0] == goal_idx,
            back@.len() > 0 ==> current == parents@[back@.last() as int],
            forall|i: int| 0 <= i < back@.len() ==> #[trigger] back@[i] < parents@.len(),
            forall|i: int|
                0 <= i < back@.len() - 1 ==> parents@[#[trigger] back@[i] as int] == Some(
                    back@[i + 1],
                ),
        ensures
            back@.len() >= 1,
            back@[0] == goal_idx,
            parents@[back@.last() as int] is None,
            forall|i: int| 0 <= i < back@.len() ==> #[trigger] back@[i] < parents@.len(),
            forall|i: int|
                0 <= i < back@.len() - 1 ==> parents@[#[trigger] back@[i] as int] == Some(
                    back@[i + 1],
                ),
        decreases left,
    {
        match current {
            Some(idx) => {
                back.push(idx);
                current = parents[idx];
                proof {
                    left = (left - 1) as nat;
                }
            },
            None => {
                break;
            },
        }
    }
    let path = reversed(&back);
    proof {
        assert forall|i: int| 0 < i < path@.len() implies parents@[#[trigger] path@[i] as int]
            == Some(path@[i - 1]) by {
            let j: int = back@.len() - 1 - i;
            assert(path@[i] == back@[j]);
            assert(path@[i - 1] == back@[j + 1]);
        }
        assert forall|i: int| 0 <= i < path@.len() implies #[trigger] path@[i] < parents@.len() by {
            assert(path@[i] == back@[back@.len() - 1 - i]);
        }
        if forall|i: int| 0 < i < parents@.len() ==> #[trigger] parents@[i] is Some {
            assert(path@[0] == back@.last());
            if path@[0] != 0 {
                assert(parents@[path@[0] as int] is Some);
            }
        }
    }
    path
}

} // verus!
