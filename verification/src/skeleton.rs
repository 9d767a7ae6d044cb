//! The order in which skeleton nodes are visited while loading a model:
//! parents before children, so that world transforms take one pass.
use vstd::prelude::*;
use vstd::set_lib::*;

verus! {

/// Every parent entry is either `-1` (a root) or the index of another node.
pub open spec fn valid_parents(parents: Seq<i32>) -> bool {
    forall|i: int| 0 <= i < parents.len() ==> #[trigger] parents[i] == -1 || (0 <= parents[i] < parents.len())
}

/// Following parents from `i` reaches a root within `fuel` steps.
pub open spec fn reaches_root(parents: Seq<i32>, i: int, fuel: nat) -> bool
    decreases fuel,
{
    if fuel == 0 || !(0 <= i < parents.len()) {
        false
    } else if parents[i] == -1 {
        true
    } else {
        reaches_root(parents, parents[i] as int, (fuel - 1) as nat)
    }
}

/// The ancestor chain of `i` ends at a root (it is not caught in a cycle).
pub open spec fn rooted(parents: Seq<i32>, i: int) -> bool {
    exists|fuel: nat| #[trigger] reaches_root(parents, i, fuel)
}

/// `order` lists each of the `n` node indices exactly once.
pub open spec fn is_permutation(order: Seq<usize>, n: nat) -> bool {
    &&& order.len() == n
    &&& order.no_duplicates()
    &&& forall|k: int| 0 <= k < order.len() ==> #[trigger] order[k] < n
}

/// In `order`, every rooted node comes after its parent.
pub open spec fn parents_first(parents: Seq<i32>, order: Seq<usize>) -> bool {
    forall|j: int, k: int|
        0 <= j < order.len() && 0 <= k < order.len() && rooted(parents, order[k] as int)
            && parents[order[k] as int] == order[j] as int ==> #[trigger] order[j] != #[trigger] order[k] && j < k
}

/// Once a node caught in a parent cycle appears in `order`, every later
/// node is caught in one too, and they come in increasing index order:
/// the rooted nodes come first, the others are appended by index.
pub open spec fn cycle_tail_in_index_order(parents: Seq<i32>, order: Seq<usize>) -> bool {
    forall|j: int, k: int|
        0 <= j < k < order.len() && !rooted(parents, #[trigger] order[j] as int) ==> !rooted(
            parents,
            #[trigger] order[k] as int,
        ) && order[j] < order[k]
}

/// A duplicate-free sequence of indices below `n` has at most `n` entries,
/// and with exactly `n` it contains every index.
pub proof fn lemma_pigeonhole(s: Seq<usize>, n: nat)
    requires
        s.no_duplicates(),
        forall|k: int| 0 <= k < s.len() ==> #[trigger] s[k] < n,
    ensures
        s.len() <= n,
        s.len() == n ==> forall|v: int| 0 <= v < n ==> #[trigger] s.contains(v as usize),
{
    let t = s.map_values(|x: usize| x as int);
    assert(t.no_duplicates()) by {
        assert forall|a: int, b: int| 0 <= a < t.len() && 0 <= b < t.len() && a != b implies t[a] != t[b] by {
            assert(s[a] != s[b]);
        }
    }
    t.unique_seq_to_set();
    lemma_int_range(0, n as int);
    assert(t.to_set().subset_of(set_int_range(0, n as int))) by {
        assert forall|v: int| t.to_set().contains(v) implies set_int_range(0, n as int).contains(v) by {
            let k = choose|k: int| 0 <= k < t.len() && t[k] == v;
            assert(s[k] < n);
        }
    }
    lemma_len_subset(t.to_set(), set_int_range(0, n as int));
    if s.len() == n {
        lemma_subset_equality(t.to_set(), set_int_range(0, n as int));
        assert forall|v: int| 0 <= v < n implies #[trigger] s.contains(v as usize) by {
            assert(set_int_range(0, n as int).contains(v));
            assert(t.to_set().contains(v));
            let k = choose|k: int| 0 <= k < t.len() && t[k] == v;
            assert(s[k] == v as usize);
        }
    }
}

proof fn lemma_stuck_nodes_are_unrooted(parents: Seq<i32>, done: Seq<bool>, i: int, fuel: nat)
    requires
        valid_parents(parents),
        done.len() == parents.len(),
        0 <= i < parents.len(),
        !done[i],
        forall|j: int|
            0 <= j < parents.len() && !#[trigger] done[j] ==> parents[j] != -1 && !done[parents[j] as int],
    ensures
        !reaches_root(parents, i, fuel),
    decreases fuel,
{
    if fuel > 0 {
        assert(parents[i] != -1);
        lemma_stuck_nodes_are_unrooted(parents, done, parents[i] as int, (fuel - 1) as nat);
    }
}

/// A visiting order in which every node comes after its parent, so that world
/// transforms can be computed in one pass. Nodes caught in a parent cycle
/// (which a well-formed skeleton never has) are appended at the end in index order.
pub fn topological_order(parents: &[i32]) -> (order: Vec<usize>)
    requires
        valid_parents(parents@),
    ensures
        is_permutation(order@, parents@.len()),
        parents_first(parents@, order@),
        cycle_tail_in_index_order(parents@, order@),
{
    let n = parents.len();
    let ghost ps = parents@;
    let mut order: Vec<usize> = Vec::new();
    let mut done: Vec<bool> = Vec::new();
    let mut z: usize = 0;
    while z < n
        invariant
            z <= n,
            done@.len() == z,
            forall|j: int| 0 <= j < z ==> !#[trigger] done@[j],
        decreases n - z,
    {
        done.push(false);
        z = z + 1;
    }
    // `settled` is how many leading entries of `order` were placed because
    // their parent was already placed.
    let ghost mut settled: int = 0;
    let mut finished = false;
    while !finished && order.len() < n
        invariant
            ps == parents@,
            n == ps.len(),
            valid_parents(ps),
            done@.len() == n,
            order@.no_duplicates(),
            forall|k: int| 0 <= k < order@.len() ==> #[trigger] order@[k] < n,
            forall|j: int| 0 <= j < n ==> (#[trigger] done@[j] <==> order@.contains(j as usize)),
            0 <= settled <= order@.len(),
            forall|k: int|
                0 <= k < settled && ps[order@[k] as int] != -1 ==> exists|j: int|
                    0 <= j < k && #[trigger] order@[j] == ps[#[trigger] order@[k] as int],
            forall|k: int| settled <= k < order@.len() ==> !rooted(ps, #[trigger] order@[k] as int),
            forall|k: int| 0 <= k < settled ==> rooted(ps, #[trigger] order@[k] as int),
            forall|a: int, b: int|
                settled <= a < b < order@.len() ==> #[trigger] order@[a] < #[trigger] order@[b],
            !finished ==> settled == order@.len(),
            finished ==> order@.len() == n,
        decreases n - order@.len(), if finished { 0int } else { 1int },
    {
        proof {
            lemma_pigeonhole(order@, n as nat);
        }
        let before = order.len();
        let mut i: usize = 0;
        while i < n
            invariant
                ps == parents@,
                n == ps.len(),
                valid_parents(ps),
                done@.len() == n,
                i <= n,
                before <= order@.len(),
                order@.no_duplicates(),
                forall|k: int| 0 <= k < order@.len() ==> #[trigger] order@[k] < n,
                forall|j: int| 0 <= j < n ==> (#[trigger] done@[j] <==> order@.contains(j as usize)),
                forall|k: int|
                    0 <= k < order@.len() && ps[order@[k] as int] != -1 ==> exists|j: int|
                        0 <= j < k && #[trigger] order@[j] == ps[#[trigger] order@[k] as int],
                order@.len() == before ==> forall|j: int|
                    0 <= j < i && !#[trigger] done@[j] ==> ps[j] != -1 && !done@[ps[j] as int],
                forall|k: int| 0 <= k < order@.len() ==> rooted(ps, #[trigger] order@[k] as int),
            decreases n - i,
        {
            if !done[i] {
                let p = parents[i];
                let ready = if p == -1 {
                    true
                } else {
                    done[p as usize]
                };
                if ready {
                    let ghost old_order = order@;
                    let ghost old_done = done@;
                    assert(!old_order.contains(i));
                    done.set(i, true);
                    order.push(i);
                    proof {
                        assert forall|a: int, b: int|
                            0 <= a < order@.len() && 0 <= b < order@.len() && a != b implies order@[a]
                            != order@[b] by {
                            if a == old_order.len() {
                                assert(order@[b] == old_order[b]);
                            } else if b == old_order.len() {
                                assert(order@[a] == old_order[a]);
                            } else {
                                assert(order@[a] == old_order[a] && order@[b] == old_order[b]);
                            }
                        }
                        assert forall|j: int| 0 <= j < n implies (#[trigger] done@[j] <==> order@.contains(
                            j as usize,
                        )) by {
                            if j != i {
                                if order@.contains(j as usize) {
                                    let w = choose|w: int| 0 <= w < order@.len() && order@[w] == j as usize;
                                    assert(old_order[w] == j as usize);
                                }
                                if old_done[j] {
                                    let w = choose|w: int|
                                        0 <= w < old_order.len() && old_order[w] == j as usize;
                                    assert(order@[w] == j as usize);
                                }
                            } else {
                                assert(order@[old_order.len() as int] == i);
                            }
                        }
                        if p == -1 {
                            assert(reaches_root(ps, i as int, 1));
                        } else {
                            assert(old_done[p as int]);
                            let w = choose|w: int| 0 <= w < old_order.len() && old_order[w] == p as usize;
                            assert(rooted(ps, old_order[w] as int));
                            let fuel = choose|fuel: nat| #[trigger] reaches_root(ps, p as int, fuel);
                            assert(reaches_root(ps, i as int, fuel + 1));
                        }
                        assert(rooted(ps, i as int));
                        assert forall|k: int| 0 <= k < order@.len() implies rooted(ps, #[trigger] order@[k] as int) by {
                            if k < old_order.len() {
                                assert(order@[k] == old_order[k]);
                            } else {
                                assert(order@[k] == i);
                            }
                        }
                        assert forall|k: int|
                            0 <= k < order@.len() && ps[order@[k] as int] != -1 implies exists|j: int|
                            0 <= j < k && #[trigger] order@[j] == ps[#[trigger] order@[k] as int] by {
                            if k == old_order.len() {
                                assert(old_done[p as int]);
                                let w = choose|w: int|
                                    0 <= w < old_order.len() && old_order[w] == p as usize;
                                assert(order@[w] == ps[order@[k] as int]);
                            } else {
                                let w = choose|w: int|
                                    0 <= w < k && #[trigger] old_order[w] == ps[#[trigger] old_order[k] as int];
                                assert(order@[w] == old_order[w]);
                            }
                        }
                    }
                }
            }
            i = i + 1;
        }
        if order.len() == before {
            // No node became ready in a whole pass: whatever is left hangs
            // off a cycle. Append it in index order.
            let ghost stuck = done@;
            proof {
                assert forall|j: int| 0 <= j < n && !#[trigger] stuck[j] implies !rooted(ps, j) by {
                    if rooted(ps, j) {
                        let fuel = choose|fuel: nat| #[trigger] reaches_root(ps, j, fuel);
                        lemma_stuck_nodes_are_unrooted(ps, stuck, j, fuel);
                    }
                }
            }
            let mut j: usize = 0;
            while j < n
                invariant
                    ps == parents@,
                    n == ps.len(),
                    done@.len() == n,
                    j <= n,
                    stuck.len() == n,
                    0 <= settled <= order@.len(),
                    order@.no_duplicates(),
                    forall|k: int| 0 <= k < order@.len() ==> #[trigger] order@[k] < n,
                    forall|v: int| 0 <= v < n ==> (#[trigger] done@[v] <==> order@.contains(v as usize)),
                    forall|v: int| 0 <= v < n && !#[trigger] stuck[v] ==> !rooted(ps, v),
                    forall|v: int| 0 <= v < n && v >= j ==> #[trigger] done@[v] == stuck[v],
                    forall|v: int| 0 <= v < n && v < j ==> #[trigger] done@[v],
                    forall|k: int| settled <= k < order@.len() ==> !rooted(ps, #[trigger] order@[k] as int),
                    forall|k: int|
                        0 <= k < settled && ps[order@[k] as int] != -1 ==> exists|w: int|
                            0 <= w < k && #[trigger] order@[w] == ps[#[trigger] order@[k] as int],
                    forall|k: int| 0 <= k < settled ==> rooted(ps, #[trigger] order@[k] as int),
                    forall|k: int| settled <= k < order@.len() ==> #[trigger] order@[k] < j,
                    forall|a: int, b: int|
                        settled <= a < b < order@.len() ==> #[trigger] order@[a] < #[trigger] order@[b],
                decreases n - j,
            {
                if !done[j] {
                    let ghost old_order = order@;
                    let ghost old_done = done@;
                    assert(!old_order.contains(j));
                    done.set(j, true);
                    order.push(j);
                    proof {
                        assert forall|a: int, b: int|
                            0 <= a < order@.len() && 0 <= b < order@.len() && a != b implies order@[a]
                            != order@[b] by {
                            if a == old_order.len() {
                                assert(order@[b] == old_order[b]);
                            } else if b == old_order.len() {
                                assert(order@[a] == old_order[a]);
                            } else {
                                assert(order@[a] == old_order[a] && order@[b] == old_order[b]);
                            }
                        }
                        assert forall|v: int| 0 <= v < n implies (#[trigger] done@[v] <==> order@.contains(
                            v as usize,
                        )) by {
                            if v != j {
                                if order@.contains(v as usize) {
                                    let w = choose|w: int| 0 <= w < order@.len() && order@[w] == v as usize;
                                    assert(old_order[w] == v as usize);
                                }
                                if old_done[v] {
                                    let w = choose|w: int| 0 <= w < old_order.len() && old_order[w] == v as usize;
                                    assert(order@[w] == v as usize);
                                }
                            } else {
                                assert(order@[old_order.len() as int] == j);
                            }
                        }
                        assert(!stuck[j as int]);
                        assert forall|k: int| settled <= k < order@.len() implies !rooted(
                            ps,
                            #[trigger] order@[k] as int,
                        ) by {
                            if k < old_order.len() {
                                assert(order@[k] == old_order[k]);
                            } else {
                                assert(order@[k] == j);
                            }
                        }
                        assert forall|k: int|
                            0 <= k < settled && ps[order@[k] as int] != -1 implies exists|w: int|
                            0 <= w < k && #[trigger] order@[w] == ps[#[trigger] order@[k] as int] by {
                            let w = choose|w: int|
                                0 <= w < k && #[trigger] old_order[w] == ps[#[trigger] old_order[k] as int];
                            assert(order@[w] == old_order[w]);
                        }
                        assert forall|k: int| 0 <= k < settled implies rooted(ps, #[trigger] order@[k] as int) by {
                            assert(order@[k] == old_order[k]);
                        }
                        assert forall|k: int| settled <= k < order@.len() implies #[trigger] order@[k] < j + 1 by {
                            if k < old_order.len() {
                                assert(order@[k] == old_order[k]);
                            }
                        }
                        assert forall|a: int, b: int|
                            settled <= a < b < order@.len() implies #[trigger] order@[a] < #[trigger] order@[b] by {
                            assert(order@[a] == old_order[a]);
                            if b < old_order.len() {
                                assert(order@[b] == old_order[b]);
                            }
                        }
                    }
                }
                j = j + 1;
            }
            proof {
                assert forall|v: int| 0 <= v < n implies #[trigger] order@.contains(v as usize) by {
                    assert(done@[v]);
                }
                assert(order@.len() == n) by {
                    lemma_pigeonhole(order@, n as nat);
                    // every index is present and there are no duplicates
                    let t = order@;
                    assert(t.to_set().len() == t.len()) by {
                        t.unique_seq_to_set();
                    }
                    lemma_int_range(0, n as int);
                    let m = t.map_values(|x: usize| x as int);
                    assert(m.no_duplicates()) by {
                        assert forall|a: int, b: int| 0 <= a < m.len() && 0 <= b < m.len() && a != b implies m[a] != m[b] by {
                            assert(t[a] != t[b]);
                        }
                    }
                    m.unique_seq_to_set();
                    assert(set_int_range(0, n as int).subset_of(m.to_set())) by {
                        assert forall|v: int| set_int_range(0, n as int).contains(v) implies m.to_set().contains(v) by {
                            assert(t.contains(v as usize));
                            let w = choose|w: int| 0 <= w < t.len() && t[w] == v as usize;
                            assert(m[w] == v);
                        }
                    }
                    lemma_len_subset(set_int_range(0, n as int), m.to_set());
                }
            }
            finished = true;
        } else {
            proof {
                settled = order@.len() as int;
                lemma_pigeonhole(order@, n as nat);
            }
        }
    }
    proof {
        lemma_pigeonhole(order@, n as nat);
        assert forall|j: int, k: int|
            0 <= j < order@.len() && 0 <= k < order@.len() && rooted(ps, order@[k] as int) && ps[order@[k] as int]
                == order@[j] as int implies #[trigger] order@[j] != #[trigger] order@[k] && j < k by {
            assert(k < settled);
            assert(ps[order@[k] as int] != -1);
            let w = choose|w: int| 0 <= w < k && #[trigger] order@[w] == ps[#[trigger] order@[k] as int];
            assert(order@[w] == order@[j]);
            assert(w == j);
        }
        assert forall|j: int, k: int|
            0 <= j < k < order@.len() && !rooted(ps, #[trigger] order@[j] as int) implies !rooted(
                ps,
                #[trigger] order@[k] as int,
            ) && order@[j] < order@[k] by {
            assert(j >= settled);
        }
    }
    order
}


/// `node` starts the skin: it has no parent, or its parent is no joint.
pub open spec fn joint_is_root(parents: Seq<i32>, joints: Seq<usize>, node: usize) -> bool {
    parents[node as int] == -1 || !joints.contains(parents[node as int] as usize)
}

/// Whether `node` is one of `joints`.
fn is_joint(joints: &Vec<usize>, node: usize) -> (r: bool)
    ensures
        r == joints@.contains(node),
{
    let mut k: usize = 0;
    while k < joints.len()
        invariant
            k <= joints@.len(),
            forall|j: int| 0 <= j < k ==> joints@[j] != node,
        decreases joints.len() - k,
    {
        if joints[k] == node {
            return true;
        }
        k = k + 1;
    }
    false
}

/// The skin's root joint: the first joint that has no parent or whose
/// parent is not a joint; the first joint when there is none such, and 0
/// for a skin without joints.
pub fn root_joint(parents: &Vec<i32>, joints: &Vec<usize>) -> (r: usize)
    requires
        forall|k: int| 0 <= k < joints@.len() ==> (#[trigger] joints@[k]) < parents@.len(),
    ensures
        (exists|k: int| 0 <= k < joints@.len() && joint_is_root(parents@, joints@, #[trigger] joints@[k])) ==> exists|k: int|
            0 <= k < joints@.len() && r == joints@[k] && joint_is_root(parents@, joints@, #[trigger] joints@[k])
                && forall|j: int| 0 <= j < k ==> !joint_is_root(parents@, joints@, #[trigger] joints@[j]),
        !(exists|k: int| 0 <= k < joints@.len() && joint_is_root(parents@, joints@, #[trigger] joints@[k])) ==> r == (
        if joints@.len() > 0 {
            joints@[0]
        } else {
            0
        }),
{
    let mut k: usize = 0;
    while k < joints.len()
        invariant
            k <= joints@.len(),
            forall|j: int| 0 <= j < joints@.len() ==> (#[trigger] joints@[j]) < parents@.len(),
            forall|j: int| 0 <= j < k ==> !joint_is_root(parents@, joints@, #[trigger] joints@[j]),
        decreases joints.len() - k,
    {
        let node = joints[k];
        let parent = parents[node];
        if parent == -1 || !is_joint(joints, parent as usize) {
            assert(joint_is_root(parents@, joints@, joints@[k as int]));
            return node;
        }
        k = k + 1;
    }
    if joints.len() > 0 {
        joints[0]
    } else {
        0
    }
}

} // verus!
