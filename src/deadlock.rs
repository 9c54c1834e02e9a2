//! Deadlock detection over the resource lock table.
//!
//! The dependency graph has transactions as nodes; an edge `a -> b` means that
//! `a` waits on a resource that `b` holds. Any two transactions that hold a
//! common resource in the lock table are linked in both directions, a
//! deliberate over-approximation; a candidate transaction additionally waits
//! on every holder of a resource it wants.
use vstd::prelude::*;
use crate::types::{DeadlockInfo, TransactionError, TransactionOperation};

verus! {

pub type Edge = (u64, u64, String);

/// Lock entries `i` and `j` are the same resource held by two different
/// transactions.
pub open spec fn lock_shared(locks: Seq<(String, u64)>, i: int, j: int) -> bool {
    &&& 0 <= i < locks.len()
    &&& 0 <= j < locks.len()
    &&& locks[i].0@ == locks[j].0@
    &&& locks[i].1 != locks[j].1
}

/// Transactions `a` and `b` differ and hold a common resource.
pub open spec fn share_resource(locks: Seq<(String, u64)>, a: u64, b: u64) -> bool {
    exists|i: int, j: int| #[trigger] lock_shared(locks, i, j) && locks[i].1 == a && locks[j].1 == b
}

/// Some resource is held by two different transactions.
pub open spec fn has_shared_resource(locks: Seq<(String, u64)>) -> bool {
    exists|i: int, j: int| #[trigger] lock_shared(locks, i, j)
}

pub open spec fn edge_at(edges: Seq<Edge>, k: int, a: u64, b: u64) -> bool {
    0 <= k < edges.len() && edges[k].0 == a && edges[k].1 == b
}

pub open spec fn has_edge(edges: Seq<Edge>, a: u64, b: u64) -> bool {
    exists|k: int| #[trigger] edge_at(edges, k, a, b)
}

/// Every pair of transactions sharing a resource is linked.
pub open spec fn sharing_complete(edges: Seq<Edge>, locks: Seq<(String, u64)>) -> bool {
    forall|a: u64, b: u64| #[trigger] share_resource(locks, a, b) ==> has_edge(edges, a, b)
}

/// Every edge from index `from` on links two transactions sharing a resource.
pub open spec fn sharing_sound_from(edges: Seq<Edge>, locks: Seq<(String, u64)>, from: int) -> bool {
    forall|k: int| from <= k < edges.len() ==> share_resource(locks, (#[trigger] edges[k]).0, edges[k].1)
}

proof fn lemma_edges_grow(old_edges: Seq<Edge>, new_edges: Seq<Edge>)
    requires
        old_edges.len() <= new_edges.len(),
        new_edges.subrange(0, old_edges.len() as int) == old_edges,
    ensures
        forall|a: u64, b: u64| has_edge(old_edges, a, b) ==> #[trigger] has_edge(new_edges, a, b),
{
    assert forall|a: u64, b: u64| has_edge(old_edges, a, b) implies #[trigger] has_edge(
        new_edges,
        a,
        b,
    ) by {
        let k = choose|k: int| #[trigger] edge_at(old_edges, k, a, b);
        assert(new_edges.subrange(0, old_edges.len() as int)[k] == new_edges[k]);
        assert(edge_at(new_edges, k, a, b));
    }
}

/// `r` is a resource index of group `g`.
pub open spec fn group_member(groups: Seq<(u64, Vec<String>)>, g: int, r: int) -> bool {
    0 <= g < groups.len() && 0 <= r < groups[g].1@.len()
}

/// The lock table grouped by transaction: one group per transaction, each
/// resource of a group held by that group's transaction, and every lock entry
/// up to `upto` found in its transaction's group.
#[verifier::opaque]
spec fn grouping_of(groups: Seq<(u64, Vec<String>)>, locks: Seq<(String, u64)>, upto: int) -> bool {
    &&& forall|g1: int, g2: int|
        0 <= g1 < groups.len() && 0 <= g2 < groups.len() && g1 != g2 ==> #[trigger] groups[g1].0
            != #[trigger] groups[g2].0
    &&& forall|g: int, r: int|
        #[trigger] group_member(groups, g, r) ==> held(locks, groups[g].0, groups[g].1@[r]@)
    &&& forall|p: int|
        0 <= p < upto ==> exists|g: int, r: int|
            #[trigger] group_member(groups, g, r) && groups[g].0 == #[trigger] locks[p].1
                && groups[g].1@[r]@ == locks[p].0@
}

fn find_group(groups: &Vec<(u64, Vec<String>)>, tx: u64) -> (r: Option<usize>)
    ensures
        match r {
            Some(i) => i < groups@.len() && groups@[i as int].0 == tx,
            None => forall|i: int| 0 <= i < groups@.len() ==> (#[trigger] groups@[i]).0 != tx,
        },
{
    let mut i: usize = 0;
    while i < groups.len()
        invariant
            i <= groups@.len(),
            forall|k: int| 0 <= k < i ==> (#[trigger] groups@[k]).0 != tx,
        decreases groups@.len() - i,
    {
        if groups[i].0 == tx {
            return Some(i);
        }
        i += 1;
    }
    None
}

/// Groups the lock table by holding transaction: one group per transaction,
/// holding every resource of that transaction's entries. (The scan keeps
/// the table's order; the contract does not state it.)
fn group_by_transaction(locks: &Vec<(String, u64)>) -> (groups: Vec<(u64, Vec<String>)>)
    ensures
        grouping_of(groups@, locks@, locks@.len() as int),
{
    let mut groups: Vec<(u64, Vec<String>)> = Vec::new();
    let mut p: usize = 0;
    proof {
        reveal(grouping_of);
    }
    while p < locks.len()
        invariant
            p <= locks@.len(),
            grouping_of(groups@, locks@, p as int),
        decreases locks@.len() - p,
    {
        let tx = locks[p].1;
        let resource = locks[p].0.clone();
        let ghost old_groups = groups@;
        proof {
            reveal(grouping_of);
        }
        match find_group(&groups, tx) {
            Some(i) => {
                let (gtx, mut resources) = groups.remove(i);
                resources.push(resource);
                groups.insert(i, (gtx, resources));
                assert(groups@ =~= old_groups.update(i as int, groups@[i as int]));
                assert(groups@[i as int].1@ == old_groups[i as int].1@.push(resource));
                assert forall|g: int, r: int| #[trigger] group_member(groups@, g, r) implies held(
                    locks@,
                    groups@[g].0,
                    groups@[g].1@[r]@,
                ) by {
                    if g == i && r == old_groups[i as int].1@.len() {
                        assert(lock_entry(locks@, p as int, groups@[g].0, groups@[g].1@[r]@));
                    } else {
                        assert(group_member(old_groups, g, r));
                    }
                }
                assert forall|q: int| 0 <= q < p + 1 implies exists|g: int, r: int|
                    #[trigger] group_member(groups@, g, r) && groups@[g].0 == #[trigger] locks@[q].1
                        && groups@[g].1@[r]@ == locks@[q].0@ by {
                    if q == p {
                        assert(group_member(groups@, i as int, old_groups[i as int].1@.len() as int));
                    } else {
                        let (g, r) = choose|g: int, r: int|
                            #[trigger] group_member(old_groups, g, r) && old_groups[g].0
                                == #[trigger] locks@[q].1 && old_groups[g].1@[r]@ == locks@[q].0@;
                        assert(group_member(groups@, g, r));
                    }
                }
            },
            None => {
                let mut resources: Vec<String> = Vec::new();
                resources.push(resource);
                groups.push((tx, resources));
                assert forall|g: int, r: int| #[trigger] group_member(groups@, g, r) implies held(
                    locks@,
                    groups@[g].0,
                    groups@[g].1@[r]@,
                ) by {
                    if g == old_groups.len() {
                        assert(lock_entry(locks@, p as int, groups@[g].0, groups@[g].1@[r]@));
                    } else {
                        assert(group_member(old_groups, g, r));
                    }
                }
                assert forall|q: int| 0 <= q < p + 1 implies exists|g: int, r: int|
                    #[trigger] group_member(groups@, g, r) && groups@[g].0 == #[trigger] locks@[q].1
                        && groups@[g].1@[r]@ == locks@[q].0@ by {
                    if q == p {
                        assert(group_member(groups@, old_groups.len() as int, 0));
                    } else {
                        let (g, r) = choose|g: int, r: int|
                            #[trigger] group_member(old_groups, g, r) && old_groups[g].0
                                == #[trigger] locks@[q].1 && old_groups[g].1@[r]@ == locks@[q].0@;
                        assert(group_member(groups@, g, r));
                    }
                }
            },
        }
        p += 1;
        proof {
            reveal(grouping_of);
        }
    }
    proof {
        reveal(grouping_of);
    }
    groups
}

/// A dependency graph, as a list of labelled edges `(from, to, resource)`.
struct DependencyGraph {
    dependencies: Vec<Edge>,
}

impl DependencyGraph {
    fn new() -> (r: Self)
        ensures
            r.dependencies@.len() == 0,
    {
        DependencyGraph { dependencies: Vec::new() }
    }

    fn add_dependency(&mut self, from_tx: u64, to_tx: u64, resource: String)
        ensures
            final(self).dependencies@ == old(self).dependencies@.push((from_tx, to_tx, resource)),
    {
        self.dependencies.push((from_tx, to_tx, resource));
    }

    /// The transactions that `transaction` waits on, with the contested
    /// resource, in edge order.
    fn get_dependencies(&self, transaction: u64) -> (deps: Vec<(u64, String)>)
        ensures
            forall|i: int| 0 <= i < deps@.len() ==> has_edge(self.dependencies@, transaction, (#[trigger] deps@[i]).0),
            forall|b: u64| #[trigger] has_edge(self.dependencies@, transaction, b) ==> exists|i: int|
                0 <= i < deps@.len() && (#[trigger] deps@[i]).0 == b,
    {
        let mut deps: Vec<(u64, String)> = Vec::new();
        let mut k: usize = 0;
        while k < self.dependencies.len()
            invariant
                k <= self.dependencies@.len(),
                forall|i: int| 0 <= i < deps@.len() ==> has_edge(self.dependencies@, transaction, (#[trigger] deps@[i]).0),
                forall|kk: int, b: u64| 0 <= kk < k && #[trigger] edge_at(self.dependencies@, kk, transaction, b) ==> exists|i: int|
                    0 <= i < deps@.len() && (#[trigger] deps@[i]).0 == b,
            decreases self.dependencies@.len() - k,
        {
            let (from_tx, to_tx, resource) = (self.dependencies[k].0, self.dependencies[k].1, self.dependencies[k].2.clone());
            if from_tx == transaction {
                let ghost before = deps@;
                deps.push((to_tx, resource));
                proof {
                    assert(edge_at(self.dependencies@, k as int, transaction, to_tx));
                    assert forall|kk: int, b: u64| 0 <= kk < k + 1 && #[trigger] edge_at(self.dependencies@, kk, transaction, b) implies exists|i: int|
                        0 <= i < deps@.len() && (#[trigger] deps@[i]).0 == b by {
                        if kk == k {
                            assert(deps@[before.len() as int].0 == b);
                        } else {
                            let i = choose|i: int| 0 <= i < before.len() && (#[trigger] before[i]).0 == b;
                            assert(deps@[i].0 == b);
                        }
                    }
                }
            }
            k += 1;
        }
        deps
    }

    /// Every transaction that appears on an edge, once each, in order of
    /// first appearance.
    fn get_all_transactions(&self) -> (nodes: Vec<u64>)
        ensures
            nodes@.no_duplicates(),
            endpoints_within(self.dependencies@, nodes@),
            forall|i: int| 0 <= i < nodes@.len() ==> is_endpoint(self.dependencies@, #[trigger] nodes@[i]),
    {
        let mut nodes: Vec<u64> = Vec::new();
        let mut k: usize = 0;
        while k < self.dependencies.len()
            invariant
                k <= self.dependencies@.len(),
                nodes@.no_duplicates(),
                endpoints_within(self.dependencies@.subrange(0, k as int), nodes@),
                forall|i: int| 0 <= i < nodes@.len() ==> is_endpoint(self.dependencies@, #[trigger] nodes@[i]),
            decreases self.dependencies@.len() - k,
        {
            let from_tx = self.dependencies[k].0;
            let to_tx = self.dependencies[k].1;
            let ghost before = nodes@;
            proof {
                assert(edge_at(self.dependencies@, k as int, from_tx, to_tx));
                assert(has_edge(self.dependencies@, from_tx, to_tx));
                assert(is_endpoint(self.dependencies@, from_tx));
                assert(is_endpoint(self.dependencies@, to_tx));
            }
            if !contains_id(&nodes, from_tx) {
                nodes.push(from_tx);
            }
            let ghost middle = nodes@;
            if !contains_id(&nodes, to_tx) {
                nodes.push(to_tx);
            }
            proof {
                assert forall|i: int| 0 <= i < nodes@.len() implies is_endpoint(self.dependencies@, #[trigger] nodes@[i]) by {
                    if i < before.len() {
                        assert(nodes@[i] == before[i]);
                    } else if i < middle.len() {
                        assert(nodes@[i] == middle[i]);
                    }
                }
                assert forall|x: u64| before.contains(x) implies nodes@.contains(x) by {
                    let i = choose|i: int| 0 <= i < before.len() && before[i] == x;
                    assert(middle[i] == x);
                    assert(nodes@[i] == x);
                }
                assert(middle.contains(from_tx)) by {
                    if before.contains(from_tx) {
                        let i = choose|i: int| 0 <= i < before.len() && before[i] == from_tx;
                        assert(middle[i] == from_tx);
                    } else {
                        assert(middle[before.len() as int] == from_tx);
                    }
                }
                assert(nodes@.contains(from_tx)) by {
                    let i = choose|i: int| 0 <= i < middle.len() && middle[i] == from_tx;
                    assert(nodes@[i] == from_tx);
                }
                assert(nodes@.contains(to_tx)) by {
                    if !middle.contains(to_tx) {
                        assert(nodes@[middle.len() as int] == to_tx);
                    }
                }
                assert forall|kk: int| 0 <= kk < k + 1 implies nodes@.contains((#[trigger] self.dependencies@.subrange(0, k + 1)[kk]).0)
                    && nodes@.contains(self.dependencies@.subrange(0, k + 1)[kk].1) by {
                    if kk < k {
                        assert(self.dependencies@.subrange(0, k + 1)[kk] == self.dependencies@.subrange(0, k as int)[kk]);
                        assert(before.contains(self.dependencies@.subrange(0, k as int)[kk].0));
                        assert(before.contains(self.dependencies@.subrange(0, k as int)[kk].1));
                    }
                }
            }
            k += 1;
        }
        assert(self.dependencies@.subrange(0, k as int) =~= self.dependencies@);
        nodes
    }
}

/// Lock entry `p` is the resource `s` held by `tx`.
spec fn lock_entry(locks: Seq<(String, u64)>, p: int, tx: u64, s: Seq<char>) -> bool {
    0 <= p < locks.len() && locks[p].1 == tx && locks[p].0@ == s
}

spec fn held(locks: Seq<(String, u64)>, tx: u64, s: Seq<char>) -> bool {
    exists|p: int| #[trigger] lock_entry(locks, p, tx, s)
}

/// Every resource in `resources` is held by `tx` in the lock table.
spec fn held_by(locks: Seq<(String, u64)>, tx: u64, resources: Seq<String>) -> bool {
    forall|r: int| 0 <= r < resources.len() ==> held(locks, tx, (#[trigger] resources[r])@)
}

/// The two resource lists have a resource in common.
spec fn lists_meet(r1: Seq<String>, r2: Seq<String>) -> bool {
    exists|a: int, b: int| 0 <= a < r1.len() && 0 <= b < r2.len() && #[trigger] r1[a]@ == #[trigger] r2[b]@
}

/// An edge `a -> b` stands at index `from` or later.
pub open spec fn has_edge_from(edges: Seq<Edge>, from: int, a: u64, b: u64) -> bool {
    exists|k: int| from <= k && #[trigger] edge_at(edges, k, a, b)
}

/// Every edge from index `from` on is labelled with a resource that both of
/// its transactions hold.
spec fn labelled_from(edges: Seq<Edge>, locks: Seq<(String, u64)>, from: int) -> bool {
    forall|k: int|
        from <= k < edges.len() ==> held(locks, (#[trigger] edges[k]).0, edges[k].2@) && held(
            locks,
            edges[k].1,
            edges[k].2@,
        )
}

/// Edge `k` leads from `a` to `b` and is labelled with the resource `s`.
pub open spec fn labelled_edge_at(edges: Seq<Edge>, k: int, a: u64, b: u64, s: Seq<char>) -> bool {
    0 <= k < edges.len() && edges[k].0 == a && edges[k].1 == b && edges[k].2@ == s
}

/// An edge from `a` to `b` labelled with `s` stands at index `from` or later.
pub open spec fn labelled_edge_from(edges: Seq<Edge>, from: int, a: u64, b: u64, s: Seq<char>) -> bool {
    exists|k: int| from <= k && #[trigger] labelled_edge_at(edges, k, a, b, s)
}

/// Both directions between `a` and `b`, each labelled with `s`, stand at
/// index `from` or later.
spec fn pair_labelled(edges: Seq<Edge>, from: int, a: u64, b: u64, s: Seq<char>) -> bool {
    labelled_edge_from(edges, from, a, b, s) && labelled_edge_from(edges, from, b, a, s)
}

/// When resource `x` of `r1` is resource `y` of `r2`, the pair is labelled
/// with it.
spec fn labels_done(edges: Seq<Edge>, from: int, a: u64, b: u64, r1: Seq<String>, r2: Seq<String>, x: int, y: int) -> bool {
    r1[x]@ == r2[y]@ ==> pair_labelled(edges, from, a, b, r1[x]@)
}

proof fn lemma_labels_grow(old_edges: Seq<Edge>, new_edges: Seq<Edge>)
    requires
        old_edges.len() <= new_edges.len(),
        new_edges.subrange(0, old_edges.len() as int) == old_edges,
    ensures
        forall|from: int, a: u64, b: u64, s: Seq<char>|
            labelled_edge_from(old_edges, from, a, b, s) ==> #[trigger] labelled_edge_from(new_edges, from, a, b, s),
{
    assert forall|from: int, a: u64, b: u64, s: Seq<char>|
        labelled_edge_from(old_edges, from, a, b, s) implies #[trigger] labelled_edge_from(new_edges, from, a, b, s) by {
        let k = choose|k: int| from <= k && #[trigger] labelled_edge_at(old_edges, k, a, b, s);
        assert(new_edges.subrange(0, old_edges.len() as int)[k] == new_edges[k]);
        assert(labelled_edge_at(new_edges, k, a, b, s));
    }
}

proof fn lemma_labels_earlier(edges: Seq<Edge>, from: int, later: int)
    requires
        from <= later,
    ensures
        forall|a: u64, b: u64, s: Seq<char>|
            labelled_edge_from(edges, later, a, b, s) ==> #[trigger] labelled_edge_from(edges, from, a, b, s),
{
    assert forall|a: u64, b: u64, s: Seq<char>|
        labelled_edge_from(edges, later, a, b, s) implies #[trigger] labelled_edge_from(edges, from, a, b, s) by {
        let k = choose|k: int| later <= k && #[trigger] labelled_edge_at(edges, k, a, b, s);
        assert(labelled_edge_at(edges, k, a, b, s));
    }
}

/// `a` and `b` are linked both ways by edges at index `from` or later.
spec fn linked_both(edges: Seq<Edge>, from: int, a: u64, b: u64) -> bool {
    has_edge_from(edges, from, a, b) && has_edge_from(edges, from, b, a)
}

/// Links `tx1` and `tx2` in both directions for each resource they both hold.
fn link_pair(
    graph: &mut DependencyGraph,
    tx1: u64,
    resources1: &Vec<String>,
    tx2: u64,
    resources2: &Vec<String>,
    Ghost(locks): Ghost<Seq<(String, u64)>>,
)
    requires
        tx1 != tx2,
        held_by(locks, tx1, resources1@),
        held_by(locks, tx2, resources2@),
    ensures
        old(graph).dependencies@.len() <= final(graph).dependencies@.len(),
        final(graph).dependencies@.subrange(0, old(graph).dependencies@.len() as int)
            == old(graph).dependencies@,
        sharing_sound_from(final(graph).dependencies@, locks, old(graph).dependencies@.len() as int),
        labelled_from(final(graph).dependencies@, locks, old(graph).dependencies@.len() as int),
        lists_meet(resources1@, resources2@) ==> linked_both(
            final(graph).dependencies@,
            old(graph).dependencies@.len() as int,
            tx1,
            tx2,
        ),
        forall|x: int, y: int|
            0 <= x < resources1@.len() && 0 <= y < resources2@.len() ==> #[trigger] labels_done(
                final(graph).dependencies@,
                old(graph).dependencies@.len() as int,
                tx1,
                tx2,
                resources1@,
                resources2@,
                x,
                y,
            ),
{
    let ghost start = graph.dependencies@;
    let mut a: usize = 0;
    while a < resources1.len()
        invariant
            tx1 != tx2,
            held_by(locks, tx1, resources1@),
            held_by(locks, tx2, resources2@),
            a <= resources1@.len(),
            start.len() <= graph.dependencies@.len(),
            graph.dependencies@.subrange(0, start.len() as int) == start,
            sharing_sound_from(graph.dependencies@, locks, start.len() as int),
            labelled_from(graph.dependencies@, locks, start.len() as int),
            (exists|x: int, y: int|
                0 <= x < a && 0 <= y < resources2@.len() && #[trigger] resources1@[x]@
                    == #[trigger] resources2@[y]@) ==> linked_both(graph.dependencies@, start.len() as int, tx1, tx2),
            forall|x: int, y: int|
                0 <= x < a && 0 <= y < resources2@.len() ==> #[trigger] labels_done(
                    graph.dependencies@,
                    start.len() as int,
                    tx1,
                    tx2,
                    resources1@,
                    resources2@,
                    x,
                    y,
                ),
        decreases resources1@.len() - a,
    {
        let mut b: usize = 0;
        while b < resources2.len()
            invariant
                tx1 != tx2,
                held_by(locks, tx1, resources1@),
                held_by(locks, tx2, resources2@),
                a < resources1@.len(),
                b <= resources2@.len(),
                start.len() <= graph.dependencies@.len(),
                graph.dependencies@.subrange(0, start.len() as int) == start,
                sharing_sound_from(graph.dependencies@, locks, start.len() as int),
                labelled_from(graph.dependencies@, locks, start.len() as int),
                (exists|x: int, y: int|
                    ((0 <= x < a && 0 <= y < resources2@.len()) || (x == a && 0 <= y < b))
                        && #[trigger] resources1@[x]@ == #[trigger] resources2@[y]@) ==> linked_both(
                    graph.dependencies@,
                    start.len() as int,
                    tx1,
                    tx2,
                ),
                forall|x: int, y: int|
                    ((0 <= x < a && 0 <= y < resources2@.len()) || (x == a && 0 <= y < b)) ==> #[trigger] labels_done(
                        graph.dependencies@,
                        start.len() as int,
                        tx1,
                        tx2,
                        resources1@,
                        resources2@,
                        x,
                        y,
                    ),
            decreases resources2@.len() - b,
        {
            if resources1[a] == resources2[b] {
                let ghost before = graph.dependencies@;
                proof {
                    assert(held(locks, tx1, resources1@[a as int]@));
                    assert(held(locks, tx2, resources2@[b as int]@));
                    let p = choose|p: int| #[trigger] lock_entry(locks, p, tx1, resources1@[a as int]@);
                    let q = choose|q: int| #[trigger] lock_entry(locks, q, tx2, resources2@[b as int]@);
                    assert(lock_shared(locks, p, q));
                    assert(lock_shared(locks, q, p));
                }
                graph.add_dependency(tx1, tx2, resources1[a].clone());
                graph.add_dependency(tx2, tx1, resources2[b].clone());
                proof {
                    let e = graph.dependencies@;
                    assert(e.subrange(0, start.len() as int) =~= start) by {
                        assert(before.subrange(0, start.len() as int) == start);
                    }
                    assert(edge_at(e, before.len() as int, tx1, tx2));
                    assert(edge_at(e, before.len() as int + 1, tx2, tx1));
                    assert(linked_both(e, start.len() as int, tx1, tx2));
                    assert(e.subrange(0, before.len() as int) =~= before);
                    lemma_labels_grow(before, e);
                    assert(labelled_edge_at(e, before.len() as int, tx1, tx2, resources1@[a as int]@));
                    assert(labelled_edge_at(e, before.len() as int + 1, tx2, tx1, resources1@[a as int]@));
                    assert forall|x: int, y: int|
                        ((0 <= x < a && 0 <= y < resources2@.len()) || (x == a && 0 <= y < b + 1)) implies #[trigger] labels_done(
                            e,
                            start.len() as int,
                            tx1,
                            tx2,
                            resources1@,
                            resources2@,
                            x,
                            y,
                        ) by {
                        if !(x == a && y == b) {
                            assert(labels_done(before, start.len() as int, tx1, tx2, resources1@, resources2@, x, y));
                        }
                    }
                    assert forall|k: int| start.len() <= k < e.len() implies held(locks, (#[trigger] e[k]).0, e[k].2@)
                        && held(locks, e[k].1, e[k].2@) by {
                        if k < before.len() {
                            assert(e[k] == before[k]);
                        }
                    }
                }
            } else {
                proof {
                    if exists|x: int, y: int|
                        ((0 <= x < a && 0 <= y < resources2@.len()) || (x == a && 0 <= y < b + 1))
                            && #[trigger] resources1@[x]@ == #[trigger] resources2@[y]@ {
                        let (x, y) = choose|x: int, y: int|
                            ((0 <= x < a && 0 <= y < resources2@.len()) || (x == a && 0 <= y < b + 1))
                                && #[trigger] resources1@[x]@ == #[trigger] resources2@[y]@;
                        assert(resources1@[a as int]@ != resources2@[b as int]@);
                        assert(!(x == a && y == b));
                        assert(((0 <= x < a && 0 <= y < resources2@.len()) || (x == a && 0 <= y < b))
                            && resources1@[x]@ == resources2@[y]@);
                    }
                    assert(resources1@[a as int]@ != resources2@[b as int]@);
                    assert forall|x: int, y: int|
                        ((0 <= x < a && 0 <= y < resources2@.len()) || (x == a && 0 <= y < b + 1)) implies #[trigger] labels_done(
                            graph.dependencies@,
                            start.len() as int,
                            tx1,
                            tx2,
                            resources1@,
                            resources2@,
                            x,
                            y,
                        ) by {
                        if !(x == a && y == b) {
                            assert(labels_done(graph.dependencies@, start.len() as int, tx1, tx2, resources1@, resources2@, x, y));
                        }
                    }
                }
            }
            b += 1;
        }
        a += 1;
    }
}

/// Groups `x` and `y` (`x < y`) are linked when they hold a common resource.
spec fn groups_linked(edges: Seq<Edge>, from: int, groups: Seq<(u64, Vec<String>)>, x: int, y: int) -> bool {
    lists_meet(groups[x].1@, groups[y].1@) ==> linked_both(edges, from, groups[x].0, groups[y].0)
}

/// Groups `x` and `y` (`x < y`) are linked both ways, once per common
/// resource, each edge labelled with it.
spec fn groups_labelled(edges: Seq<Edge>, from: int, groups: Seq<(u64, Vec<String>)>, x: int, y: int) -> bool {
    forall|ra: int, rb: int|
        0 <= ra < groups[x].1@.len() && 0 <= rb < groups[y].1@.len() ==> #[trigger] labels_done(
            edges,
            from,
            groups[x].0,
            groups[y].0,
            groups[x].1@,
            groups[y].1@,
            ra,
            rb,
        )
}

proof fn lemma_linked_grow(old_edges: Seq<Edge>, new_edges: Seq<Edge>, from: int)
    requires
        old_edges.len() <= new_edges.len(),
        new_edges.subrange(0, old_edges.len() as int) == old_edges,
    ensures
        forall|a: u64, b: u64| linked_both(old_edges, from, a, b) ==> #[trigger] linked_both(new_edges, from, a, b),
{
    assert forall|a: u64, b: u64| #[trigger] has_edge_from(old_edges, from, a, b) implies has_edge_from(new_edges, from, a, b) by {
        let k = choose|k: int| from <= k && #[trigger] edge_at(old_edges, k, a, b);
        assert(new_edges.subrange(0, old_edges.len() as int)[k] == new_edges[k]);
        assert(edge_at(new_edges, k, a, b));
    }
}

proof fn lemma_linked_earlier(edges: Seq<Edge>, from: int, later: int, a: u64, b: u64)
    requires
        from <= later,
        linked_both(edges, later, a, b),
    ensures
        linked_both(edges, from, a, b),
{
    let k = choose|k: int| later <= k && #[trigger] edge_at(edges, k, a, b);
    let m = choose|k: int| later <= k && #[trigger] edge_at(edges, k, b, a);
    assert(edge_at(edges, k, a, b) && edge_at(edges, m, b, a));
}

proof fn lemma_group_held(groups: Seq<(u64, Vec<String>)>, locks: Seq<(String, u64)>, g: int)
    requires
        grouping_of(groups, locks, locks.len() as int),
        0 <= g < groups.len(),
    ensures
        held_by(locks, groups[g].0, groups[g].1@),
{
    reveal(grouping_of);
    assert forall|r: int| 0 <= r < groups[g].1@.len() implies held(
        locks,
        groups[g].0,
        (#[trigger] groups[g].1@[r])@,
    ) by {
        assert(group_member(groups, g, r));
    }
}

/// Links, in both directions, every two transactions that hold a common
/// resource in `current_locks`.
fn add_existing_dependencies(graph: &mut DependencyGraph, current_locks: &Vec<(String, u64)>)
    ensures
        old(graph).dependencies@.len() <= final(graph).dependencies@.len(),
        final(graph).dependencies@.subrange(0, old(graph).dependencies@.len() as int)
            == old(graph).dependencies@,
        sharing_sound_from(final(graph).dependencies@, current_locks@, old(graph).dependencies@.len() as int),
        labelled_from(final(graph).dependencies@, current_locks@, old(graph).dependencies@.len() as int),
        forall|a: u64, b: u64|
            #[trigger] share_resource(current_locks@, a, b) ==> has_edge_from(
                final(graph).dependencies@,
                old(graph).dependencies@.len() as int,
                a,
                b,
            ),
        sharing_complete(final(graph).dependencies@, current_locks@),
        forall|p: int, q: int|
            #[trigger] lock_shared(current_locks@, p, q) ==> labelled_edge_from(
                final(graph).dependencies@,
                old(graph).dependencies@.len() as int,
                current_locks@[p].1,
                current_locks@[q].1,
                current_locks@[p].0@,
            ),
{
    let ghost locks = current_locks@;
    let ghost start = graph.dependencies@;
    let groups = group_by_transaction(current_locks);
    let n = groups.len();
    let mut i: usize = 0;
    while i < n
        invariant
            n == groups@.len(),
            grouping_of(groups@, locks, locks.len() as int),
            locks == current_locks@,
            i <= n,
            start.len() <= graph.dependencies@.len(),
            graph.dependencies@.subrange(0, start.len() as int) == start,
            sharing_sound_from(graph.dependencies@, locks, start.len() as int),
            labelled_from(graph.dependencies@, locks, start.len() as int),
            forall|x: int, y: int| 0 <= x < i && x < y < n ==> #[trigger] groups_linked(graph.dependencies@, start.len() as int, groups@, x, y),
            forall|x: int, y: int| 0 <= x < i && x < y < n ==> #[trigger] groups_labelled(graph.dependencies@, start.len() as int, groups@, x, y),
        decreases n - i,
    {
        let mut j: usize = i + 1;
        while j < n
            invariant
                n == groups@.len(),
                grouping_of(groups@, locks, locks.len() as int),
                locks == current_locks@,
                i < n,
                i < j <= n,
                start.len() <= graph.dependencies@.len(),
                graph.dependencies@.subrange(0, start.len() as int) == start,
                sharing_sound_from(graph.dependencies@, locks, start.len() as int),
            labelled_from(graph.dependencies@, locks, start.len() as int),
                forall|x: int, y: int| 0 <= x < i && x < y < n ==> #[trigger] groups_linked(graph.dependencies@, start.len() as int, groups@, x, y),
                forall|y: int| i < y < j ==> #[trigger] groups_linked(graph.dependencies@, start.len() as int, groups@, i as int, y),
                forall|x: int, y: int| 0 <= x < i && x < y < n ==> #[trigger] groups_labelled(graph.dependencies@, start.len() as int, groups@, x, y),
                forall|y: int| i < y < j ==> #[trigger] groups_labelled(graph.dependencies@, start.len() as int, groups@, i as int, y),
            decreases n - j,
        {
            let ghost before = graph.dependencies@;
            proof {
                lemma_group_held(groups@, locks, i as int);
                lemma_group_held(groups@, locks, j as int);
                reveal(grouping_of);
                assert(groups@[i as int].0 != groups@[j as int].0);
            }
            link_pair(graph, groups[i].0, &groups[i].1, groups[j].0, &groups[j].1, Ghost(locks));
            proof {
                let e = graph.dependencies@;
                lemma_linked_grow(before, e, start.len() as int);
                lemma_labels_grow(before, e);
                lemma_labels_earlier(e, start.len() as int, before.len() as int);
                assert forall|x: int, y: int| 0 <= x < i && x < y < n implies #[trigger] groups_labelled(e, start.len() as int, groups@, x, y) by {
                    assert(groups_labelled(before, start.len() as int, groups@, x, y));
                    assert forall|ra: int, rb: int|
                        0 <= ra < groups@[x].1@.len() && 0 <= rb < groups@[y].1@.len() implies #[trigger] labels_done(
                            e, start.len() as int, groups@[x].0, groups@[y].0, groups@[x].1@, groups@[y].1@, ra, rb) by {
                        assert(labels_done(before, start.len() as int, groups@[x].0, groups@[y].0, groups@[x].1@, groups@[y].1@, ra, rb));
                    }
                }
                assert forall|y: int| i < y < j + 1 implies #[trigger] groups_labelled(e, start.len() as int, groups@, i as int, y) by {
                    assert forall|ra: int, rb: int|
                        0 <= ra < groups@[i as int].1@.len() && 0 <= rb < groups@[y].1@.len() implies #[trigger] labels_done(
                            e, start.len() as int, groups@[i as int].0, groups@[y].0, groups@[i as int].1@, groups@[y].1@, ra, rb) by {
                        if y < j {
                            assert(groups_labelled(before, start.len() as int, groups@, i as int, y));
                            assert(labels_done(before, start.len() as int, groups@[i as int].0, groups@[y].0, groups@[i as int].1@, groups@[y].1@, ra, rb));
                        } else {
                            assert(labels_done(e, before.len() as int, groups@[i as int].0, groups@[y].0, groups@[i as int].1@, groups@[y].1@, ra, rb));
                        }
                    }
                }
                if lists_meet(groups@[i as int].1@, groups@[j as int].1@) {
                    lemma_linked_earlier(e, start.len() as int, before.len() as int, groups@[i as int].0, groups@[j as int].0);
                }
                assert forall|k: int| start.len() <= k < e.len() implies held(locks, (#[trigger] e[k]).0, e[k].2@)
                    && held(locks, e[k].1, e[k].2@) by {
                    if k < before.len() {
                        assert(e.subrange(0, before.len() as int)[k] == e[k]);
                    }
                }
                assert(e.subrange(0, start.len() as int) =~= start) by {
                    assert(e.subrange(0, before.len() as int) == before);
                    assert(before.subrange(0, start.len() as int) == start);
                }
                assert forall|k: int| start.len() <= k < e.len() implies share_resource(
                    locks,
                    (#[trigger] e[k]).0,
                    e[k].1,
                ) by {
                    if k < before.len() {
                        assert(e.subrange(0, before.len() as int)[k] == e[k]);
                        assert(share_resource(locks, before[k].0, before[k].1));
                    }
                }
                assert forall|x: int, y: int| 0 <= x < i && x < y < n implies #[trigger] groups_linked(e, start.len() as int, groups@, x, y) by {
                    assert(groups_linked(before, start.len() as int, groups@, x, y));
                }
                assert forall|y: int| i < y < j + 1 implies #[trigger] groups_linked(e, start.len() as int, groups@, i as int, y) by {
                    if y < j {
                        assert(groups_linked(before, start.len() as int, groups@, i as int, y));
                    }
                }
            }
            j += 1;
        }
        i += 1;
    }
    proof {
        let e = graph.dependencies@;
        reveal(grouping_of);
        assert forall|x: u64, y: u64| #[trigger] share_resource(locks, x, y) implies has_edge_from(e, start.len() as int, x, y) by {
            let (p, q) = choose|p: int, q: int|
                #[trigger] lock_shared(locks, p, q) && locks[p].1 == x && locks[q].1 == y;
            let (gx, rx) = choose|g: int, r: int|
                #[trigger] group_member(groups@, g, r) && groups@[g].0 == #[trigger] locks[p].1
                    && groups@[g].1@[r]@ == locks[p].0@;
            let (gy, ry) = choose|g: int, r: int|
                #[trigger] group_member(groups@, g, r) && groups@[g].0 == #[trigger] locks[q].1
                    && groups@[g].1@[r]@ == locks[q].0@;
            if gx < gy {
                assert(lists_meet(groups@[gx].1@, groups@[gy].1@)) by {
                    assert(groups@[gx].1@[rx]@ == groups@[gy].1@[ry]@);
                }
                assert(groups_linked(e, start.len() as int, groups@, gx, gy));
            } else {
                assert(lists_meet(groups@[gy].1@, groups@[gx].1@)) by {
                    assert(groups@[gy].1@[ry]@ == groups@[gx].1@[rx]@);
                }
                assert(groups_linked(e, start.len() as int, groups@, gy, gx));
            }
        }
        assert forall|p: int, q: int| #[trigger] lock_shared(locks, p, q) implies labelled_edge_from(
            e, start.len() as int, locks[p].1, locks[q].1, locks[p].0@) by {
            let (gx, rx) = choose|g: int, r: int|
                #[trigger] group_member(groups@, g, r) && groups@[g].0 == #[trigger] locks[p].1
                    && groups@[g].1@[r]@ == locks[p].0@;
            let (gy, ry) = choose|g: int, r: int|
                #[trigger] group_member(groups@, g, r) && groups@[g].0 == #[trigger] locks[q].1
                    && groups@[g].1@[r]@ == locks[q].0@;
            if gx < gy {
                assert(groups_labelled(e, start.len() as int, groups@, gx, gy));
                assert(labels_done(e, start.len() as int, groups@[gx].0, groups@[gy].0, groups@[gx].1@, groups@[gy].1@, rx, ry));
            } else {
                assert(gx != gy);
                assert(groups_labelled(e, start.len() as int, groups@, gy, gx));
                assert(labels_done(e, start.len() as int, groups@[gy].0, groups@[gx].0, groups@[gy].1@, groups@[gx].1@, ry, rx));
            }
        }
        assert forall|x: u64, y: u64| #[trigger] share_resource(locks, x, y) implies has_edge(e, x, y) by {
            let k = choose|k: int| start.len() <= k && #[trigger] edge_at(e, k, x, y);
            assert(edge_at(e, k, x, y));
        }
    }
}

pub open spec fn has_out(edges: Seq<Edge>, x: u64) -> bool {
    exists|y: u64| #[trigger] has_edge(edges, x, y)
}

pub open spec fn has_in(edges: Seq<Edge>, x: u64) -> bool {
    exists|y: u64| #[trigger] has_edge(edges, y, x)
}

pub open spec fn is_endpoint(edges: Seq<Edge>, x: u64) -> bool {
    has_out(edges, x) || has_in(edges, x)
}

pub open spec fn endpoints_within(edges: Seq<Edge>, nodes: Seq<u64>) -> bool {
    forall|k: int| 0 <= k < edges.len() ==> nodes.contains((#[trigger] edges[k]).0) && nodes.contains(edges[k].1)
}

fn contains_id(v: &Vec<u64>, x: u64) -> (r: bool)
    ensures
        r == v@.contains(x),
{
    let mut i: usize = 0;
    while i < v.len()
        invariant
            i <= v@.len(),
            forall|k: int| 0 <= k < i ==> v@[k] != x,
        decreases v@.len() - i,
    {
        if v[i] == x {
            return true;
        }
        i += 1;
    }
    false
}

/// The graph that the cycle search runs on: every edge links two
/// transactions sharing a resource or leads from the candidate `tx` to another
/// transaction, and every sharing pair is linked.
spec fn search_graph(edges: Seq<Edge>, locks: Seq<(String, u64)>, tx: u64) -> bool {
    &&& forall|k: int|
        0 <= k < edges.len() ==> share_resource(locks, (#[trigger] edges[k]).0, edges[k].1) || (
        edges[k].0 == tx && edges[k].1 != tx)
    &&& sharing_complete(edges, locks)
}

spec fn isolated(locks: Seq<(String, u64)>, x: u64) -> bool {
    forall|y: u64| !#[trigger] share_resource(locks, x, y)
}

/// Every visited transaction that is off the stack shares no resource.
spec fn finished_isolated(visited: Seq<u64>, stack: Seq<u64>, locks: Seq<(String, u64)>) -> bool {
    forall|i: int|
        0 <= i < visited.len() && !stack.contains(#[trigger] visited[i]) ==> isolated(locks, visited[i])
}

spec fn within(vs: Seq<u64>, nodes: Seq<u64>) -> bool {
    forall|i: int| 0 <= i < vs.len() ==> nodes.contains(#[trigger] vs[i])
}

spec fn all_have_out(edges: Seq<Edge>, stack: Seq<u64>) -> bool {
    forall|i: int| 0 <= i < stack.len() ==> has_out(edges, #[trigger] stack[i])
}

proof fn lemma_distinct_within(vs: Seq<u64>, nodes: Seq<u64>)
    requires
        vs.no_duplicates(),
        within(vs, nodes),
    ensures
        vs.len() <= nodes.len(),
{
    vs.unique_seq_to_set();
    nodes.lemma_cardinality_of_set();
    assert(vs.to_set().subset_of(nodes.to_set())) by {
        assert forall|x: u64| vs.to_set().contains(x) implies nodes.to_set().contains(x) by {
            let i = choose|i: int| 0 <= i < vs.len() && vs[i] == x;
            assert(nodes.contains(vs[i]));
        }
    }
    vstd::set_lib::lemma_len_subset(vs.to_set(), nodes.to_set());
}

proof fn lemma_share_symmetric(locks: Seq<(String, u64)>, a: u64, b: u64)
    requires
        share_resource(locks, a, b),
    ensures
        share_resource(locks, b, a),
        a != b,
        has_shared_resource(locks),
{
    let (i, j) = choose|i: int, j: int| #[trigger] lock_shared(locks, i, j) && locks[i].1 == a && locks[j].1 == b;
    assert(lock_shared(locks, j, i));
}

/// A search edge back onto a transaction that itself has an edge out shows
/// that some resource is shared.
proof fn lemma_back_edge(edges: Seq<Edge>, locks: Seq<(String, u64)>, tx: u64, u: u64, y: u64)
    requires
        search_graph(edges, locks, tx),
        has_edge(edges, u, y),
        has_out(edges, y),
    ensures
        has_shared_resource(locks),
{
    let k = choose|k: int| #[trigger] edge_at(edges, k, u, y);
    let z = choose|z: u64| #[trigger] has_edge(edges, y, z);
    let m = choose|m: int| #[trigger] edge_at(edges, m, y, z);
    assert(share_resource(locks, edges[k].0, edges[k].1) || (edges[k].0 == tx && edges[k].1 != tx));
    assert(share_resource(locks, edges[m].0, edges[m].1) || (edges[m].0 == tx && edges[m].1 != tx));
    if share_resource(locks, u, y) {
        lemma_share_symmetric(locks, u, y);
    } else if share_resource(locks, y, z) {
        lemma_share_symmetric(locks, y, z);
    }
}

proof fn lemma_push_keeps(s: Seq<u64>, x: u64)
    ensures
        forall|y: u64| s.contains(y) ==> #[trigger] s.push(x).contains(y),
        s.push(x).contains(x),
{
    assert forall|y: u64| s.contains(y) implies #[trigger] s.push(x).contains(y) by {
        let i = choose|i: int| 0 <= i < s.len() && s[i] == y;
        assert(s.push(x)[i] == y);
    }
    assert(s.push(x)[s.len() as int] == x);
}

/// Depth-first search from `transaction`; true when an edge leads back onto
/// the current search path.
fn dfs_has_cycle(
    graph: &DependencyGraph,
    transaction: u64,
    visited: &mut Vec<u64>,
    recursion_stack: &mut Vec<u64>,
    Ghost(nodes): Ghost<Seq<u64>>,
    Ghost(locks): Ghost<Seq<(String, u64)>>,
    Ghost(tx): Ghost<u64>,
) -> (r: bool)
    requires
        search_graph(graph.dependencies@, locks, tx),
        endpoints_within(graph.dependencies@, nodes),
        nodes.contains(transaction),
        !old(visited)@.contains(transaction),
        old(visited)@.no_duplicates(),
        within(old(visited)@, nodes),
        within(old(recursion_stack)@, old(visited)@),
        finished_isolated(old(visited)@, old(recursion_stack)@, locks),
        all_have_out(graph.dependencies@, old(recursion_stack)@),
    ensures
        final(visited)@.no_duplicates(),
        within(final(visited)@, nodes),
        within(old(visited)@, final(visited)@),
        final(visited)@.contains(transaction),
        r ==> has_shared_resource(locks),
        !r ==> final(recursion_stack)@ == old(recursion_stack)@,
        !r ==> finished_isolated(final(visited)@, old(recursion_stack)@, locks),
        !r ==> forall|y: u64|
            old(recursion_stack)@.contains(y) ==> !#[trigger] has_edge(graph.dependencies@, transaction, y),
    decreases nodes.len() - old(visited)@.len(),
{
    let ghost edges = graph.dependencies@;
    let ghost visited0 = visited@;
    let ghost stack0 = recursion_stack@;
    proof {
        lemma_push_keeps(visited0, transaction);
        assert(within(visited0.push(transaction), nodes));
        lemma_distinct_within(visited0.push(transaction), nodes);
    }
    visited.push(transaction);
    recursion_stack.push(transaction);
    proof {
        lemma_push_keeps(stack0, transaction);
    }
    let dependencies = graph.get_dependencies(transaction);
    let mut i: usize = 0;
    while i < dependencies.len()
        invariant
            edges == graph.dependencies@,
            visited0 == old(visited)@,
            stack0 == old(recursion_stack)@,
            search_graph(edges, locks, tx),
            endpoints_within(edges, nodes),
            visited@.no_duplicates(),
            within(visited@, nodes),
            within(visited0, visited@),
            visited@.contains(transaction),
            visited0.len() < visited@.len(),
            visited0.len() < nodes.len(),
            recursion_stack@ == stack0.push(transaction),
            within(stack0, visited0),
            all_have_out(edges, stack0),
            finished_isolated(visited@, recursion_stack@, locks),
            i <= dependencies@.len(),
            forall|d: int| 0 <= d < dependencies@.len() ==> has_edge(edges, transaction, (#[trigger] dependencies@[d]).0),
            forall|b: u64| #[trigger] has_edge(edges, transaction, b) ==> exists|d: int|
                0 <= d < dependencies@.len() && (#[trigger] dependencies@[d]).0 == b,
            forall|d: int|
                0 <= d < i ==> !share_resource(locks, transaction, (#[trigger] dependencies@[d]).0)
                    && !stack0.contains(dependencies@[d].0),
        decreases dependencies@.len() - i,
    {
        let dependent_tx = dependencies[i].0;
        proof {
            assert(has_edge(edges, transaction, dependent_tx));
            let k = choose|k: int| #[trigger] edge_at(edges, k, transaction, dependent_tx);
            assert(nodes.contains(edges[k].1));
            assert(has_out(edges, transaction));
        }
        if !contains_id(visited, dependent_tx) {
            let ghost visited1 = visited@;
            proof {
                assert(within(recursion_stack@, visited@)) by {
                    assert forall|j: int| 0 <= j < recursion_stack@.len() implies visited@.contains(#[trigger] recursion_stack@[j]) by {
                        if j < stack0.len() {
                            assert(recursion_stack@[j] == stack0[j]);
                            assert(visited0.contains(stack0[j]));
                        }
                    }
                }
                assert(all_have_out(edges, recursion_stack@)) by {
                    assert forall|j: int| 0 <= j < recursion_stack@.len() implies has_out(edges, #[trigger] recursion_stack@[j]) by {
                        if j < stack0.len() {
                            assert(recursion_stack@[j] == stack0[j]);
                        }
                    }
                }
            }
            proof {
                lemma_distinct_within(visited@, nodes);
            }
            let found = dfs_has_cycle(graph, dependent_tx, visited, recursion_stack, Ghost(nodes), Ghost(locks), Ghost(tx));
            proof {
                assert forall|x: u64| visited0.contains(x) implies visited@.contains(x) by {
                    let j = choose|j: int| 0 <= j < visited0.len() && visited0[j] == x;
                    assert(visited1.contains(visited0[j]));
                    let j1 = choose|j1: int| 0 <= j1 < visited1.len() && visited1[j1] == x;
                    assert(visited@.contains(visited1[j1]));
                }
                assert(within(visited0, visited@));
            }
            if found {
                return true;
            }
            proof {
                assert(recursion_stack@.contains(transaction)) by {
                    assert(recursion_stack@[stack0.len() as int] == transaction);
                }
                assert(!has_edge(edges, dependent_tx, transaction));
                if share_resource(locks, transaction, dependent_tx) {
                    lemma_share_symmetric(locks, transaction, dependent_tx);
                }
                if stack0.contains(dependent_tx) {
                    let j = choose|j: int| 0 <= j < stack0.len() && stack0[j] == dependent_tx;
                    assert(visited0.contains(stack0[j]));
                }
                assert forall|x: u64| visited0.contains(x) implies visited@.contains(x) by {
                    let j = choose|j: int| 0 <= j < visited0.len() && visited0[j] == x;
                    assert(visited1.contains(visited0[j]));
                    let j1 = choose|j1: int| 0 <= j1 < visited1.len() && visited1[j1] == x;
                    assert(visited@.contains(visited1[j1]));
                }
                assert(within(visited0, visited@));
                assert(visited@.contains(transaction)) by {
                    let j1 = choose|j1: int| 0 <= j1 < visited1.len() && visited1[j1] == transaction;
                    assert(visited@.contains(visited1[j1]));
                }
                lemma_distinct_within(visited1, visited@);
            }
        } else if contains_id(recursion_stack, dependent_tx) {
            proof {
                let j = choose|j: int| 0 <= j < recursion_stack@.len() && recursion_stack@[j] == dependent_tx;
                if j < stack0.len() {
                    assert(recursion_stack@[j] == stack0[j]);
                    assert(has_out(edges, stack0[j]));
                }
                lemma_back_edge(edges, locks, tx, transaction, dependent_tx);
            }
            return true;
        } else {
            proof {
                let j = choose|j: int| 0 <= j < visited@.len() && visited@[j] == dependent_tx;
                assert(isolated(locks, visited@[j]));
                if share_resource(locks, transaction, dependent_tx) {
                    lemma_share_symmetric(locks, transaction, dependent_tx);
                    assert(!share_resource(locks, dependent_tx, transaction));
                }
                lemma_push_keeps(stack0, transaction);
            }
        }
        i += 1;
    }
    recursion_stack.pop();
    proof {
        assert(recursion_stack@ =~= stack0);
        assert(isolated(locks, transaction)) by {
            assert forall|y: u64| !#[trigger] share_resource(locks, transaction, y) by {
                if share_resource(locks, transaction, y) {
                    assert(has_edge(edges, transaction, y));
                    let d = choose|d: int| 0 <= d < dependencies@.len() && (#[trigger] dependencies@[d]).0 == y;
                    assert(!share_resource(locks, transaction, dependencies@[d].0));
                }
            }
        }
        assert forall|j: int|
            0 <= j < visited@.len() && !stack0.contains(#[trigger] visited@[j]) implies isolated(locks, visited@[j]) by {
            if visited@[j] != transaction {
                lemma_push_keeps(stack0, transaction);
                if stack0.push(transaction).contains(visited@[j]) {
                    let m = choose|m: int| 0 <= m < stack0.push(transaction).len() && stack0.push(transaction)[m] == visited@[j];
                    if m < stack0.len() {
                        assert(stack0[m] == visited@[j]);
                    }
                }
            }
        }
        assert forall|y: u64| stack0.contains(y) implies !#[trigger] has_edge(edges, transaction, y) by {
            if has_edge(edges, transaction, y) {
                let d = choose|d: int| 0 <= d < dependencies@.len() && (#[trigger] dependencies@[d]).0 == y;
                assert(!stack0.contains(dependencies@[d].0));
            }
        }
    }
    false
}

/// `c` is a directed cycle of the graph: an edge from each transaction to
/// the next, and from the last back to the first.
pub open spec fn directed_cycle(edges: Seq<Edge>, c: Seq<u64>) -> bool {
    &&& c.len() >= 1
    &&& forall|i: int| 0 <= i < c.len() - 1 ==> has_edge(edges, #[trigger] c[i], c[i + 1])
    &&& has_edge(edges, c.last(), c[0])
}

pub open spec fn has_directed_cycle(edges: Seq<Edge>) -> bool {
    exists|c: Seq<u64>| #[trigger] directed_cycle(edges, c)
}

/// On a search graph, a directed cycle exists exactly when some resource is
/// shared: two co-holders are linked both ways, and the candidate's own edges
/// only lead out of it.
proof fn lemma_search_graph_cycle(edges: Seq<Edge>, locks: Seq<(String, u64)>, tx: u64)
    requires
        search_graph(edges, locks, tx),
    ensures
        has_directed_cycle(edges) <==> has_shared_resource(locks),
{
    if has_shared_resource(locks) {
        let (p, q) = choose|p: int, q: int| #[trigger] lock_shared(locks, p, q);
        let a = locks[p].1;
        let b = locks[q].1;
        assert(share_resource(locks, a, b));
        lemma_share_symmetric(locks, a, b);
        assert(has_edge(edges, a, b) && has_edge(edges, b, a));
        let c = seq![a, b];
        assert(directed_cycle(edges, c));
    }
    if has_directed_cycle(edges) && !has_shared_resource(locks) {
        let c = choose|c: Seq<u64>| #[trigger] directed_cycle(edges, c);
        let k = choose|k: int| #[trigger] edge_at(edges, k, c.last(), c[0]);
        if share_resource(locks, edges[k].0, edges[k].1) {
            lemma_share_symmetric(locks, edges[k].0, edges[k].1);
        }
        assert(c.last() == tx && c[0] != tx);
        assert(c.len() >= 2);
        assert(has_edge(edges, c[0], c[1]));
        let m = choose|m: int| #[trigger] edge_at(edges, m, c[0], c[1]);
        if share_resource(locks, edges[m].0, edges[m].1) {
            lemma_share_symmetric(locks, edges[m].0, edges[m].1);
        }
    }
}

/// Whether the graph holds a cycle, by depth-first search from every
/// transaction not yet visited.
fn has_cycles(graph: &DependencyGraph, Ghost(locks): Ghost<Seq<(String, u64)>>, Ghost(tx): Ghost<u64>) -> (r: bool)
    requires
        search_graph(graph.dependencies@, locks, tx),
    ensures
        r == has_shared_resource(locks),
        r == has_directed_cycle(graph.dependencies@),
{
    proof {
        lemma_search_graph_cycle(graph.dependencies@, locks, tx);
    }
    let mut visited: Vec<u64> = Vec::new();
    let mut recursion_stack: Vec<u64> = Vec::new();
    let transactions = graph.get_all_transactions();
    let ghost nodes = transactions@;
    let mut i: usize = 0;
    while i < transactions.len()
        invariant
            nodes == transactions@,
            search_graph(graph.dependencies@, locks, tx),
            has_directed_cycle(graph.dependencies@) <==> has_shared_resource(locks),
            endpoints_within(graph.dependencies@, nodes),
            recursion_stack@ == Seq::<u64>::empty(),
            visited@.no_duplicates(),
            within(visited@, nodes),
            finished_isolated(visited@, recursion_stack@, locks),
            i <= nodes.len(),
            forall|k: int| 0 <= k < i ==> visited@.contains(#[trigger] nodes[k]),
        decreases nodes.len() - i,
    {
        let transaction = transactions[i];
        if !contains_id(&visited, transaction) {
            let ghost visited1 = visited@;
            proof {
                assert(nodes.contains(nodes[i as int]));
            }
            if dfs_has_cycle(graph, transaction, &mut visited, &mut recursion_stack, Ghost(nodes), Ghost(locks), Ghost(tx)) {
                return true;
            }
            proof {
                assert forall|k: int| 0 <= k < i + 1 implies visited@.contains(#[trigger] nodes[k]) by {
                    if k < i {
                        let j = choose|j: int| 0 <= j < visited1.len() && visited1[j] == nodes[k];
                        assert(visited@.contains(visited1[j]));
                    }
                }
            }
        }
        i += 1;
    }
    proof {
        if has_shared_resource(locks) {
            let (p, q) = choose|p: int, q: int| #[trigger] lock_shared(locks, p, q);
            let a = locks[p].1;
            let b = locks[q].1;
            assert(share_resource(locks, a, b));
            assert(has_edge(graph.dependencies@, a, b));
            let k = choose|k: int| #[trigger] edge_at(graph.dependencies@, k, a, b);
            assert(nodes.contains(graph.dependencies@[k].0));
            let m = choose|m: int| 0 <= m < nodes.len() && nodes[m] == a;
            assert(visited@.contains(nodes[m]));
            let v = choose|v: int| 0 <= v < visited@.len() && visited@[v] == a;
            assert(isolated(locks, visited@[v]));
            assert(!share_resource(locks, a, b));
        }
    }
    false
}

/// Consecutive transactions of `path` share a resource.
pub open spec fn sharing_chain(locks: Seq<(String, u64)>, path: Seq<u64>) -> bool {
    forall|i: int| 0 <= i < path.len() - 1 ==> share_resource(locks, #[trigger] path[i], path[i + 1])
}

/// A cycle of at least two distinct transactions, each sharing a resource
/// with the next and the last with the first.
pub open spec fn sharing_cycle(locks: Seq<(String, u64)>, cycle: Seq<u64>) -> bool {
    &&& cycle.len() >= 2
    &&& cycle.no_duplicates()
    &&& sharing_chain(locks, cycle)
    &&& share_resource(locks, cycle.last(), cycle[0])
}

/// The lock table has a cycle of transactions, each sharing a resource with
/// the next and the last with the first, exactly when some resource is held
/// by two different transactions.
pub proof fn lemma_cycle_iff_shared(locks: Seq<(String, u64)>)
    ensures
        (exists|c: Seq<u64>| #[trigger] sharing_cycle(locks, c)) <==> has_shared_resource(locks),
{
    if exists|c: Seq<u64>| #[trigger] sharing_cycle(locks, c) {
        let c = choose|c: Seq<u64>| #[trigger] sharing_cycle(locks, c);
        assert(share_resource(locks, c[0], c[1]));
        lemma_share_symmetric(locks, c[0], c[1]);
    }
    if has_shared_resource(locks) {
        let (i, j) = choose|i: int, j: int| #[trigger] lock_shared(locks, i, j);
        let c = seq![locks[i].1, locks[j].1];
        assert(lock_shared(locks, j, i));
        assert(c.no_duplicates());
        assert(share_resource(locks, c[0], c[1]));
        assert(share_resource(locks, c.last(), c[0]));
        assert(sharing_cycle(locks, c));
    }
}

fn position_of(v: &Vec<u64>, x: u64) -> (r: Option<usize>)
    ensures
        match r {
            Some(i) => i < v@.len() && v@[i as int] == x,
            None => !v@.contains(x),
        },
{
    let mut i: usize = 0;
    while i < v.len()
        invariant
            i <= v@.len(),
            forall|k: int| 0 <= k < i ==> v@[k] != x,
        decreases v@.len() - i,
    {
        if v[i] == x {
            return Some(i);
        }
        i += 1;
    }
    None
}

/// Some recorded cycle contains both `u` and `w`.
pub open spec fn covered(cycles: Seq<Vec<u64>>, u: u64, w: u64) -> bool {
    exists|c: int| 0 <= c < cycles.len() && (#[trigger] cycles[c])@.contains(u) && cycles[c]@.contains(w)
}

/// Every two visited transactions sharing a resource, unless both are still
/// on the search path, appear together in a recorded cycle.
#[verifier::opaque]
spec fn pairs_covered(locks: Seq<(String, u64)>, visited: Seq<u64>, path: Seq<u64>, cycles: Seq<Vec<u64>>) -> bool {
    forall|u: u64, w: u64|
        #[trigger] share_resource(locks, u, w) && visited.contains(u) && visited.contains(w) && !(
        path.contains(u) && path.contains(w)) ==> covered(cycles, u, w)
}

/// Every visited transaction off the search path has all its successors
/// visited.
#[verifier::opaque]
spec fn finished_closed(edges: Seq<Edge>, visited: Seq<u64>, path: Seq<u64>) -> bool {
    forall|u: u64, w: u64|
        #[trigger] has_edge(edges, u, w) && visited.contains(u) && !path.contains(u) ==> visited.contains(w)
}

proof fn lemma_covered_grow(cycles: Seq<Vec<u64>>, more: Seq<Vec<u64>>)
    requires
        cycles.len() <= more.len(),
        more.subrange(0, cycles.len() as int) == cycles,
    ensures
        forall|u: u64, w: u64| covered(cycles, u, w) ==> #[trigger] covered(more, u, w),
{
    assert forall|u: u64, w: u64| covered(cycles, u, w) implies #[trigger] covered(more, u, w) by {
        let c = choose|c: int| 0 <= c < cycles.len() && (#[trigger] cycles[c])@.contains(u) && cycles[c]@.contains(w);
        assert(more.subrange(0, cycles.len() as int)[c] == more[c]);
    }
}

proof fn lemma_pairs_covered_grow(
    locks: Seq<(String, u64)>,
    visited: Seq<u64>,
    path: Seq<u64>,
    cycles: Seq<Vec<u64>>,
    more: Seq<Vec<u64>>,
)
    requires
        pairs_covered(locks, visited, path, cycles),
        cycles.len() <= more.len(),
        more.subrange(0, cycles.len() as int) == cycles,
    ensures
        pairs_covered(locks, visited, path, more),
{
    reveal(pairs_covered);
    lemma_covered_grow(cycles, more);
}

proof fn lemma_search_enter(
    edges: Seq<Edge>,
    locks: Seq<(String, u64)>,
    visited: Seq<u64>,
    path: Seq<u64>,
    cycles: Seq<Vec<u64>>,
    t: u64,
)
    requires
        sharing_complete(edges, locks),
        pairs_covered(locks, visited, path, cycles),
        finished_closed(edges, visited, path),
        !visited.contains(t),
        within(path, visited),
    ensures
        pairs_covered(locks, visited.push(t), path.push(t), cycles),
        finished_closed(edges, visited.push(t), path.push(t)),
{
    reveal(pairs_covered);
    reveal(finished_closed);
    lemma_push_keeps(visited, t);
    lemma_push_keeps(path, t);
    let nv = visited.push(t);
    let np = path.push(t);
    assert forall|x: u64| nv.contains(x) && x != t implies visited.contains(x) by {
        let i = choose|i: int| 0 <= i < nv.len() && nv[i] == x;
        if i < visited.len() {
            assert(visited[i] == x);
        }
    }
    assert forall|x: u64| np.contains(x) && x != t implies path.contains(x) by {
        let i = choose|i: int| 0 <= i < np.len() && np[i] == x;
        if i < path.len() {
            assert(path[i] == x);
        }
    }
    assert forall|u: u64, w: u64|
        #[trigger] share_resource(locks, u, w) && nv.contains(u) && nv.contains(w) && !(np.contains(u)
            && np.contains(w)) implies covered(cycles, u, w) by {
        lemma_share_symmetric(locks, u, w);
        if u == t {
            assert(has_edge(edges, w, t));
        } else if w == t {
            assert(has_edge(edges, u, t));
        }
    }
    assert forall|u: u64, w: u64|
        #[trigger] has_edge(edges, u, w) && nv.contains(u) && !np.contains(u) implies nv.contains(w) by {
        assert(visited.contains(w));
    }
}

proof fn lemma_search_leave(
    edges: Seq<Edge>,
    locks: Seq<(String, u64)>,
    visited: Seq<u64>,
    path: Seq<u64>,
    cycles: Seq<Vec<u64>>,
    t: u64,
)
    requires
        sharing_complete(edges, locks),
        pairs_covered(locks, visited, path.push(t), cycles),
        finished_closed(edges, visited, path.push(t)),
        forall|w: u64| #[trigger] has_edge(edges, t, w) ==> visited.contains(w) && (path.contains(w) ==> covered(cycles, t, w)),
    ensures
        pairs_covered(locks, visited, path, cycles),
        finished_closed(edges, visited, path),
{
    reveal(pairs_covered);
    reveal(finished_closed);
    lemma_push_keeps(path, t);
    let np = path.push(t);
    assert forall|x: u64| np.contains(x) && x != t implies path.contains(x) by {
        let i = choose|i: int| 0 <= i < np.len() && np[i] == x;
        if i < path.len() {
            assert(path[i] == x);
        }
    }
    assert forall|u: u64, w: u64|
        #[trigger] share_resource(locks, u, w) && visited.contains(u) && visited.contains(w) && !(path.contains(u)
            && path.contains(w)) implies covered(cycles, u, w) by {
        lemma_share_symmetric(locks, u, w);
        if np.contains(u) && np.contains(w) {
            if u == t {
                assert(has_edge(edges, t, w));
            } else {
                assert(w == t);
                assert(has_edge(edges, t, u));
                let c = choose|c: int| 0 <= c < cycles.len() && (#[trigger] cycles[c])@.contains(t) && cycles[c]@.contains(u);
            }
        }
    }
    assert forall|u: u64, w: u64|
        #[trigger] has_edge(edges, u, w) && visited.contains(u) && !path.contains(u) implies visited.contains(w) by {
        if u == t {
        } else {
            assert(!np.contains(u));
        }
    }
}

/// The first `i` successors of `t` are visited, and each of them on the
/// path `path0` shares a recorded cycle with `t`.
#[verifier::opaque]
spec fn deps_settled(
    visited: Seq<u64>,
    path0: Seq<u64>,
    cycles: Seq<Vec<u64>>,
    t: u64,
    deps: Seq<(u64, String)>,
    i: int,
) -> bool {
    forall|d: int|
        0 <= d < i ==> visited.contains((#[trigger] deps[d]).0) && (path0.contains(deps[d].0) ==> covered(
            cycles,
            t,
            deps[d].0,
        ))
}

proof fn lemma_deps_step(
    v1: Seq<u64>,
    v2: Seq<u64>,
    path0: Seq<u64>,
    c1: Seq<Vec<u64>>,
    c2: Seq<Vec<u64>>,
    t: u64,
    deps: Seq<(u64, String)>,
    i: int,
)
    requires
        deps_settled(v1, path0, c1, t, deps, i),
        0 <= i < deps.len(),
        within(v1, v2),
        c1.len() <= c2.len(),
        c2.subrange(0, c1.len() as int) == c1,
        v2.contains(deps[i].0),
        path0.contains(deps[i].0) ==> covered(c2, t, deps[i].0),
    ensures
        deps_settled(v2, path0, c2, t, deps, i + 1),
{
    reveal(deps_settled);
    lemma_covered_grow(c1, c2);
    assert forall|d: int| 0 <= d < i + 1 implies v2.contains((#[trigger] deps[d]).0) && (path0.contains(
        deps[d].0,
    ) ==> covered(c2, t, deps[d].0)) by {
        if d < i {
            let j = choose|j: int| 0 <= j < v1.len() && v1[j] == deps[d].0;
            assert(v2.contains(v1[j]));
        }
    }
}

proof fn lemma_deps_done(
    edges: Seq<Edge>,
    visited: Seq<u64>,
    path0: Seq<u64>,
    cycles: Seq<Vec<u64>>,
    t: u64,
    deps: Seq<(u64, String)>,
)
    requires
        deps_settled(visited, path0, cycles, t, deps, deps.len() as int),
        forall|b: u64| #[trigger] has_edge(edges, t, b) ==> exists|d: int|
            0 <= d < deps.len() && (#[trigger] deps[d]).0 == b,
    ensures
        forall|w: u64| #[trigger] has_edge(edges, t, w) ==> visited.contains(w) && (path0.contains(w) ==> covered(cycles, t, w)),
{
    reveal(deps_settled);
    assert forall|w: u64| #[trigger] has_edge(edges, t, w) implies visited.contains(w) && (path0.contains(w) ==> covered(cycles, t, w)) by {
        let d = choose|d: int| 0 <= d < deps.len() && (#[trigger] deps[d]).0 == w;
    }
}

/// The part of `path` from `cycle_start` on, closed by an edge from its last
/// transaction back to its first.
fn cycle_from_path(path: &Vec<u64>, cycle_start: usize, Ghost(locks): Ghost<Seq<(String, u64)>>) -> (cycle: Vec<u64>)
    requires
        cycle_start < path@.len(),
        path@.no_duplicates(),
        sharing_chain(locks, path@),
        share_resource(locks, path@.last(), path@[cycle_start as int]),
    ensures
        sharing_cycle(locks, cycle@),
        cycle@ == path@.subrange(cycle_start as int, path@.len() as int),
{
    let mut cycle: Vec<u64> = Vec::new();
    let mut j: usize = cycle_start;
    while j < path.len()
        invariant
            cycle_start <= j <= path@.len(),
            cycle@ == path@.subrange(cycle_start as int, j as int),
        decreases path@.len() - j,
    {
        cycle.push(path[j]);
        j += 1;
    }
    proof {
        let cy = cycle@;
        assert(cy.no_duplicates()) by {
            assert forall|a: int, b: int| 0 <= a < cy.len() && 0 <= b < cy.len() && a != b implies cy[a] != cy[b] by {
                assert(cy[a] == path@[cycle_start + a]);
                assert(cy[b] == path@[cycle_start + b]);
            }
        }
        assert(cy[0] == path@[cycle_start as int]);
        assert(cy.last() == path@.last());
        lemma_share_symmetric(locks, path@.last(), path@[cycle_start as int]);
        assert(cy.len() >= 2);
        assert forall|m: int| 0 <= m < cy.len() - 1 implies share_resource(locks, #[trigger] cy[m], cy[m + 1]) by {
            assert(cy[m] == path@[cycle_start + m]);
            assert(cy[m + 1] == path@[cycle_start + m + 1]);
        }
    }
    cycle
}

#[verifier::rlimit(100)]
#[verifier::spinoff_prover]
/// Depth-first search from `transaction` that records, each time an edge
/// leads back onto the current path, the part of the path from that
/// transaction on as a cycle.
fn find_cycles_from_node(
    graph: &DependencyGraph,
    transaction: u64,
    visited: &mut Vec<u64>,
    path: &mut Vec<u64>,
    cycles: &mut Vec<Vec<u64>>,
    Ghost(nodes): Ghost<Seq<u64>>,
    Ghost(locks): Ghost<Seq<(String, u64)>>,
)
    requires
        sharing_sound_from(graph.dependencies@, locks, 0),
        endpoints_within(graph.dependencies@, nodes),
        nodes.contains(transaction),
        !old(visited)@.contains(transaction),
        old(visited)@.no_duplicates(),
        within(old(visited)@, nodes),
        sharing_complete(graph.dependencies@, locks),
        within(old(path)@, old(visited)@),
        old(path)@.no_duplicates(),
        sharing_chain(locks, old(path)@),
        old(path)@.len() > 0 ==> share_resource(locks, old(path)@.last(), transaction),
        forall|c: int| 0 <= c < old(cycles)@.len() ==> sharing_cycle(locks, (#[trigger] old(cycles)@[c])@),
        pairs_covered(locks, old(visited)@, old(path)@, old(cycles)@),
        finished_closed(graph.dependencies@, old(visited)@, old(path)@),
    ensures
        final(cycles)@.subrange(0, old(cycles)@.len() as int) == old(cycles)@,
        pairs_covered(locks, final(visited)@, old(path)@, final(cycles)@),
        finished_closed(graph.dependencies@, final(visited)@, old(path)@),
        final(visited)@.no_duplicates(),
        within(final(visited)@, nodes),
        within(old(visited)@, final(visited)@),
        final(visited)@.contains(transaction),
        final(path)@ == old(path)@,
        forall|c: int| 0 <= c < final(cycles)@.len() ==> sharing_cycle(locks, (#[trigger] final(cycles)@[c])@),
        final(cycles)@.len() >= old(cycles)@.len(),
        (exists|y: u64| #[trigger] has_edge(graph.dependencies@, transaction, y) && !old(visited)@.contains(y))
            ==> final(cycles)@.len() > old(cycles)@.len(),
        forall|z: u64, y: u64|
            final(visited)@.contains(z) && !old(visited)@.contains(z) && old(path)@.contains(y)
                && #[trigger] has_edge(graph.dependencies@, z, y) ==> final(cycles)@.len() > old(cycles)@.len(),
    decreases nodes.len() - old(visited)@.len(),
{
    let ghost edges = graph.dependencies@;
    let ghost visited0 = visited@;
    let ghost path0 = path@;
    let ghost c0 = cycles@.len();
    let ghost cy0 = cycles@;
    proof {
        lemma_search_enter(graph.dependencies@, locks, visited0, path0, cy0, transaction);
    }
    proof {
        lemma_push_keeps(visited0, transaction);
        assert(within(visited0.push(transaction), nodes));
        lemma_distinct_within(visited0.push(transaction), nodes);
    }
    visited.push(transaction);
    path.push(transaction);
    proof {
        lemma_push_keeps(path0, transaction);
        lemma_push_keeps(visited0, transaction);
        if path0.contains(transaction) {
            let j = choose|j: int| 0 <= j < path0.len() && path0[j] == transaction;
            assert(visited0.contains(path0[j]));
        }
        assert(path@.no_duplicates()) by {
            assert forall|a: int, b: int| 0 <= a < path@.len() && 0 <= b < path@.len() && a != b implies path@[a] != path@[b] by {
                if a < path0.len() && b < path0.len() {
                } else if a < path0.len() {
                    assert(path0.contains(path@[a]));
                } else if b < path0.len() {
                    assert(path0.contains(path@[b]));
                }
            }
        }
    }
    proof {
        assert(sharing_chain(locks, path@)) by {
            assert forall|i: int| 0 <= i < path@.len() - 1 implies share_resource(locks, #[trigger] path@[i], path@[i + 1]) by {
                if i < path0.len() - 1 {
                    assert(path@[i] == path0[i] && path@[i + 1] == path0[i + 1]);
                } else {
                    assert(path@[i] == path0.last());
                }
            }
        }
    }
    let dependencies = graph.get_dependencies(transaction);
    proof {
        reveal(deps_settled);
        assert(cycles@.subrange(0, c0 as int) =~= cy0);
    }
    let mut i: usize = 0;
    while i < dependencies.len()
        invariant
            edges == graph.dependencies@,
            visited0 == old(visited)@,
            path0 == old(path)@,
            sharing_sound_from(edges, locks, 0),
            endpoints_within(edges, nodes),
            visited@.no_duplicates(),
            visited0.no_duplicates(),
            within(visited@, nodes),
            within(visited0, visited@),
            visited0.len() < visited@.len(),
            path@ == path0.push(transaction),
            path@.no_duplicates(),
            sharing_chain(locks, path@),
            i <= dependencies@.len(),
            forall|d: int| 0 <= d < dependencies@.len() ==> has_edge(edges, transaction, (#[trigger] dependencies@[d]).0),
            forall|b: u64| #[trigger] has_edge(edges, transaction, b) ==> exists|d: int|
                0 <= d < dependencies@.len() && (#[trigger] dependencies@[d]).0 == b,
            forall|c: int| 0 <= c < cycles@.len() ==> sharing_cycle(locks, (#[trigger] cycles@[c])@),
            sharing_complete(edges, locks),
            within(path0, visited0),
            visited@.contains(transaction),
            path@.contains(transaction),
            forall|y: u64| path0.contains(y) ==> path@.contains(y),
            c0 == old(cycles)@.len(),
            cy0 == old(cycles)@,
            cycles@.len() >= c0,
            cycles@.subrange(0, c0 as int) == cy0,
            pairs_covered(locks, visited@, path@, cycles@),
            finished_closed(edges, visited@, path@),
            deps_settled(visited@, path0, cycles@, transaction, dependencies@, i as int),
            forall|d: int| 0 <= d < i && path@.contains((#[trigger] dependencies@[d]).0) ==> cycles@.len() > c0,
            forall|d: int| 0 <= d < i && !visited0.contains((#[trigger] dependencies@[d]).0) ==> cycles@.len() > c0,
            forall|z: u64, y: u64|
                visited@.contains(z) && !visited0.contains(z) && z != transaction && path@.contains(y)
                    && #[trigger] has_edge(edges, z, y) ==> cycles@.len() > c0,
        decreases dependencies@.len() - i,
    {
        let dependent_tx = dependencies[i].0;
        proof {
            assert(has_edge(edges, transaction, dependent_tx));
            let k = choose|k: int| #[trigger] edge_at(edges, k, transaction, dependent_tx);
            assert(nodes.contains(edges[k].1));
            assert(share_resource(locks, edges[k].0, edges[k].1));
            lemma_share_symmetric(locks, transaction, dependent_tx);
            assert(has_edge(edges, dependent_tx, transaction));
            assert(path@.contains(transaction));
        }
        let ghost visited_before = visited@;
        let ghost len_before = cycles@.len();
        let ghost cycles_before = cycles@;
        match position_of(path, dependent_tx) {
            Some(cycle_start) => {
                proof {
                    assert(path@.last() == transaction);
                }
                let cycle = cycle_from_path(path, cycle_start, Ghost(locks));
                let ghost new_cycle = cycle@;
                cycles.push(cycle);
                proof {
                    assert(cycles@.subrange(0, cycles_before.len() as int) =~= cycles_before);
                    assert(cycles@.subrange(0, c0 as int) =~= cy0) by {
                        assert(cycles_before.subrange(0, c0 as int) == cy0);
                    }
                    lemma_pairs_covered_grow(locks, visited@, path@, cycles_before, cycles@);
                    assert(new_cycle[0] == dependent_tx);
                    assert(new_cycle[new_cycle.len() - 1] == transaction);
                    assert(new_cycle.contains(dependent_tx));
                    assert(new_cycle.contains(transaction));
                    assert(cycles@[cycles_before.len() as int]@ == new_cycle);
                    assert(covered(cycles@, transaction, dependent_tx));
                    assert(within(visited@, visited@)) by {
                        assert forall|j: int| 0 <= j < visited@.len() implies visited@.contains(#[trigger] visited@[j]) by {}
                    }
                    let j = choose|j: int| 0 <= j < path@.len() && path@[j] == dependent_tx;
                    if j < path0.len() {
                        assert(path@[j] == path0[j]);
                        assert(visited0.contains(path0[j]));
                        let m = choose|m: int| 0 <= m < visited0.len() && visited0[m] == path0[j];
                        assert(visited@.contains(visited0[m]));
                    }
                    lemma_deps_step(visited@, visited@, path0, cycles_before, cycles@, transaction, dependencies@, i as int);
                }
            },
            None => {
                if !contains_id(visited, dependent_tx) {
                    let ghost visited1 = visited@;
                    proof {
                        lemma_distinct_within(visited@, nodes);
                        assert(within(path@, visited@)) by {
                            assert forall|j: int| 0 <= j < path@.len() implies visited@.contains(#[trigger] path@[j]) by {
                                if j < path0.len() {
                                    assert(path@[j] == path0[j]);
                                    assert(visited0.contains(path0[j]));
                                    let m = choose|m: int| 0 <= m < visited0.len() && visited0[m] == path0[j];
                                    assert(visited@.contains(visited0[m]));
                                }
                            }
                        }
                        if path0.len() > 0 {
                            assert(path@.last() == transaction);
                        }
                        assert(path@.len() > 0 ==> share_resource(locks, path@.last(), dependent_tx));
                    }
                    find_cycles_from_node(graph, dependent_tx, visited, path, cycles, Ghost(nodes), Ghost(locks));
                    proof {
                        assert forall|x: u64| visited0.contains(x) implies visited@.contains(x) by {
                            let j = choose|j: int| 0 <= j < visited0.len() && visited0[j] == x;
                            assert(visited1.contains(visited0[j]));
                            let j1 = choose|j1: int| 0 <= j1 < visited1.len() && visited1[j1] == x;
                            assert(visited@.contains(visited1[j1]));
                        }
                        lemma_distinct_within(visited1, visited@);
                        assert(visited@.contains(transaction)) by {
                            let j1 = choose|j1: int| 0 <= j1 < visited1.len() && visited1[j1] == transaction;
                            assert(visited@.contains(visited1[j1]));
                        }
                        assert forall|z: u64, y: u64|
                            visited@.contains(z) && !visited0.contains(z) && z != transaction && path@.contains(y)
                                && #[trigger] has_edge(edges, z, y) implies cycles@.len() > c0 by {
                            if visited1.contains(z) {
                            } else {
                            }
                        }
                        if !visited0.contains(dependent_tx) {
                            assert(!visited1.contains(dependent_tx));
                            assert(has_edge(edges, dependent_tx, transaction));
                        }
                        assert(cycles@.subrange(0, c0 as int) =~= cy0) by {
                            assert(cycles@.subrange(0, cycles_before.len() as int) == cycles_before);
                            assert(cycles_before.subrange(0, c0 as int) == cy0);
                        }
                        if path0.contains(dependent_tx) {
                            let j = choose|j: int| 0 <= j < path0.len() && path0[j] == dependent_tx;
                            assert(visited0.contains(path0[j]));
                            let m = choose|m: int| 0 <= m < visited0.len() && visited0[m] == path0[j];
                            assert(visited1.contains(visited0[m]));
                        }
                        lemma_deps_step(visited1, visited@, path0, cycles_before, cycles@, transaction, dependencies@, i as int);
                    }
                } else {
                    proof {
                        if !visited0.contains(dependent_tx) {
                            assert(has_edge(edges, dependent_tx, transaction));
                            assert(dependent_tx != transaction);
                        }
                        assert(within(visited@, visited@)) by {
                            assert forall|j: int| 0 <= j < visited@.len() implies visited@.contains(#[trigger] visited@[j]) by {}
                        }
                        assert(cycles@.subrange(0, cycles@.len() as int) =~= cycles@);
                        assert(!path0.contains(dependent_tx));
                        lemma_deps_step(visited@, visited@, path0, cycles@, cycles@, transaction, dependencies@, i as int);
                    }
                }
            },
        }
        i += 1;
    }
    path.pop();
    proof {
        assert(path@ =~= path0);
        lemma_deps_done(edges, visited@, path0, cycles@, transaction, dependencies@);
        lemma_search_leave(edges, locks, visited@, path0, cycles@, transaction);
        assert forall|z: u64, y: u64|
            visited@.contains(z) && !visited0.contains(z) && path0.contains(y)
                && #[trigger] has_edge(edges, z, y) implies cycles@.len() > c0 by {
            lemma_push_keeps(path0, transaction);
            assert(path0.push(transaction).contains(y));
            if z == transaction {
                let d = choose|d: int| 0 <= d < dependencies@.len() && (#[trigger] dependencies@[d]).0 == y;
                assert(path0.push(transaction).contains(dependencies@[d].0));
            }
        }
        if exists|y: u64| #[trigger] has_edge(edges, transaction, y) && !visited0.contains(y) {
            let y = choose|y: u64| #[trigger] has_edge(edges, transaction, y) && !visited0.contains(y);
            let d = choose|d: int| 0 <= d < dependencies@.len() && (#[trigger] dependencies@[d]).0 == y;
            assert(!visited0.contains(dependencies@[d].0));
        }
    }
}

/// Every cycle met by depth-first searches started from each transaction not
/// yet visited.
fn find_cycles(graph: &DependencyGraph, Ghost(locks): Ghost<Seq<(String, u64)>>) -> (cycles: Vec<Vec<u64>>)
    requires
        sharing_sound_from(graph.dependencies@, locks, 0),
        sharing_complete(graph.dependencies@, locks),
    ensures
        forall|c: int| 0 <= c < cycles@.len() ==> sharing_cycle(locks, (#[trigger] cycles@[c])@),
        graph.dependencies@.len() == 0 ==> cycles@.len() == 0,
        has_shared_resource(locks) ==> cycles@.len() > 0,
        forall|u: u64, w: u64| #[trigger] share_resource(locks, u, w) ==> covered(cycles@, u, w),
{
    let mut cycles: Vec<Vec<u64>> = Vec::new();
    let mut visited: Vec<u64> = Vec::new();
    let mut path: Vec<u64> = Vec::new();
    let transactions = graph.get_all_transactions();
    let ghost nodes = transactions@;
    proof {
        if has_shared_resource(locks) {
            let (p, q) = choose|p: int, q: int| #[trigger] lock_shared(locks, p, q);
            assert(share_resource(locks, locks[p].1, locks[q].1));
            assert(has_edge(graph.dependencies@, locks[p].1, locks[q].1));
            let k = choose|k: int| #[trigger] edge_at(graph.dependencies@, k, locks[p].1, locks[q].1);
            assert(nodes.contains(graph.dependencies@[k].0));
        }
        if graph.dependencies@.len() == 0 && nodes.len() > 0 {
            assert(is_endpoint(graph.dependencies@, nodes[0]));
            if has_out(graph.dependencies@, nodes[0]) {
                let y = choose|y: u64| #[trigger] has_edge(graph.dependencies@, nodes[0], y);
                let k = choose|k: int| #[trigger] edge_at(graph.dependencies@, k, nodes[0], y);
            } else {
                let y = choose|y: u64| #[trigger] has_edge(graph.dependencies@, y, nodes[0]);
                let k = choose|k: int| #[trigger] edge_at(graph.dependencies@, k, y, nodes[0]);
            }
        }
    }
    proof {
        reveal(pairs_covered);
        reveal(finished_closed);
    }
    let mut i: usize = 0;
    while i < transactions.len()
        invariant
            nodes == transactions@,
            sharing_sound_from(graph.dependencies@, locks, 0),
            endpoints_within(graph.dependencies@, nodes),
            path@ == Seq::<u64>::empty(),
            visited@.no_duplicates(),
            within(visited@, nodes),
            i <= nodes.len(),
            forall|c: int| 0 <= c < cycles@.len() ==> sharing_cycle(locks, (#[trigger] cycles@[c])@),
            graph.dependencies@.len() == 0 ==> nodes.len() == 0,
            graph.dependencies@.len() == 0 ==> cycles@.len() == 0,
            sharing_complete(graph.dependencies@, locks),
            forall|j: int| 0 <= j < nodes.len() ==> is_endpoint(graph.dependencies@, #[trigger] nodes[j]),
            i == 0 ==> visited@.len() == 0 && cycles@.len() == 0,
            has_shared_resource(locks) ==> nodes.len() > 0,
            has_shared_resource(locks) && i > 0 ==> cycles@.len() > 0,
            pairs_covered(locks, visited@, path@, cycles@),
            finished_closed(graph.dependencies@, visited@, path@),
            forall|k: int| 0 <= k < i ==> visited@.contains(#[trigger] nodes[k]),
        decreases nodes.len() - i,
    {
        let transaction = transactions[i];
        let ghost len_before = cycles@.len();
        let ghost visited1 = visited@;
        if !contains_id(&visited, transaction) {
            proof {
                assert(nodes.contains(nodes[i as int]));
                if i == 0 {
                    let x = nodes[0];
                    assert(is_endpoint(graph.dependencies@, x));
                    if has_in(graph.dependencies@, x) {
                        let y = choose|y: u64| #[trigger] has_edge(graph.dependencies@, y, x);
                        let k = choose|k: int| #[trigger] edge_at(graph.dependencies@, k, y, x);
                        assert(share_resource(locks, graph.dependencies@[k].0, graph.dependencies@[k].1));
                        lemma_share_symmetric(locks, y, x);
                        assert(has_edge(graph.dependencies@, x, y));
                    }
                    let y = choose|y: u64| #[trigger] has_edge(graph.dependencies@, x, y);
                    assert(!visited@.contains(y));
                }
            }
            find_cycles_from_node(graph, transaction, &mut visited, &mut path, &mut cycles, Ghost(nodes), Ghost(locks));
            proof {
                assert forall|k: int| 0 <= k < i + 1 implies visited@.contains(#[trigger] nodes[k]) by {
                    if k < i {
                        let j = choose|j: int| 0 <= j < visited1.len() && visited1[j] == nodes[k];
                        assert(visited@.contains(visited1[j]));
                    }
                }
            }
        }
        i += 1;
    }
    proof {
        reveal(pairs_covered);
        assert forall|u: u64, w: u64| #[trigger] share_resource(locks, u, w) implies covered(cycles@, u, w) by {
            assert(has_edge(graph.dependencies@, u, w));
            let k = choose|k: int| #[trigger] edge_at(graph.dependencies@, k, u, w);
            assert(nodes.contains(graph.dependencies@[k].0) && nodes.contains(graph.dependencies@[k].1));
            let a = choose|a: int| 0 <= a < nodes.len() && nodes[a] == u;
            let b = choose|b: int| 0 <= b < nodes.len() && nodes[b] == w;
            assert(visited@.contains(nodes[a]) && visited@.contains(nodes[b]));
            assert(!path@.contains(u));
        }
    }
    cycles
}

/// Lock entry `q` is the resource `s`, held by a member of `cycle`.
pub open spec fn held_in_cycle(locks: Seq<(String, u64)>, cycle: Seq<u64>, q: int, s: Seq<char>) -> bool {
    0 <= q < locks.len() && cycle.contains(locks[q].1) && locks[q].0@ == s
}

pub open spec fn cycle_holds(locks: Seq<(String, u64)>, cycle: Seq<u64>, s: Seq<char>) -> bool {
    exists|q: int| #[trigger] held_in_cycle(locks, cycle, q, s)
}

pub open spec fn listed(resources: Seq<String>, s: Seq<char>) -> bool {
    exists|i: int| 0 <= i < resources.len() && (#[trigger] resources[i])@ == s
}

/// Some lock entry before index `q` is the resource `s` held by a member of
/// `cycle`.
pub open spec fn held_in_cycle_before(locks: Seq<(String, u64)>, cycle: Seq<u64>, s: Seq<char>, q: int) -> bool {
    exists|p: int| p < q && #[trigger] held_in_cycle(locks, cycle, p, s)
}

/// `resources` lists, once each, every resource that a member of `cycle`
/// holds in the lock table, and nothing else, in order of first appearance
/// in the lock table.
pub open spec fn resources_of_cycle(locks: Seq<(String, u64)>, cycle: Seq<u64>, resources: Seq<String>) -> bool {
    &&& forall|i: int| 0 <= i < resources.len() ==> cycle_holds(locks, cycle, (#[trigger] resources[i])@)
    &&& forall|p: int|
        0 <= p < locks.len() && cycle.contains(#[trigger] locks[p].1) ==> listed(resources, locks[p].0@)
    &&& forall|i: int, j: int|
        0 <= i < resources.len() && 0 <= j < resources.len() && i != j ==> (#[trigger] resources[i])@
            != (#[trigger] resources[j])@
    &&& forall|i: int, j: int, q: int|
        #![trigger resources[i], held_in_cycle(locks, cycle, q, resources[j]@)]
        0 <= i < j < resources.len() && held_in_cycle(locks, cycle, q, resources[j]@)
            ==> held_in_cycle_before(locks, cycle, resources[i]@, q)
}

/// A deadlock report for a cycle of the lock table: the victim is the
/// cycle's smallest transaction id.
pub open spec fn deadlock_report(d: DeadlockInfo, locks: Seq<(String, u64)>, now: u64) -> bool {
    &&& sharing_cycle(locks, d.conflicting_transactions@)
    &&& d.conflicting_transactions@.contains(d.transaction_id)
    &&& forall|i: int|
        0 <= i < d.conflicting_transactions@.len() ==> d.transaction_id <= #[trigger] d.conflicting_transactions@[i]
    &&& resources_of_cycle(locks, d.conflicting_transactions@, d.conflicting_resources@)
    &&& d.detected_at == now
}

pub open spec fn needs_granular_locking(ops: Seq<TransactionOperation>) -> bool {
    exists|i: int| 0 <= i < ops.len() && (#[trigger] ops[i]).locked_resources@.len() > 3
}

/// The advice given for an operation list.
pub open spec fn prevention_suggestions(ops: Seq<TransactionOperation>) -> Seq<Seq<char>> {
    let base = seq![
        "Consider acquiring resources in a consistent order across all transactions"@,
        "Configure appropriate timeouts to prevent indefinite waiting"@,
    ];
    let batched = if ops.len() > 5 {
        base.push("Consider breaking down large transactions into smaller batches"@)
    } else {
        base
    };
    if needs_granular_locking(ops) {
        batched.push("Consider using more granular resource locking"@)
    } else {
        batched
    }
}

fn contains_resource(v: &Vec<String>, s: &String) -> (r: bool)
    ensures
        r == exists|i: int| 0 <= i < v@.len() && (#[trigger] v@[i])@ == s@,
{
    let mut i: usize = 0;
    while i < v.len()
        invariant
            i <= v@.len(),
            forall|k: int| 0 <= k < i ==> (#[trigger] v@[k])@ != s@,
        decreases v@.len() - i,
    {
        if v[i].eq(s) {
            return true;
        }
        i += 1;
    }
    false
}

fn copy_ids(v: &Vec<u64>) -> (r: Vec<u64>)
    ensures
        r@ == v@,
{
    let mut r: Vec<u64> = Vec::new();
    let mut i: usize = 0;
    while i < v.len()
        invariant
            i <= v@.len(),
            r@ == v@.subrange(0, i as int),
        decreases v@.len() - i,
    {
        r.push(v[i]);
        i += 1;
    }
    assert(r@ =~= v@);
    r
}

/// The candidate `tx` has an edge to every other transaction holding the
/// resource `resource`.
pub open spec fn waits_recorded(edges: Seq<Edge>, locks: Seq<(String, u64)>, tx: u64, resource: Seq<char>) -> bool {
    forall|p: int|
        0 <= p < locks.len() && locks[p].0@ == resource && locks[p].1 != tx ==> has_edge(
            edges,
            tx,
            #[trigger] locks[p].1,
        )
}

proof fn lemma_waits_grow(old_edges: Seq<Edge>, new_edges: Seq<Edge>, locks: Seq<(String, u64)>, tx: u64)
    requires
        old_edges.len() <= new_edges.len(),
        new_edges.subrange(0, old_edges.len() as int) == old_edges,
    ensures
        forall|resource: Seq<char>|
            waits_recorded(old_edges, locks, tx, resource) ==> #[trigger] waits_recorded(new_edges, locks, tx, resource),
{
    lemma_edges_grow(old_edges, new_edges);
}

proof fn lemma_empty_table_shares_nothing(locks: Seq<(String, u64)>)
    requires
        locks.len() == 0,
    ensures
        forall|a: u64, b: u64| !#[trigger] share_resource(locks, a, b),
{
    assert forall|a: u64, b: u64| !#[trigger] share_resource(locks, a, b) by {
        if share_resource(locks, a, b) {
            let (p, q) = choose|p: int, q: int| #[trigger] lock_shared(locks, p, q) && locks[p].1 == a && locks[q].1 == b;
        }
    }
}

/// Reports made one per recorded cycle name every sharing pair that the
/// cycles cover.
proof fn lemma_reports_cover(locks: Seq<(String, u64)>, cycles: Seq<Vec<u64>>, reports: Seq<DeadlockInfo>)
    requires
        reports.len() == cycles.len(),
        forall|k: int| 0 <= k < reports.len() ==> (#[trigger] reports[k]).conflicting_transactions@ == cycles[k]@,
        forall|u: u64, w: u64| #[trigger] share_resource(locks, u, w) ==> covered(cycles, u, w),
    ensures
        forall|a: u64, b: u64|
            #[trigger] share_resource(locks, a, b) ==> exists|i: int|
                0 <= i < reports.len() && (#[trigger] reports[i]).conflicting_transactions@.contains(a)
                    && reports[i].conflicting_transactions@.contains(b),
{
    assert forall|a: u64, b: u64| #[trigger] share_resource(locks, a, b) implies exists|i: int|
        0 <= i < reports.len() && (#[trigger] reports[i]).conflicting_transactions@.contains(a)
            && reports[i].conflicting_transactions@.contains(b) by {
        let k = choose|k: int| 0 <= k < cycles.len() && (#[trigger] cycles[k])@.contains(a) && cycles[k]@.contains(b);
        assert(reports[k].conflicting_transactions@ == cycles[k]@);
    }
}

/// Detects and resolves deadlocks among transactions, from the resource lock
/// table as it stands.
pub struct DeadlockDetector {
    /// The lock table: each entry is a resource and a transaction holding it.
    pub current_locks: Vec<(String, u64)>,
    /// The current ledger time, stamped on each deadlock found.
    pub now: u64,
}

impl DeadlockDetector {
    pub fn new(current_locks: Vec<(String, u64)>, now: u64) -> (r: Self)
        ensures
            r.current_locks@ == current_locks@,
            r.now == now,
    {
        DeadlockDetector { current_locks, now }
    }

    /// Whether admitting `transaction_id` with `operations` could deadlock:
    /// true iff its dependency graph (its waits on current holders plus the
    /// two-way links between co-holders) has a cycle. Because co-holders are
    /// linked both ways and the candidate's own edges only lead out of it,
    /// that happens exactly when two different transactions already hold a
    /// common resource.
    pub fn would_cause_deadlock(&self, transaction_id: &u64, operations: &Vec<TransactionOperation>) -> (r: bool)
        ensures
            r == has_shared_resource(self.current_locks@),
    {
        let graph = self.build_dependency_graph(transaction_id, operations);
        has_cycles(&graph, Ghost(self.current_locks@), Ghost(*transaction_id))
    }

    /// The dependency graph for a candidate transaction: an edge to every
    /// other holder of each resource it wants, then the links among current
    /// holders.
    fn build_dependency_graph(&self, transaction_id: &u64, operations: &Vec<TransactionOperation>) -> (graph: DependencyGraph)
        ensures
            search_graph(graph.dependencies@, self.current_locks@, *transaction_id),
            forall|o: int, r: int|
                0 <= o < operations@.len() && 0 <= r < operations@[o].locked_resources@.len()
                    ==> #[trigger] waits_recorded(
                    graph.dependencies@,
                    self.current_locks@,
                    *transaction_id,
                    operations@[o].locked_resources@[r]@,
                ),
    {
        let tx = *transaction_id;
        let ghost locks = self.current_locks@;
        let ghost ops = operations@;
        let mut graph = DependencyGraph::new();
        let mut o: usize = 0;
        while o < operations.len()
            invariant
                locks == self.current_locks@,
                ops == operations@,
                o <= ops.len(),
                forall|k: int| 0 <= k < graph.dependencies@.len() ==> (#[trigger] graph.dependencies@[k]).0 == tx && graph.dependencies@[k].1 != tx,
                forall|o2: int, r2: int|
                    0 <= o2 < o && 0 <= r2 < ops[o2].locked_resources@.len() ==> #[trigger] waits_recorded(
                        graph.dependencies@,
                        locks,
                        tx,
                        ops[o2].locked_resources@[r2]@,
                    ),
            decreases ops.len() - o,
        {
            let resources = &operations[o].locked_resources;
            let mut r: usize = 0;
            while r < resources.len()
                invariant
                    locks == self.current_locks@,
                    ops == operations@,
                    o < ops.len(),
                    resources@ == ops[o as int].locked_resources@,
                    r <= resources@.len(),
                    forall|k: int| 0 <= k < graph.dependencies@.len() ==> (#[trigger] graph.dependencies@[k]).0 == tx && graph.dependencies@[k].1 != tx,
                    forall|o2: int, r2: int|
                        0 <= o2 < o && 0 <= r2 < ops[o2].locked_resources@.len() ==> #[trigger] waits_recorded(
                            graph.dependencies@,
                            locks,
                            tx,
                            ops[o2].locked_resources@[r2]@,
                        ),
                    forall|r2: int| 0 <= r2 < r ==> #[trigger] waits_recorded(graph.dependencies@, locks, tx, resources@[r2]@),
                decreases resources@.len() - r,
            {
                let ghost before = graph.dependencies@;
                self.add_waits(&mut graph, tx, &resources[r]);
                proof {
                    let e = graph.dependencies@;
                    lemma_waits_grow(before, e, locks, tx);
                    assert forall|o2: int, r2: int|
                        0 <= o2 < o && 0 <= r2 < ops[o2].locked_resources@.len() implies #[trigger] waits_recorded(
                            e,
                            locks,
                            tx,
                            ops[o2].locked_resources@[r2]@,
                        ) by {
                        assert(waits_recorded(before, locks, tx, ops[o2].locked_resources@[r2]@));
                    }
                    assert forall|r2: int| 0 <= r2 < r + 1 implies #[trigger] waits_recorded(e, locks, tx, resources@[r2]@) by {
                        if r2 < r {
                            assert(waits_recorded(before, locks, tx, resources@[r2]@));
                        }
                    }
                    assert forall|k: int| 0 <= k < e.len() implies (#[trigger] e[k]).0 == tx && e[k].1 != tx by {
                        if k < before.len() {
                            assert(e.subrange(0, before.len() as int)[k] == e[k]);
                        }
                    }
                }
                r += 1;
            }
            proof {
                assert forall|o2: int, r2: int|
                    0 <= o2 < o + 1 && 0 <= r2 < ops[o2].locked_resources@.len() implies #[trigger] waits_recorded(
                        graph.dependencies@,
                        locks,
                        tx,
                        ops[o2].locked_resources@[r2]@,
                    ) by {
                    if o2 == o {
                        assert(waits_recorded(graph.dependencies@, locks, tx, resources@[r2]@));
                    }
                }
            }
            o += 1;
        }
        let ghost before = graph.dependencies@;
        add_existing_dependencies(&mut graph, &self.current_locks);
        proof {
            let e = graph.dependencies@;
            lemma_waits_grow(before, e, locks, tx);
            assert forall|k: int| 0 <= k < e.len() implies share_resource(self.current_locks@, (#[trigger] e[k]).0, e[k].1) || (
                e[k].0 == tx && e[k].1 != tx) by {
                if k < before.len() {
                    assert(e.subrange(0, before.len() as int)[k] == e[k]);
                    assert(before[k].0 == tx && before[k].1 != tx);
                }
            }
            assert forall|o2: int, r2: int|
                0 <= o2 < ops.len() && 0 <= r2 < ops[o2].locked_resources@.len() implies #[trigger] waits_recorded(
                    e,
                    locks,
                    tx,
                    ops[o2].locked_resources@[r2]@,
                ) by {
                assert(waits_recorded(before, locks, tx, ops[o2].locked_resources@[r2]@));
            }
        }
        graph
    }

    /// Adds an edge from `tx` to every other holder of `resource`.
    fn add_waits(&self, graph: &mut DependencyGraph, tx: u64, resource: &String)
        ensures
            old(graph).dependencies@.len() <= final(graph).dependencies@.len(),
            final(graph).dependencies@.subrange(0, old(graph).dependencies@.len() as int)
                == old(graph).dependencies@,
            forall|k: int|
                old(graph).dependencies@.len() <= k < final(graph).dependencies@.len() ==> (
                #[trigger] final(graph).dependencies@[k]).0 == tx && final(graph).dependencies@[k].1 != tx,
            waits_recorded(final(graph).dependencies@, self.current_locks@, tx, resource@),
    {
        let ghost start = graph.dependencies@;
        let ghost locks = self.current_locks@;
        let mut p: usize = 0;
        assert(graph.dependencies@.subrange(0, start.len() as int) =~= start);
        while p < self.current_locks.len()
            invariant
                locks == self.current_locks@,
                p <= locks.len(),
                start.len() <= graph.dependencies@.len(),
                graph.dependencies@.subrange(0, start.len() as int) == start,
                forall|k: int|
                    start.len() <= k < graph.dependencies@.len() ==> (#[trigger] graph.dependencies@[k]).0 == tx
                        && graph.dependencies@[k].1 != tx,
                forall|q: int|
                    0 <= q < p && locks[q].0@ == resource@ && locks[q].1 != tx ==> has_edge(
                        graph.dependencies@,
                        tx,
                        #[trigger] locks[q].1,
                    ),
            decreases locks.len() - p,
        {
            let holder = self.current_locks[p].1;
            if self.current_locks[p].0.eq(resource) && holder != tx {
                let ghost before = graph.dependencies@;
                graph.add_dependency(tx, holder, resource.clone());
                proof {
                    let e = graph.dependencies@;
                    assert(e.subrange(0, before.len() as int) =~= before);
                    lemma_edges_grow(before, e);
                    assert(edge_at(e, before.len() as int, tx, holder));
                    assert(e.subrange(0, start.len() as int) =~= start) by {
                        assert(before.subrange(0, start.len() as int) == start);
                    }
                    assert forall|q: int|
                        0 <= q < p + 1 && locks[q].0@ == resource@ && locks[q].1 != tx implies has_edge(
                            e,
                            tx,
                            #[trigger] locks[q].1,
                        ) by {
                        if q < p {
                            assert(has_edge(before, tx, locks[q].1));
                        }
                    }
                }
            }
            p += 1;
        }
    }

    /// The links among current lock holders alone.
    fn build_current_dependency_graph(&self) -> (graph: DependencyGraph)
        ensures
            sharing_sound_from(graph.dependencies@, self.current_locks@, 0),
            sharing_complete(graph.dependencies@, self.current_locks@),
    {
        let mut graph = DependencyGraph::new();
        add_existing_dependencies(&mut graph, &self.current_locks);
        graph
    }

    /// Every resource that a member of `cycle` holds, once each, in order of
    /// first appearance in the lock table.
    fn get_conflicting_resources(&self, cycle: &Vec<u64>) -> (resources: Vec<String>)
        ensures
            resources_of_cycle(self.current_locks@, cycle@, resources@),
    {
        let ghost locks = self.current_locks@;
        let ghost mut firsts: Seq<int> = Seq::empty();
        let mut resources: Vec<String> = Vec::new();
        let mut p: usize = 0;
        while p < self.current_locks.len()
            invariant
                locks == self.current_locks@,
                p <= locks.len(),
                forall|i: int| 0 <= i < resources@.len() ==> cycle_holds(locks, cycle@, (#[trigger] resources@[i])@),
                forall|q: int|
                    0 <= q < p && cycle@.contains(#[trigger] locks[q].1) ==> listed(resources@, locks[q].0@),
                forall|i: int, j: int|
                    0 <= i < resources@.len() && 0 <= j < resources@.len() && i != j ==> (
                    #[trigger] resources@[i])@ != (#[trigger] resources@[j])@,
                firsts.len() == resources@.len(),
                forall|i: int|
                    0 <= i < firsts.len() ==> 0 <= #[trigger] firsts[i] < p && held_in_cycle(
                        locks,
                        cycle@,
                        firsts[i],
                        resources@[i]@,
                    ),
                forall|i: int, q: int|
                    0 <= i < firsts.len() && 0 <= q < firsts[i] ==> !#[trigger] held_in_cycle(
                        locks,
                        cycle@,
                        q,
                        resources@[i]@,
                    ),
                forall|i: int, j: int| 0 <= i < j < firsts.len() ==> #[trigger] firsts[i] < #[trigger] firsts[j],
            decreases locks.len() - p,
        {
            let holder = self.current_locks[p].1;
            let resource = &self.current_locks[p].0;
            let ghost before = resources@;
            let ghost firsts0 = firsts;
            if contains_id(cycle, holder) {
                if !contains_resource(&resources, resource) {
                    resources.push(resource.clone());
                    proof {
                        firsts = firsts.push(p as int);
                        assert(held_in_cycle(locks, cycle@, p as int, resource@));
                        assert forall|i: int| 0 <= i < resources@.len() implies cycle_holds(locks, cycle@, (#[trigger] resources@[i])@) by {
                            if i < before.len() {
                                assert(resources@[i] == before[i]);
                            }
                        }
                        assert forall|q: int|
                            0 <= q < p + 1 && cycle@.contains(#[trigger] locks[q].1) implies listed(resources@, locks[q].0@) by {
                            if q == p {
                                assert(resources@[before.len() as int]@ == locks[q].0@);
                            } else {
                                assert(listed(before, locks[q].0@));
                                let i = choose|i: int| 0 <= i < before.len() && (#[trigger] before[i])@ == locks[q].0@;
                                assert(resources@[i] == before[i]);
                            }
                        }
                        assert forall|i: int|
                            0 <= i < firsts.len() implies 0 <= #[trigger] firsts[i] < p + 1 && held_in_cycle(
                                locks,
                                cycle@,
                                firsts[i],
                                resources@[i]@,
                            ) by {
                            if i < before.len() {
                                assert(resources@[i] == before[i]);
                                assert(firsts[i] == firsts0[i]);
                            }
                        }
                        assert forall|i: int, q: int|
                            0 <= i < firsts.len() && 0 <= q < firsts[i] implies !#[trigger] held_in_cycle(
                                locks,
                                cycle@,
                                q,
                                resources@[i]@,
                            ) by {
                            if i < before.len() {
                                assert(resources@[i] == before[i]);
                                assert(firsts[i] == firsts0[i]);
                            } else if held_in_cycle(locks, cycle@, q, resources@[i]@) {
                                assert(listed(before, locks[q].0@));
                            }
                        }
                        assert forall|i: int, j: int| 0 <= i < j < firsts.len() implies #[trigger] firsts[i] < #[trigger] firsts[j] by {
                            if j < before.len() {
                                assert(firsts[i] == firsts0[i] && firsts[j] == firsts0[j]);
                            } else {
                                assert(firsts[i] == firsts0[i]);
                            }
                        }
                    }
                }
            }
            p += 1;
        }
        proof {
            assert forall|i: int, j: int, q: int|
                #![trigger resources@[i], held_in_cycle(locks, cycle@, q, resources@[j]@)]
                0 <= i < j < resources@.len() && held_in_cycle(locks, cycle@, q, resources@[j]@)
                    implies held_in_cycle_before(locks, cycle@, resources@[i]@, q) by {
                if q < firsts[j] {
                    assert(!held_in_cycle(locks, cycle@, q, resources@[j]@));
                }
                assert(firsts[i] < firsts[j]);
                assert(held_in_cycle(locks, cycle@, firsts[i], resources@[i]@));
            }
        }
        resources
    }

    /// Reports a deadlock cycle, choosing its smallest transaction id as the
    /// victim. Ending the victim is the caller's decision.
    fn resolve_deadlock(&self, cycle: &Vec<u64>) -> (r: Result<DeadlockInfo, TransactionError>)
        requires
            sharing_cycle(self.current_locks@, cycle@),
        ensures
            r is Ok,
            r is Ok ==> deadlock_report(r->Ok_0, self.current_locks@, self.now),
            r is Ok ==> r->Ok_0.conflicting_transactions@ == cycle@,
    {
        let mut victim = cycle[0];
        let mut i: usize = 1;
        while i < cycle.len()
            invariant
                1 <= i <= cycle@.len(),
                cycle@.contains(victim),
                forall|k: int| 0 <= k < i ==> victim <= #[trigger] cycle@[k],
            decreases cycle@.len() - i,
        {
            if cycle[i] < victim {
                victim = cycle[i];
            }
            i += 1;
        }
        let conflicting_transactions = copy_ids(cycle);
        let conflicting_resources = self.get_conflicting_resources(cycle);
        Ok(DeadlockInfo { transaction_id: victim, conflicting_transactions, conflicting_resources, detected_at: self.now })
    }

    /// Finds the deadlock cycles of the current lock table and reports each,
    /// its victim being the cycle's smallest transaction id. There is at least
    /// one exactly when some resource is held by two different transactions.
    #[verifier::spinoff_prover]
    pub fn detect_and_resolve_deadlocks(&self) -> (r: Result<Vec<DeadlockInfo>, TransactionError>)
        ensures
            r is Ok,
            r is Ok ==> forall|i: int|
                0 <= i < r->Ok_0@.len() ==> deadlock_report(#[trigger] r->Ok_0@[i], self.current_locks@, self.now),
            r is Ok ==> (r->Ok_0@.len() == 0 <==> !has_shared_resource(self.current_locks@)),
            r is Ok ==> forall|a: u64, b: u64|
                #[trigger] share_resource(self.current_locks@, a, b) ==> exists|i: int|
                    0 <= i < r->Ok_0@.len() && (#[trigger] r->Ok_0@[i]).conflicting_transactions@.contains(a)
                        && r->Ok_0@[i].conflicting_transactions@.contains(b),
    {
        if self.current_locks.is_empty() {
            proof {
                if has_shared_resource(self.current_locks@) {
                    let (p, q) = choose|p: int, q: int| #[trigger] lock_shared(self.current_locks@, p, q);
                }
            }
            proof {
                lemma_empty_table_shares_nothing(self.current_locks@);
            }
            return Ok(Vec::new());
        }
        let graph = self.build_current_dependency_graph();
        let cycles = find_cycles(&graph, Ghost(self.current_locks@));
        proof {
            if !has_shared_resource(self.current_locks@) && graph.dependencies@.len() > 0 {
                let e = graph.dependencies@[0];
                assert(share_resource(self.current_locks@, e.0, e.1));
                lemma_share_symmetric(self.current_locks@, e.0, e.1);
            }
        }
        let mut resolved_deadlocks: Vec<DeadlockInfo> = Vec::new();
        let mut c: usize = 0;
        while c < cycles.len()
            invariant
                c <= cycles@.len(),
                forall|k: int| 0 <= k < cycles@.len() ==> sharing_cycle(self.current_locks@, (#[trigger] cycles@[k])@),
                forall|k: int|
                    0 <= k < resolved_deadlocks@.len() ==> deadlock_report(#[trigger] resolved_deadlocks@[k], self.current_locks@, self.now),
                resolved_deadlocks@.len() == c,
                forall|k: int| 0 <= k < c ==> (#[trigger] resolved_deadlocks@[k]).conflicting_transactions@ == cycles@[k]@,
                forall|u: u64, w: u64| #[trigger] share_resource(self.current_locks@, u, w) ==> covered(cycles@, u, w),
            decreases cycles@.len() - c,
        {
            let deadlock_info = self.resolve_deadlock(&cycles[c])?;
            let ghost before = resolved_deadlocks@;
            resolved_deadlocks.push(deadlock_info);
            proof {
                assert forall|k: int| 0 <= k < c + 1 implies (#[trigger] resolved_deadlocks@[k]).conflicting_transactions@ == cycles@[k]@ by {
                    if k < c {
                        assert(resolved_deadlocks@[k] == before[k]);
                    }
                }
            }
            c += 1;
        }
        proof {
            lemma_reports_cover(self.current_locks@, cycles@, resolved_deadlocks@);
        }
        Ok(resolved_deadlocks)
    }

    /// Advisory, non-binding suggestions for an operation list: always a
    /// consistent resource order and timeouts; batching for more than five
    /// operations; finer locking when an operation locks more than three
    /// resources.
    pub fn get_deadlock_prevention_suggestions(&self, operations: &Vec<TransactionOperation>) -> (r: Vec<String>)
        ensures
            r@.len() == prevention_suggestions(operations@).len(),
            forall|i: int| 0 <= i < r@.len() ==> (#[trigger] r@[i])@ == prevention_suggestions(operations@)[i],
    {
        let mut suggestions: Vec<String> = Vec::new();
        suggestions.push(String::from_str("Consider acquiring resources in a consistent order across all transactions"));
        suggestions.push(String::from_str("Configure appropriate timeouts to prevent indefinite waiting"));
        if operations.len() > 5 {
            suggestions.push(String::from_str("Consider breaking down large transactions into smaller batches"));
        }
        let mut granular = false;
        let mut i: usize = 0;
        while i < operations.len()
            invariant
                i <= operations@.len(),
                granular == exists|k: int| 0 <= k < i && (#[trigger] operations@[k]).locked_resources@.len() > 3,
            decreases operations@.len() - i,
        {
            if operations[i].locked_resources.len() > 3 {
                granular = true;
            }
            i += 1;
        }
        if granular {
            suggestions.push(String::from_str("Consider using more granular resource locking"));
        }
        suggestions
    }
}
} // verus!
