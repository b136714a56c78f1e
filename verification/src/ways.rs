use vstd::prelude::*;
use crate::links::{child, links_in_range, links_forward, unshared};

verus! {

/// Whether every octant of `octs` is one of the eight.
pub open spec fn octants_valid(octs: Seq<int>) -> bool {
    forall|k: int| 0 <= k < octs.len() ==> 0 <= #[trigger] octs[k] < 8
}

/// Whether every link exists on the way from `start` along `octs`.
pub open spec fn linked(links: Seq<Seq<i32>>, start: int, octs: Seq<int>) -> bool
    decreases octs.len(),
{
    octs.len() == 0 || (child(links, start, octs[0]) != 0 && linked(
        links,
        child(links, start, octs[0]),
        octs.drop_first(),
    ))
}

/// The node at which the way from `start` along `octs` ends: at the end of
/// `octs`, or earlier at the first node whose link for the next octant is
/// absent.
pub open spec fn walk(links: Seq<Seq<i32>>, start: int, octs: Seq<int>) -> int
    decreases octs.len(),
{
    if octs.len() == 0 || child(links, start, octs[0]) == 0 {
        start
    } else {
        walk(links, child(links, start, octs[0]), octs.drop_first())
    }
}

/// The number of steps that the way from `start` along `octs` makes before
/// it ends.
pub open spec fn steps(links: Seq<Seq<i32>>, start: int, octs: Seq<int>) -> int
    decreases octs.len(),
{
    if octs.len() == 0 || child(links, start, octs[0]) == 0 {
        0
    } else {
        1 + steps(links, child(links, start, octs[0]), octs.drop_first())
    }
}

/// The highest octant below `bound` through which `n` is reached from
/// `from`, or -1 where it is reached through none of them.
pub open spec fn last_octant(links: Seq<Seq<i32>>, from: int, n: int, bound: int) -> int
    decreases links.len() - from, bound,
{
    if bound <= 0 {
        -1
    } else if from < child(links, from, bound - 1) < links.len() && reachable(
        links,
        child(links, from, bound - 1),
        n,
    ) {
        bound - 1
    } else {
        last_octant(links, from, n, bound - 1)
    }
}

/// Whether `n` is `from` or one of its descendants.
pub open spec fn reachable(links: Seq<Seq<i32>>, from: int, n: int) -> bool
    decreases links.len() - from, 9int,
{
    from == n || last_octant(links, from, n, 8) >= 0
}

/// The way from `from` to its descendant `n` that takes at every node the
/// highest octant through which `n` is reached. Where a node lies in the
/// subtrees of several octants, this is the way on which a walk in pre-order
/// comes to it last.
pub open spec fn last_path(links: Seq<Seq<i32>>, from: int, n: int) -> Seq<int>
    decreases links.len() - from,
{
    let slot = last_octant(links, from, n, 8);
    if from == n || slot < 0 || !(from < child(links, from, slot) < links.len()) {
        Seq::empty()
    } else {
        seq![slot] + last_path(links, child(links, from, slot), n)
    }
}

/// What it means for an octant to be the last through which `n` is reached.
pub proof fn lemma_last_octant(links: Seq<Seq<i32>>, from: int, n: int, bound: int)
    ensures
        -1 <= last_octant(links, from, n, bound) < bound || bound <= 0,
        last_octant(links, from, n, bound) >= 0 ==> {
            let slot = last_octant(links, from, n, bound);
            &&& from < child(links, from, slot) < links.len()
            &&& reachable(links, child(links, from, slot), n)
        },
        forall|slot: int|
            last_octant(links, from, n, bound) < slot < bound && from < #[trigger] child(
                links,
                from,
                slot,
            ) < links.len() ==> !reachable(links, child(links, from, slot), n),
    decreases bound,
{
    if bound > 0 {
        lemma_last_octant(links, from, n, bound - 1);
    }
}

/// A descendant lies behind its ancestor in the arena.
pub proof fn lemma_reachable_behind(links: Seq<Seq<i32>>, from: int, n: int)
    requires
        reachable(links, from, n),
    ensures
        from <= n,
        from < n ==> last_octant(links, from, n, 8) >= 0,
    decreases links.len() - from,
{
    if from != n {
        lemma_last_octant(links, from, n, 8);
        lemma_reachable_behind(links, child(links, from, last_octant(links, from, n, 8)), n);
    }
}

/// A way ends at the node to which its existing steps lead, and there the
/// link for the next octant is absent.
pub proof fn lemma_walk_steps(links: Seq<Seq<i32>>, start: int, octs: Seq<int>)
    ensures
        0 <= steps(links, start, octs) <= octs.len(),
        linked(links, start, octs.take(steps(links, start, octs))),
        walk(links, start, octs) == walk(links, start, octs.take(steps(links, start, octs))),
        steps(links, start, octs) < octs.len() ==> child(
            links,
            walk(links, start, octs),
            octs[steps(links, start, octs)],
        ) == 0,
        linked(links, start, octs) <==> steps(links, start, octs) == octs.len(),
    decreases octs.len(),
{
    if octs.len() == 0 || child(links, start, octs[0]) == 0 {
        assert(octs.take(0).len() == 0);
    } else {
        let next = child(links, start, octs[0]);
        let rest = octs.drop_first();
        lemma_walk_steps(links, next, rest);
        let made = steps(links, next, rest);
        let head = octs.take(made + 1);
        assert(head[0] == octs[0]);
        assert(head.drop_first() =~= rest.take(made));
        if made < rest.len() {
            assert(rest[made] == octs[made + 1]);
        }
    }
}

/// The last step of a way whose links all exist.
pub proof fn lemma_walk_last(links: Seq<Seq<i32>>, start: int, octs: Seq<int>)
    requires
        octs.len() > 0,
        linked(links, start, octs),
    ensures
        linked(links, start, octs.drop_last()),
        walk(links, start, octs) == child(
            links,
            walk(links, start, octs.drop_last()),
            octs.last(),
        ),
        walk(links, start, octs) != 0,
    decreases octs.len(),
{
    let next = child(links, start, octs[0]);
    let rest = octs.drop_first();
    let up = octs.drop_last();
    if octs.len() == 1 {
        assert(walk(links, next, rest) == next);
        assert(walk(links, start, up) == start);
    } else {
        lemma_walk_last(links, next, rest);
        assert(up[0] == octs[0]);
        assert(up.drop_first() =~= rest.drop_last());
        assert(rest.last() == octs.last());
        assert(walk(links, start, up) == walk(links, next, rest.drop_last()));
        assert(linked(links, start, up));
    }
}

/// A way ends at a node of the arena.
pub proof fn lemma_walk_in_range(links: Seq<Seq<i32>>, start: int, octs: Seq<int>)
    requires
        links_in_range(links),
        0 <= start < links.len(),
        octants_valid(octs),
    ensures
        0 <= walk(links, start, octs) < links.len(),
    decreases octs.len(),
{
    if octs.len() > 0 && child(links, start, octs[0]) != 0 {
        let rest = octs.drop_first();
        assert forall|k: int| 0 <= k < rest.len() implies 0 <= #[trigger] rest[k] < 8 by {
            assert(rest[k] == octs[k + 1]);
        }
        lemma_walk_in_range(links, child(links, start, octs[0]), rest);
    }
}

/// Every beginning of a way whose links all exist has all its links.
pub proof fn lemma_linked_prefix(links: Seq<Seq<i32>>, start: int, octs: Seq<int>, k: int)
    requires
        0 <= k <= octs.len(),
        linked(links, start, octs),
    ensures
        linked(links, start, octs.take(k)),
    decreases k,
{
    if k > 0 {
        let head = octs.take(k);
        assert(head[0] == octs[0]);
        assert(head.drop_first() =~= octs.drop_first().take(k - 1));
        lemma_linked_prefix(links, child(links, start, octs[0]), octs.drop_first(), k - 1);
    }
}

/// A way makes at least the steps of a beginning whose links all exist.
pub proof fn lemma_steps_prefix(links: Seq<Seq<i32>>, start: int, octs: Seq<int>, k: int)
    requires
        0 <= k <= octs.len(),
        linked(links, start, octs.take(k)),
    ensures
        k <= steps(links, start, octs),
    decreases k,
{
    if k > 0 {
        let head = octs.take(k);
        assert(head.len() == k);
        assert(head[0] == octs[0]);
        assert(head.drop_first() =~= octs.drop_first().take(k - 1));
        assert(child(links, start, octs[0]) != 0);
        lemma_steps_prefix(links, child(links, start, octs[0]), octs.drop_first(), k - 1);
    } else {
        lemma_walk_steps(links, start, octs);
    }
}

/// A way whose links all exist leads to a node of the arena behind its
/// start, and only the empty way leads to the start itself.
pub proof fn lemma_walk_behind(links: Seq<Seq<i32>>, start: int, octs: Seq<int>)
    requires
        links_forward(links),
        0 <= start < links.len(),
        octants_valid(octs),
        linked(links, start, octs),
    ensures
        start <= walk(links, start, octs) < links.len(),
        walk(links, start, octs) == start ==> octs.len() == 0,
        reachable(links, start, walk(links, start, octs)),
    decreases octs.len(),
{
    if octs.len() > 0 {
        let next = child(links, start, octs[0]);
        let rest = octs.drop_first();
        assert forall|k: int| 0 <= k < rest.len() implies 0 <= #[trigger] rest[k] < 8 by {
            assert(rest[k] == octs[k + 1]);
        }
        lemma_walk_behind(links, next, rest);
        lemma_last_octant(links, start, walk(links, start, octs), 8);
    }
}

/// The last way to a descendant is a way to it.
pub proof fn lemma_last_path(links: Seq<Seq<i32>>, from: int, n: int)
    requires
        0 <= from,
        reachable(links, from, n),
    ensures
        octants_valid(last_path(links, from, n)),
        linked(links, from, last_path(links, from, n)),
        walk(links, from, last_path(links, from, n)) == n,
    decreases links.len() - from,
{
    if from != n {
        lemma_last_octant(links, from, n, 8);
        let slot = last_octant(links, from, n, 8);
        let next = child(links, from, slot);
        let rest = last_path(links, next, n);
        lemma_last_path(links, next, n);
        let way = last_path(links, from, n);
        assert(way =~= seq![slot] + rest);
        assert(way[0] == slot);
        assert(way.drop_first() =~= rest);
        assert forall|k: int| 0 <= k < way.len() implies 0 <= #[trigger] way[k] < 8 by {
            if k > 0 {
                assert(way[k] == rest[k - 1]);
            }
        }
    }
}

/// In a tree, two ways from one node to another are the same way.
pub proof fn lemma_one_way(links: Seq<Seq<i32>>, start: int, p: Seq<int>, q: Seq<int>)
    requires
        links_forward(links),
        unshared(links),
        0 <= start < links.len(),
        octants_valid(p),
        octants_valid(q),
        linked(links, start, p),
        linked(links, start, q),
        walk(links, start, p) == walk(links, start, q),
    ensures
        p == q,
    decreases p.len(),
{
    lemma_walk_behind(links, start, p);
    lemma_walk_behind(links, start, q);
    if p.len() == 0 || q.len() == 0 {
        assert(p =~= q);
    } else {
        lemma_walk_last(links, start, p);
        lemma_walk_last(links, start, q);
        let up = p.drop_last();
        let uq = q.drop_last();
        lemma_walk_behind(links, start, up);
        lemma_walk_behind(links, start, uq);
        let a = walk(links, start, up);
        let b = walk(links, start, uq);
        assert(child(links, a, p.last()) == child(links, b, q.last()));
        lemma_one_way(links, start, up, uq);
        assert(p =~= up.push(p.last()));
        assert(q =~= uq.push(q.last()));
    }
}

/// In a tree, the way along which a node is reached is the last way to it.
pub proof fn lemma_tree_path(links: Seq<Seq<i32>>, octs: Seq<int>)
    requires
        links_forward(links),
        unshared(links),
        octants_valid(octs),
        linked(links, 0, octs),
    ensures
        0 <= walk(links, 0, octs) < links.len(),
        reachable(links, 0, walk(links, 0, octs)),
        last_path(links, 0, walk(links, 0, octs)) == octs,
{
    lemma_walk_behind(links, 0, octs);
    let n = walk(links, 0, octs);
    lemma_last_path(links, 0, n);
    lemma_one_way(links, 0, last_path(links, 0, n), octs);
}

} // verus!
