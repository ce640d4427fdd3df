//! The arena of a trie as a mathematical value, and what holds of it.
//!
//! An arena is a sequence of nodes; a node is eight slots, one for each
//! three-bit symbol; a slot is empty or holds the address of a child. Taking
//! a step ([`follow`]) is the one way an arena changes, and it only ever
//! fills an empty slot with the address of a node put at the arena's end.

use vstd::prelude::*;

verus! {

/// The arena as a mathematical value: for each node, in the order of their
/// addresses, its eight slots; a slot is empty or holds a child's address.
pub type Arena = Seq<Seq<Option<int>>>;

/// The slots of a node without children.
pub open spec fn fresh_slots() -> Seq<Option<int>> {
    Seq::new(8, |v: int| None)
}

/// What makes an arena a trie: the root is there, every node has eight
/// slots, a child lies behind its parent and inside the arena, and no node
/// is the child of two slots.
pub open spec fn arena_wf(t: Arena) -> bool {
    &&& t.len() >= 1
    &&& forall|a: int| 0 <= a < t.len() ==> (#[trigger] t[a]).len() == 8
    &&& forall|a: int, v: int|
        0 <= a < t.len() && 0 <= v < 8 && (#[trigger] t[a][v]) is Some ==> a < t[a][v]->0
            < t.len()
    &&& forall|a: int, v: int, b: int, w: int|
        0 <= a < t.len() && 0 <= v < 8 && 0 <= b < t.len() && 0 <= w < 8 && (#[trigger] t[a][v])
            is Some && t[a][v] == #[trigger] t[b][w] ==> a == b && v == w
}

/// One step from node `a` along symbol `v`: the arena after the step and
/// the address reached. Where the slot is empty, a fresh node is put at the
/// end of the arena and its address is written into the slot; nothing else
/// changes.
pub open spec fn follow(t: Arena, a: int, v: int) -> (Arena, int) {
    match t[a][v] {
        Some(c) => (t, c),
        None => (
            t.update(a, t[a].update(v, Some(t.len() as int))).push(fresh_slots()),
            t.len() as int,
        ),
    }
}

/// The arena after the steps of `path` have been taken one after the other,
/// starting at node `a`.
pub open spec fn insert_path(t: Arena, a: int, path: Seq<u8>) -> Arena
    decreases path.len(),
{
    if path.len() == 0 {
        t
    } else {
        let (next, c) = follow(t, a, path[0] as int);
        insert_path(next, c, path.skip(1))
    }
}

/// The node that `path` leads to from node `a`, if every slot on the way is
/// filled.
pub open spec fn walk(t: Arena, a: int, path: Seq<u8>) -> Option<int>
    decreases path.len(),
{
    if path.len() == 0 {
        Some(a)
    } else {
        match t[a][path[0] as int] {
            Some(c) => walk(t, c, path.skip(1)),
            None => None,
        }
    }
}

/// The filled slots of a node from symbol `from` upwards, each with the
/// child it holds, in ascending order of the symbols.
pub open spec fn children_from(slots: Seq<Option<int>>, from: int) -> Seq<(int, int)>
    decreases slots.len() - from,
{
    if from < 0 || from >= slots.len() {
        Seq::empty()
    } else {
        match slots[from] {
            Some(c) => seq![(from, c)] + children_from(slots, from + 1),
            None => children_from(slots, from + 1),
        }
    }
}

/// The filled slots of a node, each with the child it holds, in ascending
/// order of the symbols.
pub open spec fn children_of(slots: Seq<Option<int>>) -> Seq<(int, int)> {
    children_from(slots, 0)
}

/// Whether every symbol of a path is below eight.
pub open spec fn symbols_in_range(path: Seq<u8>) -> bool {
    forall|i: int| 0 <= i < path.len() ==> #[trigger] path[i] < 8
}

/// The arena after a sequence of steps, each given by the node it starts
/// from and the symbol it follows.
pub open spec fn after_steps(t: Arena, steps: Seq<(int, int)>) -> Arena
    decreases steps.len(),
{
    if steps.len() == 0 {
        t
    } else {
        after_steps(follow(t, steps[0].0, steps[0].1).0, steps.skip(1))
    }
}

/// Whether each step of a sequence starts from a node that is in the arena
/// when the step is taken, with a symbol below eight.
pub open spec fn steps_valid(t: Arena, steps: Seq<(int, int)>) -> bool
    decreases steps.len(),
{
    steps.len() == 0 || {
        &&& 0 <= steps[0].0 < t.len()
        &&& 0 <= steps[0].1 < 8
        &&& steps_valid(follow(t, steps[0].0, steps[0].1).0, steps.skip(1))
    }
}

/// The address that step `k` of a sequence returns.
pub open spec fn step_result(t: Arena, steps: Seq<(int, int)>, k: int) -> int
    decreases k,
{
    if k <= 0 {
        follow(t, steps[0].0, steps[0].1).1
    } else {
        step_result(follow(t, steps[0].0, steps[0].1).0, steps.skip(1), k - 1)
    }
}

/// A step keeps the arena a trie, never shrinks it, and ends inside it.
pub proof fn lemma_follow_wf(t: Arena, a: int, v: int)
    requires
        arena_wf(t),
        0 <= a < t.len(),
        0 <= v < 8,
    ensures
        arena_wf(follow(t, a, v).0),
        t.len() <= follow(t, a, v).0.len() <= t.len() + 1,
        0 < follow(t, a, v).1 < follow(t, a, v).0.len(),
        follow(t, a, v).0[a][v] == Some(follow(t, a, v).1),
{
    let (next, c) = follow(t, a, v);
    if t[a][v] is None {
        assert forall|b: int| 0 <= b < next.len() implies (#[trigger] next[b]).len() == 8 by {}
        assert forall|b: int, w: int|
            0 <= b < next.len() && 0 <= w < 8 && (#[trigger] next[b][w]) is Some implies b
            < next[b][w]->0 < next.len() by {
            if b < t.len() && !(b == a && w == v) {
                assert(next[b][w] == t[b][w]);
            }
        }
        assert forall|b: int, w: int, d: int, x: int|
            0 <= b < next.len() && 0 <= w < 8 && 0 <= d < next.len() && 0 <= x < 8 && (
            #[trigger] next[b][w]) is Some && next[b][w] == #[trigger] next[d][x] implies b == d
            && w == x by {
            if b < t.len() && !(b == a && w == v) {
                assert(next[b][w] == t[b][w]);
            }
            if d < t.len() && !(d == a && x == v) {
                assert(next[d][x] == t[d][x]);
            }
        }
    }
}

/// A filled slot is found again, whatever address it holds: a second step
/// from the same node along the same symbol ends where the first one ended
/// and changes nothing.
pub proof fn lemma_follow_again(t: Arena, a: int, v: int)
    requires
        arena_wf(t),
        0 <= a < t.len(),
        0 <= v < 8,
    ensures
        follow(follow(t, a, v).0, a, v) == follow(t, a, v),
{
    lemma_follow_wf(t, a, v);
}

/// The arena only grows: after any sequence of steps it is still a trie, no
/// smaller than before, and an address that was valid before is valid after.
pub proof fn lemma_arena_only_grows(t: Arena, steps: Seq<(int, int)>)
    requires
        arena_wf(t),
        steps_valid(t, steps),
    ensures
        arena_wf(after_steps(t, steps)),
        t.len() <= after_steps(t, steps).len(),
    decreases steps.len(),
{
    if steps.len() > 0 {
        lemma_follow_wf(t, steps[0].0, steps[0].1);
        lemma_arena_only_grows(follow(t, steps[0].0, steps[0].1).0, steps.skip(1));
    }
}

/// Every address that a step of a sequence returned is a valid address once
/// the whole sequence has been taken.
pub proof fn lemma_returned_addresses_stay_valid(t: Arena, steps: Seq<(int, int)>, k: int)
    requires
        arena_wf(t),
        steps_valid(t, steps),
        0 <= k < steps.len(),
    ensures
        0 <= step_result(t, steps, k) < after_steps(t, steps).len(),
    decreases k,
{
    let next = follow(t, steps[0].0, steps[0].1).0;
    lemma_follow_wf(t, steps[0].0, steps[0].1);
    if k == 0 {
        lemma_arena_only_grows(next, steps.skip(1));
    } else {
        lemma_returned_addresses_stay_valid(next, steps.skip(1), k - 1);
    }
}

/// Following a whole path keeps the arena a trie and never shrinks it; it
/// adds at most one node for each symbol.
pub proof fn lemma_insert_path_wf(t: Arena, a: int, path: Seq<u8>)
    requires
        arena_wf(t),
        0 <= a < t.len(),
        symbols_in_range(path),
    ensures
        arena_wf(insert_path(t, a, path)),
        t.len() <= insert_path(t, a, path).len() <= t.len() + path.len(),
    decreases path.len(),
{
    if path.len() > 0 {
        let (next, c) = follow(t, a, path[0] as int);
        lemma_follow_wf(t, a, path[0] as int);
        lemma_insert_path_wf(next, c, path.skip(1));
    }
}

/// A step never takes a path away, and never moves one: whatever node a path
/// led to before the step, it leads to the same node after it.
pub proof fn lemma_follow_keeps_walks(t: Arena, a: int, v: int, from: int, path: Seq<u8>)
    requires
        arena_wf(t),
        0 <= a < t.len(),
        0 <= v < 8,
        0 <= from < t.len(),
        symbols_in_range(path),
        walk(t, from, path) is Some,
    ensures
        walk(follow(t, a, v).0, from, path) == walk(t, from, path),
    decreases path.len(),
{
    if path.len() > 0 {
        let c = t[from][path[0] as int]->0;
        lemma_follow_keeps_walks(t, a, v, c, path.skip(1));
    }
}

/// Following a whole path never takes another path away, and never moves
/// one.
pub proof fn lemma_insert_keeps_walks(
    t: Arena,
    a: int,
    inserted: Seq<u8>,
    from: int,
    path: Seq<u8>,
)
    requires
        arena_wf(t),
        0 <= a < t.len(),
        symbols_in_range(inserted),
        0 <= from < t.len(),
        symbols_in_range(path),
        walk(t, from, path) is Some,
    ensures
        walk(insert_path(t, a, inserted), from, path) == walk(t, from, path),
    decreases inserted.len(),
{
    if inserted.len() > 0 {
        let (next, c) = follow(t, a, inserted[0] as int);
        lemma_follow_wf(t, a, inserted[0] as int);
        lemma_follow_keeps_walks(t, a, inserted[0] as int, from, path);
        lemma_insert_keeps_walks(next, c, inserted.skip(1), from, path);
    }
}

/// Once a path has been followed from a node, every slot along it is
/// filled: the path can be walked from that node.
pub proof fn lemma_inserted_path_walks(t: Arena, a: int, path: Seq<u8>)
    requires
        arena_wf(t),
        0 <= a < t.len(),
        symbols_in_range(path),
    ensures
        walk(insert_path(t, a, path), a, path) is Some,
    decreases path.len(),
{
    if path.len() > 0 {
        let (next, c) = follow(t, a, path[0] as int);
        let after = insert_path(next, c, path.skip(1));
        lemma_follow_wf(t, a, path[0] as int);
        lemma_inserted_path_walks(next, c, path.skip(1));
        let first = seq![path[0]];
        assert(first.skip(1).len() == 0);
        assert(walk(next, c, first.skip(1)) == Some(c));
        assert(walk(next, a, first) == Some(c));
        lemma_insert_keeps_walks(next, c, path.skip(1), a, first);
        lemma_insert_path_wf(next, c, path.skip(1));
        let slot = after[a][first[0] as int];
        assert(walk(after, a, first) == Some(c));
        assert(slot is Some);
        assert(walk(after, slot->0, first.skip(1)) == Some(slot->0));
    }
}

/// Where a path can be walked, so can each of its beginnings.
pub proof fn lemma_walk_prefix(t: Arena, from: int, path: Seq<u8>, n: int)
    requires
        0 <= n <= path.len(),
        walk(t, from, path) is Some,
    ensures
        walk(t, from, path.take(n)) is Some,
    decreases n,
{
    if n > 0 {
        let c = t[from][path[0] as int]->0;
        lemma_walk_prefix(t, c, path.skip(1), n - 1);
        assert(path.take(n).skip(1) =~= path.skip(1).take(n - 1));
    }
}

/// Sharing: where two paths begin alike, putting in the second one after
/// the first goes through the very nodes the first one made, for as long as
/// the two agree.
pub proof fn lemma_shared_prefix(t: Arena, first: Seq<u8>, second: Seq<u8>, n: int)
    requires
        arena_wf(t),
        symbols_in_range(first),
        symbols_in_range(second),
        0 <= n <= first.len(),
        n <= second.len(),
        first.take(n) == second.take(n),
    ensures
        ({
            let once = insert_path(t, 0, first);
            let twice = insert_path(once, 0, second);
            &&& walk(once, 0, first.take(n)) is Some
            &&& walk(twice, 0, second.take(n)) == walk(once, 0, first.take(n))
        }),
{
    let once = insert_path(t, 0, first);
    lemma_insert_path_wf(t, 0, first);
    lemma_inserted_path_walks(t, 0, first);
    lemma_walk_prefix(once, 0, first, n);
    lemma_insert_keeps_walks(once, 0, second, 0, first.take(n));
}

/// Following a path that can be walked already changes nothing.
pub proof fn lemma_insert_walked_path(t: Arena, a: int, path: Seq<u8>)
    requires
        walk(t, a, path) is Some,
    ensures
        insert_path(t, a, path) == t,
    decreases path.len(),
{
    if path.len() > 0 {
        let c = t[a][path[0] as int]->0;
        lemma_insert_walked_path(t, c, path.skip(1));
    }
}

/// Putting a path in a second time changes nothing.
pub proof fn lemma_insert_again(t: Arena, path: Seq<u8>)
    requires
        arena_wf(t),
        symbols_in_range(path),
    ensures
        insert_path(insert_path(t, 0, path), 0, path) == insert_path(t, 0, path),
{
    lemma_inserted_path_walks(t, 0, path);
    lemma_insert_walked_path(insert_path(t, 0, path), 0, path);
}

/// A walk goes forward: it ends inside the arena, and behind the node it
/// started from unless the path is empty.
pub proof fn lemma_walk_ascends(t: Arena, from: int, path: Seq<u8>)
    requires
        arena_wf(t),
        0 <= from < t.len(),
        symbols_in_range(path),
        walk(t, from, path) is Some,
    ensures
        from <= walk(t, from, path)->0 < t.len(),
        path.len() > 0 ==> from < walk(t, from, path)->0,
    decreases path.len(),
{
    if path.len() > 0 {
        let c = t[from][path[0] as int]->0;
        lemma_walk_ascends(t, c, path.skip(1));
    }
}

/// A walk of a path with one more symbol at its end is the walk of the path,
/// followed by one look into the slot of that symbol.
pub proof fn lemma_walk_push(t: Arena, from: int, path: Seq<u8>, last: u8)
    ensures
        walk(t, from, path.push(last)) == (match walk(t, from, path) {
            Some(end) => t[end][last as int],
            None => None,
        }),
    decreases path.len(),
{
    let longer = path.push(last);
    if path.len() == 0 {
        assert(longer.skip(1).len() == 0);
        match t[from][last as int] {
            Some(c) => {
                assert(walk(t, c, longer.skip(1)) == Some(c));
            },
            None => {},
        }
    } else {
        assert(longer.skip(1) =~= path.skip(1).push(last));
        match t[from][path[0] as int] {
            Some(c) => {
                lemma_walk_push(t, c, path.skip(1), last);
            },
            None => {},
        }
    }
}

/// No two paths lead from one node to the same node.
pub proof fn lemma_walk_unique(t: Arena, from: int, left: Seq<u8>, right: Seq<u8>)
    requires
        arena_wf(t),
        0 <= from < t.len(),
        symbols_in_range(left),
        symbols_in_range(right),
        walk(t, from, left) is Some,
        walk(t, from, left) == walk(t, from, right),
    ensures
        left == right,
    decreases left.len(),
{
    lemma_walk_ascends(t, from, left);
    lemma_walk_ascends(t, from, right);
    if left.len() == 0 || right.len() == 0 {
        assert(left =~= right);
    } else {
        let l = left.drop_last();
        let r = right.drop_last();
        assert(left =~= l.push(left.last()));
        assert(right =~= r.push(right.last()));
        lemma_walk_push(t, from, l, left.last());
        lemma_walk_push(t, from, r, right.last());
        lemma_walk_ascends(t, from, l);
        lemma_walk_ascends(t, from, r);
        let a = walk(t, from, l)->0;
        let b = walk(t, from, r)->0;
        assert(t[a][left.last() as int] == t[b][right.last() as int]);
        lemma_walk_unique(t, from, l, r);
    }
}

/// What one step adds: a path that can be walked after the step could be
/// walked before it, to the same node, unless it ends with the step itself
/// and so leads to the fresh node.
pub proof fn lemma_follow_adds_one_walk(t: Arena, a: int, v: int, from: int, path: Seq<u8>)
    requires
        arena_wf(t),
        0 <= a < t.len(),
        0 <= v < 8,
        0 <= from < t.len(),
        symbols_in_range(path),
        walk(follow(t, a, v).0, from, path) is Some,
    ensures
        walk(t, from, path) == walk(follow(t, a, v).0, from, path) || ({
            &&& t[a][v] is None
            &&& path.len() > 0
            &&& path.last() == v
            &&& walk(t, from, path.drop_last()) == Some(a)
            &&& walk(follow(t, a, v).0, from, path) == Some(t.len() as int)
        }),
    decreases path.len(),
{
    let next = follow(t, a, v).0;
    if path.len() > 0 && t[a][v] is None {
        let c = next[from][path[0] as int]->0;
        let rest = path.skip(1);
        if from == a && path[0] == v {
            assert(c == t.len());
            if rest.len() > 0 {
                assert(next[c][rest[0] as int] is None);
            }
            assert(path.drop_last() =~= Seq::<u8>::empty());
        } else {
            assert(t[from][path[0] as int] == Some(c));
            lemma_follow_adds_one_walk(t, a, v, c, rest);
            if walk(t, c, rest) != walk(next, c, rest) {
                assert(path.drop_last().skip(1) =~= rest.drop_last());
            }
        }
    }
}

/// What following a path from the end of another adds: nothing but
/// beginnings of the two paths put together.
proof fn lemma_insert_adds_prefixes(t: Arena, done: Seq<u8>, a: int, rest: Seq<u8>, path: Seq<u8>)
    requires
        arena_wf(t),
        symbols_in_range(done),
        symbols_in_range(rest),
        symbols_in_range(path),
        walk(t, 0, done) == Some(a),
        walk(insert_path(t, a, rest), 0, path) is Some,
    ensures
        walk(t, 0, path) is Some || path.is_prefix_of(done + rest),
    decreases rest.len(),
{
    lemma_walk_ascends(t, 0, done);
    if rest.len() > 0 {
        let v = rest[0];
        let (next, c) = follow(t, a, v as int);
        lemma_follow_wf(t, a, v as int);
        lemma_follow_keeps_walks(t, a, v as int, 0, done);
        lemma_walk_push(next, 0, done, v);
        assert(done.push(v) + rest.skip(1) =~= done + rest);
        lemma_insert_adds_prefixes(next, done.push(v), c, rest.skip(1), path);
        if walk(next, 0, path) is Some {
            lemma_follow_adds_one_walk(t, a, v as int, 0, path);
            if walk(t, 0, path) != walk(next, 0, path) {
                lemma_walk_unique(t, 0, path.drop_last(), done);
                assert(path =~= done.push(v));
            }
        }
    }
}

/// The paths of a trie: putting a path in from the root adds the path and
/// its beginnings to those that can be walked from the root, and nothing
/// else.
pub proof fn lemma_insert_adds_exactly_prefixes(t: Arena, inserted: Seq<u8>, path: Seq<u8>)
    requires
        arena_wf(t),
        symbols_in_range(inserted),
        symbols_in_range(path),
    ensures
        walk(insert_path(t, 0, inserted), 0, path) is Some <==> walk(t, 0, path) is Some
            || path.is_prefix_of(inserted),
{
    let after = insert_path(t, 0, inserted);
    if walk(after, 0, path) is Some {
        assert(Seq::<u8>::empty() + inserted =~= inserted);
        lemma_insert_adds_prefixes(t, Seq::empty(), 0, inserted, path);
    }
    if walk(t, 0, path) is Some {
        lemma_insert_keeps_walks(t, 0, inserted, 0, path);
    }
    if path.is_prefix_of(inserted) {
        lemma_inserted_path_walks(t, 0, inserted);
        lemma_walk_prefix(after, 0, inserted, path.len() as int);
        assert(inserted.take(path.len() as int) =~= path);
    }
}

/// What the list of children holds: every entry is a filled slot at or above
/// `from` with the child in it, the symbols ascend strictly, and the list is
/// as long as it can be, so that no filled slot is left out.
pub proof fn lemma_children_from(slots: Seq<Option<int>>, from: int)
    requires
        0 <= from <= slots.len(),
    ensures
        forall|i: int|
            0 <= i < children_from(slots, from).len() ==> ({
                let pair = #[trigger] children_from(slots, from)[i];
                from <= pair.0 < slots.len() && slots[pair.0] == Some(pair.1)
            }),
        forall|i: int, j: int|
            0 <= i < j < children_from(slots, from).len() ==> (#[trigger] children_from(
                slots,
                from,
            )[i]).0 < (#[trigger] children_from(slots, from)[j]).0,
        forall|v: int|
            from <= v < slots.len() && (#[trigger] slots[v]) is Some ==> children_from(
                slots,
                from,
            ).contains((v, slots[v]->0)),
    decreases slots.len() - from,
{
    if from < slots.len() {
        lemma_children_from(slots, from + 1);
        let all = children_from(slots, from);
        let later = children_from(slots, from + 1);
        match slots[from] {
            Some(c) => {
                assert(all[0] == (from, c));
                assert forall|i: int| 0 < i < all.len() implies all[i] == later[i - 1] by {}
                assert forall|v: int|
                    from <= v < slots.len() && (#[trigger] slots[v]) is Some implies all.contains(
                    (v, slots[v]->0),
                ) by {
                    if v > from {
                        let i = choose|i: int|
                            0 <= i < later.len() && later[i] == (v, slots[v]->0);
                        assert(all[i + 1] == (v, slots[v]->0));
                    }
                }
            },
            None => {},
        }
    }
}

} // verus!
