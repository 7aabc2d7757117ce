use crate::key::Ordered;
use crate::model::TreeModel;

use vstd::prelude::*;

verus! {

/// Frame `i` of a descent: the internal node that was passed and the
/// child slot that was taken there. The slot leads to the node of the next
/// frame, or to `cur` from the last frame.
pub open spec fn frame_ok<K: Ordered>(
    m: TreeModel<K>,
    path: Seq<(usize, usize)>,
    cur: int,
    i: int,
) -> bool {
    let n = path[i].0 as int;
    let pos = path[i].1 as int;
    let child = if i + 1 < path.len() {
        path[i + 1].0 as int
    } else {
        cur
    };
    &&& m.is_inner(n)
    &&& 0 <= pos < m.children(n).len()
    &&& m.children(n)[pos] as int == child
    &&& m.level(n) == m.level(child) + 1
}

/// `path` is the way from the root down to node `cur`.
pub open spec fn path_ok<K: Ordered>(m: TreeModel<K>, path: Seq<(usize, usize)>, cur: int) -> bool {
    &&& forall|i: int| 0 <= i < path.len() ==> #[trigger] frame_ok(m, path, cur, i)
    &&& if path.len() == 0 {
        cur == m.root
    } else {
        path[0].0 == m.root
    }
}

/// The slot of the node just above `cur` on the path, or nothing where
/// `cur` is the root.
pub open spec fn above(path: Seq<(usize, usize)>) -> Option<(int, int)> {
    if path.len() == 0 {
        None
    } else {
        Some((path.last().0 as int, path.last().1 as int))
    }
}

/// Of a descent, the latches on the last `held` nodes of the path are
/// still held: all of them where no node on the path is safe, else those
/// from the lowest safe node down. A node is safe if one more key does not
/// fill it, that is, if it holds other than `2t - 2` keys.
pub open spec fn holds_enough<K: Ordered>(
    m: TreeModel<K>,
    path: Seq<(usize, usize)>,
    held: int,
) -> bool {
    &&& 0 <= held <= path.len()
    &&& path.len() > 0 ==> held >= 1
    &&& held < path.len() ==> m.keys(path[path.len() - held].0 as int).len() != 2 * m.t - 2
    &&& forall|i: int|
        path.len() - held < i < path.len() ==> m.keys((#[trigger] path[i]).0 as int).len() == 2
            * m.t - 2
}

/// `m2` has every node of `m` that lies above level `lvl` unchanged, and
/// no node of `m` at another level than before.
pub open spec fn kept_above<K: Ordered>(m: TreeModel<K>, m2: TreeModel<K>, lvl: nat) -> bool {
    &&& m2.nodes.len() >= m.nodes.len()
    &&& m2.bounds.len() >= m.bounds.len()
    &&& m2.t == m.t
    &&& forall|x: int|
        0 <= x < m.nodes.len() ==> m2.level(x) == #[trigger] m.level(x) && (m.level(x) > lvl
            ==> m2.nodes[x] == m.nodes[x])
}

/// Every node on the path lies as many levels above `cur` as there are
/// frames from it down.
pub proof fn lemma_path_levels<K: Ordered>(
    m: TreeModel<K>,
    path: Seq<(usize, usize)>,
    cur: int,
    i: int,
)
    requires
        path_ok(m, path, cur),
        0 <= i < path.len(),
    ensures
        m.level(path[i].0 as int) == m.level(cur) + (path.len() - i),
    decreases path.len() - i,
{
    assert(frame_ok(m, path, cur, i));
    if i + 1 < path.len() {
        lemma_path_levels(m, path, cur, i + 1);
    }
}

/// After a change at the level of `cur` and below, the path is still the
/// way from the root to `cur`, and its nodes are as they were.
pub proof fn lemma_path_same<K: Ordered>(
    m: TreeModel<K>,
    m2: TreeModel<K>,
    path: Seq<(usize, usize)>,
    cur: int,
)
    requires
        path_ok(m, path, cur),
        m.is_node(cur),
        m2.root == m.root,
        kept_above(m, m2, m.level(cur)),
    ensures
        path_ok(m2, path, cur),
        forall|i: int|
            0 <= i < path.len() ==> m2.nodes[(#[trigger] path[i]).0 as int]
                == m.nodes[path[i].0 as int],
{
    assert forall|i: int| 0 <= i < path.len() implies m2.nodes[(#[trigger] path[i]).0 as int]
        == m.nodes[path[i].0 as int] && frame_ok(m2, path, cur, i) by {
        assert(frame_ok(m, path, cur, i));
        lemma_path_levels(m, path, cur, i);
        let n = path[i].0 as int;
        assert(m.level(n) == #[trigger] m.level(n));
        if i + 1 < path.len() {
            assert(frame_ok(m, path, cur, i + 1));
            let child = path[i + 1].0 as int;
            assert(m.level(child) == #[trigger] m.level(child));
        } else {
            assert(m.level(cur) == #[trigger] m.level(cur));
        }
    }
}

/// The path without its last frame is the way from the root to the node
/// of that frame.
pub proof fn lemma_path_pop<K: Ordered>(m: TreeModel<K>, path: Seq<(usize, usize)>, cur: int)
    requires
        path_ok(m, path, cur),
        path.len() > 0,
    ensures
        path_ok(m, path.drop_last(), path.last().0 as int),
        m.attached(path.last().0 as int, above(path.drop_last())),
        m.attached(cur, above(path)),
        above(path.drop_last()) is Some ==> above(path.drop_last()).unwrap().0
            != path.last().0 as int,
{
    let p2 = path.drop_last();
    let top = path.last().0 as int;
    assert forall|i: int| 0 <= i < p2.len() implies #[trigger] frame_ok(m, p2, top, i) by {
        assert(frame_ok(m, path, cur, i));
    }
    assert(frame_ok(m, path, cur, path.len() - 1));
    if p2.len() > 0 {
        assert(frame_ok(m, path, cur, path.len() - 2));
    }
}

} // verus!
