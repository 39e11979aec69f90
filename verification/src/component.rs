//! Connected-component discovery and the finished-state rule.
//!
//! A component is the maximal orthogonally connected group of same-colored
//! nonzero cells around a coordinate; groups of size one do not count as
//! components for gameplay purposes.

use vstd::prelude::*;
use crate::board::{Board, BoardModel, lemma_index_in_range, lemma_index_injective};
use crate::seq_util::{count_marked, lemma_count_marked_le_len, lemma_count_marked_set_true};

verus! {

/// Two coordinates are orthogonal neighbors.
pub open spec fn adj(p: (int, int), q: (int, int)) -> bool {
    ||| p.0 == q.0 && (p.1 == q.1 + 1 || p.1 + 1 == q.1)
    ||| p.1 == q.1 && (p.0 == q.0 + 1 || p.0 + 1 == q.0)
}

/// Every cell of `path` is in bounds with color `c`, and consecutive cells
/// are orthogonal neighbors.
pub open spec fn is_group_path(m: BoardModel, c: u8, path: Seq<(int, int)>) -> bool {
    &&& path.len() >= 1
    &&& forall|i: int|
        0 <= i < path.len() ==> m.in_bounds((#[trigger] path[i]).0, path[i].1)
            && m.cell(path[i].0, path[i].1) == c
    &&& forall|i: int| 0 <= i < path.len() - 1 ==> adj(#[trigger] path[i], path[i + 1])
}

/// `(qx, qy)` belongs to the same-colored orthogonally connected group
/// containing `(sx, sy)`.
pub open spec fn connected(m: BoardModel, sx: int, sy: int, qx: int, qy: int) -> bool {
    exists|path: Seq<(int, int)>|
        #[trigger] is_group_path(m, m.cell(sx, sy), path) && path.first() == (sx, sy)
            && path.last() == (qx, qy)
}

/// Some orthogonal neighbor of `(x, y)` holds the same color.
pub open spec fn has_same_neighbor(m: BoardModel, x: int, y: int) -> bool {
    exists|qx: int, qy: int|
        m.in_bounds(qx, qy) && adj((x, y), (qx, qy)) && #[trigger] m.cell(qx, qy) == m.cell(x, y)
}

/// The coordinate list `r` holds `(qx, qy)`.
pub open spec fn contains_coord(r: Seq<(usize, usize)>, qx: int, qy: int) -> bool {
    exists|k: int| 0 <= k < r.len() && (#[trigger] r[k]).0 == qx && r[k].1 == qy
}

/// No coordinate appears twice in `r`.
pub open spec fn distinct_coords(r: Seq<(usize, usize)>) -> bool {
    forall|k1: int, k2: int| 0 <= k1 < k2 < r.len() ==> r[k1] != r[k2]
}

/// No nonzero cell anywhere has a same-colored orthogonal neighbor, so no
/// erasable component remains.
pub open spec fn deadlocked(m: BoardModel) -> bool {
    forall|x: int, y: int|
        m.in_bounds(x, y) && #[trigger] m.cell(x, y) != 0 ==> !has_same_neighbor(m, x, y)
}

/// On a finished board nothing is erasable: every cell is empty or has no
/// same-colored neighbor, so `erase_component` returns zero everywhere.
pub proof fn lemma_deadlocked_nothing_erasable(m: BoardModel, x: int, y: int)
    requires
        m.wf(),
        deadlocked(m),
        m.in_bounds(x, y),
    ensures
        m.cell(x, y) == 0 || !has_same_neighbor(m, x, y),
{
    assert(m.cell(x, y) != 0 ==> !has_same_neighbor(m, x, y));
}

pub(crate) proof fn lemma_contains_push(r: Seq<(usize, usize)>, e: (usize, usize))
    ensures
        contains_coord(r.push(e), e.0 as int, e.1 as int),
        forall|qx: int, qy: int| contains_coord(r, qx, qy) ==> contains_coord(r.push(e), qx, qy),
{
    let r2 = r.push(e);
    assert(r2[r.len() as int] == e);
    assert forall|qx: int, qy: int| contains_coord(r, qx, qy) implies contains_coord(
        r2,
        qx,
        qy,
    ) by {
        let k = choose|k: int| 0 <= k < r.len() && (#[trigger] r[k]).0 == qx && r[k].1 == qy;
        assert(r2[k] == r[k]);
    }
}

pub(crate) proof fn lemma_connected_refl(m: BoardModel, sx: int, sy: int)
    requires
        m.in_bounds(sx, sy),
    ensures
        connected(m, sx, sy, sx, sy),
{
    let path = seq![(sx, sy)];
    assert(is_group_path(m, m.cell(sx, sy), path));
    assert(path.first() == (sx, sy) && path.last() == (sx, sy));
}

pub(crate) proof fn lemma_connected_step(
    m: BoardModel,
    sx: int,
    sy: int,
    px: int,
    py: int,
    qx: int,
    qy: int,
)
    requires
        connected(m, sx, sy, px, py),
        m.in_bounds(qx, qy),
        adj((px, py), (qx, qy)),
        m.cell(qx, qy) == m.cell(sx, sy),
    ensures
        connected(m, sx, sy, qx, qy),
{
    let c = m.cell(sx, sy);
    let path = choose|path: Seq<(int, int)>|
        #[trigger] is_group_path(m, c, path) && path.first() == (sx, sy) && path.last() == (
        px,
        py,
    );
    let path2 = path.push((qx, qy));
    assert(path2.last() == (qx, qy));
    assert(path2.first() == (sx, sy));
    assert forall|i: int|
        0 <= i < path2.len() implies m.in_bounds((#[trigger] path2[i]).0, path2[i].1)
        && m.cell(path2[i].0, path2[i].1) == c by {
        if i < path.len() {
            assert(path2[i] == path[i]);
        } else {
            assert(path2[i] == (qx, qy));
        }
    }
    assert forall|i: int| 0 <= i < path2.len() - 1 implies adj(#[trigger] path2[i], path2[i + 1]) by {
        if i < path.len() - 1 {
            assert(path2[i] == path[i]);
            assert(path2[i + 1] == path[i + 1]);
        } else {
            assert(path2[i] == path[i]);
            assert(path[i] == path.last());
            assert(path2[i + 1] == (qx, qy));
        }
    }
    assert(is_group_path(m, c, path2));
}

/// A coordinate list that holds the start of a path and is closed under
/// same-colored adjacency holds the end of the path too.
proof fn lemma_path_stays(m: BoardModel, c: u8, path: Seq<(int, int)>, r: Seq<(usize, usize)>)
    requires
        is_group_path(m, c, path),
        contains_coord(r, path.first().0, path.first().1),
        forall|px: int, py: int, qx: int, qy: int|
            #![trigger contains_coord(r, px, py), m.cell(qx, qy)]
            contains_coord(r, px, py) && m.in_bounds(qx, qy) && adj((px, py), (qx, qy)) && m.cell(
                qx,
                qy,
            ) == c ==> contains_coord(r, qx, qy),
    ensures
        contains_coord(r, path.last().0, path.last().1),
    decreases path.len(),
{
    if path.len() == 1 {
        assert(path.last() == path.first());
    } else {
        let pre = path.drop_last();
        assert forall|i: int|
            0 <= i < pre.len() implies m.in_bounds((#[trigger] pre[i]).0, pre[i].1)
            && m.cell(pre[i].0, pre[i].1) == c by {
            assert(pre[i] == path[i]);
        }
        assert forall|i: int| 0 <= i < pre.len() - 1 implies adj(#[trigger] pre[i], pre[i + 1]) by {
            assert(pre[i] == path[i]);
            assert(pre[i + 1] == path[i + 1]);
        }
        assert(is_group_path(m, c, pre));
        assert(pre.first() == path.first());
        lemma_path_stays(m, c, pre, r);
        let p = pre.last();
        let q = path.last();
        assert(p == path[path.len() - 2]);
        assert(adj(path[path.len() - 2], path[path.len() - 2 + 1]));
        assert(contains_coord(r, p.0, p.1));
        assert(m.in_bounds(q.0, q.1) && m.cell(q.0, q.1) == c);
    }
}

/// A cell connected to a different cell has a same-colored neighbor.
pub(crate) proof fn lemma_connected_ne_gives_neighbor(m: BoardModel, c: u8, path: Seq<(int, int)>)
    requires
        is_group_path(m, c, path),
        path.last() != path.first(),
    ensures
        has_same_neighbor(m, path.first().0, path.first().1),
    decreases path.len(),
{
    let s = path.first();
    if path[1] != s {
        assert(adj(path[0], path[1]));
        assert(m.cell(path[1].0, path[1].1) == c && m.cell(s.0, s.1) == c);
        assert(m.in_bounds(path[1].0, path[1].1));
    } else {
        let rest = path.drop_first();
        assert forall|i: int|
            0 <= i < rest.len() implies m.in_bounds((#[trigger] rest[i]).0, rest[i].1)
            && m.cell(rest[i].0, rest[i].1) == c by {
            assert(rest[i] == path[i + 1]);
        }
        assert forall|i: int| 0 <= i < rest.len() - 1 implies adj(#[trigger] rest[i], rest[i + 1]) by {
            assert(rest[i] == path[i + 1]);
            assert(rest[i + 1] == path[i + 2]);
        }
        assert(is_group_path(m, c, rest));
        assert(rest.first() == path[1]);
        assert(rest.last() == path.last());
        lemma_connected_ne_gives_neighbor(m, c, rest);
    }
}

impl Board {
    /// The in-bounds orthogonal neighbors of `(x, y)`: every entry is one,
    /// and every one is an entry.
    fn neighbors(&self, x: usize, y: usize) -> (r: Vec<(usize, usize)>)
        requires
            self.wf(),
            x < self.model().w,
            y < self.model().h,
        ensures
            forall|k: int|
                0 <= k < r@.len() ==> self.model().in_bounds(
                    (#[trigger] r@[k]).0 as int,
                    r@[k].1 as int,
                ) && adj((x as int, y as int), (r@[k].0 as int, r@[k].1 as int)),
            forall|qx: int, qy: int|
                self.model().in_bounds(qx, qy) && adj((x as int, y as int), (qx, qy))
                    ==> contains_coord(r@, qx, qy),
    {
        let w = self.width();
        let h = self.height();
        let mut r: Vec<(usize, usize)> = Vec::new();
        if x > 0 {
            let ghost r0 = r@;
            r.push((x - 1, y));
            proof {
                lemma_contains_push(r0, ((x - 1) as usize, y));
            }
        }
        if x + 1 < w {
            let ghost r0 = r@;
            r.push((x + 1, y));
            proof {
                lemma_contains_push(r0, ((x + 1) as usize, y));
            }
        }
        if y > 0 {
            let ghost r0 = r@;
            r.push((x, y - 1));
            proof {
                lemma_contains_push(r0, (x, (y - 1) as usize));
            }
        }
        if y + 1 < h {
            let ghost r0 = r@;
            r.push((x, y + 1));
            proof {
                lemma_contains_push(r0, (x, (y + 1) as usize));
            }
        }
        proof {
            assert(x > 0 ==> contains_coord(r@, x - 1, y as int));
            assert(x + 1 < self.model().w ==> contains_coord(r@, x + 1, y as int));
            assert(y > 0 ==> contains_coord(r@, x as int, y - 1));
            assert(y + 1 < self.model().h ==> contains_coord(r@, x as int, y + 1));
        }
        r
    }

    /// Collects the whole same-colored connected group around `(sx, sy)`:
    /// a duplicate-free list holding exactly the coordinates connected to
    /// the start.
    #[verifier::loop_isolation(false)]
    pub(crate) fn flood_fill(&self, sx: usize, sy: usize) -> (r: Vec<(usize, usize)>)
        requires
            self.wf(),
            sx < self.model().w,
            sy < self.model().h,
            self.model().cell(sx as int, sy as int) != 0,
        ensures
            distinct_coords(r@),
            contains_coord(r@, sx as int, sy as int),
            r@.len() >= 1,
            forall|k: int|
                0 <= k < r@.len() ==> self.model().in_bounds(
                    (#[trigger] r@[k]).0 as int,
                    r@[k].1 as int,
                ) && self.model().cell(r@[k].0 as int, r@[k].1 as int) == self.model().cell(
                    sx as int,
                    sy as int,
                ) && connected(self.model(), sx as int, sy as int, r@[k].0 as int, r@[k].1 as int),
            forall|qx: int, qy: int|
                #[trigger] connected(self.model(), sx as int, sy as int, qx, qy)
                    ==> contains_coord(r@, qx, qy),
    {
        let ghost m = self.model();
        let c = self.at(sx, sy);
        let n = self.buf_len();
        let mut visited: Vec<bool> = Vec::new();
        let mut t: usize = 0;
        while t < n
            invariant
                t <= n,
                visited@.len() == t,
                forall|i: int| 0 <= i < t ==> !(#[trigger] visited@[i]),
            decreases n - t,
        {
            visited.push(false);
            t = t + 1;
        }
        proof {
            assert forall|x: int, y: int| m.in_bounds(x, y) implies #[trigger] visited@[m.h * x
                + y] == contains_coord(Seq::<(usize, usize)>::empty(), x, y) by {
                lemma_index_in_range(m, x, y);
            }
        }
        let i0 = self.idx(sx, sy);
        proof {
            assert(!visited@[i0 as int]);
            lemma_count_marked_set_true(visited@, i0 as int);
        }
        visited.set(i0, true);
        let mut res: Vec<(usize, usize)> = Vec::new();
        let mut stack: Vec<(usize, usize)> = Vec::new();
        proof {
            lemma_contains_push(res@, (sx, sy));
            lemma_connected_refl(m, sx as int, sy as int);
        }
        res.push((sx, sy));
        stack.push((sx, sy));
        proof {
            lemma_count_marked_le_len(visited@);
            assert forall|x: int, y: int| m.in_bounds(x, y) implies #[trigger] visited@[m.h * x
                + y] == contains_coord(res@, x, y) by {
                lemma_index_in_range(m, x, y);
                if contains_coord(res@, x, y) {
                    assert(res@[0] == (sx, sy));
                    let k = choose|k: int|
                        0 <= k < res@.len() && (#[trigger] res@[k]).0 == x && res@[k].1 == y;
                    assert(x == sx && y == sy);
                }
                if visited@[m.h * x + y] {
                    lemma_index_injective(m, x, y, sx as int, sy as int);
                    assert(res@[0] == (sx, sy));
                }
            }
        }
        while stack.len() > 0
            invariant
                visited@.len() == n,
                forall|x: int, y: int|
                    m.in_bounds(x, y) ==> #[trigger] visited@[m.h * x + y] == contains_coord(
                        res@,
                        x,
                        y,
                    ),
                distinct_coords(res@),
                contains_coord(res@, sx as int, sy as int),
                forall|k: int|
                    0 <= k < res@.len() ==> m.in_bounds((#[trigger] res@[k]).0 as int, res@[k].1 as int)
                        && m.cell(res@[k].0 as int, res@[k].1 as int) == c
                        && connected(m, sx as int, sy as int, res@[k].0 as int, res@[k].1 as int),
                forall|k: int|
                    0 <= k < stack@.len() ==> contains_coord(
                        res@,
                        (#[trigger] stack@[k]).0 as int,
                        stack@[k].1 as int,
                    ),
                forall|px: int, py: int, qx: int, qy: int|
                    #![trigger contains_coord(res@, px, py), m.cell(qx, qy)]
                    contains_coord(res@, px, py) && !contains_coord(stack@, px, py) && m.in_bounds(
                        qx,
                        qy,
                    ) && adj((px, py), (qx, qy)) && m.cell(qx, qy) == c ==> contains_coord(
                        res@,
                        qx,
                        qy,
                    ),
                count_marked(visited@) <= n,
            decreases 2 * (n - count_marked(visited@)) + stack@.len(),
        {
            let ghost stack_before = stack@;
            let p = stack.pop().unwrap();
            let (px, py) = p;
            proof {
                assert(stack_before.last() == p);
                assert(contains_coord(res@, px as int, py as int));
            }
            let ghost k_p = choose|k: int|
                0 <= k < res@.len() && (#[trigger] res@[k]).0 == px as int && res@[k].1
                    == py as int;
            proof {
                assert(res@[k_p] == (px, py));
            }
            let nbrs = self.neighbors(px, py);
            proof {
                assert(stack@ =~= stack_before.subrange(0, stack_before.len() - 1));
                assert(stack@.len() == stack_before.len() - 1);
                // A coordinate off the shrunken stack and different from the
                // popped cell was off the whole stack, so it is already closed.
                assert forall|px2: int, py2: int|
                    contains_coord(stack_before, px2, py2) && !(px2 == px as int && py2
                        == py as int) implies contains_coord(stack@, px2, py2) by {
                    let k = choose|k: int|
                        0 <= k < stack_before.len() && (#[trigger] stack_before[k]).0 == px2
                            && stack_before[k].1 == py2;
                    if k < stack_before.len() - 1 {
                        assert(stack@[k] == stack_before[k]);
                    }
                }
            }
            let ghost measure_enter: int = 2 * (n - count_marked(visited@)) + stack@.len();
            let mut j: usize = 0;
            while j < nbrs.len()
                invariant
                    j <= nbrs@.len(),
                    visited@.len() == n,
                    forall|x: int, y: int|
                        m.in_bounds(x, y) ==> #[trigger] visited@[m.h * x + y] == contains_coord(
                            res@,
                            x,
                            y,
                        ),
                    distinct_coords(res@),
                    contains_coord(res@, sx as int, sy as int),
                    contains_coord(res@, px as int, py as int),
                    forall|k: int|
                        0 <= k < res@.len() ==> m.in_bounds(
                            (#[trigger] res@[k]).0 as int,
                            res@[k].1 as int,
                        ) && m.cell(res@[k].0 as int, res@[k].1 as int) == c && connected(
                            m,
                            sx as int,
                            sy as int,
                            res@[k].0 as int,
                            res@[k].1 as int,
                        ),
                    forall|k: int|
                        0 <= k < stack@.len() ==> contains_coord(
                            res@,
                            (#[trigger] stack@[k]).0 as int,
                            stack@[k].1 as int,
                        ),
                    forall|px2: int, py2: int, qx: int, qy: int|
                        #![trigger contains_coord(res@, px2, py2), m.cell(qx, qy)]
                        contains_coord(res@, px2, py2) && !contains_coord(stack@, px2, py2) && !(
                        px2 == px as int && py2 == py as int) && m.in_bounds(qx, qy) && adj(
                            (px2, py2),
                            (qx, qy),
                        ) && m.cell(qx, qy) == c ==> contains_coord(res@, qx, qy),
                    forall|t2: int|
                        0 <= t2 < j ==> (m.cell((#[trigger] nbrs@[t2]).0 as int, nbrs@[t2].1 as int)
                            != c || contains_coord(res@, nbrs@[t2].0 as int, nbrs@[t2].1 as int)),
                    count_marked(visited@) <= n,
                    2 * (n - count_marked(visited@)) + stack@.len() <= measure_enter,
                decreases nbrs@.len() - j,
            {
                let (nx, ny) = nbrs[j];
                proof {
                    assert(m.in_bounds(nx as int, ny as int));
                    assert(adj((px as int, py as int), (nx as int, ny as int)));
                }
                if self.at(nx, ny) == c {
                    let i = self.idx(nx, ny);
                    if !visited[i] {
                        proof {
                            assert(!contains_coord(res@, nx as int, ny as int));
                            assert(connected(m, sx as int, sy as int, px as int, py as int));
                            lemma_connected_step(
                                m,
                                sx as int,
                                sy as int,
                                px as int,
                                py as int,
                                nx as int,
                                ny as int,
                            );
                            lemma_count_marked_set_true(visited@, i as int);
                        }
                        let ghost res_before = res@;
                        let ghost visited_before = visited@;
                        let ghost stack_prev = stack@;
                        visited.set(i, true);
                        res.push((nx, ny));
                        stack.push((nx, ny));
                        proof {
                            lemma_count_marked_le_len(visited@);
                            lemma_contains_push(res_before, (nx, ny));
                            lemma_contains_push(stack_prev, (nx, ny));
                            // A fresh coordinate keeps the list duplicate-free.
                            assert forall|k1: int, k2: int|
                                0 <= k1 < k2 < res@.len() implies res@[k1] != res@[k2] by {
                                if k2 == res@.len() - 1 {
                                    assert(res@[k1] == res_before[k1]);
                                    assert(res@[k2] == (nx, ny));
                                    if res_before[k1] == (nx, ny) {
                                        assert(contains_coord(res_before, nx as int, ny as int));
                                    }
                                } else {
                                    assert(res@[k1] == res_before[k1]);
                                    assert(res@[k2] == res_before[k2]);
                                }
                            }
                            // The visited buffer still mirrors the list.
                            assert forall|x: int, y: int| m.in_bounds(x, y) implies #[trigger] visited@[
                                m.h * x + y] == contains_coord(res@, x, y) by {
                                lemma_index_in_range(m, x, y);
                                if x == nx as int && y == ny as int {
                                    assert(res@[res@.len() - 1] == (nx, ny));
                                } else {
                                    if m.h * x + y == i as int {
                                        lemma_index_injective(m, x, y, nx as int, ny as int);
                                        assert(false);
                                    }
                                    assert(visited@[m.h * x + y] == visited_before[m.h * x + y]);
                                    if contains_coord(res@, x, y) {
                                        let k = choose|k: int|
                                            0 <= k < res@.len() && (#[trigger] res@[k]).0 == x
                                                && res@[k].1 == y;
                                        assert(k < res_before.len());
                                        assert(res@[k] == res_before[k]);
                                        assert(contains_coord(res_before, x, y));
                                    }
                                }
                            }
                            // Old stack entries are still in the grown list.
                            assert forall|k: int|
                                0 <= k < stack@.len() implies contains_coord(
                                res@,
                                (#[trigger] stack@[k]).0 as int,
                                stack@[k].1 as int,
                            ) by {
                                if k < stack@.len() - 1 {
                                    assert(stack@[k] == stack_prev[k]);
                                    assert(contains_coord(
                                        res_before,
                                        stack@[k].0 as int,
                                        stack@[k].1 as int,
                                    ));
                                } else {
                                    assert(stack@[k] == (nx, ny));
                                    assert(res@[res@.len() - 1] == (nx, ny));
                                }
                            }
                            // Cells away from the fresh one keep their closure:
                            // the fresh cell itself now waits on the stack.
                            assert forall|px2: int, py2: int, qx: int, qy: int|
                                #![trigger contains_coord(res@, px2, py2), m.cell(qx, qy)]
                                contains_coord(res@, px2, py2) && !contains_coord(
                                    stack@,
                                    px2,
                                    py2,
                                ) && !(px2 == px as int && py2 == py as int) && m.in_bounds(qx, qy)
                                    && adj((px2, py2), (qx, qy)) && m.cell(qx, qy)
                                    == c implies contains_coord(res@, qx, qy) by {
                                if px2 == nx as int && py2 == ny as int {
                                    assert(contains_coord(stack@, px2, py2));
                                } else {
                                    let k = choose|k: int|
                                        0 <= k < res@.len() && (#[trigger] res@[k]).0 == px2
                                            && res@[k].1 == py2;
                                    assert(k < res_before.len());
                                    assert(res@[k] == res_before[k]);
                                    assert(contains_coord(res_before, px2, py2));
                                    assert(!contains_coord(stack_prev, px2, py2));
                                    assert(contains_coord(res_before, qx, qy));
                                }
                            }
                        }
                    }
                }
                j = j + 1;
            }
            proof {
                // The popped cell is now fully processed: every same-colored
                // neighbor was found in the neighbor list and sits in `res`.
                assert forall|px2: int, py2: int, qx: int, qy: int|
                    #![trigger contains_coord(res@, px2, py2), m.cell(qx, qy)]
                    contains_coord(res@, px2, py2) && !contains_coord(stack@, px2, py2)
                        && m.in_bounds(qx, qy) && adj((px2, py2), (qx, qy)) && m.cell(qx, qy)
                        == c implies contains_coord(res@, qx, qy) by {
                    if px2 == px as int && py2 == py as int {
                        assert(contains_coord(nbrs@, qx, qy));
                        let t2 = choose|t2: int|
                            0 <= t2 < nbrs@.len() && (#[trigger] nbrs@[t2]).0 == qx && nbrs@[t2].1
                                == qy;
                        assert(m.cell(nbrs@[t2].0 as int, nbrs@[t2].1 as int) == c);
                    }
                }
            }
        }
        proof {
            assert forall|qx: int, qy: int|
                #[trigger] connected(m, sx as int, sy as int, qx, qy) implies contains_coord(
                res@,
                qx,
                qy,
            ) by {
                let path = choose|path: Seq<(int, int)>|
                    #[trigger] is_group_path(m, m.cell(sx as int, sy as int), path) && path.first()
                        == (sx as int, sy as int) && path.last() == (qx, qy);
                assert(stack@.len() == 0);
                lemma_path_stays(m, c, path, res@);
            }
        }
        res
    }

    /// The coordinates of the erasable component at `(x, y)`: empty when the
    /// cell is empty or has no same-colored neighbor, otherwise exactly the
    /// same-colored connected group (at least two cells), each listed once.
    pub fn calc_component(&self, x: usize, y: usize) -> (r: Vec<(usize, usize)>)
        requires
            self.wf(),
            x < self.model().w,
            y < self.model().h,
        ensures
            distinct_coords(r@),
            self.model().cell(x as int, y as int) == 0 || !has_same_neighbor(
                self.model(),
                x as int,
                y as int,
            ) ==> r@.len() == 0,
            self.model().cell(x as int, y as int) != 0 && has_same_neighbor(
                self.model(),
                x as int,
                y as int,
            ) ==> r@.len() >= 2 && forall|qx: int, qy: int|
                contains_coord(r@, qx, qy) <==> connected(self.model(), x as int, y as int, qx, qy),
    {
        let ghost m = self.model();
        if self.at(x, y) == 0 {
            let r: Vec<(usize, usize)> = Vec::new();
            return r;
        }
        let comp = self.flood_fill(x, y);
        if comp.len() == 1 {
            proof {
                if has_same_neighbor(m, x as int, y as int) {
                    let (qx, qy) = choose|qx: int, qy: int|
                        m.in_bounds(qx, qy) && adj((x as int, y as int), (qx, qy))
                            && #[trigger] m.cell(qx, qy) == m.cell(x as int, y as int);
                    lemma_connected_refl(m, x as int, y as int);
                    lemma_connected_step(m, x as int, y as int, x as int, y as int, qx, qy);
                    assert(contains_coord(comp@, qx, qy));
                    let k1 = choose|k: int|
                        0 <= k < comp@.len() && (#[trigger] comp@[k]).0 == qx && comp@[k].1 == qy;
                    let k2 = choose|k: int|
                        0 <= k < comp@.len() && (#[trigger] comp@[k]).0 == x as int && comp@[k].1
                            == y as int;
                    assert(k1 == 0 && k2 == 0);
                    assert(false);
                }
            }
            let r: Vec<(usize, usize)> = Vec::new();
            return r;
        }
        proof {
            // A second group member forces a same-colored neighbor at the start.
            let k0 = choose|k: int|
                0 <= k < comp@.len() && (#[trigger] comp@[k]).0 == x as int && comp@[k].1
                    == y as int;
            let ghost k1: int = if k0 == 0 { 1 } else { 0 };
            assert(comp@[k1] != comp@[k0]);
            let path = choose|path: Seq<(int, int)>|
                #[trigger] is_group_path(m, m.cell(x as int, y as int), path) && path.first() == (
                x as int,
                y as int,
            ) && path.last() == (comp@[k1].0 as int, comp@[k1].1 as int);
            assert(path.last() != path.first());
            lemma_connected_ne_gives_neighbor(m, m.cell(x as int, y as int), path);
        }
        comp
    }

    /// Whether the board is finished (deadlocked): true exactly when no two
    /// orthogonally adjacent nonzero cells share a color, so nothing more can
    /// be erased. True on a fully empty board.
    #[verifier::loop_isolation(false)]
    pub fn is_finished(&self) -> (r: bool)
        requires
            self.wf(),
        ensures
            r == deadlocked(self.model()),
    {
        let ghost m = self.model();
        let w = self.width();
        let h = self.height();
        let mut x: usize = 0;
        while x < w
            invariant
                x <= m.w,
                forall|x2: int, y2: int|
                    0 <= x2 < x && 0 <= y2 < m.h ==> no_conflict_at(m, x2, y2),
            decreases m.w - x,
        {
            let mut y: usize = 0;
            while y < h
                invariant
                    y <= m.h,
                    forall|x2: int, y2: int|
                        0 <= x2 < x && 0 <= y2 < m.h ==> no_conflict_at(m, x2, y2),
                    forall|y2: int| 0 <= y2 < y ==> no_conflict_at(m, x as int, y2),
                decreases m.h - y,
            {
                let color = self.at(x, y);
                if color != 0 {
                    if x > 0 {
                        if self.at(x - 1, y) == color {
                            proof {
                                assert(m.in_bounds(x - 1, y as int));
                                assert(adj((x as int, y as int), (x - 1, y as int)));
                                assert(m.cell(x - 1, y as int) == m.cell(x as int, y as int));
                                assert(has_same_neighbor(m, x as int, y as int));
                            }
                            return false;
                        }
                    }
                    if y > 0 {
                        if self.at(x, y - 1) == color {
                            proof {
                                assert(m.in_bounds(x as int, y - 1));
                                assert(adj((x as int, y as int), (x as int, y - 1)));
                                assert(m.cell(x as int, y - 1) == m.cell(x as int, y as int));
                                assert(has_same_neighbor(m, x as int, y as int));
                            }
                            return false;
                        }
                    }
                }
                y = y + 1;
            }
            x = x + 1;
        }
        proof {
            lemma_no_conflicts_deadlocked(m);
        }
        true
    }
}

/// The cell at `(x, y)` shares no color with its left or lower neighbor.
pub open spec fn no_conflict_at(m: BoardModel, x: int, y: int) -> bool {
    m.cell(x, y) != 0 ==> (x > 0 ==> m.cell(x - 1, y) != m.cell(x, y)) && (y > 0 ==> m.cell(
        x,
        y - 1,
    ) != m.cell(x, y))
}

/// If no cell conflicts with its left or lower neighbor, no cell has a
/// same-colored neighbor in any direction.
proof fn lemma_no_conflicts_deadlocked(m: BoardModel)
    requires
        forall|x: int, y: int| m.in_bounds(x, y) ==> #[trigger] no_conflict_at(m, x, y),
    ensures
        deadlocked(m),
{
    assert forall|x: int, y: int|
        m.in_bounds(x, y) && #[trigger] m.cell(x, y) != 0 implies !has_same_neighbor(m, x, y) by {
        if has_same_neighbor(m, x, y) {
            let (qx, qy) = choose|qx: int, qy: int|
                m.in_bounds(qx, qy) && adj((x, y), (qx, qy)) && #[trigger] m.cell(qx, qy) == m.cell(
                    x,
                    y,
                );
            assert(no_conflict_at(m, x, y));
            assert(no_conflict_at(m, qx, qy));
            assert(m.cell(qx, qy) != 0);
            if qx == x - 1 || qy == y - 1 {
                assert(false);
            } else {
                assert(qx == x + 1 || qy == y + 1);
                assert(false);
            }
        }
    }
}


} // verus!
