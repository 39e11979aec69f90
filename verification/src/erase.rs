//! Erasure with gravity-driven compaction: removing a component, letting the
//! cells above fall down (per-column stable packing), and shifting empty
//! columns out to the right (column-wise packing).

use vstd::prelude::*;
use crate::board::{Board, BoardModel, lemma_index_in_range, lemma_index_injective};
use crate::component::{
    connected, contains_coord, has_same_neighbor, is_group_path, adj,
    lemma_contains_push, lemma_connected_refl, lemma_connected_step,
    lemma_connected_ne_gives_neighbor,
};
use crate::seq_util::{
    count_nz, filter_nz, zero_seq, lemma_count_nz_all_nonzero, lemma_count_nz_all_zero,
    lemma_count_nz_concat, lemma_count_nz_zero_one, lemma_filter_nz_props,
    lemma_filter_nz_take_step,
};
use vstd::pervasive::VecAdditionalExecFns;

verus! {

/// A column after gravity: its nonzero cells in order at the bottom, zeros
/// above them.
pub open spec fn pack_column(col: Seq<u8>) -> Seq<u8> {
    filter_nz(col) + zero_seq((col.len() - filter_nz(col).len()) as nat)
}

/// Whether a column holds no tile at all.
pub open spec fn col_empty(col: Seq<u8>) -> bool {
    forall|j: int| 0 <= j < col.len() ==> col[j] == 0
}

/// The non-empty columns of `cols`, in order.
pub open spec fn filter_nonempty_cols(cols: Seq<Seq<u8>>) -> Seq<Seq<u8>>
    decreases cols.len(),
{
    if cols.len() == 0 {
        Seq::empty()
    } else {
        filter_nonempty_cols(cols.drop_last()) + if col_empty(cols.last()) {
            Seq::<Seq<u8>>::empty()
        } else {
            seq![cols.last()]
        }
    }
}

/// The board as a sequence of its columns, left to right.
pub open spec fn columns_of(m: BoardModel) -> Seq<Seq<u8>> {
    Seq::new(m.w, |x: int| m.column(x))
}

/// Each column after gravity.
pub open spec fn settled_columns(m: BoardModel) -> Seq<Seq<u8>> {
    columns_of(m).map_values(|col: Seq<u8>| pack_column(col))
}

/// The non-empty columns shifted left, with empty columns padding the right.
pub open spec fn compacted_columns(cols: Seq<Seq<u8>>, w: nat, h: nat) -> Seq<Seq<u8>> {
    let kept = filter_nonempty_cols(cols);
    kept + Seq::new((w - kept.len()) as nat, |x: int| zero_seq(h))
}

/// The columns of `m` after gravity and leftward compaction.
pub open spec fn packed_columns(m: BoardModel) -> Seq<Seq<u8>> {
    compacted_columns(settled_columns(m), m.w, m.h)
}

/// `m` with the whole component at `(sx, sy)` removed, before any packing.
pub open spec fn erased_model(m: BoardModel, sx: int, sy: int) -> BoardModel {
    BoardModel {
        w: m.w,
        h: m.h,
        cells: Seq::new(
            m.cells.len(),
            |i: int|
                if connected(m, sx, sy, i / (m.h as int), i % (m.h as int)) {
                    0u8
                } else {
                    m.cells[i]
                },
        ),
    }
}

/// Gravity has been applied: within each column no empty cell sits below a tile.
pub open spec fn gravity_settled(m: BoardModel) -> bool {
    forall|x: int, y1: int, y2: int|
        #![trigger m.cell(x, y1), m.cell(x, y2)]
        m.in_bounds(x, y1) && m.in_bounds(x, y2) && y1 < y2 && m.cell(x, y1) == 0 ==> m.cell(
            x,
            y2,
        ) == 0
}

/// Compaction has been applied: no empty column sits left of a non-empty one.
pub open spec fn columns_compacted(m: BoardModel) -> bool {
    forall|x1: int, x2: int|
        0 <= x1 < x2 < m.w && col_empty(#[trigger] m.column(x1)) ==> col_empty(
            #[trigger] m.column(x2),
        )
}

/// Flat indices of distinct columns do not collide.
proof fn lemma_col_disjoint(h: nat, x: int, k: int, j: int)
    requires
        0 <= j < h,
        0 <= x,
        0 <= k,
        k != x,
    ensures
        h * x + j < h * k || h * x + j >= h * k + h,
{
    assert(h * x + j < h * k || h * x + j >= h * k + h) by (nonlinear_arith)
        requires
            0 <= j < h,
            0 <= x,
            0 <= k,
            k != x;
}

/// Scanning one more column extends the non-empty filtering.
proof fn lemma_filter_cols_take_step(cols: Seq<Seq<u8>>, j: int)
    requires
        0 <= j < cols.len(),
    ensures
        filter_nonempty_cols(cols.take(j + 1)) == filter_nonempty_cols(cols.take(j)) + (
        if col_empty(cols[j]) {
            Seq::<Seq<u8>>::empty()
        } else {
            seq![cols[j]]
        }),
{
    let t = cols.take(j + 1);
    assert(t.drop_last() =~= cols.take(j));
    assert(t.last() == cols[j]);
}

proof fn lemma_filter_cols_len(cols: Seq<Seq<u8>>)
    ensures
        filter_nonempty_cols(cols).len() <= cols.len(),
    decreases cols.len(),
{
    if cols.len() > 0 {
        lemma_filter_cols_len(cols.drop_last());
    }
}

impl Board {
    /// Applies gravity to every column: a stable partition that moves each
    /// column's tiles to the bottom, in order, and fills the rest with zeros.
    #[verifier::loop_isolation(false)]
    pub(crate) fn pack_cellwise(&mut self)
        requires
            old(self).wf(),
        ensures
            final(self).wf(),
            final(self).model().w == old(self).model().w,
            final(self).model().h == old(self).model().h,
            forall|x: int|
                0 <= x < old(self).model().w ==> final(self).model().column(x) == pack_column(
                    #[trigger] old(self).model().column(x),
                ),
    {
        let ghost m0 = self.model();
        let w = self.width();
        let h = self.height();
        let mut x: usize = 0;
        while x < w
            invariant
                x <= w,
                self.model().w == m0.w,
                self.model().h == m0.h,
                self.model().cells.len() == m0.cells.len(),
                self.wf(),
                forall|x2: int|
                    0 <= x2 < x ==> self.model().column(x2) == pack_column(
                        #[trigger] m0.column(x2),
                    ),
                forall|x2: int| x <= x2 < w ==> self.model().column(x2) == #[trigger] m0.column(x2),
            decreases w - x,
        {
            let ghost mcol = self.model();
            let ghost col0 = self.model().column(x as int);
            let base = self.idx(x, 0);
            proof {
                lemma_index_in_range(self.model(), x as int, 0);
                assert(col0.len() == h);
            }
            let mut i: usize = 0;
            let mut j: usize = 0;
            while j < h
                invariant
                    i <= j <= h,
                    self.model().w == m0.w,
                    self.model().h == m0.h,
                    self.model().cells.len() == m0.cells.len(),
                    self.wf(),
                    forall|t: int|
                        0 <= t < self.model().cells.len() && !(base <= t < base + i)
                            ==> self.model().cells[t] == mcol.cells[t],
                    self.model().cells.subrange(base as int, base + i) =~= filter_nz(
                        col0.take(j as int),
                    ),
                decreases h - j,
            {
                proof {
                    lemma_index_in_range(self.model(), x as int, j as int);
                    lemma_index_in_range(self.model(), x as int, i as int);
                    assert(col0[j as int] == mcol.cells[base + j]);
                    lemma_filter_nz_take_step(col0, j as int);
                    lemma_filter_nz_props(col0.take(j as int));
                }
                let bj = self.idx(x, j);
                proof {
                    self.lemma_cells_view();
                    assert(bj == base + j);
                }
                let v = self.cells[bj];
                proof {
                    assert(v == mcol.cells[base + j]);
                }
                if v != 0 {
                    let bi = self.idx(x, i);
                    let ghost before = self.model().cells;
                    proof {
                        self.lemma_cells_view();
                    }
                    self.cells.set(bi, v);
                    proof {
                        self.lemma_cells_view();
                        assert(self.model().cells =~= before.update(base + i, v));
                        assert(self.model().cells.subrange(base as int, base + i + 1) =~= filter_nz(
                            col0.take(j + 1),
                        ));
                    }
                    i = i + 1;
                }
                j = j + 1;
            }
            proof {
                assert(col0.take(h as int) =~= col0);
                lemma_filter_nz_props(col0);
            }
            let ghost i_fin = i as int;
            let ghost mid = self.model();
            let mut j2: usize = i;
            while j2 < h
                invariant
                    i_fin <= j2 <= h,
                    self.model().w == m0.w,
                    self.model().h == m0.h,
                    self.model().cells.len() == m0.cells.len(),
                    self.wf(),
                    forall|t: int|
                        0 <= t < self.model().cells.len() && !(base + i_fin <= t < base + j2)
                            ==> self.model().cells[t] == mid.cells[t],
                    forall|t: int|
                        base + i_fin <= t < base + j2 ==> self.model().cells[t] == 0,
                decreases h - j2,
            {
                proof {
                    lemma_index_in_range(self.model(), x as int, j2 as int);
                }
                let bj2 = self.idx(x, j2);
                let ghost before = self.model().cells;
                proof {
                    self.lemma_cells_view();
                }
                self.cells.set(bj2, 0);
                proof {
                    self.lemma_cells_view();
                    assert(self.model().cells =~= before.update(base + j2, 0u8));
                }
                j2 = j2 + 1;
            }
            proof {
                // The column is packed, other columns are untouched.
                lemma_filter_nz_props(col0);
                assert(self.model().column(x as int) =~= pack_column(col0)) by {
                    assert forall|t: int| 0 <= t < h implies self.model().cells[base + t]
                        == pack_column(col0)[t] by {
                        lemma_index_in_range(self.model(), x as int, t);
                        if t < i_fin {
                            assert(self.model().cells[base + t] == mid.cells[base + t]);
                            assert(mid.cells.subrange(base as int, base + i_fin)[t] == mid.cells[
                                base + t]);
                        }
                    }
                }
                assert forall|x2: int|
                    0 <= x2 < w && x2 != x as int implies self.model().column(x2) == mcol.column(
                    x2,
                ) by {
                    assert forall|t: int|
                        0 <= t < h implies #[trigger] self.model().column(x2)[t] == mcol.column(
                        x2,
                    )[t] by {
                        lemma_index_in_range(self.model(), x2, t);
                        lemma_index_in_range(mcol, x2, t);
                        lemma_col_disjoint(m0.h, x2, x as int, t);
                        assert(self.model().cells[m0.h * x2 + t] == mid.cells[m0.h * x2 + t]);
                        assert(mid.cells[m0.h * x2 + t] == mcol.cells[m0.h * x2 + t]);
                    }
                    lemma_index_in_range(self.model(), x2, 0);
                    lemma_index_in_range(mcol, x2, 0);
                    assert(self.model().column(x2) =~= mcol.column(x2));
                }
            }
            x = x + 1;
        }
    }

    /// Shifts every non-empty column left over the empty ones, preserving
    /// their order and leaving only empty columns on the right.
    #[verifier::loop_isolation(false)]
    pub(crate) fn pack_colwise(&mut self)
        requires
            old(self).wf(),
        ensures
            final(self).wf(),
            final(self).model().w == old(self).model().w,
            final(self).model().h == old(self).model().h,
            columns_of(final(self).model()) == compacted_columns(
                columns_of(old(self).model()),
                old(self).model().w,
                old(self).model().h,
            ),
    {
        let ghost m0 = self.model();
        let ghost cols0 = columns_of(m0);
        let w = self.width();
        let h = self.height();
        let mut target: usize = 0;
        let mut x: usize = 0;
        while x < w
            invariant
                target <= x <= w,
                self.model().w == m0.w,
                self.model().h == m0.h,
                self.model().cells.len() == m0.cells.len(),
                self.wf(),
                filter_nonempty_cols(cols0.take(x as int)).len() == target,
                forall|k: int|
                    0 <= k < target ==> #[trigger] self.model().column(k) == filter_nonempty_cols(
                        cols0.take(x as int),
                    )[k],
                forall|k: int| target <= k < x ==> col_empty(#[trigger] self.model().column(k)),
                forall|k: int| x <= k < w ==> #[trigger] self.model().column(k) == cols0[k],
            decreases w - x,
        {
            let ghost mx = self.model();
            proof {
                lemma_index_in_range(mx, x as int, 0);
            }
            let mut empty = true;
            let mut j: usize = 0;
            while j < h
                invariant
                    j <= h,
                    empty == (forall|t: int|
                        0 <= t < j ==> #[trigger] mx.column(x as int)[t] == 0),
                decreases h - j,
            {
                proof {
                    lemma_index_in_range(mx, x as int, j as int);
                }
                let cj = self.at(x, j);
                if cj != 0 {
                    proof {
                        assert(mx.column(x as int)[j as int] == cj);
                    }
                    empty = false;
                }
                j = j + 1;
            }
            proof {
                assert(mx.column(x as int) == cols0[x as int]);
                assert(empty == col_empty(cols0[x as int]));
                lemma_filter_cols_take_step(cols0, x as int);
            }
            let ghost target0 = target as int;
            if !empty {
                if target < x {
                    let ghost tcol = target as int;
                    let mut j: usize = 0;
                    while j < h
                        invariant
                            j <= h,
                            target < x,
                            self.model().w == m0.w,
                            self.model().h == m0.h,
                            self.model().cells.len() == m0.cells.len(),
                            self.wf(),
                            forall|t: int|
                                0 <= t < self.model().cells.len() && !(m0.h * tcol <= t < m0.h
                                    * tcol + j) ==> self.model().cells[t] == mx.cells[t],
                            forall|t: int|
                                0 <= t < j ==> #[trigger] self.model().column(tcol)[t]
                                    == mx.column(x as int)[t],
                        decreases h - j,
                    {
                        proof {
                            lemma_index_in_range(self.model(), x as int, j as int);
                            lemma_index_in_range(self.model(), tcol, j as int);
                            lemma_index_in_range(mx, x as int, j as int);
                            lemma_col_disjoint(m0.h, x as int, tcol, j as int);
                            assert(self.model().cells[m0.h * (x as int) + j] == mx.cells[m0.h * (
                            x as int) + j]);
                        }
                        let v = self.at(x, j);
                        proof {
                            assert(v == mx.column(x as int)[j as int]);
                        }
                        let it = self.idx(target, j);
                        let ghost mbefore = self.model();
                        let ghost before = self.model().cells;
                        proof {
                            self.lemma_cells_view();
                        }
                        self.cells.set(it, v);
                        proof {
                            self.lemma_cells_view();
                            assert(self.model().cells =~= before.update(m0.h * tcol + j, v));
                            assert forall|t: int|
                                0 <= t < j + 1 implies #[trigger] self.model().column(tcol)[t]
                                == mx.column(x as int)[t] by {
                                lemma_index_in_range(self.model(), tcol, t);
                                lemma_index_in_range(mbefore, tcol, t);
                                lemma_index_in_range(mx, x as int, t);
                                if t < j {
                                    assert(self.model().cells[m0.h * tcol + t] == before[m0.h * tcol
                                        + t]);
                                    assert(mbefore.column(tcol)[t] == before[m0.h * tcol + t]);
                                } else {
                                    assert(self.model().cells[m0.h * tcol + t] == v);
                                }
                            }
                        }
                        j = j + 1;
                    }
                    proof {
                        lemma_index_in_range(self.model(), tcol, 0);
                        lemma_index_in_range(mx, x as int, 0);
                        assert(self.model().column(tcol) =~= mx.column(x as int));
                    }
                    let ghost mc = self.model();
                    let mut j: usize = 0;
                    while j < h
                        invariant
                            j <= h,
                            target < x,
                            self.model().w == m0.w,
                            self.model().h == m0.h,
                            self.model().cells.len() == m0.cells.len(),
                            self.wf(),
                            forall|t: int|
                                0 <= t < self.model().cells.len() && !(m0.h * (x as int) <= t
                                    < m0.h * (x as int) + j) ==> self.model().cells[t]
                                    == mc.cells[t],
                            forall|t: int|
                                0 <= t < j ==> #[trigger] self.model().column(x as int)[t] == 0,
                        decreases h - j,
                    {
                        let ix = self.idx(x, j);
                        let ghost mbefore = self.model();
                        let ghost before = self.model().cells;
                        proof {
                            lemma_index_in_range(self.model(), x as int, j as int);
                            self.lemma_cells_view();
                        }
                        self.cells.set(ix, 0);
                        proof {
                            self.lemma_cells_view();
                            assert(self.model().cells =~= before.update(
                                m0.h * (x as int) + j,
                                0u8,
                            ));
                            assert forall|t: int|
                                0 <= t < j + 1 implies #[trigger] self.model().column(x as int)[t]
                                == 0 by {
                                lemma_index_in_range(self.model(), x as int, t);
                                lemma_index_in_range(mbefore, x as int, t);
                                if t < j {
                                    assert(self.model().cells[m0.h * (x as int) + t] == before[m0.h
                                        * (x as int) + t]);
                                    assert(mbefore.column(x as int)[t] == before[m0.h * (x as int)
                                        + t]);
                                } else {
                                    assert(self.model().cells[m0.h * (x as int) + t] == 0);
                                }
                            }
                        }
                        j = j + 1;
                    }
                    proof {
                        let mnow = self.model();
                        lemma_index_in_range(mnow, x as int, 0);
                        assert(col_empty(mnow.column(x as int)));
                        // Columns other than the source and the target kept
                        // their cells through both inner loops.
                        assert forall|k: int|
                            0 <= k < w && k != tcol && k != x as int implies #[trigger] mnow.column(
                            k,
                        ) == mx.column(k) by {
                            assert forall|t: int|
                                0 <= t < h implies #[trigger] mnow.column(k)[t] == mx.column(
                                k,
                            )[t] by {
                                lemma_index_in_range(mnow, k, t);
                                lemma_index_in_range(mx, k, t);
                                lemma_col_disjoint(m0.h, k, tcol, t);
                                lemma_col_disjoint(m0.h, k, x as int, t);
                                assert(mnow.cells[m0.h * k + t] == mc.cells[m0.h * k + t]);
                                assert(mc.cells[m0.h * k + t] == mx.cells[m0.h * k + t]);
                            }
                            lemma_index_in_range(mnow, k, 0);
                            lemma_index_in_range(mx, k, 0);
                            assert(mnow.column(k) =~= mx.column(k));
                        }
                        // The copied column kept its cells through the zeroing.
                        assert forall|t: int|
                            0 <= t < h implies #[trigger] mnow.column(tcol)[t] == mc.column(
                            tcol,
                        )[t] by {
                            lemma_index_in_range(mnow, tcol, t);
                            lemma_index_in_range(mc, tcol, t);
                            lemma_col_disjoint(m0.h, tcol, x as int, t);
                            assert(mnow.cells[m0.h * tcol + t] == mc.cells[m0.h * tcol + t]);
                        }
                        lemma_index_in_range(mnow, tcol, 0);
                        lemma_index_in_range(mc, tcol, 0);
                        assert(mnow.column(tcol) =~= mc.column(tcol));
                        assert(mnow.column(tcol) == cols0[x as int]);
                    }
                }
                target = target + 1;
            }
            proof {
                let keptx = filter_nonempty_cols(cols0.take(x as int));
                let keptx1 = filter_nonempty_cols(cols0.take(x as int + 1));
                if empty {
                    assert(keptx1 =~= keptx);
                } else {
                    assert(keptx1 =~= keptx + seq![cols0[x as int]]);
                    assert(keptx1.len() == target0 + 1);
                    assert forall|k: int|
                        0 <= k < target implies #[trigger] self.model().column(k) == keptx1[k] by {
                        if k < target0 {
                            assert(keptx1[k] == keptx[k]);
                        } else {
                            assert(k == target0);
                            assert(keptx1[k] == cols0[x as int]);
                            if target0 == x as int {
                                assert(self.model().column(k) == cols0[x as int]);
                            }
                        }
                    }
                }
            }
            x = x + 1;
        }
        proof {
            assert(cols0.take(w as int) =~= cols0);
            lemma_filter_cols_len(cols0);
            let kept = filter_nonempty_cols(cols0);
            let padded = compacted_columns(cols0, m0.w, m0.h);
            assert(padded.len() == m0.w);
            assert forall|k: int|
                0 <= k < w implies #[trigger] columns_of(self.model())[k] == padded[k] by {
                if k < target {
                    assert(self.model().column(k) == kept[k]);
                } else {
                    lemma_index_in_range(self.model(), k, 0);
                    assert(col_empty(self.model().column(k)));
                    assert(self.model().column(k) =~= zero_seq(m0.h));
                    assert(padded[k] == zero_seq(m0.h));
                }
            }
            assert(columns_of(self.model()) =~= padded);
        }
    }
}

/// Total nonzero count over a sequence of columns.
pub open spec fn count_nz_cols(cols: Seq<Seq<u8>>) -> nat
    decreases cols.len(),
{
    if cols.len() == 0 {
        0
    } else {
        count_nz_cols(cols.drop_last()) + count_nz(cols.last())
    }
}

proof fn lemma_count_cols_concat(a: Seq<Seq<u8>>, b: Seq<Seq<u8>>)
    ensures
        count_nz_cols(a + b) == count_nz_cols(a) + count_nz_cols(b),
    decreases b.len(),
{
    if b.len() == 0 {
        assert(a + b =~= a);
    } else {
        assert((a + b).drop_last() =~= a + b.drop_last());
        lemma_count_cols_concat(a, b.drop_last());
    }
}

/// Dropping empty columns does not change the total count.
proof fn lemma_count_cols_filter(cols: Seq<Seq<u8>>)
    ensures
        count_nz_cols(filter_nonempty_cols(cols)) == count_nz_cols(cols),
    decreases cols.len(),
{
    if cols.len() > 0 {
        lemma_count_cols_filter(cols.drop_last());
        if col_empty(cols.last()) {
            lemma_count_nz_all_zero(cols.last());
            assert(filter_nonempty_cols(cols) =~= filter_nonempty_cols(cols.drop_last()));
        } else {
            lemma_count_cols_concat(filter_nonempty_cols(cols.drop_last()), seq![cols.last()]);
            assert(count_nz_cols(Seq::<Seq<u8>>::empty()) == 0);
            assert(seq![cols.last()].drop_last() =~= Seq::<Seq<u8>>::empty());
            assert(seq![cols.last()].last() == cols.last());
            assert(count_nz_cols(seq![cols.last()]) == count_nz(cols.last()));
        }
    }
}

proof fn lemma_count_cols_all_empty(cols: Seq<Seq<u8>>)
    requires
        forall|k: int| 0 <= k < cols.len() ==> col_empty(#[trigger] cols[k]),
    ensures
        count_nz_cols(cols) == 0,
    decreases cols.len(),
{
    if cols.len() > 0 {
        lemma_count_cols_all_empty(cols.drop_last());
        lemma_count_nz_all_zero(cols.last());
    }
}

proof fn lemma_count_cols_pointwise(a: Seq<Seq<u8>>, b: Seq<Seq<u8>>)
    requires
        a.len() == b.len(),
        forall|k: int| 0 <= k < a.len() ==> count_nz(#[trigger] a[k]) == count_nz(b[k]),
    ensures
        count_nz_cols(a) == count_nz_cols(b),
    decreases a.len(),
{
    if a.len() > 0 {
        assert(a.last() == a[a.len() - 1] && b.last() == b[b.len() - 1]);
        assert forall|k: int| 0 <= k < a.drop_last().len() implies count_nz(
            #[trigger] a.drop_last()[k],
        ) == count_nz(b.drop_last()[k]) by {
            assert(a.drop_last()[k] == a[k] && b.drop_last()[k] == b[k]);
        }
        lemma_count_cols_pointwise(a.drop_last(), b.drop_last());
    }
}

/// Gravity keeps each column's tile count.
proof fn lemma_count_pack_column(col: Seq<u8>)
    ensures
        count_nz(pack_column(col)) == count_nz(col),
        pack_column(col).len() == col.len(),
        forall|t: int| 0 <= t < filter_nz(col).len() ==> #[trigger] pack_column(col)[t] != 0,
        forall|t: int| filter_nz(col).len() <= t < col.len() ==> #[trigger] pack_column(col)[t] == 0,
{
    lemma_filter_nz_props(col);
    let z = zero_seq((col.len() - filter_nz(col).len()) as nat);
    lemma_count_nz_concat(filter_nz(col), z);
    lemma_count_nz_all_zero(z);
    lemma_count_nz_all_nonzero(filter_nz(col));
}

/// The whole board's tile count is the sum over its columns.
proof fn lemma_count_cols_prefix(m: BoardModel, x: nat)
    requires
        m.wf(),
        x <= m.w,
    ensures
        count_nz(m.cells.take((m.h * x) as int)) == count_nz_cols(columns_of(m).take(x as int)),
    decreases x,
{
    if x == 0 {
        assert(m.h * x == 0) by (nonlinear_arith)
            requires x == 0;
        assert(m.cells.take(0) =~= Seq::<u8>::empty());
        assert(columns_of(m).take(0) =~= Seq::<Seq<u8>>::empty());
        assert(count_nz(Seq::<u8>::empty()) == 0);
        assert(count_nz_cols(Seq::<Seq<u8>>::empty()) == 0);
    } else {
        lemma_count_cols_prefix(m, (x - 1) as nat);
        lemma_index_in_range(m, x - 1, 0);
        assert(m.h * x == m.h * (x - 1) + m.h && m.h * x <= m.w * m.h) by (nonlinear_arith)
            requires x >= 1, x <= m.w, m.h >= 0;
        assert(m.cells.take((m.h * x) as int) =~= m.cells.take(m.h * (x - 1)) + m.column(x - 1));
        lemma_count_nz_concat(m.cells.take(m.h * (x - 1)), m.column(x - 1));
        assert(columns_of(m).take(x as int).drop_last() =~= columns_of(m).take(x - 1));
        assert(columns_of(m).take(x as int).last() == m.column(x - 1));
    }
}

proof fn lemma_board_count_cols(m: BoardModel)
    requires
        m.wf(),
    ensures
        count_nz(m.cells) == count_nz_cols(columns_of(m)),
{
    lemma_count_cols_prefix(m, m.w);
    assert(m.h * m.w == m.w * m.h) by (nonlinear_arith);
    assert(m.cells.take((m.h * m.w) as int) =~= m.cells);
    assert(columns_of(m).take(m.w as int) =~= columns_of(m));
}

/// Which columns the filtering keeps: each kept column is one of the
/// originals and is not empty.
proof fn lemma_filter_cols_elems(cols: Seq<Seq<u8>>)
    ensures
        forall|k: int|
            0 <= k < filter_nonempty_cols(cols).len() ==> !col_empty(
                #[trigger] filter_nonempty_cols(cols)[k],
            ) && exists|t: int| 0 <= t < cols.len() && filter_nonempty_cols(cols)[k] == #[trigger] cols[t],
    decreases cols.len(),
{
    if cols.len() > 0 {
        lemma_filter_cols_elems(cols.drop_last());
        let f = filter_nonempty_cols(cols);
        let fd = filter_nonempty_cols(cols.drop_last());
        assert forall|k: int|
            0 <= k < f.len() implies !col_empty(#[trigger] f[k]) && exists|t: int|
            0 <= t < cols.len() && f[k] == #[trigger] cols[t] by {
            if k < fd.len() {
                assert(f[k] == fd[k]);
                let t = choose|t: int| 0 <= t < cols.drop_last().len() && fd[k] == #[trigger] cols.drop_last()[t];
                assert(cols.drop_last()[t] == cols[t]);
                assert(f[k] == cols[t]);
            } else {
                assert(!col_empty(cols.last()));
                assert(f[k] == cols.last());
                assert(cols.last() == cols[cols.len() - 1]);
            }
        }
    }
}

/// A board whose columns are the packed columns of some board satisfies the
/// stable-state invariant: gravity settled, columns compacted.
proof fn lemma_packed_props(m0: BoardModel, m2: BoardModel)
    requires
        m0.wf(),
        m2.wf(),
        m2.w == m0.w,
        m2.h == m0.h,
        columns_of(m2) == packed_columns(m0),
    ensures
        gravity_settled(m2),
        columns_compacted(m2),
{
    let settled = settled_columns(m0);
    let kept = filter_nonempty_cols(settled);
    lemma_filter_cols_elems(settled);
    lemma_filter_cols_len(settled);
    assert(settled.len() == m0.w);
    assert forall|x: int| 0 <= x < m2.w implies (#[trigger] m2.column(x)).len() == m2.h && (
    if x < kept.len() {
        m2.column(x) == kept[x]
    } else {
        m2.column(x) == zero_seq(m0.h)
    }) by {
        lemma_index_in_range(m2, x, 0);
        assert(columns_of(m2)[x] == m2.column(x));
        assert(packed_columns(m0)[x] == (if x < kept.len() {
            kept[x]
        } else {
            zero_seq(m0.h)
        }));
    }
    assert forall|x: int, y1: int, y2: int|
        #![trigger m2.cell(x, y1), m2.cell(x, y2)]
        m2.in_bounds(x, y1) && m2.in_bounds(x, y2) && y1 < y2 && m2.cell(x, y1) == 0 implies m2.cell(
        x,
        y2,
    ) == 0 by {
        lemma_index_in_range(m2, x, y1);
        lemma_index_in_range(m2, x, y2);
        if x < kept.len() {
            let t = choose|t: int| 0 <= t < settled.len() && kept[x] == #[trigger] settled[t];
            lemma_index_in_range(m0, t, 0);
            assert(settled[t] == pack_column(m0.column(t)));
            lemma_count_pack_column(m0.column(t));
            let fl = filter_nz(m0.column(t)).len() as int;
            assert(m2.column(x)[y1] == 0);
            assert(y1 >= fl);
        }
    }
    assert forall|x1: int, x2: int|
        0 <= x1 < x2 < m2.w && col_empty(#[trigger] m2.column(x1)) implies col_empty(
        #[trigger] m2.column(x2),
    ) by {
        lemma_index_in_range(m2, x1, 0);
        lemma_index_in_range(m2, x2, 0);
        if x1 < kept.len() {
            assert(!col_empty(kept[x1]));
            assert(!col_empty(m2.column(x1)));
        }
        assert(x1 >= kept.len());
        assert(m2.column(x2) == zero_seq(m0.h));
    }
}

/// The coordinate addressed by a flat index.
pub(crate) proof fn lemma_coord_of_index(h: int, w: int, i: int)
    requires
        h > 0,
        w >= 0,
        0 <= i < w * h,
    ensures
        0 <= i / h < w,
        0 <= i % h < h,
        h * (i / h) + (i % h) == i,
{
    vstd::arithmetic::div_mod::lemma_fundamental_div_mod(i, h);
    vstd::arithmetic::div_mod::lemma_mod_division_less_than_divisor(i, h);
    vstd::arithmetic::div_mod::lemma_div_pos_is_pos(i, h);
    assert(i / h < w) by (nonlinear_arith)
        requires
            h * (i / h) + (i % h) == i,
            i < w * h,
            0 <= i % h,
            i / h >= 0,
            h > 0;
}

impl Board {
    /// Erases the component at `(x, y)` and packs the board, returning how
    /// many cells were removed. An empty cell or a cell with no same-colored
    /// neighbor removes nothing and leaves the board unchanged; otherwise the
    /// whole component (at least two cells) is removed, gravity and leftward
    /// compaction are applied, and the returned count is exactly the number
    /// of tiles that disappeared.
    #[verifier::loop_isolation(false)]
    pub fn erase_component(&mut self, x: usize, y: usize) -> (r: usize)
        requires
            old(self).wf(),
            x < old(self).model().w,
            y < old(self).model().h,
        ensures
            final(self).wf(),
            final(self).model().w == old(self).model().w,
            final(self).model().h == old(self).model().h,
            (r == 0) <==> (old(self).model().cell(x as int, y as int) == 0 || !has_same_neighbor(
                old(self).model(),
                x as int,
                y as int,
            )),
            r == 0 ==> final(self).model() == old(self).model(),
            r != 0 ==> r >= 2 && columns_of(final(self).model()) == packed_columns(
                erased_model(old(self).model(), x as int, y as int),
            ) && count_nz(final(self).model().cells) + r == count_nz(old(self).model().cells)
                && gravity_settled(final(self).model()) && columns_compacted(final(self).model()),
    {
        let ghost m0 = self.model();
        let color = self.at(x, y);
        if color == 0 {
            return 0;
        }
        let comp = self.flood_fill(x, y);
        if comp.len() == 1 {
            proof {
                if has_same_neighbor(m0, x as int, y as int) {
                    let (qx, qy) = choose|qx: int, qy: int|
                        m0.in_bounds(qx, qy) && adj((x as int, y as int), (qx, qy))
                            && #[trigger] m0.cell(qx, qy) == m0.cell(x as int, y as int);
                    lemma_connected_refl(m0, x as int, y as int);
                    lemma_connected_step(m0, x as int, y as int, x as int, y as int, qx, qy);
                    assert(contains_coord(comp@, qx, qy));
                    let k1 = choose|k: int|
                        0 <= k < comp@.len() && (#[trigger] comp@[k]).0 == qx && comp@[k].1 == qy;
                    let k2 = choose|k: int|
                        0 <= k < comp@.len() && (#[trigger] comp@[k]).0 == x as int && comp@[k].1
                            == y as int;
                    assert(k1 == 0 && k2 == 0);
                    assert(false);
                }
            }
            return 0;
        }
        proof {
            // A second group member forces a same-colored neighbor here.
            let k0 = choose|k: int|
                0 <= k < comp@.len() && (#[trigger] comp@[k]).0 == x as int && comp@[k].1
                    == y as int;
            let ghost k1: int = if k0 == 0 { 1 } else { 0 };
            assert(comp@[k1] != comp@[k0]);
            let path = choose|path: Seq<(int, int)>|
                #[trigger] is_group_path(m0, m0.cell(x as int, y as int), path) && path.first()
                    == (x as int, y as int) && path.last() == (comp@[k1].0 as int, comp@[k1].1 as int);
            assert(path.last() != path.first());
            lemma_connected_ne_gives_neighbor(m0, m0.cell(x as int, y as int), path);
        }
        let n_comp = comp.len();
        let mut k: usize = 0;
        while k < n_comp
            invariant
                k <= n_comp,
                n_comp == comp@.len(),
                self.model().w == m0.w,
                self.model().h == m0.h,
                self.model().cells.len() == m0.cells.len(),
                self.wf(),
                forall|a: int, b: int|
                    m0.in_bounds(a, b) ==> #[trigger] self.model().cell(a, b) == (
                    if contains_coord(comp@.take(k as int), a, b) {
                        0u8
                    } else {
                        m0.cell(a, b)
                    }),
                count_nz(self.model().cells) + k == count_nz(m0.cells),
            decreases n_comp - k,
        {
            let (cx, cy) = comp[k];
            proof {
                assert(comp@[k as int] == (cx, cy));
                assert(m0.in_bounds(cx as int, cy as int));
                if contains_coord(comp@.take(k as int), cx as int, cy as int) {
                    let t = choose|t: int|
                        0 <= t < comp@.take(k as int).len() && (#[trigger] comp@.take(
                            k as int,
                        )[t]).0 == cx as int && comp@.take(k as int)[t].1 == cy as int;
                    assert(comp@.take(k as int)[t] == comp@[t]);
                    assert(comp@[t] == comp@[k as int]);
                    assert(false);
                }
                assert(self.model().cell(cx as int, cy as int) == m0.cell(cx as int, cy as int));
                assert(m0.cell(cx as int, cy as int) == color);
                lemma_index_in_range(self.model(), cx as int, cy as int);
            }
            let i = self.idx(cx, cy);
            let ghost mbefore = self.model();
            proof {
                self.lemma_cells_view();
                lemma_count_nz_zero_one(self.model().cells, i as int);
            }
            self.cells.set(i, 0);
            proof {
                self.lemma_cells_view();
                assert(self.model().cells =~= mbefore.cells.update(i as int, 0u8));
                assert(comp@.take(k + 1) =~= comp@.take(k as int).push(comp@[k as int]));
                lemma_contains_push(comp@.take(k as int), (cx, cy));
                assert forall|a: int, b: int|
                    m0.in_bounds(a, b) implies #[trigger] self.model().cell(a, b) == (
                if contains_coord(comp@.take(k + 1), a, b) {
                    0u8
                } else {
                    m0.cell(a, b)
                }) by {
                    lemma_index_in_range(self.model(), a, b);
                    lemma_index_in_range(mbefore, a, b);
                    if a == cx as int && b == cy as int {
                        assert(self.model().cells[m0.h * a + b] == 0);
                        assert(contains_coord(comp@.take(k + 1), a, b));
                    } else {
                        if m0.h * a + b == i as int {
                            lemma_index_injective(mbefore, a, b, cx as int, cy as int);
                            assert(false);
                        }
                        assert(self.model().cell(a, b) == mbefore.cell(a, b));
                        if contains_coord(comp@.take(k + 1), a, b) {
                            let t = choose|t: int|
                                0 <= t < k + 1 && (#[trigger] comp@.take(k + 1)[t]).0 == a
                                    && comp@.take(k + 1)[t].1 == b;
                            assert(comp@.take(k + 1)[t] == comp@[t]);
                            assert(t != k);
                            assert(comp@.take(k as int)[t] == comp@[t]);
                            assert(contains_coord(comp@.take(k as int), a, b));
                        }
                    }
                }
            }
            k = k + 1;
        }
        let ghost me = erased_model(m0, x as int, y as int);
        proof {
            // The zeroed board is exactly the erased model.
            assert(comp@.take(n_comp as int) =~= comp@);
            assert forall|i2: int|
                0 <= i2 < m0.cells.len() implies self.model().cells[i2] == me.cells[i2] by {
                lemma_coord_of_index(m0.h as int, m0.w as int, i2);
                let a = i2 / (m0.h as int);
                let b = i2 % (m0.h as int);
                lemma_index_in_range(self.model(), a, b);
                lemma_index_in_range(m0, a, b);
                if contains_coord(comp@, a, b) {
                    let t = choose|t: int|
                        0 <= t < comp@.len() && (#[trigger] comp@[t]).0 == a && comp@[t].1 == b;
                    assert(connected(m0, x as int, y as int, a, b));
                } else {
                    assert(!connected(m0, x as int, y as int, a, b));
                }
            }
            assert(self.model().cells =~= me.cells);
            assert(self.model() =~= me);
        }
        let ghost m_mid = self.model();
        self.pack_cellwise();
        let ghost m_set = self.model();
        proof {
            assert(columns_of(m_set) =~= settled_columns(me)) by {
                assert forall|x2: int|
                    0 <= x2 < me.w implies #[trigger] columns_of(m_set)[x2] == settled_columns(
                    me,
                )[x2] by {
                    assert(columns_of(m_set)[x2] == m_set.column(x2));
                    assert(settled_columns(me)[x2] == pack_column(columns_of(me)[x2]));
                    assert(columns_of(me)[x2] == me.column(x2));
                }
            }
        }
        self.pack_colwise();
        proof {
            let m3 = self.model();
            assert(columns_of(m3) == compacted_columns(columns_of(m_set), m_set.w, m_set.h));
            assert(columns_of(m3) == packed_columns(me));
            lemma_packed_props(me, m3);
            // Tile counts: removal took exactly `n_comp`, packing took none.
            lemma_board_count_cols(m_mid);
            lemma_board_count_cols(m_set);
            lemma_board_count_cols(m3);
            assert forall|k2: int|
                0 <= k2 < columns_of(m_set).len() implies count_nz(
                #[trigger] columns_of(m_set)[k2],
            ) == count_nz(columns_of(m_mid)[k2]) by {
                assert(columns_of(m_set)[k2] == pack_column(columns_of(me)[k2]));
                lemma_count_pack_column(columns_of(me)[k2]);
                assert(columns_of(m_mid)[k2] == m_mid.column(k2));
            }
            lemma_count_cols_pointwise(columns_of(m_set), columns_of(m_mid));
            let kept = filter_nonempty_cols(columns_of(m_set));
            lemma_filter_cols_len(columns_of(m_set));
            let pad = Seq::new((m_set.w - kept.len()) as nat, |x2: int| zero_seq(m_set.h));
            assert(columns_of(m3) == kept + pad);
            lemma_count_cols_concat(kept, pad);
            assert forall|k2: int| 0 <= k2 < pad.len() implies col_empty(#[trigger] pad[k2]) by {
                assert(pad[k2] == zero_seq(m_set.h));
            }
            lemma_count_cols_all_empty(pad);
            lemma_count_cols_filter(columns_of(m_set));
        }
        n_comp
    }
}

} // verus!
