//! The parallel row fold: each tile-row of the matrix is reduced on its own,
//! left to right, and the per-row accumulators come back in row order.
//!
//! Tile-rows are disjoint contiguous chunks of the tile buffer, so rows may
//! be folded concurrently; within a row the order is strictly left to right.
//! The accumulator constructor is handed the exact range of flat tile
//! indices that the row covers.

use core::ops::Range;

use rayon::iter::{IndexedParallelIterator, ParallelIterator};
use rayon::slice::ParallelSlice;
use vstd::prelude::*;

use crate::tile::Tile;
use crate::tiled_mat::TMat;

verus! {

/// The flat tile-index range covered by tile-row `tr` when each tile-row
/// holds `tpr` tiles.
pub open spec fn row_range(tr: int, tpr: int) -> Range<usize> {
    Range { start: (tr * tpr) as usize, end: (tr * tpr + tpr) as usize }
}

/// `r` can be reached from `a0` by folding `op` over `row` from the left:
/// each step takes some value the previous call could have returned.
pub open spec fn fold_chain<Acc, Op: Fn(Acc, &Tile<LTW>) -> Acc, const LTW: usize>(
    op: Op,
    a0: Acc,
    row: Seq<Tile<LTW>>,
    r: Acc,
) -> bool
    decreases row.len(),
{
    if row.len() == 0 {
        r == a0
    } else {
        exists|mid: Acc|
            #[trigger] call_ensures(op, (a0, &row[0]), mid) && fold_chain(
                op,
                mid,
                row.drop_first(),
                r,
            )
    }
}

/// `r` is a valid fold of `row` as tile-row `tr`: it is reachable by `op`
/// from some accumulator that `init` could have produced for that row's
/// tile-index range.
pub open spec fn row_fold_ok<
    Acc,
    Init: Fn(Range<usize>) -> Acc,
    Op: Fn(Acc, &Tile<LTW>) -> Acc,
    const LTW: usize,
>(init: Init, op: Op, tr: int, tpr: int, row: Seq<Tile<LTW>>, r: Acc) -> bool {
    exists|a0: Acc|
        #[trigger] call_ensures(init, (row_range(tr, tpr),), a0) && fold_chain(op, a0, row, r)
}

/// Extending a fold chain by one tile on the right.
proof fn lemma_fold_chain_push<Acc, Op: Fn(Acc, &Tile<LTW>) -> Acc, const LTW: usize>(
    op: Op,
    a0: Acc,
    s: Seq<Tile<LTW>>,
    mid: Acc,
    t: Tile<LTW>,
    r: Acc,
)
    requires
        fold_chain(op, a0, s, mid),
        call_ensures(op, (mid, &t), r),
    ensures
        fold_chain(op, a0, s.push(t), r),
    decreases s.len(),
{
    if s.len() == 0 {
        assert(a0 == mid);
        assert(s.push(t)[0] == t);
        assert(s.push(t).drop_first() =~= Seq::<Tile<LTW>>::empty());
        assert(call_ensures(op, (a0, &s.push(t)[0]), r) && fold_chain(
            op,
            r,
            s.push(t).drop_first(),
            r,
        ));
    } else {
        let m1 = choose|m1: Acc|
            #[trigger] call_ensures(op, (a0, &s[0]), m1) && fold_chain(op, m1, s.drop_first(), mid);
        lemma_fold_chain_push(op, m1, s.drop_first(), mid, t, r);
        assert(s.push(t).drop_first() =~= s.drop_first().push(t));
        assert(s.push(t)[0] == s[0]);
        assert(call_ensures(op, (a0, &s.push(t)[0]), m1) && fold_chain(
            op,
            m1,
            s.push(t).drop_first(),
            r,
        ));
    }
}

/// Fold one tile-row sequentially, left to right: make the accumulator for
/// the row's index range, then fold every tile of the row into it in order.
fn fold_one_row<
    Acc,
    Init: Fn(Range<usize>) -> Acc,
    Op: Fn(Acc, &Tile<LTW>) -> Acc,
    const LTW: usize,
>(tr: usize, tpr: usize, row: &[Tile<LTW>], init: &Init, op: &Op) -> (r: Acc)
    requires
        row@.len() == tpr,
        tr * tpr + tpr <= usize::MAX,
        call_requires(*init, (row_range(tr as int, tpr as int),)),
        forall|a: Acc, t: &Tile<LTW>| call_requires(*op, (a, t)),
    ensures
        row_fold_ok(*init, *op, tr as int, tpr as int, row@, r),
{
    let start = tr * tpr;
    let end = start + tpr;
    let mut acc = init(start..end);
    let ghost a0 = acc;
    let mut i: usize = 0;
    while i < tpr
        invariant
            i <= tpr,
            row@.len() == tpr,
            call_ensures(*init, (row_range(tr as int, tpr as int),), a0),
            fold_chain(*op, a0, row@.subrange(0, i as int), acc),
            forall|a: Acc, t: &Tile<LTW>| call_requires(*op, (a, t)),
        decreases tpr - i,
    {
        let ghost prev = acc;
        acc = op(acc, &row[i]);
        proof {
            lemma_fold_chain_push(*op, a0, row@.subrange(0, i as int), prev, row@[i as int], acc);
            assert(row@.subrange(0, i + 1) =~= row@.subrange(0, i as int).push(row@[i as int]));
        }
        i += 1;
    }
    proof {
        assert(row@.subrange(0, tpr as int) =~= row@);
    }
    acc
}

/// Relies on rayon: `par_chunks_exact(tpr)` splits the tile buffer into
/// consecutive disjoint chunks of exactly `tpr` tiles in order, and
/// `enumerate().map(..).collect()` on that indexed parallel iterator applies
/// the verified `fold_one_row` to each chunk with its chunk index and
/// collects the results in chunk order into a `Vec`.
#[verifier::external_body]
fn par_fold_rows<Acc, Init, Op, const LTW: usize>(
    tiles: &Vec<Tile<LTW>>,
    tpr: usize,
    init: &Init,
    op: &Op,
) -> (r: Vec<Acc>) where
    Acc: Send + Sync,
    Init: Fn(Range<usize>) -> Acc + Send + Sync,
    Op: Fn(Acc, &Tile<LTW>) -> Acc + Send + Sync,

    requires
        tpr >= 1,
        tiles@.len() % (tpr as nat) == 0,
        forall|tr: int|
            0 <= tr < tiles@.len() / (tpr as nat) ==> call_requires(
                *init,
                (row_range(tr, tpr as int),),
            ),
        forall|a: Acc, t: &Tile<LTW>| call_requires(*op, (a, t)),
    ensures
        r@.len() == tiles@.len() / (tpr as nat),
        forall|tr: int|
            0 <= tr < r@.len() ==> row_fold_ok(
                *init,
                *op,
                tr,
                tpr as int,
                tiles@.subrange(tr * (tpr as int), tr * (tpr as int) + tpr as int),
                #[trigger] r@[tr],
            ),
{
    tiles
        .par_chunks_exact(tpr)
        .enumerate()
        .map(|(tr, row)| fold_one_row(tr, tpr, row, init, op))
        .collect()
}

impl<const LTW: usize> TMat<LTW> {
    /// The tiles of tile-row `tr`, in left-to-right order.
    pub open spec fn row_seq(self, tr: int) -> Seq<Tile<LTW>> {
        self.tiles@.subrange(
            tr * (self.spec_tpr() as int),
            tr * (self.spec_tpr() as int) + self.spec_tpr() as int,
        )
    }

    /// Fold every tile-row into an accumulator and return the accumulators
    /// in row order. `init` makes a fresh accumulator for a tile-row, given
    /// the range of flat tile indices the row covers; `op` folds one tile
    /// into the accumulator. Rows are processed independently (possibly in
    /// parallel); within a row, tiles are folded strictly left to right.
    /// When there are no tile-rows the result is empty and neither callback
    /// is ever called.
    pub fn fold_rows<Acc, Init, Op>(&self, init: Init, op: Op) -> (r: Vec<Acc>) where
        Acc: Send + Sync,
        Init: Fn(Range<usize>) -> Acc + Send + Sync,
        Op: Fn(Acc, &Tile<LTW>) -> Acc + Send + Sync,

        requires
            self.wf(),
            forall|tr: int|
                0 <= tr < self.spec_tile_rows() ==> call_requires(
                    init,
                    (row_range(tr, self.spec_tpr() as int),),
                ),
            forall|a: Acc, t: &Tile<LTW>| call_requires(op, (a, t)),
        ensures
            r@.len() == self.spec_tile_rows(),
            forall|tr: int|
                0 <= tr < r@.len() ==> row_fold_ok(
                    init,
                    op,
                    tr,
                    self.spec_tpr() as int,
                    self.row_seq(tr),
                    #[trigger] r@[tr],
                ),
    {
        let tpr = self.tiles_per_row();
        if tpr == 0 {
            return Vec::new();
        }
        let r = par_fold_rows(&self.tiles, tpr, &init, &op);
        proof {
            assert forall|tr: int| 0 <= tr < r@.len() implies row_fold_ok(
                init,
                op,
                tr,
                self.spec_tpr() as int,
                self.row_seq(tr),
                #[trigger] r@[tr],
            ) by {
                assert(self.row_seq(tr) =~= self.tiles@.subrange(
                    tr * (tpr as int),
                    tr * (tpr as int) + tpr as int,
                ));
            }
        }
        r
    }
}

/// A pure left fold of `g` over a row of tiles, the reference point for the
/// parallel fold.
pub open spec fn seq_fold<Acc, const LTW: usize>(
    g: spec_fn(Acc, Tile<LTW>) -> Acc,
    a0: Acc,
    row: Seq<Tile<LTW>>,
) -> Acc
    decreases row.len(),
{
    if row.len() == 0 {
        a0
    } else {
        seq_fold(g, g(a0, row[0]), row.drop_first())
    }
}

/// A fold by an `op` whose result is determined by a function `g` of its
/// arguments equals the serial left-to-right reduction by `g`: whatever
/// interleaving produced `r`, it is the serial answer.
pub proof fn lemma_fold_chain_deterministic<Acc, Op: Fn(Acc, &Tile<LTW>) -> Acc, const LTW: usize>(
    op: Op,
    g: spec_fn(Acc, Tile<LTW>) -> Acc,
    a0: Acc,
    row: Seq<Tile<LTW>>,
    r: Acc,
)
    requires
        fold_chain(op, a0, row, r),
        forall|a: Acc, t: &Tile<LTW>, out: Acc| #[trigger] call_ensures(op, (a, t), out) ==> out
            == g(a, *t),
    ensures
        r == seq_fold(g, a0, row),
    decreases row.len(),
{
    if row.len() == 0 {
    } else {
        let mid = choose|mid: Acc|
            #[trigger] call_ensures(op, (a0, &row[0]), mid) && fold_chain(
                op,
                mid,
                row.drop_first(),
                r,
            );
        assert(mid == g(a0, row[0]));
        lemma_fold_chain_deterministic(op, g, mid, row.drop_first(), r);
    }
}

/// The row-level form: when `init` can only return `a0` for this row and
/// `op` can only return `g` of its arguments, the accumulator that
/// `fold_rows` returns for the row is exactly the serial reduction.
pub proof fn lemma_row_fold_serial<
    Acc,
    Init: Fn(Range<usize>) -> Acc,
    Op: Fn(Acc, &Tile<LTW>) -> Acc,
    const LTW: usize,
>(
    init: Init,
    op: Op,
    g: spec_fn(Acc, Tile<LTW>) -> Acc,
    a0: Acc,
    tr: int,
    tpr: int,
    row: Seq<Tile<LTW>>,
    r: Acc,
)
    requires
        row_fold_ok(init, op, tr, tpr, row, r),
        forall|aa: Acc| #[trigger] call_ensures(init, (row_range(tr, tpr),), aa) ==> aa == a0,
        forall|a: Acc, t: &Tile<LTW>, out: Acc| #[trigger] call_ensures(op, (a, t), out) ==> out
            == g(a, *t),
    ensures
        r == seq_fold(g, a0, row),
{
    let ai = choose|ai: Acc|
        #[trigger] call_ensures(init, (row_range(tr, tpr),), ai) && fold_chain(op, ai, row, r);
    assert(ai == a0);
    lemma_fold_chain_deterministic(op, g, a0, row, r);
}

/// Folding element-wise field multiply from an all-ones accumulator over a
/// row of all-ones tiles is the identity: every element of the result is
/// still one.
pub proof fn lemma_fold_ones_identity<const LTW: usize>(
    g: spec_fn(Tile<LTW>, Tile<LTW>) -> Tile<LTW>,
    a0: Tile<LTW>,
    row: Seq<Tile<LTW>>,
)
    requires
        forall|a: Tile<LTW>, t: Tile<LTW>, i: int|
            0 <= i < 16 ==> #[trigger] g(a, t)@[i] == crate::m31::m31_mul_spec(a@[i], t@[i]),
        forall|i: int| 0 <= i < 16 ==> a0@[i] == 1,
        forall|j: int, i: int| 0 <= j < row.len() && 0 <= i < 16 ==> row[j]@[i] == 1,
    ensures
        forall|i: int| 0 <= i < 16 ==> seq_fold(g, a0, row)@[i] == 1,
    decreases row.len(),
{
    if row.len() > 0 {
        let a1 = g(a0, row[0]);
        assert forall|i: int| 0 <= i < 16 implies a1@[i] == 1 by {
            assert(a0@[i] == 1 && row[0]@[i] == 1);
            assert(a1@[i] == crate::m31::m31_mul_spec(1u32, 1u32));
            vstd::arithmetic::div_mod::lemma_small_mod(1nat, crate::m31::P as nat);
        }
        assert forall|j: int, i: int|
            0 <= j < row.drop_first().len() && 0 <= i < 16 implies row.drop_first()[j]@[i]
            == 1 by {
            assert(row.drop_first()[j] == row[j + 1]);
        }
        lemma_fold_ones_identity(g, a1, row.drop_first());
        assert(seq_fold(g, a0, row) == seq_fold(g, a1, row.drop_first()));
    }
}

} // verus!
