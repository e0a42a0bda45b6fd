//! The tiled matrix container: a 2D matrix of field elements stored as a
//! contiguous sequence of tiles in tile-row-major order.
//!
//! Logical element `(r, c)` lives in the tile at tile-row `r / 2^LTH` and
//! tile-column `c / 2^LTW` (with `LTH = 4 - LTW`), at intra-tile position
//! `(r % 2^LTH, c % 2^LTW)`. Tiles of one tile-row are contiguous, so each
//! tile-row can be handed out as an independent unit of work.

use vstd::arithmetic::div_mod::{
    lemma_fundamental_div_mod, lemma_fundamental_div_mod_converse, lemma_mod_bound,
    lemma_multiply_divide_lt,
};
use vstd::arithmetic::power2::{lemma_pow2_adds, pow2};
use vstd::prelude::*;

use crate::tile::{tile_h, tile_w, two_pow, Tile};

verus! {

/// Why a matrix could not be built.
#[derive(Clone, Copy, Debug, PartialEq, Eq, Structural)]
pub enum MatError {
    /// `height` is not a multiple of the tile height or `width` is not a
    /// multiple of the tile width.
    InvalidDimensions,
    /// The aspect parameter `LTW` is greater than 4.
    InvalidAspect,
}

/// A matrix of `u32` field elements stored as tiles of aspect `LTW`, in
/// tile-row-major order: all tiles of tile-row 0 left to right, then
/// tile-row 1, and so on. The logical height is not stored; it is
/// `(tiles.len() / tiles_per_row) * 2^(4 - LTW)`.
#[derive(Clone)]
pub struct TMat<const LTW: usize> {
    pub width: usize,
    pub tiles: Vec<Tile<LTW>>,
}

/// Logical element `(r, c)` of a tile sequence in tile-row-major order with
/// `tpr` tiles per tile-row.
pub open spec fn seq_elem_at<const LTW: usize>(tiles: Seq<Tile<LTW>>, tpr: int, r: int, c: int) -> u32 {
    let th = tile_h(LTW as nat) as int;
    let tw = tile_w(LTW as nat) as int;
    tiles[(r / th) * tpr + c / tw].at(r % th, c % tw)
}

impl<const LTW: usize> TMat<LTW> {
    /// Number of tiles spanning the matrix width.
    pub open spec fn spec_tpr(self) -> nat {
        (self.width as nat) / tile_w(LTW as nat)
    }

    /// Number of tile-rows.
    pub open spec fn spec_tile_rows(self) -> nat {
        if self.spec_tpr() == 0 {
            0
        } else {
            self.tiles@.len() / self.spec_tpr()
        }
    }

    /// Logical height in scalar rows.
    pub open spec fn spec_height(self) -> nat {
        self.spec_tile_rows() * tile_h(LTW as nat)
    }

    /// Shape invariant: the aspect is valid, the width is a whole number of
    /// tiles, and the tile sequence is a whole number of tile-rows.
    pub open spec fn wf(self) -> bool {
        &&& LTW <= 4
        &&& (self.width as nat) % tile_w(LTW as nat) == 0
        &&& if self.spec_tpr() == 0 {
            self.tiles@.len() == 0
        } else {
            self.tiles@.len() % self.spec_tpr() == 0
        }
        &&& self.spec_height() <= usize::MAX
    }

    /// Logical element `(r, c)`: position `(r % 2^LTH, c % 2^LTW)` of the
    /// tile at flat index `(r / 2^LTH) * tiles_per_row + c / 2^LTW`.
    pub open spec fn elem_at(self, r: int, c: int) -> u32
        recommends
            self.wf(),
            0 <= r < self.spec_height(),
            0 <= c < self.width,
    {
        seq_elem_at(self.tiles@, self.spec_tpr() as int, r, c)
    }

    /// Number of tiles spanning the matrix width.
    pub fn tiles_per_row(&self) -> (r: usize)
        requires
            LTW <= 4,
        ensures
            r == self.spec_tpr(),
    {
        self.width / two_pow(LTW)
    }

    /// Total byte footprint of the tile buffer: each tile holds 16 elements
    /// of 4 bytes. For a well-formed matrix this is `height * width * 4`.
    pub fn bytes(&self) -> (r: usize)
        requires
            self.tiles@.len() * 64 <= usize::MAX,
        ensures
            r == self.tiles@.len() * 64,
            self.wf() ==> r == self.spec_height() * (self.width as nat) * 4,
    {
        proof {
            if self.wf() {
                crate::tile::lemma_tile_dims(LTW as nat);
                let th = tile_h(LTW as nat) as int;
                let tw = tile_w(LTW as nat) as int;
                let tpr = self.spec_tpr() as int;
                let trows = self.spec_tile_rows() as int;
                let w = self.width as int;
                let len = self.tiles@.len() as int;
                lemma_fundamental_div_mod(w, tw);
                assert(w == tpr * tw);
                if tpr == 0 {
                    assert(len == 0);
                    assert(self.spec_height() * (self.width as nat) * 4 == 0) by (nonlinear_arith)
                        requires
                            self.width as int == 0 || self.spec_height() == 0,
                    ;
                } else {
                    lemma_fundamental_div_mod(len, tpr);
                    assert(len == trows * tpr);
                    assert((trows * th) * (tpr * tw) * 4 == (trows * tpr) * (th * tw) * 4)
                        by (nonlinear_arith);
                    assert(th * tw == 16);
                }
            }
        }
        self.tiles.len() * 64
    }

    /// Build a `height` by `width` matrix, filling element `(r, c)` with
    /// `f(r, c)`. Fails with `InvalidAspect` when `LTW` is over 4, and with
    /// `InvalidDimensions` when `height` is not a multiple of the tile
    /// height or `width` not a multiple of the tile width.
    #[verifier::loop_isolation(false)]
    pub fn from_fn<F: Fn(usize, usize) -> u32>(height: usize, width: usize, f: F) -> (res: Result<
        Self,
        MatError,
    >)
        requires
            forall|r: usize, c: usize| r < height && c < width ==> call_requires(f, (r, c)),
        ensures
            match res {
                Ok(m) => {
                    &&& LTW <= 4
                    &&& (height as nat) % tile_h(LTW as nat) == 0
                    &&& (width as nat) % tile_w(LTW as nat) == 0
                    &&& m.wf()
                    &&& m.width == width
                    &&& (width > 0 ==> m.spec_height() == height)
                    &&& (width == 0 ==> m.tiles@.len() == 0)
                    &&& forall|r: int, c: int|
                        0 <= r < height && 0 <= c < width ==> call_ensures(
                            f,
                            ((r as usize), (c as usize)),
                            #[trigger] m.elem_at(r, c),
                        )
                },
                Err(e) => {
                    &&& (e == MatError::InvalidAspect <==> LTW > 4)
                    &&& (e == MatError::InvalidDimensions <==> LTW <= 4 && ((height as nat)
                        % tile_h(LTW as nat) != 0 || (width as nat) % tile_w(LTW as nat) != 0))
                },
            },
    {
        if LTW > 4 {
            return Err(MatError::InvalidAspect);
        }
        let th = two_pow(4 - LTW);
        let tw = two_pow(LTW);
        if height % th != 0 || width % tw != 0 {
            return Err(MatError::InvalidDimensions);
        }
        let tile_rows = height / th;
        let tpr = width / tw;
        proof {
            lemma_fundamental_div_mod(height as int, th as int);
            lemma_fundamental_div_mod(width as int, tw as int);
            assert(height as int == (th as int) * (tile_rows as int));
            assert(width as int == (tw as int) * (tpr as int));
        }
        let fr = &f;
        let mut tiles: Vec<Tile<LTW>> = Vec::new();
        let mut tr: usize = 0;
        while tr < tile_rows
            invariant
                tr <= tile_rows,
                tiles@.len() == tr * tpr,
                forall|r: int, c: int|
                    0 <= r < tr * th && 0 <= c < width ==> call_ensures(
                        f,
                        ((r as usize), (c as usize)),
                        #[trigger] seq_elem_at(tiles@, tpr as int, r, c),
                    ),
            decreases tile_rows - tr,
        {
            proof {
                assert(tr * th + th <= height) by (nonlinear_arith)
                    requires
                        tr < tile_rows,
                        height as int == (th as int) * (tile_rows as int),
                        th >= 1,
                ;
            }
            let base_r = tr * th;
            let mut tc: usize = 0;
            while tc < tpr
                invariant
                    tc <= tpr,
                    tiles@.len() == tr * tpr + tc,
                    base_r == tr * th,
                    forall|r: int, c: int|
                        0 <= r < tr * th && 0 <= c < width ==> call_ensures(
                            f,
                            ((r as usize), (c as usize)),
                            #[trigger] seq_elem_at(tiles@, tpr as int, r, c),
                        ),
                    forall|r: int, c: int|
                        tr * th <= r < (tr + 1) * th && 0 <= c < tc * tw ==> call_ensures(
                            f,
                            ((r as usize), (c as usize)),
                            #[trigger] seq_elem_at(tiles@, tpr as int, r, c),
                        ),
                decreases tpr - tc,
            {
                proof {
                    assert(tc * tw + tw <= width) by (nonlinear_arith)
                        requires
                            tc < tpr,
                            width as int == (tw as int) * (tpr as int),
                            tw >= 1,
                    ;
                }
                let base_c = tc * tw;
                let g = |rit: usize, cit: usize| -> (v: u32)
                    requires
                        rit < tile_h(LTW as nat),
                        cit < tile_w(LTW as nat),
                    ensures
                        call_ensures(*fr, (((base_r + rit) as usize), ((base_c + cit) as usize)), v),
                    {
                        fr(base_r + rit, base_c + cit)
                    };
                let t = Tile::<LTW>::from_fn(g);
                let ghost tiles0 = tiles@;
                tiles.push(t);
                proof {
                    let l = (tr * tpr + tc) as int;
                    let thi = th as int;
                    let twi = tw as int;
                    let tpri = tpr as int;
                    assert((tr + 1) * thi == tr * thi + thi) by (nonlinear_arith);
                    assert((tc + 1) * twi == tc * twi + twi) by (nonlinear_arith);
                    assert forall|r: int, c: int|
                        0 <= r < (tr + 1) * thi && 0 <= c < width && (r < tr * thi || c < (tc + 1)
                            * twi) implies call_ensures(
                        f,
                        ((r as usize), (c as usize)),
                        #[trigger] seq_elem_at(tiles@, tpri, r, c),
                    ) by {
                        assert((tr + 1) * thi == tr * thi + thi) by (nonlinear_arith);
                        assert((tc + 1) * twi == tc * twi + twi) by (nonlinear_arith);
                        lemma_mod_bound(r, thi);
                        lemma_mod_bound(c, twi);
                        lemma_fundamental_div_mod(r, thi);
                        lemma_fundamental_div_mod(c, twi);
                        let qr = r / thi;
                        let qc = c / twi;
                        assert(qc < tpri) by (nonlinear_arith)
                            requires
                                0 <= c < twi * tpri,
                                twi >= 1,
                                qc == c / twi,
                                c == twi * qc + c % twi,
                                0 <= c % twi < twi,
                        ;
                        if r < tr * thi {
                            // a tile-row that was already complete
                            assert(qr < tr) by (nonlinear_arith)
                                requires
                                    0 <= r < tr * thi,
                                    thi >= 1,
                                    qr == r / thi,
                                    r == thi * qr + r % thi,
                                    0 <= r % thi < thi,
                            ;
                            assert(qr * tpri + qc < l) by (nonlinear_arith)
                                requires
                                    0 <= qr < tr,
                                    0 <= qc < tpri,
                                    l == tr * tpri + tc,
                            ;
                            assert(tiles@[qr * tpri + qc] == tiles0[qr * tpri + qc]);
                            assert(seq_elem_at(tiles@, tpri, r, c) == seq_elem_at(
                                tiles0,
                                tpri,
                                r,
                                c,
                            ));
                        } else {
                            // inside tile-row tr
                            assert(qr == tr) by {
                                lemma_fundamental_div_mod_converse(
                                    r,
                                    thi,
                                    tr as int,
                                    r - tr * thi,
                                );
                            }
                            if c < tc * twi {
                                // a tile of this row that was already filled
                                assert(qc < tc) by (nonlinear_arith)
                                    requires
                                        0 <= c < tc * twi,
                                        twi >= 1,
                                        qc == c / twi,
                                        c == twi * qc + c % twi,
                                        0 <= c % twi < twi,
                                ;
                                assert(tiles@[qr * tpri + qc] == tiles0[qr * tpri + qc]);
                                assert(seq_elem_at(tiles@, tpri, r, c) == seq_elem_at(
                                    tiles0,
                                    tpri,
                                    r,
                                    c,
                                ));
                            } else {
                                // the tile just pushed
                                assert(qc == tc) by {
                                    lemma_fundamental_div_mod_converse(
                                        c,
                                        twi,
                                        tc as int,
                                        c - tc * twi,
                                    );
                                }
                                assert(tiles@[l] == t);
                                let rit = r % thi;
                                let cit = c % twi;
                                let ritu = rit as usize;
                                let citu = cit as usize;
                                assert(ritu < tile_h(LTW as nat) && citu < tile_w(LTW as nat));
                                assert(call_ensures(
                                    g,
                                    (ritu, citu),
                                    t.at(ritu as int, citu as int),
                                ));
                                assert(t.at(ritu as int, citu as int) == t.at(rit, cit));
                                assert(call_ensures(
                                    f,
                                    (((base_r + ritu) as usize), ((base_c + citu) as usize)),
                                    t.at(ritu as int, citu as int),
                                ));
                                assert(base_r + rit == r) by (nonlinear_arith)
                                    requires
                                        base_r == tr * th,
                                        thi == th,
                                        r == thi * qr + rit,
                                        qr == tr,
                                ;
                                assert(base_c + cit == c) by (nonlinear_arith)
                                    requires
                                        base_c == tc * tw,
                                        twi == tw,
                                        c == twi * qc + cit,
                                        qc == tc,
                                ;
                                assert(((base_r + ritu) as usize) == (r as usize) && ((base_c
                                    + citu) as usize) == (c as usize));
                                assert(seq_elem_at(tiles@, tpri, r, c) == t.at(rit, cit));
                            }
                        }
                    }
                }
                proof {
                    assert((tc + 1) * tw <= tpr * tw) by (nonlinear_arith)
                        requires
                            tc < tpr,
                            tw >= 1,
                    ;
                    assert(tpr * tw == tw * tpr) by (nonlinear_arith);
                }
                tc += 1;
            }
            proof {
                assert((tr + 1) * tpr == tr * tpr + tpr) by (nonlinear_arith);
                assert((tr + 1) * th == tr * th + th) by (nonlinear_arith);
                assert(tpr * tw == tw * tpr) by (nonlinear_arith);
                assert forall|r: int, c: int|
                    0 <= r < (tr + 1) * th && 0 <= c < width implies call_ensures(
                    f,
                    ((r as usize), (c as usize)),
                    #[trigger] seq_elem_at(tiles@, tpr as int, r, c),
                ) by {
                    assert(c < tpr * tw);
                }
            }
            tr += 1;
        }
        let m = TMat::<LTW> { width, tiles };
        proof {
            if tpr == 0 {
                assert(width as int == 0) by (nonlinear_arith)
                    requires
                        width as int == (tw as int) * (tpr as int),
                        tpr == 0,
                ;
                assert(m.tiles@.len() == 0) by (nonlinear_arith)
                    requires
                        m.tiles@.len() == tile_rows * tpr,
                        tpr == 0,
                ;
            } else {
                vstd::arithmetic::div_mod::lemma_mod_multiples_basic(tile_rows as int, tpr as int);
                assert((tile_rows * tpr) as int == (tile_rows as int) * (tpr as int))
                    by (nonlinear_arith);
                vstd::arithmetic::div_mod::lemma_div_multiples_vanish(
                    tile_rows as int,
                    tpr as int,
                );
                assert(m.spec_tile_rows() == tile_rows);
                assert(m.spec_height() == height) by (nonlinear_arith)
                    requires
                        m.spec_height() == m.spec_tile_rows() * tile_h(LTW as nat),
                        m.spec_tile_rows() == tile_rows,
                        height as int == (th as int) * (tile_rows as int),
                        th == tile_h(LTW as nat),
                ;
            }
        }
        Ok(m)
    }

    /// Read logical element `(r, c)`.
    pub fn get(&self, r: usize, c: usize) -> (v: u32)
        requires
            self.wf(),
            r < self.spec_height(),
            c < self.width,
        ensures
            v == self.elem_at(r as int, c as int),
    {
        let th = two_pow(4 - LTW);
        let tw = two_pow(LTW);
        let tpr = self.width / tw;
        let tr = r / th;
        let rit = r % th;
        let tc = c / tw;
        let cit = c % tw;
        proof {
            crate::tile::lemma_tile_dims(LTW as nat);
            lemma_fundamental_div_mod(self.width as int, tw as int);
            assert(self.width as int == (tw as int) * (self.spec_tpr() as int));
            assert(self.spec_tpr() > 0);
            lemma_fundamental_div_mod(self.tiles@.len() as int, self.spec_tpr() as int);
            assert(self.tiles@.len() as int == (self.spec_tpr() as int) * (
            self.spec_tile_rows() as int));
            assert((self.spec_tpr() as int) * (self.spec_tile_rows() as int) == (
            self.spec_tile_rows() as int) * (self.spec_tpr() as int)) by (nonlinear_arith);
            assert(self.tiles@.len() == self.spec_tile_rows() * self.spec_tpr());
            assert(r < th * self.spec_tile_rows()) by (nonlinear_arith)
                requires
                    r < self.spec_height(),
                    self.spec_height() == self.spec_tile_rows() * tile_h(LTW as nat),
                    th == tile_h(LTW as nat),
            ;
            lemma_multiply_divide_lt(r as int, th as int, self.spec_tile_rows() as int);
            lemma_multiply_divide_lt(c as int, tw as int, self.spec_tpr() as int);
            lemma_mod_bound(r as int, th as int);
            lemma_mod_bound(c as int, tw as int);
            assert(tr * tpr + tc < self.tiles@.len()) by (nonlinear_arith)
                requires
                    tr < self.spec_tile_rows(),
                    tc < tpr,
                    tpr == self.spec_tpr(),
                    self.spec_tpr() > 0,
                    self.tiles@.len() == self.spec_tile_rows() * self.spec_tpr(),
            ;
        }
        let _n = self.tiles.len();
        let idx = tr * tpr + tc;
        self.tiles[idx].get(rit, cit)
    }
}

/// How many native tile-rows of aspect `ltw` are grouped into one strip
/// when reshaping to aspect `o`: `2^max(0, ltw - o)`. One strip always
/// covers a whole number of output tiles.
pub open spec fn reshape_gr(ltw: nat, o: nat) -> nat {
    if ltw >= o {
        pow2((ltw - o) as nat)
    } else {
        1
    }
}

/// A lazy reshaping view over one strip of a matrix: it yields tiles of
/// aspect `O_LTW` that cover the same elements as the strip's native tiles
/// of aspect `LTW`. A strip is `reshape_gr(LTW, O_LTW)` consecutive native
/// tile-rows, which is exactly one output tile-row when the output tiles
/// are taller, and several when they are shorter. Output tiles come in
/// row-major order within the strip: each output tile-row left to right,
/// top to bottom. No tile is materialised until `next` is called.
pub struct TileIter<'t, const LTW: usize, const O_LTW: usize> {
    pub m: &'t TMat<LTW>,
    pub strip: usize,
    pub idx: usize,
}

impl<'t, const LTW: usize, const O_LTW: usize> TileIter<'t, LTW, O_LTW> {
    /// Native tile-rows per strip.
    pub open spec fn spec_gr(self) -> nat {
        reshape_gr(LTW as nat, O_LTW as nat)
    }

    /// Output tiles per output tile-row.
    pub open spec fn spec_out_tpr(self) -> nat {
        (self.m.width as nat) / tile_w(O_LTW as nat)
    }

    /// Output tiles yielded by the whole strip. One strip holds
    /// `spec_gr() * tiles_per_row` native tiles, and reshaping preserves the
    /// element count, so it yields as many output tiles.
    pub open spec fn spec_n_out(self) -> nat {
        self.spec_gr() * self.m.spec_tpr()
    }

    /// Height of a strip in scalar rows.
    pub open spec fn spec_strip_h(self) -> nat {
        self.spec_gr() * tile_h(LTW as nat)
    }

    /// Logical matrix row of element `(rot, 0)` of output tile `k`.
    pub open spec fn out_row(self, k: int) -> int {
        self.strip * self.spec_strip_h() + (k / (self.spec_out_tpr() as int)) * tile_h(
            O_LTW as nat,
        )
    }

    /// Logical matrix column of element `(0, cot)` of output tile `k`.
    pub open spec fn out_col(self, k: int) -> int {
        (k % (self.spec_out_tpr() as int)) * tile_w(O_LTW as nat)
    }

    /// The iterator addresses a well-formed matrix, the output aspect is
    /// valid and divides the width, and the strip lies inside the matrix.
    pub open spec fn wf(self) -> bool {
        &&& self.m.wf()
        &&& O_LTW <= 4
        &&& (self.m.width as nat) % tile_w(O_LTW as nat) == 0
        &&& (self.strip + 1) * self.spec_gr() * self.m.spec_tpr() <= self.m.tiles@.len()
    }

    /// Yield the next output tile of the strip, or `None` when the strip is
    /// exhausted. Element `(rot, cot)` of the yielded tile is exactly the
    /// matrix element at logical coordinates
    /// `(out_row(idx) + rot, out_col(idx) + cot)`.
    pub fn next(&mut self) -> (r: Option<Tile<O_LTW>>)
        requires
            old(self).wf(),
        ensures
            final(self).m == old(self).m,
            final(self).strip == old(self).strip,
            final(self).wf(),
            match r {
                Some(t) => {
                    &&& old(self).idx < old(self).spec_n_out()
                    &&& final(self).idx == old(self).idx + 1
                    &&& forall|rot: int, cot: int|
                        0 <= rot < tile_h(O_LTW as nat) && 0 <= cot < tile_w(O_LTW as nat)
                            ==> #[trigger] t.at(rot, cot) == old(self).m.elem_at(
                            old(self).out_row(old(self).idx as int) + rot,
                            old(self).out_col(old(self).idx as int) + cot,
                        )
                },
                None => {
                    &&& old(self).idx >= old(self).spec_n_out()
                    &&& final(self).idx == old(self).idx
                },
            },
    {
        let tpr = self.m.tiles_per_row();
        let gr = if LTW >= O_LTW {
            two_pow(LTW - O_LTW)
        } else {
            1
        };
        proof {
            assert(gr * tpr <= self.m.tiles@.len()) by (nonlinear_arith)
                requires
                    (self.strip + 1) * gr * tpr <= self.m.tiles@.len(),
                    gr >= 1,
            ;
        }
        let _n = self.m.tiles.len();
        let n_out = gr * tpr;
        if self.idx >= n_out {
            return None;
        }
        // From here the strip is not empty, so tpr >= 1 and width >= 1.
        let th = two_pow(4 - LTW);
        let tw = two_pow(LTW);
        let out_th = two_pow(4 - O_LTW);
        let out_tw = two_pow(O_LTW);
        let out_tpr = self.m.width / out_tw;
        let ghost out_rows = reshape_gr(O_LTW as nat, LTW as nat);
        proof {
            crate::tile::lemma_tile_dims(LTW as nat);
            crate::tile::lemma_tile_dims(O_LTW as nat);
            lemma_fundamental_div_mod(self.m.width as int, tw as int);
            lemma_fundamental_div_mod(self.m.width as int, out_tw as int);
            assert(self.m.width as int == (tw as int) * (tpr as int));
            assert(self.m.width as int == (out_tw as int) * (out_tpr as int));
            // the strip is as tall as `out_rows` output tile-rows
            vstd::arithmetic::power2::lemma2_to64();
            if LTW >= O_LTW {
                lemma_pow2_adds((LTW - O_LTW) as nat, (4 - LTW) as nat);
                assert(((LTW - O_LTW) as nat) + ((4 - LTW) as nat) == (4 - O_LTW) as nat);
                assert(gr == pow2((LTW - O_LTW) as nat) && th == pow2((4 - LTW) as nat));
                assert(gr * th == pow2((4 - O_LTW) as nat));
                assert(out_rows == 1);
                assert(out_rows * out_th == out_th) by (nonlinear_arith)
                    requires
                        out_rows == 1,
                ;
                assert(gr * th == out_rows * out_th);
            } else {
                lemma_pow2_adds((O_LTW - LTW) as nat, (4 - O_LTW) as nat);
                assert(((O_LTW - LTW) as nat) + ((4 - O_LTW) as nat) == (4 - LTW) as nat);
                assert(gr == 1 && th == pow2((4 - LTW) as nat));
                assert(out_rows == pow2((O_LTW - LTW) as nat) && out_th == pow2(
                    (4 - O_LTW) as nat,
                ));
                assert(th == out_rows * out_th);
                assert(gr * th == th) by (nonlinear_arith)
                    requires
                        gr == 1,
                ;
                assert(gr * th == out_rows * out_th);
            }
            // both sides count the strip's elements divided by 16
            assert(n_out * 16 == (gr * th) * ((tw as int) * (tpr as int))) by (nonlinear_arith)
                requires
                    n_out == gr * tpr,
                    (th as int) * (tw as int) == 16,
            ;
            assert((out_rows * (out_tpr as nat)) * 16 == (out_rows * out_th) * ((out_tw as int) * (
            out_tpr as int))) by (nonlinear_arith)
                requires
                    (out_th as int) * (out_tw as int) == 16,
            ;
            assert(n_out == out_rows * out_tpr);
            // width is positive here, hence so is out_tpr
            assert(out_tpr >= 1) by (nonlinear_arith)
                requires
                    self.m.width as int == (tw as int) * (tpr as int),
                    self.m.width as int == (out_tw as int) * (out_tpr as int),
                    tpr >= 1,
                    tw >= 1,
                    out_tw >= 1,
                    out_tpr >= 0,
            ;
        }
        let k = self.idx;
        let o_tr = k / out_tpr;
        let o_tc = k % out_tpr;
        proof {
            lemma_multiply_divide_lt(k as int, out_tpr as int, out_rows as int);
            lemma_mod_bound(k as int, out_tpr as int);
            // the whole strip lies inside the matrix
            lemma_fundamental_div_mod(self.m.tiles@.len() as int, tpr as int);
            assert((self.strip + 1) * gr <= self.m.spec_tile_rows()) by (nonlinear_arith)
                requires
                    (self.strip + 1) * gr * tpr <= self.m.tiles@.len(),
                    self.m.tiles@.len() == (tpr as int) * (self.m.spec_tile_rows() as int),
                    tpr >= 1,
                    gr >= 1,
            ;
            assert(self.strip * (gr * th) + o_tr * out_th + out_th <= self.m.spec_height())
                by (nonlinear_arith)
                requires
                    (self.strip + 1) * gr <= self.m.spec_tile_rows(),
                    self.m.spec_height() == self.m.spec_tile_rows() * tile_h(LTW as nat),
                    th == tile_h(LTW as nat),
                    gr * th == out_rows * out_th,
                    0 <= o_tr < out_rows,
                    th >= 1,
                    out_th >= 1,
            ;
            assert(o_tc * out_tw + out_tw <= self.m.width) by (nonlinear_arith)
                requires
                    0 <= o_tc < out_tpr,
                    self.m.width as int == (out_tw as int) * (out_tpr as int),
                    out_tw >= 1,
            ;
        }
        let base_r = self.strip * (gr * th) + o_tr * out_th;
        let base_c = o_tc * out_tw;
        let mref = self.m;
        let g = |rot: usize, cot: usize| -> (v: u32)
            requires
                rot < tile_h(O_LTW as nat),
                cot < tile_w(O_LTW as nat),
            ensures
                v == mref.elem_at(base_r + rot, base_c + cot),
            {
                mref.get(base_r + rot, base_c + cot)
            };
        let t = Tile::<O_LTW>::from_fn(g);
        self.idx = k + 1;
        proof {
            assert forall|rot: int, cot: int|
                0 <= rot < tile_h(O_LTW as nat) && 0 <= cot < tile_w(
                    O_LTW as nat,
                ) implies #[trigger] t.at(rot, cot) == mref.elem_at(
                self.out_row(k as int) + rot,
                self.out_col(k as int) + cot,
            ) by {
                let rotu = rot as usize;
                let cotu = cot as usize;
                assert(call_ensures(g, (rotu, cotu), t.at(rotu as int, cotu as int)));
                assert(t.at(rotu as int, cotu as int) == t.at(rot, cot));
                assert(self.out_row(k as int) == base_r && self.out_col(k as int) == base_c);
            }
        }
        Some(t)
    }
}

impl<const LTW: usize> TMat<LTW> {
    /// The reshaping iterator for strip `strip`: it yields the tiles of
    /// aspect `O_LTW` that cover native tile-rows
    /// `strip * reshape_gr(LTW, O_LTW)` up to the next strip. The width
    /// must be a whole number of output tiles and the strip must lie inside
    /// the matrix.
    pub fn row_tiles<const O_LTW: usize>(&self, strip: usize) -> (it: TileIter<'_, LTW, O_LTW>)
        requires
            self.wf(),
            O_LTW <= 4,
            (self.width as nat) % tile_w(O_LTW as nat) == 0,
            (strip + 1) * reshape_gr(LTW as nat, O_LTW as nat) * self.spec_tpr()
                <= self.tiles@.len(),
        ensures
            it.m == self,
            it.strip == strip,
            it.idx == 0,
            it.wf(),
    {
        TileIter { m: self, strip, idx: 0 }
    }
}

} // verus!
