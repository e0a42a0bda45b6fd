//! The tile primitive: a fixed block of 16 field elements.
//!
//! A tile covers `2^(4 - LTW)` scalar rows by `2^LTW` scalar columns of a
//! matrix, stored row-major within the tile, and is the unit that the
//! four-lane multiply kernel and the row folds work on.

use vstd::arithmetic::div_mod::{
    lemma_fundamental_div_mod_converse, lemma_mod_bound, lemma_multiply_divide_lt,
};
use vstd::arithmetic::power2::{lemma2_to64, lemma_pow2_adds, pow2};
use vstd::prelude::*;

use crate::m31::{m31_mul, m31_mul_spec, P};

verus! {

/// `2^e` for the tile exponents, as an executable value.
pub fn two_pow(e: usize) -> (r: usize)
    requires
        e <= 4,
    ensures
        r == pow2(e as nat),
        1 <= r <= 16,
{
    proof {
        lemma2_to64();
    }
    if e == 0 {
        1
    } else if e == 1 {
        2
    } else if e == 2 {
        4
    } else if e == 3 {
        8
    } else {
        16
    }
}

/// Width of a tile of aspect `ltw`, in elements.
pub open spec fn tile_w(ltw: nat) -> nat {
    pow2(ltw)
}

/// Height of a tile of aspect `ltw`, in elements: the implied log2 height
/// is `4 - ltw`, so that a tile always holds 16 elements.
pub open spec fn tile_h(ltw: nat) -> nat
    recommends
        ltw <= 4,
{
    pow2((4 - ltw) as nat)
}

/// A tile of aspect `ltw` is a `tile_h` by `tile_w` rectangle of 16 elements.
pub proof fn lemma_tile_dims(ltw: nat)
    requires
        ltw <= 4,
    ensures
        tile_h(ltw) * tile_w(ltw) == 16,
        1 <= tile_w(ltw) <= 16,
        1 <= tile_h(ltw) <= 16,
{
    lemma_pow2_adds((4 - ltw) as nat, ltw);
    lemma2_to64();
}

/// A tile: 16 field elements as four groups of four 32-bit values, each
/// group being one unit of the four-lane multiply kernel. The parameter
/// `LTW` (at most 4) is the log2 of the tile width; the tile covers
/// `2^(4 - LTW)` rows by `2^LTW` columns, and element `(rit, cit)` sits at
/// linear index `rit * 2^LTW + cit`.
///
/// The view of a tile is the sequence of its 16 elements in linear
/// (row-major) order; the group boundaries play no part in it.
#[derive(Copy, Clone, Debug)]
pub struct Tile<const LTW: usize> {
    pub lanes: [[u32; 4]; 4],
}

impl<const LTW: usize> View for Tile<LTW> {
    type V = Seq<u32>;

    open spec fn view(&self) -> Seq<u32> {
        Seq::new(16, |i: int| self.lanes@[i / 4]@[i % 4])
    }
}

/// Every element of the tile is a canonical field element.
pub open spec fn tile_canonical<const LTW: usize>(t: Tile<LTW>) -> bool {
    forall|i: int| 0 <= i < 16 ==> t@[i] < P
}

impl<const LTW: usize> Tile<LTW> {
    /// Element `(rit, cit)` of the tile: linear index `rit * 2^LTW + cit`.
    pub open spec fn at(self, rit: int, cit: int) -> u32
        recommends
            LTW <= 4,
            0 <= rit < tile_h(LTW as nat),
            0 <= cit < tile_w(LTW as nat),
    {
        self@[rit * tile_w(LTW as nat) + cit]
    }

    /// The all-zero tile.
    pub fn zero() -> (t: Self)
        ensures
            forall|i: int| 0 <= i < 16 ==> t@[i] == 0,
    {
        Self::broadcast(0)
    }

    /// A tile with every element equal to `v`.
    pub fn broadcast(v: u32) -> (t: Self)
        ensures
            forall|i: int| 0 <= i < 16 ==> t@[i] == v,
    {
        let lane: [u32; 4] = [v, v, v, v];
        let t = Tile { lanes: [lane, lane, lane, lane] };
        proof {
            assert forall|i: int| 0 <= i < 16 implies t@[i] == v by {
                assert(0 <= i / 4 < 4);
                assert(0 <= i % 4 < 4);
            }
        }
        t
    }

    /// Populate a tile by calling `f(rit, cit)` once for each intra-tile
    /// coordinate and storing the value at linear index `rit * 2^LTW + cit`.
    /// Callers must not depend on the order of the calls.
    pub fn from_fn<F: Fn(usize, usize) -> u32>(f: F) -> (t: Self)
        requires
            LTW <= 4,
            forall|rit: usize, cit: usize|
                rit < tile_h(LTW as nat) && cit < tile_w(LTW as nat) ==> call_requires(
                    f,
                    (rit, cit),
                ),
        ensures
            forall|rit: usize, cit: usize|
                rit < tile_h(LTW as nat) && cit < tile_w(LTW as nat) ==> call_ensures(
                    f,
                    (rit, cit),
                    #[trigger] t.at(rit as int, cit as int),
                ),
    {
        let tw = two_pow(LTW);
        proof {
            lemma_tile_dims(LTW as nat);
        }
        let mut vals: Vec<u32> = Vec::new();
        let mut i: usize = 0;
        while i < 16
            invariant
                i <= 16,
                vals@.len() == i,
                LTW <= 4,
                tw == tile_w(LTW as nat),
                tile_h(LTW as nat) * tile_w(LTW as nat) == 16,
                1 <= tw <= 16,
                forall|rit: usize, cit: usize|
                    rit < tile_h(LTW as nat) && cit < tile_w(LTW as nat) ==> call_requires(
                        f,
                        (rit, cit),
                    ),
                forall|j: int|
                    0 <= j < i ==> call_ensures(
                        f,
                        (((j / (tw as int)) as usize), ((j % (tw as int)) as usize)),
                        #[trigger] vals@[j],
                    ),
            decreases 16 - i,
        {
            proof {
                lemma_multiply_divide_lt(i as int, tw as int, tile_h(LTW as nat) as int);
                lemma_mod_bound(i as int, tw as int);
            }
            let r = i / tw;
            let c = i % tw;
            let v = f(r, c);
            vals.push(v);
            i += 1;
        }
        let lanes: [[u32; 4]; 4] = [
            [vals[0], vals[1], vals[2], vals[3]],
            [vals[4], vals[5], vals[6], vals[7]],
            [vals[8], vals[9], vals[10], vals[11]],
            [vals[12], vals[13], vals[14], vals[15]],
        ];
        let t = Tile::<LTW> { lanes };
        proof {
            assert forall|j: int| 0 <= j < 16 implies #[trigger] t@[j] == vals@[j] by {
                let l = j / 4;
                let k = j % 4;
                assert(0 <= l < 4);
                assert(0 <= k < 4);
                assert(4 * l + k == j);
                assert(t@[j] == t.lanes@[l]@[k]);
            }
            assert forall|rit: usize, cit: usize|
                rit < tile_h(LTW as nat) && cit < tile_w(LTW as nat) implies call_ensures(
                f,
                (rit, cit),
                #[trigger] t.at(rit as int, cit as int),
            ) by {
                let j = rit * tile_w(LTW as nat) + cit;
                assert(j < 16) by (nonlinear_arith)
                    requires
                        rit < tile_h(LTW as nat),
                        cit < tile_w(LTW as nat),
                        j == rit * tile_w(LTW as nat) + cit,
                        tile_h(LTW as nat) * tile_w(LTW as nat) == 16,
                ;
                lemma_fundamental_div_mod_converse(
                    j as int,
                    tw as int,
                    rit as int,
                    cit as int,
                );
                assert(t.at(rit as int, cit as int) == t@[j as int]);
                assert(call_ensures(f, (rit, cit), vals@[j as int]));
            }
        }
        t
    }

    /// Read element `(rit, cit)` of the tile, i.e. linear index
    /// `rit * 2^LTW + cit`.
    pub fn get(&self, rit: usize, cit: usize) -> (v: u32)
        requires
            LTW <= 4,
            rit < tile_h(LTW as nat),
            cit < tile_w(LTW as nat),
        ensures
            v == self.at(rit as int, cit as int),
    {
        let tw = two_pow(LTW);
        proof {
            lemma_tile_dims(LTW as nat);
            assert(rit * tw + cit < 16) by (nonlinear_arith)
                requires
                    rit < tile_h(LTW as nat),
                    cit < tw,
                    tw == tile_w(LTW as nat),
                    tile_h(LTW as nat) * tile_w(LTW as nat) == 16,
            ;
        }
        let i = rit * tw + cit;
        self.lanes[i / 4][i % 4]
    }

    /// The 16 elements as four four-lane groups, in linear order: group `l`
    /// holds elements `4*l` through `4*l + 3`. The grouping ignores the
    /// aspect `LTW`, which is sound for element-wise consumers.
    pub fn vecs(&self) -> (r: &[[u32; 4]; 4])
        ensures
            forall|l: int, k: int| 0 <= l < 4 && 0 <= k < 4 ==> r@[l]@[k] == self@[4 * l + k],
    {
        proof {
            assert forall|l: int, k: int| 0 <= l < 4 && 0 <= k < 4 implies self.lanes@[l]@[k]
                == self@[4 * l + k] by {
                assert((4 * l + k) / 4 == l);
                assert((4 * l + k) % 4 == k);
            }
        }
        &self.lanes
    }

    /// The same four groups, writable: what the caller stores through the
    /// returned reference is what the tile then holds.
    pub fn vecs_mut(&mut self) -> (r: &mut [[u32; 4]; 4])
        ensures
            forall|l: int, k: int| 0 <= l < 4 && 0 <= k < 4 ==> (*r)@[l]@[k] == old(self)@[4 * l
                + k],
            forall|i: int| 0 <= i < 16 ==> final(self)@[i] == (*final(r))@[i / 4]@[i % 4],
    {
        proof {
            assert forall|l: int, k: int| 0 <= l < 4 && 0 <= k < 4 implies self.lanes@[l]@[k]
                == self@[4 * l + k] by {
                assert((4 * l + k) / 4 == l);
                assert((4 * l + k) % 4 == k);
            }
        }
        &mut self.lanes
    }
}

/// In-place tile-level field multiply: each element of `lhs` becomes the
/// product of the old element and the matching element of `rhs`, reduced
/// to canonical range. The four groups are processed independently.
pub fn m31_mul_tile<const LTW: usize>(lhs: &mut Tile<LTW>, rhs: &Tile<LTW>)
    requires
        tile_canonical(*old(lhs)),
        tile_canonical(*rhs),
    ensures
        forall|i: int| 0 <= i < 16 ==> final(lhs)@[i] == m31_mul_spec(old(lhs)@[i], rhs@[i]),
        tile_canonical(*final(lhs)),
{
    proof {
        assert forall|l: int, k: int| 0 <= l < 4 && 0 <= k < 4 implies #[trigger] (
        lhs.lanes@[l]@[k]) < P && lhs.lanes@[l]@[k] == old(lhs)@[4 * l + k] by {
            assert((4 * l + k) / 4 == l);
            assert((4 * l + k) % 4 == k);
            assert(old(lhs)@[4 * l + k] < P);
        }
        assert forall|l: int, k: int| 0 <= l < 4 && 0 <= k < 4 implies #[trigger] (
        rhs.lanes@[l]@[k]) < P && rhs.lanes@[l]@[k] == rhs@[4 * l + k] by {
            assert((4 * l + k) / 4 == l);
            assert((4 * l + k) % 4 == k);
            assert(rhs@[4 * l + k] < P);
        }
    }
    let g0 = m31_mul(lhs.lanes[0], rhs.lanes[0]);
    let g1 = m31_mul(lhs.lanes[1], rhs.lanes[1]);
    let g2 = m31_mul(lhs.lanes[2], rhs.lanes[2]);
    let g3 = m31_mul(lhs.lanes[3], rhs.lanes[3]);
    lhs.lanes = [g0, g1, g2, g3];
    proof {
        assert(lhs.lanes@[0] == g0 && lhs.lanes@[1] == g1 && lhs.lanes@[2] == g2 && lhs.lanes@[3]
            == g3);
        assert forall|i: int| 0 <= i < 16 implies lhs@[i] == m31_mul_spec(old(lhs)@[i], rhs@[i])
            && lhs@[i] < P by {
            let l = i / 4;
            let k = i % 4;
            assert(0 <= l < 4);
            assert(0 <= k < 4);
            assert(4 * l + k == i);
            assert(lhs@[i] == lhs.lanes@[l]@[k]);
        }
    }
}

} // verus!
