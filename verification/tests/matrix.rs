use tiled_m31::m31::P;
use tiled_m31::tile::{m31_mul_tile, Tile};
use tiled_m31::tiled_mat::{MatError, TMat};

#[test]
fn tiled_mat_it_works() {
    let (log_h, log_w) = (4, 4);
    let m = TMat::<3>::from_fn(1 << log_h, 1 << log_w, |r, c| ((r << log_w) + c) as u32);
    assert!(m.is_ok());
}

#[test]
fn tile_zero_and_broadcast() {
    let z = Tile::<2>::zero();
    let b = Tile::<2>::broadcast(7);
    for l in 0..4 {
        for k in 0..4 {
            assert_eq!(z.vecs()[l][k], 0);
            assert_eq!(b.vecs()[l][k], 7);
        }
    }
}

#[test]
fn tile_from_fn_linear_order() {
    // With LTW = 2, (rit << 2) | cit is the linear storage index, so the
    // tile holds 0..16 in order.
    let t = Tile::<2>::from_fn(|r, c| ((r << 2) | c) as u32);
    let v = t.vecs();
    for i in 0..16 {
        assert_eq!(v[i / 4][i % 4], i as u32);
    }
    for r in 0..4 {
        for c in 0..4 {
            assert_eq!(t.get(r, c), ((r << 2) | c) as u32);
        }
    }
}

#[test]
fn tile_vecs_mut_writes_through() {
    let mut t = Tile::<4>::zero();
    t.vecs_mut()[2][1] = 42;
    assert_eq!(t.vecs()[2][1], 42);
    // linear index 9 is element (0, 9) of a 1x16 tile
    assert_eq!(t.get(0, 9), 42);
}

#[test]
fn mul_tile_elementwise() {
    let mut dst = Tile::<2>::broadcast(3);
    let src = Tile::<2>::broadcast(5);
    m31_mul_tile(&mut dst, &src);
    for l in 0..4 {
        for k in 0..4 {
            assert_eq!(dst.vecs()[l][k], 15);
        }
    }
    // boundary: (P-1) * (P-1) == 1
    let mut d2 = Tile::<0>::broadcast(P - 1);
    let s2 = Tile::<0>::broadcast(P - 1);
    m31_mul_tile(&mut d2, &s2);
    for l in 0..4 {
        for k in 0..4 {
            assert_eq!(d2.vecs()[l][k], 1);
        }
    }
}

#[test]
fn matrix_single_tile_layout() {
    // A 4x4 matrix of aspect 2 is one tile whose storage order is 0..16.
    let m = TMat::<2>::from_fn(4, 4, |r, c| (r * 4 + c) as u32).unwrap();
    assert_eq!(m.tiles.len(), 1);
    let v = m.tiles[0].vecs();
    for i in 0..16 {
        assert_eq!(v[i / 4][i % 4], i as u32);
    }
    for r in 0..4 {
        for c in 0..4 {
            assert_eq!(m.get(r, c), (r * 4 + c) as u32);
        }
    }
}

#[test]
fn matrix_get_reads_generator() {
    let m = TMat::<3>::from_fn(8, 16, |r, c| (r * 1000 + c) as u32).unwrap();
    for r in 0..8 {
        for c in 0..16 {
            assert_eq!(m.get(r, c), (r * 1000 + c) as u32);
        }
    }
}

#[test]
fn matrix_bytes_footprint() {
    let m = TMat::<2>::from_fn(16, 16, |_, _| 0).unwrap();
    assert_eq!(m.bytes(), 16 * 16 * 4);
    let e = TMat::<2>::from_fn(0, 0, |_, _| 0).unwrap();
    assert_eq!(e.bytes(), 0);
}

#[test]
fn matrix_invalid_aspect() {
    let m = TMat::<5>::from_fn(32, 32, |_, _| 0);
    assert!(matches!(m, Err(MatError::InvalidAspect)));
}

#[test]
fn matrix_invalid_dimensions() {
    // height 3 is not a multiple of the tile height 4
    let m = TMat::<2>::from_fn(3, 4, |_, _| 0);
    assert!(matches!(m, Err(MatError::InvalidDimensions)));
    // width 6 is not a multiple of the tile width 4
    let m2 = TMat::<2>::from_fn(4, 6, |_, _| 0);
    assert!(matches!(m2, Err(MatError::InvalidDimensions)));
}

#[test]
fn fold_rows_uniform_ones() {
    // 16x16 matrix of all-ones elements; summing each tile into a
    // 16-lane accumulator gives tiles_per_row in every lane, per row.
    let m = TMat::<2>::from_fn(16, 16, |_, _| 1).unwrap();
    let tpr = m.tiles_per_row();
    assert_eq!(tpr, 4);
    let accs = m.fold_rows(
        |_range| [0u32; 16],
        |mut acc: [u32; 16], t: &Tile<2>| {
            let v = t.vecs();
            for l in 0..4 {
                for k in 0..4 {
                    acc[4 * l + k] += v[l][k];
                }
            }
            acc
        },
    );
    assert_eq!(accs.len(), 4);
    for acc in accs {
        assert_eq!(acc, [tpr as u32; 16]);
    }
}

#[test]
fn fold_rows_init_gets_exact_ranges() {
    let m = TMat::<2>::from_fn(16, 32, |_, _| 0).unwrap();
    let tpr = m.tiles_per_row();
    assert_eq!(tpr, 8);
    let ranges = m.fold_rows(|range| (range.start, range.end), |acc, _t| acc);
    assert_eq!(ranges.len(), 4);
    for (tr, (s, e)) in ranges.into_iter().enumerate() {
        assert_eq!(s, tr * tpr);
        assert_eq!(e, (tr + 1) * tpr);
    }
}

#[test]
fn fold_rows_empty_matrix() {
    let m = TMat::<2>::from_fn(0, 0, |_, _| 0).unwrap();
    let accs = m.fold_rows(|_range| 0u32, |acc, _t| acc + 1);
    assert!(accs.is_empty());
}

#[test]
fn fold_rows_multiplicative_identity() {
    // folding element-wise multiply from broadcast(1) over all-ones rows
    // keeps every lane at 1
    let m = TMat::<2>::from_fn(8, 16, |_, _| 1).unwrap();
    let accs = m.fold_rows(
        |_range| Tile::<2>::broadcast(1),
        |mut acc: Tile<2>, t: &Tile<2>| {
            m31_mul_tile(&mut acc, t);
            acc
        },
    );
    assert_eq!(accs.len(), 2);
    for acc in accs {
        for l in 0..4 {
            for k in 0..4 {
                assert_eq!(acc.vecs()[l][k], 1);
            }
        }
    }
}

#[test]
fn fold_rows_matches_serial_reduction() {
    // whatever scheduling rayon picks, the result equals a plain serial
    // per-row reduction
    let m = TMat::<2>::from_fn(16, 16, |r, c| ((r * 31 + c * 17) % 97) as u32).unwrap();
    let accs = m.fold_rows(
        |_range| 0u64,
        |acc: u64, t: &Tile<2>| {
            let v = t.vecs();
            let mut a = acc;
            for l in 0..4 {
                for k in 0..4 {
                    a += v[l][k] as u64;
                }
            }
            a
        },
    );
    assert_eq!(accs.len(), 4);
    for (tr, acc) in accs.iter().enumerate() {
        let mut expect = 0u64;
        for r in tr * 4..(tr + 1) * 4 {
            for c in 0..16 {
                expect += m.get(r, c) as u64;
            }
        }
        assert_eq!(*acc, expect);
    }
}

#[test]
fn reshape_covers_same_elements() {
    // S6: reading any logical element through a reshaped tile equals
    // reading it natively, for narrower and wider output aspects.
    let m = TMat::<3>::from_fn(8, 16, |r, c| (r * 100 + c) as u32).unwrap();
    check_reshape::<3, 1>(&m, 8, 16);
    check_reshape::<3, 4>(&m, 8, 16);
    check_reshape::<3, 3>(&m, 8, 16);
    let m2 = TMat::<0>::from_fn(32, 2, |r, c| (r * 10 + c) as u32).unwrap();
    check_reshape::<0, 1>(&m2, 32, 2);
}

fn check_reshape<const LTW: usize, const O: usize>(m: &TMat<LTW>, height: usize, width: usize) {
    let gr = 1usize << LTW.saturating_sub(O);
    let th = 1usize << (4 - LTW);
    let out_th = 1usize << (4 - O);
    let out_tw = 1usize << O;
    let strip_h = gr * th;
    let out_tpr = width / out_tw;
    let n_strips = height / strip_h;
    let mut seen = 0usize;
    for strip in 0..n_strips {
        let mut it = m.row_tiles::<O>(strip);
        let mut k = 0usize;
        while let Some(t) = it.next() {
            let base_r = strip * strip_h + (k / out_tpr) * out_th;
            let base_c = (k % out_tpr) * out_tw;
            for rot in 0..out_th {
                for cot in 0..out_tw {
                    assert_eq!(t.get(rot, cot), m.get(base_r + rot, base_c + cot));
                    seen += 1;
                }
            }
            k += 1;
        }
        assert_eq!(k, gr * m.tiles_per_row());
    }
    assert_eq!(seen, height * width);
}
