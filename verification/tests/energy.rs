use hamiltonian_generator::basis::BasisResolution;
use hamiltonian_generator::energy::{
    assemble_matrix, decode_key, key_count, pair_flat_key, validate_periods, wrapped_difference,
};
use hamiltonian_generator::errors::HamiltonianError;

#[test]
fn wrapped_difference_is_non_negative_modulo() {
    assert_eq!(wrapped_difference(2, 1, 4), 3);
    assert_eq!(wrapped_difference(0, 5, 3), 2);
    assert_eq!(wrapped_difference(-2, 2, 5), 4);
    assert_eq!(wrapped_difference(3, 3, 7), 0);
    assert_eq!(wrapped_difference(1, -1, 2), 0);
    assert_eq!(wrapped_difference(-1, -2, 2), 1);
}

#[test]
fn period_validation() {
    assert_eq!(validate_periods(2, 3), Ok(()));
    assert_eq!(
        validate_periods(0, 3),
        Err(HamiltonianError::DimensionMismatch)
    );
    assert_eq!(
        validate_periods(3, 0),
        Err(HamiltonianError::DimensionMismatch)
    );
}

#[test]
fn key_count_formula() {
    assert_eq!(key_count(2, 2, 2), Some(16));
    assert_eq!(key_count(3, 4, 2), Some(48));
    assert_eq!(key_count(1, 1, 1), Some(1));
    assert_eq!(key_count(usize::MAX, usize::MAX, usize::MAX), None);
}

#[test]
fn keys_decode_back_to_their_position() {
    let (p1, p2, zc) = (3usize, 4usize, 2usize);
    let count = key_count(p1, p2, zc).unwrap();
    assert_eq!(count, 48);
    for key in 0..count {
        let (d1, d2, nz1, nz2) = decode_key(key, p1, p2, zc);
        assert!(d1 < p1 && d2 < p2 && nz1 < zc && nz2 < zc);
        let refold = ((d1 * p2 + d2) * zc + nz1) * zc + nz2;
        assert_eq!(refold, key);
    }
}

#[test]
fn pair_key_of_two_coordinates() {
    let res = BasisResolution::new(1, 1, 2).unwrap();
    let coords = res.coordinates();
    // coords[0] = (-1, -1, 0) and coords[17] = (1, 1, 1) at periods (2, 2):
    // d1 = (1 - -1) mod 2 = 0, d2 = 0, orders (0, 1)
    let key = pair_flat_key(&coords[0], &coords[17], 2, 2, 2);
    assert_eq!(key, ((0 * 2 + 0) * 2 + 0) * 2 + 1);
    // coords[2] = (-1, 0, 0): d2 = (0 - -1) mod 2 = 1
    let key2 = pair_flat_key(&coords[0], &coords[2], 2, 2, 2);
    assert_eq!(key2, ((0 * 2 + 1) * 2 + 0) * 2 + 0);
}

#[test]
fn zero_potential_gives_zero_matrix() {
    // an all-zero potential makes every per-key quadrature value zero,
    // so the 50 x 50 coupling matrix of resolution (2, 2, 2) is all zero
    let res = BasisResolution::new(2, 2, 2).unwrap();
    let values: Vec<f64> = vec![0.0; key_count(2, 2, 2).unwrap()];
    let matrix = assemble_matrix(&res, 2, 2, &values);
    assert_eq!(matrix.len(), 50);
    for row in &matrix {
        assert_eq!(row.len(), 50);
        for &entry in row {
            assert_eq!(entry, 0.0);
        }
    }
}

#[test]
fn assembled_matrix_equals_brute_force_lookup() {
    // a table of distinct per-key values, assembled through the memoized
    // key structure, must agree with an independent per-pair computation
    let (p1, p2, zc) = (3usize, 4usize, 2usize);
    let res = BasisResolution::new(1, 1, zc).unwrap();
    let count = key_count(p1, p2, zc).unwrap();
    let values: Vec<f64> = (0..count).map(|k| (k * k + 3) as f64 * 0.25).collect();
    let matrix = assemble_matrix(&res, p1, p2, &values);

    let coords = res.coordinates();
    assert_eq!(matrix.len(), coords.len());
    for (a, ca) in coords.iter().enumerate() {
        assert_eq!(matrix[a].len(), coords.len());
        for (b, cb) in coords.iter().enumerate() {
            let d1 = (cb.nkx1 - ca.nkx1).rem_euclid(p1 as i64) as usize;
            let d2 = (cb.nkx2 - ca.nkx2).rem_euclid(p2 as i64) as usize;
            let flat = ((d1 * p2 + d2) * zc + ca.nz) * zc + cb.nz;
            assert_eq!(matrix[a][b], values[flat]);
        }
    }
}

#[test]
fn equal_keys_share_matrix_entries() {
    // pairs whose index differences agree share one table entry: entry
    // (0, 9) and entry (1, 10) of resolution (1, 1, 2) differ by the same
    // coordinate step, so the assembled matrix repeats the value
    let res = BasisResolution::new(1, 1, 2).unwrap();
    let count = key_count(2, 3, 2).unwrap();
    let values: Vec<f64> = (0..count).map(|k| (k + 1) as f64).collect();
    let matrix = assemble_matrix(&res, 2, 3, &values);
    let coords = res.coordinates();
    for a in 0..coords.len() {
        for b in 0..coords.len() {
            for a2 in 0..coords.len() {
                for b2 in 0..coords.len() {
                    let same_key = coords[a].nz == coords[a2].nz
                        && coords[b].nz == coords[b2].nz
                        && (coords[b].nkx1 - coords[a].nkx1).rem_euclid(2)
                            == (coords[b2].nkx1 - coords[a2].nkx1).rem_euclid(2)
                        && (coords[b].nkx2 - coords[a].nkx2).rem_euclid(3)
                            == (coords[b2].nkx2 - coords[a2].nkx2).rem_euclid(3);
                    if same_key {
                        assert_eq!(matrix[a][b], matrix[a2][b2]);
                    }
                }
            }
        }
    }
}
