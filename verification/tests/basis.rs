use hamiltonian_generator::basis::{BasisCoordinate, BasisResolution};
use hamiltonian_generator::errors::HamiltonianError;

#[test]
fn resolution_validation() {
    assert!(BasisResolution::new(1, 1, 2).is_ok());
    assert_eq!(
        BasisResolution::new(-1, 1, 2),
        Err(HamiltonianError::InvalidBasisResolution)
    );
    assert_eq!(
        BasisResolution::new(1, -3, 2),
        Err(HamiltonianError::InvalidBasisResolution)
    );
    assert_eq!(
        BasisResolution::new(1, 1, 0),
        Err(HamiltonianError::InvalidBasisResolution)
    );
}

#[test]
fn basis_size_formula() {
    assert_eq!(BasisResolution::new(1, 1, 2).unwrap().basis_size(), Some(18));
    assert_eq!(BasisResolution::new(2, 2, 2).unwrap().basis_size(), Some(50));
    assert_eq!(BasisResolution::new(0, 0, 1).unwrap().basis_size(), Some(1));
    assert_eq!(BasisResolution::new(3, 0, 4).unwrap().basis_size(), Some(28));
}

#[test]
fn enumeration_matches_nested_loop_order() {
    let res = BasisResolution::new(1, 1, 2).unwrap();
    let coords = res.coordinates();
    assert_eq!(coords.len(), 18);
    let mut expected: Vec<BasisCoordinate> = Vec::new();
    for nkx1 in -1..=1 {
        for nkx2 in -1..=1 {
            for nz in 0..2 {
                expected.push(BasisCoordinate { nkx1, nkx2, nz });
            }
        }
    }
    assert_eq!(coords, expected);
}

#[test]
fn enumeration_is_reproducible() {
    let res = BasisResolution::new(2, 1, 3).unwrap();
    let first = res.coordinates();
    let second = res.coordinates();
    assert_eq!(first, second);
    assert_eq!(first.len(), 45);
}

#[test]
fn single_coordinate_basis() {
    let res = BasisResolution::new(0, 0, 1).unwrap();
    let coords = res.coordinates();
    assert_eq!(
        coords,
        vec![BasisCoordinate {
            nkx1: 0,
            nkx2: 0,
            nz: 0,
        }]
    );
}

#[test]
fn eigenvector_length_validation() {
    let res = BasisResolution::new(1, 1, 2).unwrap();
    assert_eq!(res.validate_eigenvector_length(18), Ok(()));
    assert_eq!(
        res.validate_eigenvector_length(17),
        Err(HamiltonianError::DimensionMismatch)
    );
    assert_eq!(
        res.validate_eigenvector_length(0),
        Err(HamiltonianError::DimensionMismatch)
    );
}
