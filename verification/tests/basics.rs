use md::{greeting, lattice_side, lattice_sites, thermo_degrees_of_freedom, Euler, ForceMode, VelocityVerlet};
use std::str::FromStr;

#[test]
fn greeting_is_hello_world() {
    assert_eq!(greeting(), "Hello, world!");
}

#[test]
fn force_mode_names_round_trip() {
    assert_eq!(ForceMode::Naive.as_str(), "naive");
    assert_eq!(ForceMode::Cells.as_str(), "cells");
    for m in [ForceMode::Naive, ForceMode::Cells] {
        assert_eq!(ForceMode::parse(m.as_str()), Ok(m));
        assert_eq!(ForceMode::from_str(m.as_str()), Ok(m));
    }
}

#[test]
fn force_mode_rejects_unknown_word() {
    assert_eq!(
        ForceMode::parse("fast"),
        Err("unknown --force fast; use naive or cells".to_string())
    );
    assert_eq!(
        ForceMode::from_str("Cells"),
        Err("unknown --force Cells; use naive or cells".to_string())
    );
    assert_eq!(
        ForceMode::parse(""),
        Err("unknown --force ; use naive or cells".to_string())
    );
}

#[test]
fn force_mode_defaults_to_cells() {
    assert_eq!(ForceMode::default(), ForceMode::Cells);
}

#[test]
fn lattice_side_of_square_counts() {
    assert_eq!(lattice_side(100), Some(10));
    assert_eq!(lattice_side(36), Some(6));
    assert_eq!(lattice_side(1), Some(1));
    assert_eq!(lattice_side(0), Some(0));
    assert_eq!(lattice_side(1600), Some(40));
}

#[test]
fn lattice_side_rejects_non_squares() {
    assert_eq!(lattice_side(99), None);
    assert_eq!(lattice_side(2), None);
    assert_eq!(lattice_side(101), None);
    assert_eq!(lattice_side(usize::MAX), None);
}

#[test]
fn lattice_sites_run_row_by_row() {
    let sites = lattice_sites(3);
    assert_eq!(
        sites,
        vec![(0, 0), (1, 0), (2, 0), (0, 1), (1, 1), (2, 1), (0, 2), (1, 2), (2, 2)]
    );
    assert!(lattice_sites(0).is_empty());
    let big = lattice_sites(10);
    assert_eq!(big.len(), 100);
    assert_eq!(big[37], (7, 3));
}

#[test]
fn thermostat_degrees_of_freedom() {
    assert_eq!(thermo_degrees_of_freedom(100), 198);
    assert_eq!(thermo_degrees_of_freedom(2), 2);
}

#[test]
fn integrator_markers_exist() {
    let _e = Euler;
    let _v = VelocityVerlet;
}
