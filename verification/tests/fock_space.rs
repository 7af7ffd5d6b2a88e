use hubbard::fock_space::{FockError, FockState, Hubbard};

#[test]
fn test_fock_scalar() {
    // Test Fock state has form: |1 1 ; 1 1>
    let test_state: FockState = FockState {
        n_sites: 2,
        integer: 15,
        is_null: false,
        sign: 1,
    };
    // Testing for null scalar
    let coefficient_0: f32 = test_state.scalar(0) as f32;
    assert_eq!(0., coefficient_0);

    // Testing for non zero scalar
    let coefficient_1: f32 = test_state.scalar(15) as f32;
    assert_eq!(1., coefficient_1);
}

#[test]
fn test_fock_create() {
    // Test Fock state has form: |0 1 ; 1 1>
    let mut test_state: FockState = FockState {
        n_sites: 2,
        integer: 7,
        is_null: false,
        sign: 1,
    };
    // Testing for valid fermion creation
    // Answer should be: |1 1 ; 1 1>
    test_state.create(0).unwrap();
    assert_eq!(15, test_state.integer);

    // Testing invalid fermion creation
    test_state.create(0).unwrap();
    assert_eq!(true, test_state.is_null);
}

#[test]
fn test_fock_destroy() {
    // Test Fock state has form: |0 1 ; 1 1>
    let mut test_state: FockState = FockState {
        n_sites: 2,
        integer: 7,
        is_null: false,
        sign: -1,
    };
    // Testing for valid fermion anihilation
    // Answer should be: |0 0 ; 1 1>
    test_state.destroy(1).unwrap();
    assert_eq!(-3, test_state.integer);

    // Testing for invalid fermion anihilation
    test_state.destroy(1).unwrap();
    assert_eq!(true, test_state.is_null);
}

#[test]
fn test_fock_number() {
    // Test Fock state has form: |1 1 ; 0 1>
    let mut test_state: FockState = FockState {
        n_sites: 2,
        integer: 13,
        is_null: false,
        sign: 1,
    };
    // Testing for existing fermion
    test_state.number(0).unwrap();
    assert_eq!(13, test_state.integer);

    // Testing for non-existing fermion
    test_state.destroy(0).unwrap();
    test_state.number(0).unwrap();
    assert_eq!(true, test_state.is_null);
}

#[test]
fn test_hubbard_interaction() {
    // Test hubbard instance
    let test_model: Hubbard = Hubbard {
        n_sites: 2,
        t: 1,
        u: 2,
    };
    assert_eq!(4., test_model.interaction_term(15) as f32);
    assert_eq!(2., test_model.interaction_term(5) as f32);
    assert_eq!(0., test_model.interaction_term(1) as f32);
}

#[test]
fn test_hubbard_hoppings() {
    // Test hubbard instance
    let test_model: Hubbard = Hubbard {
        n_sites: 2,
        t: 1,
        u: 2,
    };
    let empty: Vec<i32> = Vec::new();
    assert_eq!(empty, test_model.kinetic_term(0));
    assert_eq!(vec![2], test_model.kinetic_term(1));
    assert_eq!(vec![6, 9], test_model.kinetic_term(5));
}

#[test]
fn test_hubbard_blocks() {
    // Test hubbard instance
    let test_model: Hubbard = Hubbard {
        n_sites: 3,
        t: 1,
        u: 2,
    };
    let sub_states: Vec<i32> = vec![9, 10, 12, 17, 18, 20, 33, 34, 36];
    let elements: Vec<f32> = vec![
        2., 1., 0., 1., 1., 0., 1., 0., 0., 0., 0., 1., 0., 1., 2., 0., 0., 1., 1., 1., 0., 1.,
        0., 0., 1., 0., 0., 0., 0., 1., 0., 0., 1., 0., 1., 0., 0., 0., 1., 0., 0., 1., 1., 1.,
        2.,
    ];
    let (states, elems): (Vec<i32>, Vec<i64>) = test_model.find_sub_block(9);
    let elems: Vec<f32> = elems.iter().map(|e| *e as f32).collect();
    let empty: Vec<i32> = Vec::new();
    let difference: Vec<_> = sub_states
        .into_iter()
        .filter(|elem| !states.contains(&elem))
        .collect();
    assert_eq!(empty, difference);
    assert_eq!(elements, elems);
}

#[test]
fn operators_refuse_orbitals_outside_the_lattice() {
    let mut state = FockState::new(2, 5);
    assert_eq!(Err(FockError::InvalidOrbital), state.create(4));
    assert_eq!(Err(FockError::InvalidOrbital), state.create(-1));
    assert_eq!(Err(FockError::InvalidOrbital), state.destroy(4));
    assert_eq!(Err(FockError::InvalidOrbital), state.number(4));
    assert_eq!(FockState::new(2, 5), state);
}
