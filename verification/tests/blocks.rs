use hubbard::fock_space::{FockState, Hubbard};
use hubbard::label_list::{contains_pattern, insert_label};
use hubbard::site_pairs::site_pairs;

fn sweep_is_a_partition(n_sites: u32) {
    let model = Hubbard { n_sites, t: 1, u: 2 };
    let blocks = model.find_blocks();
    let size = 1usize << (2 * n_sites);
    let mut seen = vec![0u32; size];
    for (states, elems) in blocks.iter() {
        let order = states.len();
        assert_eq!(order * (order + 1) / 2, elems.len());
        for label in states.iter() {
            seen[label.unsigned_abs() as usize] += 1;
        }
    }
    assert!(seen.iter().all(|count| *count == 1));
}

#[test]
fn sweep_of_one_site_is_a_partition() {
    sweep_is_a_partition(1);
}

#[test]
fn sweep_of_two_sites_is_a_partition() {
    sweep_is_a_partition(2);
}

#[test]
fn sweep_of_three_sites_is_a_partition() {
    sweep_is_a_partition(3);
}

#[test]
fn sweep_of_four_sites_is_a_partition() {
    sweep_is_a_partition(4);
}

#[test]
fn sweep_of_five_sites_is_a_partition() {
    sweep_is_a_partition(5);
}

#[test]
fn blocks_of_three_sites_are_the_particle_number_sectors() {
    let model = Hubbard { n_sites: 3, t: 1, u: 2 };
    let blocks = model.find_blocks();
    assert_eq!(16, blocks.len());
    let choose = [1usize, 3, 3, 1];
    for (states, _) in blocks.iter() {
        let up = (states[0].unsigned_abs() >> 3).count_ones();
        let down = (states[0].unsigned_abs() & 7).count_ones();
        assert_eq!(choose[up as usize] * choose[down as usize], states.len());
        for label in states.iter() {
            assert_eq!(up, (label.unsigned_abs() >> 3).count_ones());
            assert_eq!(down, (label.unsigned_abs() & 7).count_ones());
        }
    }
}

#[test]
fn sweep_of_no_sites_finds_the_vacuum() {
    let model = Hubbard { n_sites: 0, t: 1, u: 2 };
    assert_eq!(vec![(vec![0], vec![0i64])], model.find_blocks());
}

#[test]
fn blocks_of_two_sites() {
    let model = Hubbard { n_sites: 2, t: 3, u: 5 };
    let (states, elems) = model.find_sub_block(5);
    assert_eq!(vec![5, 6, 9, 10], states);
    assert_eq!(vec![5, 3, 0, 3, 0, 0, 0, 3, 3, 5], elems);
    let (states, elems) = model.find_sub_block(0);
    assert_eq!(vec![0], states);
    assert_eq!(vec![0], elems);
    let (states, elems) = model.find_sub_block(15);
    assert_eq!(vec![15], states);
    assert_eq!(vec![10], elems);
}

fn patterns(states: &[i32]) -> Vec<u32> {
    states.iter().map(|label| label.unsigned_abs()).collect()
}

fn is_packed(model: &Hubbard, states: &[i32], elems: &[i64]) {
    assert_eq!(states.len() * (states.len() + 1) / 2, elems.len());
    for j in 0..states.len() {
        let linked = patterns(&model.kinetic_term(states[j]));
        for i in 0..=j {
            let expected = if i == j {
                model.interaction_term(states[j])
            } else if linked.contains(&states[i].unsigned_abs()) {
                model.t as i64
            } else {
                0
            };
            assert_eq!(expected, elems[i + j * (j + 1) / 2]);
        }
    }
}

#[test]
fn block_of_the_smallest_label_is_packed() {
    let model = Hubbard { n_sites: 3, t: 1, u: 2 };
    let (states, elems) = model.find_sub_block(9);
    assert_eq!(vec![9, 10, 12, 17, 18, 20, 33, 34, 36], states);
    is_packed(&model, &states, &elems);
}

#[test]
fn block_of_a_label_that_is_not_the_smallest() {
    let model = Hubbard { n_sites: 2, t: 1, u: 2 };
    assert_eq!((vec![1, 2], vec![0, 1, 0]), model.find_sub_block(2));
    let (states, elems) = model.find_sub_block(6);
    assert_eq!(vec![5, 6, 9, 10], states);
    assert_eq!(vec![2, 1, 0, 1, 0, 0, 0, 1, 1, 2], elems);
}

#[test]
fn hop_that_changes_the_sign_still_links_two_states() {
    let model = Hubbard { n_sites: 3, t: 1, u: 2 };
    assert_eq!(vec![40, -48], model.kinetic_term(24));
    assert_eq!(vec![24, 48], model.kinetic_term(40));
    assert_eq!(vec![24, -40], model.kinetic_term(-48));
    let (states, elems) = model.find_sub_block(24);
    assert_eq!(vec![24, 40, 48], patterns(&states));
    assert_eq!(vec![0, 1, 0, 1, 1, 0], elems);
}

#[test]
fn every_seed_of_a_block_gives_the_same_block() {
    let model = Hubbard { n_sites: 3, t: 2, u: -3 };
    for (states, elems) in model.find_blocks().iter() {
        is_packed(&model, states, elems);
        for seed in states.iter() {
            let (again, coefficients) = model.find_sub_block(*seed);
            assert!(again.contains(seed));
            assert_eq!(patterns(states), patterns(&again));
            assert_eq!(*elems, coefficients);
            let (mirrored, coefficients) = model.find_sub_block(-*seed);
            assert_eq!(patterns(states), patterns(&mirrored));
            assert_eq!(*elems, coefficients);
        }
    }
}

#[test]
fn blocks_are_symmetric_matrices() {
    let model = Hubbard { n_sites: 3, t: 1, u: 2 };
    for (states, _) in model.find_blocks().iter() {
        for a in states.iter() {
            let from_a = patterns(&model.kinetic_term(*a));
            for b in states.iter() {
                let from_b = patterns(&model.kinetic_term(*b));
                assert_eq!(
                    from_a.contains(&b.unsigned_abs()),
                    from_b.contains(&a.unsigned_abs())
                );
            }
        }
    }
}

#[test]
fn blocks_come_in_the_order_of_their_smallest_states() {
    let model = Hubbard { n_sites: 2, t: 1, u: 2 };
    let firsts: Vec<i32> = model.find_blocks().iter().map(|block| block.0[0]).collect();
    assert_eq!(vec![0, 1, 3, 4, 5, 7, 12, 13, 15], firsts);
}

#[test]
fn interaction_counts_doubly_occupied_sites() {
    let model = Hubbard { n_sites: 3, t: 1, u: -7 };
    assert_eq!(-21, model.interaction_term(63));
    assert_eq!(-7, model.interaction_term(0b100100));
    assert_eq!(-7, model.interaction_term(-0b100100));
    assert_eq!(0, model.interaction_term(0b100010));
    assert_eq!(0, model.interaction_term(0));
}

#[test]
fn hops_of_three_sites_come_sorted() {
    let model = Hubbard { n_sites: 3, t: 1, u: 2 };
    assert_eq!(vec![10, 12, 17, 33], model.kinetic_term(9));
    let linked = model.kinetic_term(0b011011);
    let mut sorted = linked.clone();
    sorted.sort_by_key(|label| label.abs());
    sorted.dedup_by_key(|label| label.abs());
    assert_eq!(sorted, linked);
    assert_eq!(4, linked.len());
}

#[test]
fn hop_across_the_boundary_changes_sign_over_an_occupied_orbital() {
    let model = Hubbard { n_sites: 3, t: 1, u: 2 };
    assert_eq!(vec![26, 28, 41, -49], model.kinetic_term(0b011001));
    assert_eq!(vec![-26, -28, -41, 49], model.kinetic_term(-0b011001));
}

#[test]
fn create_twice_and_destroy_twice_collapse() {
    for label in 0..16 {
        for orbital in 0..4 {
            let mut state = FockState::new(2, label);
            state.create(orbital).unwrap();
            state.create(orbital).unwrap();
            assert!(state.is_null);
            let mut state = FockState::new(2, label);
            state.destroy(orbital).unwrap();
            state.destroy(orbital).unwrap();
            assert!(state.is_null);
        }
    }
}

#[test]
fn overlap_is_a_kronecker_delta() {
    for label in -15..16 {
        let state = FockState::new(2, label);
        for other in -15..16 {
            assert_eq!(if label == other { 1 } else { 0 }, state.scalar(other));
        }
        let mut gone = state;
        gone.is_null = true;
        assert_eq!(0, gone.scalar(label));
    }
}

#[test]
fn site_pairs_come_in_lexicographic_order() {
    assert_eq!(Vec::<(i32, i32)>::new(), site_pairs(0));
    assert_eq!(Vec::<(i32, i32)>::new(), site_pairs(1));
    assert_eq!(vec![(0, 1), (1, 0)], site_pairs(2));
    assert_eq!(vec![(0, 1), (0, 2), (1, 0), (1, 2), (2, 0), (2, 1)], site_pairs(3));
}

#[test]
fn labels_join_a_list_by_absolute_value() {
    let mut list: Vec<i32> = Vec::new();
    insert_label(&mut list, 6);
    insert_label(&mut list, -3);
    insert_label(&mut list, 9);
    insert_label(&mut list, -6);
    insert_label(&mut list, 3);
    assert_eq!(vec![-3, 6, 9], list);
    assert!(contains_pattern(&list, 3));
    assert!(contains_pattern(&list, 9));
    assert!(!contains_pattern(&list, 7));
}
