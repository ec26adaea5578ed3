use pbn_ibmfa::utils::{variations_with_replacement, variations_with_replacement_r};

#[test]
fn variations_of_two_values_in_lexicographic_order() {
    assert_eq!(
        variations_with_replacement(&[0u8, 1u8], 2),
        vec![vec![0, 0], vec![0, 1], vec![1, 0], vec![1, 1]]
    );
}

#[test]
fn variations_of_three_values() {
    let all = variations_with_replacement(&['x', 'y', 'z'], 2);
    assert_eq!(all.len(), 9);
    assert_eq!(all[0], vec!['x', 'x']);
    assert_eq!(all[1], vec!['x', 'y']);
    assert_eq!(all[3], vec!['y', 'x']);
    assert_eq!(all[5], vec!['y', 'z']);
    assert_eq!(all[8], vec!['z', 'z']);
}

#[test]
fn the_only_variation_of_length_zero_is_empty() {
    assert_eq!(variations_with_replacement(&[1u32, 2u32], 0), vec![Vec::<u32>::new()]);
    assert_eq!(variations_with_replacement::<u32>(&[], 0), vec![Vec::<u32>::new()]);
}

#[test]
fn no_variation_of_no_values() {
    assert!(variations_with_replacement::<u32>(&[], 3).is_empty());
}

#[test]
fn variations_count_is_a_power() {
    assert_eq!(variations_with_replacement(&[0.0f32, 1.0f32], 5).len(), 32);
    assert_eq!(variations_with_replacement(&[String::from("a")], 4).len(), 1);
}

#[test]
fn variations_keep_the_given_prefix() {
    let mut current = vec![7u8, 0, 0];
    let mut result = vec![vec![9u8]];
    variations_with_replacement_r(&[1u8, 2u8], &mut current, 1, &mut result);
    assert_eq!(
        result,
        vec![vec![9], vec![7, 1, 1], vec![7, 1, 2], vec![7, 2, 1], vec![7, 2, 2]]
    );
    assert_eq!(current.len(), 3);
    assert_eq!(current[0], 7);
}
