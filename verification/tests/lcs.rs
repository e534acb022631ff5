use blaze::lcs::longest_common_subsequence;

#[test]
fn test_empty_sequences() {
    let result = longest_common_subsequence(Vec::<usize>::new(), Vec::<usize>::new());
    assert_eq!(result.lcs.len(), 0);
    assert_eq!(result.first_pos.len(), 0);
    assert_eq!(result.second_pos.len(), 0);
}

#[test]
fn test_common_elements() {
    let first = vec![1, 2, 3, 4];
    let second = vec![2, 3, 5];
    let result = longest_common_subsequence(first, second);
    assert_eq!(result.lcs, vec![2, 3]);
    assert_eq!(result.first_pos, vec![1, 2]);
    assert_eq!(result.second_pos, vec![0, 1]);
}

#[test]
fn test_no_common_elements() {
    let first = vec![1, 2, 3];
    let second = vec![4, 5, 6];
    let result = longest_common_subsequence(first, second);
    assert_eq!(result.lcs.len(), 0);
    assert_eq!(result.first_pos.len(), 0);
    assert_eq!(result.second_pos.len(), 0);
}

#[test]
fn test_identical_sequences() {
    let first = vec![1, 2, 3];
    let second = vec![1, 2, 3];
    let result = longest_common_subsequence(first, second);
    assert_eq!(result.lcs, vec![1, 2, 3]);
    assert_eq!(result.first_pos, vec![0, 1, 2]);
    assert_eq!(result.second_pos, vec![0, 1, 2]);
}

#[test]
fn test_different_lengths() {
    let first = vec![1, 2, 3, 4, 5];
    let second = vec![2, 4, 5];
    let result = longest_common_subsequence(first, second);
    assert_eq!(result.lcs, vec![2, 4, 5]);
    assert_eq!(result.first_pos, vec![1, 3, 4]);
    assert_eq!(result.second_pos, vec![0, 1, 2]);
}

#[test]
fn lcs_one_side_empty() {
    let result = longest_common_subsequence(vec![1, 2], Vec::<usize>::new());
    assert!(result.lcs.is_empty());
    let result = longest_common_subsequence(Vec::<usize>::new(), vec![1, 2]);
    assert!(result.lcs.is_empty());
}

#[test]
fn lcs_tie_goes_left() {
    // On a mismatch with equal entries above and to the left, the walk back
    // goes left, towards the earlier elements of the second sequence.
    let result = longest_common_subsequence(vec![1, 2], vec![2, 1]);
    assert_eq!(result.lcs, vec![2]);
    assert_eq!(result.first_pos, vec![1]);
    assert_eq!(result.second_pos, vec![0]);
}

#[test]
fn lcs_is_a_common_subsequence_of_maximal_length() {
    let first = vec![7, 1, 3, 1, 2, 9, 3, 4];
    let second = vec![1, 9, 3, 7, 1, 2, 4, 3];
    let result = longest_common_subsequence(first.clone(), second.clone());
    assert_eq!(result.lcs.len(), 5);
    for k in 0..result.lcs.len() {
        assert_eq!(first[result.first_pos[k] as usize], result.lcs[k]);
        assert_eq!(second[result.second_pos[k] as usize], result.lcs[k]);
        if k > 0 {
            assert!(result.first_pos[k - 1] < result.first_pos[k]);
            assert!(result.second_pos[k - 1] < result.second_pos[k]);
        }
    }
}

#[test]
fn lcs_of_characters() {
    let first: Vec<char> = "ABCBDAB".chars().collect();
    let second: Vec<char> = "BDCABA".chars().collect();
    let result = longest_common_subsequence(first.clone(), second.clone());
    assert_eq!(result.lcs.len(), 4);
    for (k, c) in result.lcs.iter().enumerate() {
        assert_eq!(first[result.first_pos[k] as usize], *c);
        assert_eq!(second[result.second_pos[k] as usize], *c);
    }
    assert!(result.first_pos.windows(2).all(|w| w[0] < w[1]));
    assert!(result.second_pos.windows(2).all(|w| w[0] < w[1]));
}
