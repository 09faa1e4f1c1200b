use sms_classifier::split::CrossValidation;

#[test]
fn blocks_are_contiguous_and_near_equal() {
    let cv = CrossValidation::new(10, 3);
    let (train0, test0) = cv.fold(0);
    assert_eq!(test0, vec![0, 1, 2, 3]);
    assert_eq!(train0, vec![4, 5, 6, 7, 8, 9]);
    let (train1, test1) = cv.fold(1);
    assert_eq!(test1, vec![4, 5, 6]);
    assert_eq!(train1, vec![0, 1, 2, 3, 7, 8, 9]);
    let (train2, test2) = cv.fold(2);
    assert_eq!(test2, vec![7, 8, 9]);
    assert_eq!(train2, vec![0, 1, 2, 3, 4, 5, 6]);
}

#[test]
fn test_folds_partition_the_rows() {
    for n in 2..30usize {
        for k in 2..=n {
            let cv = CrossValidation::new(n, k);
            let mut seen = vec![0usize; n];
            for i in 0..k {
                let (train, test) = cv.fold(i);
                assert!(!test.is_empty());
                assert!(!train.is_empty());
                for &r in &test {
                    seen[r] += 1;
                }
                let mut all: Vec<usize> = train.iter().chain(test.iter()).cloned().collect();
                all.sort();
                assert_eq!(all, (0..n).collect::<Vec<_>>());
            }
            assert!(seen.iter().all(|&c| c == 1));
        }
    }
}

#[test]
fn as_many_folds_as_rows() {
    let cv = CrossValidation::new(3, 3);
    assert_eq!(cv.fold(1), (vec![0, 2], vec![1]));
}

#[test]
fn splitting_twice_gives_the_same_folds() {
    let a = CrossValidation::new(17, 5);
    let b = CrossValidation::new(17, 5);
    for i in 0..5 {
        assert_eq!(a.fold(i), b.fold(i));
    }
}
