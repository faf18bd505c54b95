use bart::conditional::Conditional;
use bart::negative_iterator::NegativeIterator;

#[test]
fn option_some() {
    for _ in Some(5).neg_iter() {
        panic!("Should not iterate");
    }
}

#[test]
fn option_none() {
    let mut iterations = 0;
    let option: Option<i32> = None;
    for _ in option.neg_iter() {
        iterations += 1;
    }
    assert_eq!(1, iterations);
}

#[test]
fn result_ok() {
    let result: Result<i32, i32> = Ok(5);
    for _ in (&result).neg_iter() {
        panic!("Should not iterate");
    }
}

#[test]
fn result_err() {
    let mut iterations = 0;
    let result: Result<i32, i32> = Err(5);
    for ref x in (&result).neg_iter() {
        iterations += 1;
        assert_eq!(&&5, x);
    }
    assert_eq!(1, iterations);
}

#[test]
fn truthiness_of_builtin_values() {
    assert!(true.val());
    assert!(!false.val());
    assert!(vec![1].val());
    assert!(!Vec::<i32>::new().val());
    let slice: &[i32] = &[1, 2];
    assert!(slice.val());
    let empty: &[i32] = &[];
    assert!(!empty.val());
    assert!((&true).val());
}
