use and_conquer::{divide_equal_work, divide_work, WorkerFailure, PARALLEL_WORK_THRESHOLD};

#[test]
fn divide_numbers() {
    let input = vec![1, 2, 3, 4, 5, 6, 7, 8, 9, 10, 11, 12];
    let f = |x: i32| x + 1;
    let output = divide_work(input, f).unwrap();

    let expected = vec![2, 3, 4, 5, 6, 7, 8, 9, 10, 11, 12, 13];
    assert_eq!(output, expected);
}

#[test]
fn divide_equal_numbers() {
    let input = vec![1, 2, 3, 4, 5, 6, 7, 8, 9, 10, 11, 12];
    let f = |x: i32| x + 1;
    let output = divide_equal_work(input, f).unwrap();

    let expected = vec![2, 3, 4, 5, 6, 7, 8, 9, 10, 11, 12, 13];
    assert_eq!(output, expected);
}

#[test]
fn divide_strings() {
    let input = vec![
        "walk", "show", "code", "enter", "etc", "etc", "etc", "etc", "etc", "etc", "etc", "etc",
    ];
    let tail = String::from("ed");
    let output = divide_work(input, move |verb| String::from(verb) + &tail).unwrap();

    let expected: Vec<String> = vec![
        "walked", "showed", "codeed", "entered", "etced", "etced", "etced", "etced", "etced",
        "etced", "etced", "etced",
    ]
    .into_iter()
    .map(|verb| String::from(verb))
    .collect();

    assert_eq!(output, expected);
}

#[test]
fn divide_equal_strings() {
    let input = vec![
        "walk", "show", "code", "enter", "etc", "etc", "etc", "etc", "etc", "etc", "etc", "etc",
    ];
    let tail = String::from("ed");
    let output = divide_equal_work(input, move |verb| String::from(verb) + &tail).unwrap();

    let expected: Vec<String> = vec![
        "walked", "showed", "codeed", "entered", "etced", "etced", "etced", "etced", "etced",
        "etced", "etced", "etced",
    ]
    .into_iter()
    .map(|verb| String::from(verb))
    .collect();

    assert_eq!(output, expected);
}

#[test]
fn divide_undivisible() {
    let input = vec!["walk", "show", "code", "enter"];

    // Ensure `input` is not qualified for splitting
    assert!(input.len() < PARALLEL_WORK_THRESHOLD);

    let tail = String::from("ed");
    let output = divide_work(input, move |verb| String::from(verb) + &tail).unwrap();

    let expected: Vec<String> = vec!["walked", "showed", "codeed", "entered"]
        .into_iter()
        .map(|verb| String::from(verb))
        .collect();

    assert_eq!(output, expected);
}

#[test]
fn divide_equal_undivisible() {
    let input = vec!["walk", "show", "code", "enter"];

    // Ensure `input` is not qualified for splitting
    assert!(input.len() < PARALLEL_WORK_THRESHOLD);

    let tail = String::from("ed");
    let output = divide_equal_work(input, move |verb| String::from(verb) + &tail).unwrap();

    let expected: Vec<String> = vec!["walked", "showed", "codeed", "entered"]
        .into_iter()
        .map(|verb| String::from(verb))
        .collect();

    assert_eq!(output, expected);
}

#[test]
fn divide_twice_equal_outputs() {
    let f = |x: u64| x * x;
    let input: Vec<u64> = (1..=20).collect();
    let once = divide_work(input.clone(), f).unwrap();
    let twice = divide_work(input, f).unwrap();
    assert_eq!(once, twice);
}

#[test]
fn divide_equal_twice_equal_outputs() {
    let f = |x: u64| x * x;
    let input: Vec<u64> = (1..=20).collect();
    let once = divide_equal_work(input.clone(), f).unwrap();
    let twice = divide_equal_work(input, f).unwrap();
    assert_eq!(once, twice);
}

#[test]
fn divide_identity_round_trip() {
    let short: Vec<u32> = (0..4).collect();
    let long: Vec<u32> = (0..37).collect();
    assert_eq!(divide_work(short.clone(), |x| x).unwrap(), short);
    assert_eq!(divide_work(long.clone(), |x| x).unwrap(), long);
    assert_eq!(divide_work(Vec::<u32>::new(), |x| x).unwrap(), Vec::<u32>::new());
}

#[test]
fn divide_equal_identity_round_trip() {
    let short: Vec<u32> = (0..4).collect();
    let long: Vec<u32> = (0..37).collect();
    assert_eq!(divide_equal_work(short.clone(), |x| x).unwrap(), short);
    assert_eq!(divide_equal_work(long.clone(), |x| x).unwrap(), long);
    assert_eq!(divide_equal_work(Vec::<u32>::new(), |x| x).unwrap(), Vec::<u32>::new());
}

#[test]
fn divide_both_agree_at_threshold() {
    let input: Vec<i64> = (0..(PARALLEL_WORK_THRESHOLD as i64)).collect();
    let f = |x: i64| x - 7;
    let a = divide_work(input.clone(), f).unwrap();
    let b = divide_equal_work(input.clone(), f).unwrap();
    let expected: Vec<i64> = input.iter().map(|x| x - 7).collect();
    assert_eq!(a, expected);
    assert_eq!(b, expected);
}

#[test]
fn divide_panicking_transformation_fails() {
    let input: Vec<u32> = (0..12).collect();
    let f = |x: u32| {
        if x == 7 {
            panic!("bad element");
        }
        x + 1
    };
    let result = divide_work(input, f);
    assert_eq!(result, Err(WorkerFailure));
}

#[test]
fn divide_equal_panicking_transformation_fails() {
    let input: Vec<u32> = (0..12).collect();
    let f = |x: u32| {
        if x == 7 {
            panic!("bad element");
        }
        x + 1
    };
    let result = divide_equal_work(input, f);
    assert_eq!(result, Err(WorkerFailure));
}
