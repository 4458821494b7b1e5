use partitioned::{
    ContractViolation, FatalInternalError, IteratorExt, Partition, Partitioned, ZipWithNext,
};

fn drain<I, F, K>(partition: &mut Partition<I::Item, F>, group: &mut Partitioned<I, F, K>) -> Vec<I::Item>
where
    I: Iterator,
    I::Item: Clone,
    F: Fn(&I::Item) -> K,
    K: PartialEq,
{
    let mut items = Vec::new();
    while let Some(item) = partition.next(group).expect("the pairer has a pair") {
        items.push(item);
    }
    items
}

fn partitions_of<I, F, K>(mut group: Partitioned<I, F, K>) -> Vec<Vec<I::Item>>
where
    I: Iterator,
    I::Item: Clone,
    F: Fn(&I::Item) -> K + Copy,
    K: PartialEq + std::fmt::Debug,
{
    let mut all = Vec::new();
    while let Some(mut partition) = group.next().expect("the partition before was drained") {
        all.push(drain(&mut partition, &mut group));
    }
    all
}

#[test]
fn mod_test_partitioned() {
    let numbers = vec![1, 2, 2, 3, 3, 3, 4, 5, 5];
    let partitioned = numbers.into_iter().partitioned(|n| *n);
    let result = partitions_of(partitioned);
    assert_eq!(
        result,
        vec![vec![1], vec![2, 2], vec![3, 3, 3], vec![4], vec![5, 5]]
    );
}

#[test]
fn partitioned_test_partitioned() {
    let numbers: Vec<i32> = vec![1, 2, 2, 3, 3, 3, 4, 5, 5];
    let partitioned = Partitioned::new(ZipWithNext::new(numbers.into_iter()), |n: &i32| *n);
    let result = partitions_of(partitioned);
    assert_eq!(
        result,
        vec![vec![1], vec![2, 2], vec![3, 3, 3], vec![4], vec![5, 5]]
    );
}

#[test]
fn lib_test_partitioned() {
    let numbers: Vec<i32> = vec![1, 2, 2, 3, 3, 3, 4, 5, 5];
    let partitioned = numbers.into_iter().partitioned(|n| *n);
    let result = partitioned.collect();
    assert_eq!(
        result.ok(),
        Some(vec![vec![1], vec![2, 2], vec![3, 3, 3], vec![4], vec![5, 5]])
    );
}

#[test]
fn mod_test_partitioned_not_consumed() {
    let numbers = vec![1, 1, 2];
    let mut partitioned = numbers.into_iter().partitioned(|n| *n);

    let ones = partitioned.next();
    assert!(matches!(ones, Ok(Some(_))));

    match partitioned.next() {
        Err(ContractViolation { key }) => assert_eq!(key, 1),
        _ => panic!("the partition with key 1 was not consumed"),
    }
}

#[test]
fn partitioned_test_partitioned_not_consumed() {
    let numbers: Vec<i32> = vec![1, 1, 2];
    let mut partitioned = Partitioned::new(ZipWithNext::new(numbers.into_iter()), |n: &i32| *n);

    let ones = partitioned.next();
    assert!(matches!(ones, Ok(Some(_))));

    assert!(matches!(partitioned.next(), Err(ContractViolation { key: 1 })));
}

#[test]
fn lib_test_partitioned_not_consumed() {
    let numbers: Vec<i32> = vec![1, 1, 2];
    let mut partitioned = numbers.into_iter().partitioned(|n| *n);

    let ones = partitioned.next();
    assert!(ones.is_ok_and(|partition| partition.is_some()));

    assert!(partitioned.next().is_err());
}

#[test]
fn empty_input_has_no_partition() {
    let mut group = Vec::<i32>::new().into_iter().partitioned(|n| *n);
    assert!(matches!(group.next(), Ok(None)));
    assert!(matches!(group.next(), Ok(None)));
    let group = Vec::<i32>::new().into_iter().partitioned(|n| *n);
    assert_eq!(group.collect().ok(), Some(vec![]));
}

#[test]
fn single_item_is_one_partition() {
    let mut group = vec![7].into_iter().partitioned(|n| *n);
    let mut partition = group.next().ok().flatten().expect("one partition");
    assert_eq!(partition.next(&mut group), Ok(Some(7)));
    assert_eq!(partition.next(&mut group), Ok(None));
    assert!(matches!(group.next(), Ok(None)));
}

#[test]
fn partitions_put_together_are_the_input() {
    let input = vec![3, 3, 1, 4, 4, 4, 1, 1, 5, 9, 9, 2, 6, 6];
    let parts = input.clone().into_iter().partitioned(|n| *n).collect().ok().expect("no failure");
    let flat: Vec<i32> = parts.iter().flatten().copied().collect();
    assert_eq!(flat, input);
    assert_eq!(parts, partitions_of(input.into_iter().partitioned(|n| *n)));
}

#[test]
fn partitions_are_runs_of_one_key() {
    let input = vec![10, 11, 19, 20, 25, 31, 12, 13, 40];
    let tens = |n: &i32| *n / 10;
    let parts = input.into_iter().partitioned(tens).collect().ok().expect("no failure");
    assert_eq!(
        parts,
        vec![vec![10, 11, 19], vec![20, 25], vec![31], vec![12, 13], vec![40]]
    );
    for part in &parts {
        assert!(!part.is_empty());
        assert!(part.iter().all(|n| tens(n) == tens(&part[0])));
    }
    for pair in parts.windows(2) {
        assert!(pair[0].iter().all(|n| tens(n) != tens(&pair[1][0])));
    }
}

#[test]
fn all_equal_keys_are_one_partition() {
    let parts = vec![5, 6, 7, 8].into_iter().partitioned(|_| 0u8).collect();
    assert_eq!(parts.ok(), Some(vec![vec![5, 6, 7, 8]]));
}

#[test]
fn all_distinct_keys_are_single_items() {
    let parts = vec![5, 6, 7].into_iter().partitioned(|n| *n).collect();
    assert_eq!(parts.ok(), Some(vec![vec![5], vec![6], vec![7]]));
}

#[test]
fn a_key_may_come_back_after_another() {
    let parts = vec![1, 2, 1].into_iter().partitioned(|n| *n).collect();
    assert_eq!(parts.ok(), Some(vec![vec![1], vec![2], vec![1]]));
}

#[test]
fn owned_items_are_grouped_by_length() {
    let words = vec!["ab", "cd", "efg", "h", "i"].into_iter().map(String::from);
    let parts = words.partitioned(|w: &String| w.len()).collect().ok().expect("no failure");
    assert_eq!(
        parts,
        vec![
            vec![String::from("ab"), String::from("cd")],
            vec![String::from("efg")],
            vec![String::from("h"), String::from("i")],
        ]
    );
}

#[test]
fn an_abandoned_partition_is_detected_after_some_advances() {
    let mut group = vec![4, 4, 4, 4, 5].into_iter().partitioned(|n| *n);
    let mut partition = group.next().ok().flatten().expect("a partition");
    assert_eq!(partition.next(&mut group), Ok(Some(4)));
    assert_eq!(partition.next(&mut group), Ok(Some(4)));
    assert!(partition.wants_successor());
    assert!(matches!(group.next(), Err(ContractViolation { key: 4 })));
}

#[test]
fn a_violation_leaves_the_last_key_as_it_was() {
    let mut group = vec![1, 1, 1, 2].into_iter().partitioned(|n| *n);
    assert!(matches!(group.next(), Ok(Some(_))));
    assert!(matches!(group.next(), Err(ContractViolation { key: 1 })));
    assert!(matches!(group.next(), Err(ContractViolation { key: 1 })));
    let mut twos = group.next().ok().flatten().expect("the key has changed");
    assert_eq!(drain(&mut twos, &mut group), vec![2]);
}

#[test]
fn a_partition_left_on_its_last_item_is_not_detected() {
    let mut group = vec![1, 2].into_iter().partitioned(|n| *n);
    let mut ones = group.next().ok().flatten().expect("a partition");
    assert!(!ones.wants_successor());
    let mut twos = group.next().ok().flatten().expect("the next partition");
    assert_eq!(drain(&mut twos, &mut group), vec![2]);
    assert_eq!(drain(&mut ones, &mut group), vec![1]);
}

#[test]
fn a_partition_that_finds_the_pairer_empty_fails() {
    let mut group = vec![1, 1].into_iter().partitioned(|n| *n);
    let mut partition = group.next().ok().flatten().expect("a partition");
    assert!(matches!(group.next(), Err(ContractViolation { key: 1 })));
    assert_eq!(partition.next(&mut group), Err(FatalInternalError));
    assert_eq!(partition.collect(&mut group), Err(FatalInternalError));
}

#[test]
fn a_partition_keeps_reporting_its_end() {
    let mut group = vec![8, 8, 9].into_iter().partitioned(|n| *n);
    let mut partition = group.next().ok().flatten().expect("a partition");
    assert_eq!(partition.next(&mut group), Ok(Some(8)));
    assert_eq!(partition.next(&mut group), Ok(Some(8)));
    assert_eq!(partition.next(&mut group), Ok(None));
    assert_eq!(partition.next(&mut group), Ok(None));
    assert_eq!(partition.conclude(), None);
    let mut nines = group.next().ok().flatten().expect("the next partition");
    assert_eq!(partition.next(&mut group), Ok(None));
    assert_eq!(nines.collect(&mut group), Ok(vec![9]));
    assert_eq!(partition.next(&mut group), Ok(None));
}

#[test]
fn collect_of_a_partition_takes_what_is_left_of_its_run() {
    let mut group = vec![2, 2, 2, 3, 3].into_iter().partitioned(|n| *n);
    let mut twos = group.next().ok().flatten().expect("a partition");
    assert_eq!(twos.next(&mut group), Ok(Some(2)));
    assert_eq!(twos.collect(&mut group), Ok(vec![2, 2]));
    assert_eq!(twos.collect(&mut group), Ok(vec![]));
    assert_eq!(group.collect().ok(), Some(vec![vec![3, 3]]));
}

#[test]
fn collect_of_a_group_fails_on_an_abandoned_partition() {
    let mut group = vec![1, 1, 2].into_iter().partitioned(|n| *n);
    assert!(matches!(group.next(), Ok(Some(_))));
    assert!(matches!(group.collect(), Err(ContractViolation { key: 1 })));
}

#[test]
fn the_steps_of_a_partition_can_be_driven_by_hand() {
    let mut last_key = None;
    let begun = Partition::begin(|n: &i32| *n % 2, &mut last_key, 1, Some(3));
    let mut partition = begun.ok().expect("no key was emitted before");
    assert_eq!(last_key, Some(1));
    assert!(partition.wants_successor());
    assert_eq!(partition.succeed(Some((3, Some(4)))), Ok(1));
    assert!(!partition.wants_successor());
    assert_eq!(partition.conclude(), Some(3));
    assert!(!partition.wants_successor());
    assert_eq!(partition.conclude(), None);
    assert_eq!(partition.succeed(None), Err(FatalInternalError));

    let again = Partition::begin(|n: &i32| *n % 2, &mut last_key, 5, None);
    assert!(matches!(again, Err(ContractViolation { key: 1 })));
    assert_eq!(last_key, Some(1));
    let other = Partition::begin(|n: &i32| *n % 2, &mut last_key, 4, None);
    assert!(other.is_ok());
    assert_eq!(last_key, Some(0));
}
