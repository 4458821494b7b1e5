use partitioned::{IteratorExt, Lookahead, Turn, ZipWithNext};

fn pairs_of<I: Iterator>(mut zipped: ZipWithNext<I>) -> Vec<(I::Item, Option<I::Item>)>
where
    I::Item: Clone,
{
    let mut pairs = Vec::new();
    while let Some(pair) = zipped.next() {
        pairs.push(pair);
    }
    pairs
}

#[test]
fn zip_with_next_test_zip_with_next() {
    let numbers = 0..0;
    let numbers = pairs_of(ZipWithNext::new(numbers));
    assert_eq!(numbers, vec![]);

    let numbers = 0..1;
    let numbers = pairs_of(ZipWithNext::new(numbers));
    assert_eq!(numbers, vec![(0, None)]);

    let numbers = 0..2;
    let numbers = pairs_of(ZipWithNext::new(numbers));
    assert_eq!(numbers, vec![(0, Some(1)), (1, None)]);

    let numbers = 0..4;
    let numbers = pairs_of(ZipWithNext::new(numbers));
    assert_eq!(
        numbers,
        vec![(0, Some(1)), (1, Some(2)), (2, Some(3)), (3, None)]
    );
}

#[test]
fn lib_test_zip_with_next() {
    let numbers = 0..0;
    let numbers = pairs_of(numbers.zip_with_next());
    assert_eq!(numbers, vec![]);

    let numbers = 0..1;
    let numbers = pairs_of(numbers.zip_with_next());
    assert_eq!(numbers, vec![(0, None)]);

    let numbers = 0..2;
    let numbers = pairs_of(numbers.zip_with_next());
    assert_eq!(numbers, vec![(0, Some(1)), (1, None)]);

    let numbers = 0..4;
    let numbers = pairs_of(numbers.zip_with_next());
    assert_eq!(
        numbers,
        vec![(0, Some(1)), (1, Some(2)), (2, Some(3)), (3, None)]
    );
}

#[test]
fn collect_gives_one_pair_per_item() {
    let input = vec![10, 20, 30, 40, 50];
    let pairs = input.clone().into_iter().zip_with_next().collect();
    assert_eq!(pairs.len(), input.len());
    for (i, (item, ahead)) in pairs.iter().enumerate() {
        assert_eq!(*item, input[i]);
        assert_eq!(*ahead, input.get(i + 1).copied());
    }
}

#[test]
fn collect_of_nothing_is_empty() {
    let pairs = Vec::<u8>::new().into_iter().zip_with_next().collect();
    assert_eq!(pairs, vec![]);
}

#[test]
fn collect_resumes_after_next() {
    let mut zipped = vec![1, 2, 3].into_iter().zip_with_next();
    assert_eq!(zipped.next(), Some((1, Some(2))));
    assert_eq!(zipped.collect(), vec![(2, Some(3)), (3, None)]);
}

#[test]
fn next_keeps_reporting_the_end() {
    let mut zipped = vec![7].into_iter().zip_with_next();
    assert_eq!(zipped.next(), Some((7, None)));
    assert_eq!(zipped.next(), None);
    assert_eq!(zipped.next(), None);
}

#[test]
fn pairs_hold_duplicates_of_owned_items() {
    let words = vec![String::from("a"), String::from("b"), String::from("c")];
    let pairs = words.into_iter().zip_with_next().collect();
    assert_eq!(
        pairs,
        vec![
            (String::from("a"), Some(String::from("b"))),
            (String::from("b"), Some(String::from("c"))),
            (String::from("c"), None),
        ]
    );
}

#[test]
fn lookahead_pairs_each_item_with_the_one_before() {
    let mut slot = Lookahead::new();
    assert_eq!(slot.push(1), None);
    assert_eq!(slot.push(2), Some((1, Some(2))));
    assert_eq!(slot.push(3), Some((2, Some(3))));
    assert_eq!(slot.finish(), Some((3, None)));
    assert_eq!(slot.finish(), None);
}

#[test]
fn lookahead_of_an_empty_source_hands_out_nothing() {
    let mut slot = Lookahead::<i32>::new();
    assert_eq!(slot.finish(), None);
}

#[test]
fn lookahead_of_one_item_hands_it_out_at_the_end() {
    let mut slot = Lookahead::new();
    assert_eq!(slot.push('x'), None);
    assert_eq!(slot.finish(), Some(('x', None)));
}

#[test]
fn a_polled_pairer_rearms_on_its_first_item_only() {
    let mut slot = Lookahead::new();
    assert_eq!(slot.poll_next(Some(1)), Turn::Rearm);
    assert_eq!(slot.poll_next(Some(2)), Turn::Ready(Some((1, Some(2)))));
    assert_eq!(slot.poll_next(Some(3)), Turn::Ready(Some((2, Some(3)))));
    assert_eq!(slot.poll_next(None), Turn::Ready(Some((3, None))));
    assert_eq!(slot.poll_next(None), Turn::Ready(None));
}

#[test]
fn a_polled_pairer_of_one_item_ends_with_it() {
    let mut slot = Lookahead::new();
    assert_eq!(slot.poll_next(Some("only")), Turn::Rearm);
    assert_eq!(slot.poll_next(None), Turn::Ready(Some(("only", None))));
    assert_eq!(slot.poll_next(None), Turn::Ready(None));
}

#[test]
fn a_polled_pairer_of_nothing_ends_at_once() {
    let mut slot = Lookahead::<u64>::new();
    assert_eq!(slot.poll_next(None), Turn::Ready(None));
}
