use bubble_sorter::sort::bubble_sort;
use bubble_sorter::sort::Tagged;

fn sorted(mut v: Vec<i32>) -> Vec<i32> {
    bubble_sort(&mut v);
    v
}

fn tagged(pairs: &[(i32, u32)]) -> Vec<Tagged> {
    pairs.iter().map(|&(key, tag)| Tagged { key, tag }).collect()
}

#[test]
fn empty_stays_empty() {
    assert_eq!(sorted(vec![]), Vec::<i32>::new());
}

#[test]
fn single_element_stays() {
    assert_eq!(sorted(vec![7]), vec![7]);
}

#[test]
fn sorts_mixed_values() {
    assert_eq!(sorted(vec![200, 100, 500, 300, 400]), vec![100, 200, 300, 400, 500]);
}

#[test]
fn sorts_reverse_input() {
    assert_eq!(sorted(vec![5, 4, 3, 2, 1]), vec![1, 2, 3, 4, 5]);
}

#[test]
fn sorts_duplicates() {
    assert_eq!(sorted(vec![3, 1, 3, 2]), vec![1, 2, 3, 3]);
}

#[test]
fn duplicates_keep_their_order() {
    let mut v = tagged(&[(3, 0), (1, 1), (3, 2), (2, 3)]);
    bubble_sort(&mut v);
    assert_eq!(v, tagged(&[(1, 1), (2, 3), (3, 0), (3, 2)]));
}

#[test]
fn equal_keys_keep_order_across_long_input() {
    let mut v = tagged(&[(2, 0), (1, 1), (2, 2), (0, 3), (1, 4), (2, 5), (0, 6)]);
    bubble_sort(&mut v);
    assert_eq!(
        v,
        tagged(&[(0, 3), (0, 6), (1, 1), (1, 4), (2, 0), (2, 2), (2, 5)])
    );
}

#[test]
fn adjacent_pairs_are_ordered() {
    let v = sorted(vec![9, -4, 0, 17, -4, 3, 12, 1, 1, -30]);
    for w in v.windows(2) {
        assert!(w[0] <= w[1]);
    }
}

#[test]
fn elements_are_kept() {
    let input = vec![9, -4, 0, 17, -4, 3, 12, 1, 1, -30];
    let v = sorted(input.clone());
    assert_eq!(v.len(), input.len());
    for x in &input {
        let before = input.iter().filter(|y| *y == x).count();
        let after = v.iter().filter(|y| *y == x).count();
        assert_eq!(before, after);
    }
}

#[test]
fn sorted_input_is_unchanged() {
    let mut v = tagged(&[(1, 4), (1, 2), (2, 9), (5, 0), (5, 1)]);
    let before = v.clone();
    bubble_sort(&mut v);
    assert_eq!(v, before);
}

#[test]
fn sorting_twice_changes_nothing() {
    let once = sorted(vec![4, 8, -1, 4, 0]);
    assert_eq!(sorted(once.clone()), once);
}

#[test]
fn extreme_values() {
    assert_eq!(
        sorted(vec![i32::MAX, 0, i32::MIN, -1, i32::MAX]),
        vec![i32::MIN, -1, 0, i32::MAX, i32::MAX]
    );
    let mut w: Vec<i64> = vec![i64::MAX, i64::MIN, 0];
    bubble_sort(&mut w);
    assert_eq!(w, vec![i64::MIN, 0, i64::MAX]);
}

#[test]
fn two_elements_are_swapped() {
    assert_eq!(sorted(vec![2, 1]), vec![1, 2]);
}
