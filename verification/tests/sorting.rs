use sorting::Algos;
use sorting::Keyed;
use sorting::Sortable;
use sorting::bubble_sort;
use sorting::heap_sort;
use sorting::insertion_sort;
use sorting::merge_sort;
use sorting::quick_sort;
use sorting::selection_sort;
use sorting::shell_sort;

// runs every algorithm over the given input and checks the expected result
fn run_algos(unsorted: Vec<u32>, expected: Vec<u32>) {
    let algos: [fn(&mut Vec<u32>); 7] = [
        insertion_sort,
        selection_sort,
        bubble_sort,
        shell_sort,
        merge_sort,
        heap_sort,
        quick_sort,
    ];

    for sort in algos {
        let mut data = unsorted.clone();
        sort(&mut data);
        assert_eq!(expected, data)
    }
}

#[test]
fn they_sort_simple_random_data() {
    let sorted_data = vec![1, 2, 3, 4, 5, 6];
    let shuffled_data = vec![2, 5, 1, 6, 3, 4];

    run_algos(shuffled_data, sorted_data);
}

#[test]
fn they_sort_simple_sorted_data() {
    let sorted_data = vec![1, 2, 3, 4, 5, 6];

    run_algos(sorted_data.clone(), sorted_data);
}

#[test]
fn they_sort_simple_reversed_data() {
    let sorted_data = vec![1, 2, 3, 4, 5, 6];
    let reversed_data = vec![6, 5, 4, 3, 2, 1];

    run_algos(reversed_data, sorted_data);
}

#[test]
fn they_sort_simple_few_unique_data() {
    let sorted_data = vec![1, 1, 2, 2, 3, 3];
    let reversed_data = vec![2, 3, 1, 3, 1, 2];

    run_algos(reversed_data, sorted_data);
}

#[test]
fn vec_char_derives_sort_method() {
    let mut testvec = vec!['2', '3', '4', '1', '5', '6'];
    testvec.sort_with(Algos::Bubble);

    assert_eq!(testvec, vec!['1', '2', '3', '4', '5', '6'])
}

#[test]
fn vec_i32_derives_bubble_sort_method() {
    let mut testvec = vec![2, 3, 4, 1, 5, 6];
    testvec.sort_with(Algos::Bubble);

    assert_eq!(testvec, vec![1, 2, 3, 4, 5, 6]);
}

#[test]
fn they_sort_empty_and_singleton_data() {
    run_algos(vec![], vec![]);
    run_algos(vec![7], vec![7]);
}

#[test]
fn sorting_twice_equals_sorting_once() {
    let algos: [fn(&mut Vec<u32>); 7] = [
        insertion_sort,
        selection_sort,
        bubble_sort,
        shell_sort,
        merge_sort,
        heap_sort,
        quick_sort,
    ];
    for sort in algos {
        let mut once = vec![9, 2, 7, 2, 5, 1];
        sort(&mut once);
        let mut twice = once.clone();
        sort(&mut twice);
        assert_eq!(once, twice);
    }
}

#[test]
fn all_algorithms_agree_on_one_input() {
    let algos: [fn(&mut Vec<u32>); 7] = [
        insertion_sort,
        selection_sort,
        bubble_sort,
        shell_sort,
        merge_sort,
        heap_sort,
        quick_sort,
    ];
    let input = vec![12, 0, 7, 7, 3, 99, 4, 4, 1];
    let mut reference = input.clone();
    insertion_sort(&mut reference);
    for sort in algos {
        let mut data = input.clone();
        sort(&mut data);
        assert_eq!(reference, data);
    }
}

#[test]
fn every_dispatch_tag_selects_a_working_sort() {
    let tags = [
        Algos::Bubble,
        Algos::Heap,
        Algos::Insertion,
        Algos::Merge,
        Algos::Quick,
        Algos::Selection,
        Algos::Shell,
    ];
    for tag in tags {
        let mut data = vec![5, 3, 8, 1, 9, 2];
        data.sort_with(tag);
        assert_eq!(data, vec![1, 2, 3, 5, 8, 9]);
    }
}

#[test]
fn dispatch_matches_direct_call() {
    let mut by_tag = vec![2, 3, 4, 1, 5, 6];
    by_tag.sort_with(Algos::Bubble);
    let mut direct = vec![2, 3, 4, 1, 5, 6];
    bubble_sort(&mut direct);
    assert_eq!(by_tag, direct);
}

#[test]
fn stable_sorts_keep_equal_keys_in_order() {
    // equal keys tagged with their original position
    let input = vec![
        Keyed { key: 2, tag: 0 },
        Keyed { key: 1, tag: 1 },
        Keyed { key: 2, tag: 2 },
        Keyed { key: 1, tag: 3 },
        Keyed { key: 2, tag: 4 },
    ];
    let expected_tags = vec![1, 3, 0, 2, 4];

    let stable: [fn(&mut Vec<Keyed>); 3] = [insertion_sort, bubble_sort, merge_sort];
    for sort in stable {
        let mut data = input.clone();
        sort(&mut data);
        let tags: Vec<u32> = data.iter().map(|k| k.tag).collect();
        assert_eq!(tags, expected_tags);
    }
}

#[test]
fn stable_sorts_leave_sorted_keyed_data_unchanged() {
    // already sorted by key: a stable sort must return it bit-for-bit,
    // tags of equal keys included
    let input = vec![
        Keyed { key: 1, tag: 5 },
        Keyed { key: 1, tag: 2 },
        Keyed { key: 2, tag: 9 },
        Keyed { key: 2, tag: 0 },
    ];
    let stable: [fn(&mut Vec<Keyed>); 3] = [insertion_sort, bubble_sort, merge_sort];
    for sort in stable {
        let mut data = input.clone();
        sort(&mut data);
        assert_eq!(data, input);
    }
}

#[test]
fn other_element_types_sort_too() {
    let mut signed: Vec<i64> = vec![3, -1, 2, -7, 0];
    heap_sort(&mut signed);
    assert_eq!(signed, vec![-7, -1, 0, 2, 3]);

    let mut wide: Vec<u64> = vec![u64::MAX, 0, 42];
    quick_sort(&mut wide);
    assert_eq!(wide, vec![0, 42, u64::MAX]);

    let mut sizes: Vec<usize> = vec![10, 2, 30, 4];
    shell_sort(&mut sizes);
    assert_eq!(sizes, vec![2, 4, 10, 30]);

    let mut small: Vec<i32> = vec![5, -5, 0];
    selection_sort(&mut small);
    assert_eq!(small, vec![-5, 0, 5]);
}
