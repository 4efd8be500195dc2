use node_link_store::sorting::bubble_sort;
use node_link_store::sorting::fibonacci_dynamic;
use node_link_store::sorting::fibonaci;
use node_link_store::sorting::fibonaci_iter;
use node_link_store::sorting::merge_sort;
use node_link_store::sorting::pivot;
use node_link_store::sorting::quick_sort;

#[test]
fn test_bubble_sort() {
    let mut v = vec![4, 6, 9, 12, 3, 13];
    bubble_sort(&mut v);
    assert_eq!(v, vec![3, 4, 6, 9, 12, 13]);
}

#[test]
fn test_merge_sort() {
    let v = vec![12, 9, 4];
    let v = merge_sort(v);
    assert_eq!(v, vec![4, 9, 12]);
}

#[test]
fn test_pivot() {
    let mut v = vec![4, 6, 1, 8, 2, 7, 9, 5, 13, 8];
    let p = pivot(&mut v);
    assert_eq!(p, 2);
}

#[test]
fn test_quick_sort() {
    let mut v = vec![4, 6, 1, 8, 12, 9, 17, 23, 7, 2];
    quick_sort(&mut v);
    assert_eq!(v, vec![1, 2, 4, 6, 7, 8, 9, 12, 17, 23]);
}

#[test]
fn test_fibonaci() {
    let (a, _b) = fibonacci_dynamic(5);
    assert_eq!(a, 8);
}

#[test]
fn test_fibonaci_normal() {
    let a = fibonaci(5);
    assert_eq!(a, 8);
}

#[test]
fn test_fibonaci_iter() {
    let a = fibonaci_iter(5);
    assert_eq!(a, 8);
}

#[test]
fn sorts_accept_empty_and_single_element_input() {
    let mut empty: Vec<i32> = vec![];
    bubble_sort(&mut empty);
    assert_eq!(empty, Vec::<i32>::new());
    quick_sort(&mut empty);
    assert_eq!(empty, Vec::<i32>::new());
    assert_eq!(merge_sort(Vec::<i32>::new()), Vec::<i32>::new());

    let mut single = vec![42];
    bubble_sort(&mut single);
    assert_eq!(single, vec![42]);
    quick_sort(&mut single);
    assert_eq!(single, vec![42]);
    assert_eq!(merge_sort(vec![42]), vec![42]);
}

#[test]
fn sorts_keep_duplicates() {
    let mut v = vec![5, 1, 5, -3, 1, 5];
    bubble_sort(&mut v);
    assert_eq!(v, vec![-3, 1, 1, 5, 5, 5]);

    let mut w = vec![5, 1, 5, -3, 1, 5];
    quick_sort(&mut w);
    assert_eq!(w, vec![-3, 1, 1, 5, 5, 5]);

    assert_eq!(merge_sort(vec![5, 1, 5, -3, 1, 5]), vec![-3, 1, 1, 5, 5, 5]);
}

#[test]
fn pivot_partitions_around_the_first_element() {
    let mut v = vec![10, 3, 17, 2, 25, 7];
    let p = pivot(&mut v);
    let pivot_value = v[p];
    assert_eq!(pivot_value, 10);
    for k in 0..p {
        assert!(v[k] <= pivot_value);
    }
    for k in p..v.len() {
        assert!(v[k] >= pivot_value);
    }
}

#[test]
fn pivot_of_an_empty_vector_is_zero() {
    let mut v: Vec<i32> = vec![];
    assert_eq!(pivot(&mut v), 0);
    assert_eq!(v, Vec::<i32>::new());
    let mut single = vec![9];
    assert_eq!(pivot(&mut single), 0);
    assert_eq!(single, vec![9]);
}

#[test]
fn fibonacci_small_values() {
    assert_eq!(fibonaci(0), 1);
    assert_eq!(fibonaci(1), 1);
    assert_eq!(fibonaci(2), 2);
    assert_eq!(fibonaci(-4), 1);
    assert_eq!(fibonaci_iter(0), 1);
    assert_eq!(fibonaci_iter(1), 1);
    assert_eq!(fibonaci_iter(2), 2);
    assert_eq!(fibonaci_iter(-4), 1);
    assert_eq!(fibonacci_dynamic(0), (1, 0));
    assert_eq!(fibonacci_dynamic(1), (1, 1));
    assert_eq!(fibonacci_dynamic(2), (2, 1));
}

#[test]
fn fibonacci_routines_agree() {
    for n in 0..12 {
        let (a, _) = fibonacci_dynamic(n);
        assert_eq!(fibonaci(n), a);
        assert_eq!(fibonaci_iter(n), a);
    }
}
