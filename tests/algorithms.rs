use lua::dp::{
    climb_stairs_backtrack, climb_stairs_dp, climb_stairs_optimized, climb_stairs_with_constraint,
    coin_change, coin_change_optimized, coin_change_ways, complete_knapsack,
    complete_knapsack_optimized, knapsack, knapsack_dfs, knapsack_memo, knapsack_optimized,
    min_claimb_cost,
};
use lua::graph::{Graph_List, Graph_Matrix, Vertex};
use lua::kmp::{build_next, kmp_search};
use lua::radix::{get_digist, get_radix, radix};
use lua::sort::{bubble_sort, heap_sort, insert_sort, merge_sort, quick_sort, select_sort};

#[test]
fn test() {
    let mut s = vec![3, 2, 1, 5, 9, 7];
    bubble_sort(&mut s);
    assert_eq!(s, vec![1, 2, 3, 5, 7, 9]);
    let mut s = vec![3, 2, 1, 5, 9, 7];
    select_sort(&mut s);
    assert_eq!(s, vec![1, 2, 3, 5, 7, 9]);
    let mut s = vec![3, 2, 1, 5, 9, 7];
    insert_sort(&mut s);
    assert_eq!(s, vec![1, 2, 3, 5, 7, 9]);
}

#[test]
fn test_merge_sort() {
    let mut s = vec![3, 2, 1, 5, 9, 7];
    let l = 0;
    let r = s.len() - 1;
    merge_sort(&mut s, l, r);
    assert_eq!(s, vec![1, 2, 3, 5, 7, 9]);
}

#[test]
fn test_quick_sort() {
    let mut s = vec![3, 2, 1, 5, 9, 7];
    quick_sort(&mut s);
    assert_eq!(s, vec![1, 2, 3, 5, 7, 9]);
}

#[test]
fn test_heap_sort() {
    let mut s = vec![3, 2, 1, 5, 9, 7, 4];
    heap_sort(&mut s);
    assert_eq!(s, vec![1, 2, 3, 4, 5, 7, 9]);
}

#[test]
fn test_radix_sort() {
    let mut s = vec![3, 2, 1, 5, 9, 7, 4];
    radix(&mut s);
    assert_eq!(s, vec![1, 2, 3, 4, 5, 7, 9]);
}

#[test]
fn radix_sort_with_many_digits() {
    let mut s: Vec<usize> = vec![170, 45, 75, 90, 802, 24, 2, 66, 0, usize::MAX, 45, 1000000];
    let mut expected = s.clone();
    expected.sort();
    radix(&mut s);
    assert_eq!(s, expected);
    let mut zeros: Vec<usize> = vec![0, 0, 0];
    radix(&mut zeros);
    assert_eq!(zeros, vec![0, 0, 0]);
    let mut empty: Vec<usize> = vec![];
    radix(&mut empty);
    assert!(empty.is_empty());
}

#[test]
fn digits_and_digit_counts() {
    assert_eq!(get_digist(123, 1), 3);
    assert_eq!(get_digist(123, 2), 2);
    assert_eq!(get_digist(123, 3), 1);
    assert_eq!(get_digist(123, 4), 0);
    assert_eq!(get_radix(&vec![5, 12345, 99]), 5);
    assert_eq!(get_radix(&vec![0, 0]), 0);
    assert_eq!(get_radix(&vec![usize::MAX]), 20);
}

#[test]
fn sorts_handle_duplicates_negatives_and_edges() {
    let input = vec![5, -1, 5, 0, -7, 3, 3, 3, i32::MAX, i32::MIN];
    let mut expected = input.clone();
    expected.sort();
    for sorter in [bubble_sort, select_sort, insert_sort, quick_sort, heap_sort] {
        let mut s = input.clone();
        sorter(&mut s);
        assert_eq!(s, expected);
        let mut empty: Vec<i32> = vec![];
        sorter(&mut empty);
        assert!(empty.is_empty());
        let mut one = vec![4];
        sorter(&mut one);
        assert_eq!(one, vec![4]);
    }
    let mut s = input.clone();
    let r = s.len() - 1;
    merge_sort(&mut s, 0, r);
    assert_eq!(s, expected);
}

#[test]
fn merge_sort_touches_only_its_range() {
    let mut s = vec![9, 8, 7, 6, 5, 4];
    merge_sort(&mut s, 1, 3);
    assert_eq!(s, vec![9, 6, 7, 8, 5, 4]);
}

#[test]
fn climbing_counts() {
    assert_eq!(climb_stairs_backtrack(0), 1);
    assert_eq!(climb_stairs_backtrack(5), 8);
    assert_eq!(climb_stairs_backtrack(-3), 0);
    assert_eq!(climb_stairs_dp(0), 0);
    assert_eq!(climb_stairs_dp(1), 1);
    assert_eq!(climb_stairs_dp(2), 2);
    assert_eq!(climb_stairs_dp(10), 89);
    assert_eq!(climb_stairs_optimized(10), 89);
    assert_eq!(climb_stairs_optimized(45), 1836311903);
    assert_eq!(climb_stairs_with_constraint(1), 1);
    assert_eq!(climb_stairs_with_constraint(2), 1);
    assert_eq!(climb_stairs_with_constraint(3), 2);
    assert_eq!(climb_stairs_with_constraint(4), 2);
    assert_eq!(climb_stairs_with_constraint(7), 5);
}

#[test]
fn cheapest_climb() {
    assert_eq!(min_claimb_cost(&[0, 1, 10]), 10);
    assert_eq!(min_claimb_cost(&[7]), 7);
    assert_eq!(min_claimb_cost(&[0, 1, 10, 1]), 11);
    assert_eq!(min_claimb_cost(&[0, 3, 2, 4, 5]), 6);
}

#[test]
fn matrix_graph_edges_and_removal() {
    let mut g = Graph_Matrix::new(vec![1, 3, 2, 5, 4], vec![[0, 1], [0, 3], [1, 2], [2, 3], [2, 4], [3, 4], [7, 1], [2, 2]]);
    assert_eq!(g.size(), 5);
    g.add_edge(0, 2);
    g.remove_edge(0, 1);
    g.add_vertex(6);
    assert_eq!(g.size(), 6);
    g.remove_vertex(1);
    assert_eq!(g.size(), 5);
    g.remove_vertex(10);
    assert_eq!(g.size(), 5);
}

#[test]
fn list_graph_edges_and_removal() {
    let v = |x: i32| Vertex { value: x };
    let mut g = Graph_List::new();
    for x in [1, 3, 2, 5, 4] {
        g.add_vertex(v(x));
    }
    g.add_vertex(v(1));
    assert_eq!(g.size(), 5);
    g.add_edge(v(1), v(3));
    g.add_edge(v(1), v(5));
    g.add_edge(v(3), v(2));
    g.add_edge(v(9), v(2));
    let neighbours = |g: &Graph_List, x: i32| -> Vec<i32> {
        g.adj_list.iter().find(|e| e.0 == v(x)).unwrap().1.iter().map(|n| n.value).collect()
    };
    assert_eq!(neighbours(&g, 1), vec![3, 5]);
    assert_eq!(neighbours(&g, 3), vec![1, 2]);
    g.remove_edge(v(1), v(3));
    assert_eq!(neighbours(&g, 1), vec![5]);
    assert_eq!(neighbours(&g, 3), vec![2]);
    g.remove_vertex(v(2));
    assert_eq!(g.size(), 4);
    assert!(neighbours(&g, 3).is_empty());
}

#[test]
fn zero_one_knapsack_agrees_across_methods() {
    let wt = [10, 20, 30, 40, 50];
    let val = [50, 120, 150, 210, 240];
    let cap = 50;
    assert_eq!(knapsack(&wt, &val, cap), 270);
    assert_eq!(knapsack_optimized(&wt, &val, cap), 270);
    assert_eq!(knapsack_dfs(&wt, &val, wt.len(), cap), 270);
    let mut memo = vec![vec![-1; cap + 1]; wt.len() + 1];
    assert_eq!(knapsack_memo(&wt, &val, wt.len(), cap, &mut memo), 270);
    assert_eq!(knapsack(&wt, &val, 0), 0);
    assert_eq!(knapsack(&[], &[], 10), 0);
}

#[test]
fn unbounded_knapsack() {
    let wt = [1, 2, 3];
    let val = [5, 11, 15];
    assert_eq!(complete_knapsack(&wt, &val, 4), 22);
    assert_eq!(complete_knapsack_optimized(&wt, &val, 4), 22);
    assert_eq!(complete_knapsack(&[3], &[7], 2), 0);
}

#[test]
fn coin_change_counts() {
    let coins = [1, 2, 5];
    assert_eq!(coin_change(&coins, 11), 3);
    assert_eq!(coin_change_optimized(&coins, 11), 3);
    assert_eq!(coin_change(&[2], 3), -1);
    assert_eq!(coin_change_optimized(&[2], 3), -1);
    assert_eq!(coin_change(&[2], 0), 0);
    assert_eq!(coin_change_ways(&[1, 2, 5], 5), 4);
    assert_eq!(coin_change_ways(&[2], 3), 0);
    assert_eq!(coin_change_ways(&[3], 0), 1);
}

fn in_order(t: &Option<Box<lua::avl::TreeNode>>, out: &mut Vec<i32>) {
    if let Some(n) = t {
        in_order(&n.left, out);
        out.push(n.val);
        in_order(&n.right, out);
    }
}

fn balanced(t: &Option<Box<lua::avl::TreeNode>>) -> i32 {
    match t {
        None => -1,
        Some(n) => {
            let l = balanced(&n.left);
            let r = balanced(&n.right);
            assert!((l - r).abs() <= 1, "unbalanced at {}", n.val);
            assert_eq!(n.height, 1 + l.max(r));
            1 + l.max(r)
        }
    }
}

#[test]
fn avl_insert_and_remove_keep_order_and_balance() {
    let mut t = lua::avl::AVLTree::new();
    for v in 1..=20 {
        t.insert(v);
    }
    t.insert(7);
    let mut vals = Vec::new();
    in_order(&t.root, &mut vals);
    assert_eq!(vals, (1..=20).collect::<Vec<i32>>());
    assert!(balanced(&t.root) <= 5);
    for v in [4, 10, 1, 20, 99] {
        t.remove(v);
    }
    let mut vals = Vec::new();
    in_order(&t.root, &mut vals);
    let expected: Vec<i32> = (1..=20).filter(|v| ![4, 10, 1, 20].contains(v)).collect();
    assert_eq!(vals, expected);
    balanced(&t.root);
}

#[test]
fn test_kmp() {
    let text = "BBC ABCDAB ABCDABCDABDE";
    let pattern = "ABCDABD";
    assert_eq!(kmp_search(text, pattern), Some(15));
}

#[test]
fn kmp_edges_and_border_table() {
    assert_eq!(kmp_search("abc", ""), Some(0));
    assert_eq!(kmp_search("", "a"), None);
    assert_eq!(kmp_search("aaab", "aab"), Some(1));
    assert_eq!(kmp_search("abcabd", "abd"), Some(3));
    assert_eq!(kmp_search("abc", "abcd"), None);
    assert_eq!(kmp_search("xyz", "q"), None);
    let p: Vec<char> = "ABCDABD".chars().collect();
    assert_eq!(build_next(&p), vec![0, 0, 0, 0, 1, 2, 0]);
    let p: Vec<char> = "aabaaab".chars().collect();
    assert_eq!(build_next(&p), vec![0, 1, 0, 1, 2, 2, 3]);
}

fn bst_in_order(t: &Option<Box<lua::bst::TreeNode>>, out: &mut Vec<i32>) {
    if let Some(n) = t {
        bst_in_order(&n.left, out);
        out.push(n.value);
        bst_in_order(&n.right, out);
    }
}

#[test]
fn bst_insert_search_remove() {
    let mut t = lua::bst::BST::new();
    for v in [8, 4, 11, 1, 3, 6, 5, 7, 9, 10, 14, 12, 15, 13, 2, 6] {
        t.insert(v);
    }
    let mut vals = Vec::new();
    bst_in_order(&t.root, &mut vals);
    assert_eq!(vals, (1..=15).collect::<Vec<i32>>());
    assert_eq!(t.search(7).map(|n| n.value), Some(7));
    assert!(t.search(16).is_none());
    t.remove(1);
    t.remove(11);
    t.remove(8);
    t.remove(42);
    let mut vals = Vec::new();
    bst_in_order(&t.root, &mut vals);
    let expected: Vec<i32> = (1..=15).filter(|v| ![1, 11, 8].contains(v)).collect();
    assert_eq!(vals, expected);
    assert!(t.search(8).is_none());
    assert_eq!(t.root.as_ref().map(|n| n.value), Some(9));
}

#[test]
fn coin_change_ways_with_large_unused_counts() {
    let coins: Vec<i32> = (1..=20).map(|k| 2 * k).collect();
    assert_eq!(coin_change_ways(&coins, 301), 0);
    assert_eq!(coin_change_ways(&[1, 2], 4), 3);
}

#[test]
fn bst_remove_of_an_absent_value_changes_nothing() {
    let mut t = lua::bst::BST::new();
    for v in [5, 3, 8] {
        t.insert(v);
    }
    t.remove(4);
    let mut vals = Vec::new();
    bst_in_order(&t.root, &mut vals);
    assert_eq!(vals, vec![3, 5, 8]);
    assert_eq!(t.root.as_ref().map(|n| n.value), Some(5));
}
