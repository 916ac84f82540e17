use threadpool::doubly_linked_list::DllList;
use threadpool::linked_list::Node;
use threadpool::lru_cache::LRUCache;
use threadpool::quick_sort::quick_sort;
use threadpool::trie::Trie;
use threadpool::union_find::UnionFind;

#[test]
fn create_node() {
    let node = Node::new(5);
    assert_eq!(5, node.get());
}

#[test]
fn link_two_nodes() {
    let tail = Box::new(Node::new(43));
    let mut head = Box::new(Node::new(42));
    head.next = Some(tail);

    assert_eq!(43, head.next.unwrap().get());
}

#[test]
fn create_from_array() {
    let input = [42, 43, 44];
    let head = Node::from(&input).unwrap();
    assert_eq!(42, head.get());
    let mut curr_node = head.next.unwrap();
    assert_eq!(43, curr_node.get());
    curr_node = curr_node.next.unwrap();
    assert_eq!(44, curr_node.get());
}

#[test]
fn from_empty_slice_is_none() {
    let input: [i32; 0] = [];
    assert!(Node::from(&input).is_none());
}

#[test]
fn dll_add_front_keeps_both_ends() {
    let mut list = DllList::new();
    assert!(list.get_head().is_none());
    assert!(list.get_tail().is_none());
    list.add_front(1);
    list.add_front(2);
    list.add_front(3);
    assert_eq!(list.get_head().unwrap().val, 3);
    assert_eq!(list.get_tail().unwrap().val, 1);
}

#[test]
fn test_lru_cache_init() {
    let cache = LRUCache::new(2);
    assert_eq!(cache.capacity, 2);
    assert_eq!(cache.cache.len(), 0);
    assert_eq!(cache.keys_ordered_lru.len(), 0);
    assert_eq!(cache.keys_to_prune.len(), 0);
}

#[test]
fn test_lru_cache_put_and_get() {
    let mut cache = LRUCache::new(2);
    cache.put(1, 1);
    assert_eq!(cache.get(1), 1); // returns 1
    cache.put(2, 2);
    assert_eq!(cache.get(2), 2); // returns 2
    cache.put(3, 3); // evicts key 1
    assert_eq!(cache.get(1), -1); // returns -1 (not found)
    assert_eq!(cache.get(2), 2); // returns 2
    assert_eq!(cache.get(3), 3); // returns 3
    cache.put(4, 4); // evicts key 2
    assert_eq!(cache.get(2), -1); // returns -1 (not found)
    assert_eq!(cache.get(3), 3); // returns 3
    assert_eq!(cache.get(4), 4); // returns 4
}

#[test]
fn lru_get_refreshes_recency() {
    let mut cache = LRUCache::new(2);
    cache.put(1, 10);
    cache.put(2, 20);
    assert_eq!(cache.get(1), 10); // 2 is now the least recently used
    cache.put(3, 30); // evicts key 2
    assert_eq!(cache.get(2), -1);
    assert_eq!(cache.get(1), 10);
    assert_eq!(cache.get(3), 30);
}

#[test]
fn quick_sort_u32() {
    assert_eq!(quick_sort(vec![100, 21, 213, 4]), vec![4, 21, 100, 213]);
}

#[test]
fn quick_sort_negatives() {
    assert_eq!(quick_sort(vec![-100, 21, -213, 4]), vec![-213, -100, 4, 21]);
}

#[test]
fn quick_sort_already_sorted() {
    assert_eq!(quick_sort(vec![1, 2, 3, 4]), vec![1, 2, 3, 4]);
}

#[test]
fn quick_sort_single_and_duplicates() {
    assert_eq!(quick_sort(vec![9]), vec![9]);
    assert_eq!(quick_sort(vec![5, 1, 5, 1, 5]), vec![1, 1, 5, 5, 5]);
}

#[test]
fn trie_initialize() {
    let trie = Trie::new();
    assert!(!trie.search("fizz".to_string()));
    assert!(!trie.starts_with("fizz".to_string()));
}

#[test]
fn simple_trie() {
    let mut trie = Trie::new();

    trie.insert("buzz".to_string());
    trie.insert("fizzbuzz".to_string());

    assert!(trie.search("fizzbuzz".to_string()));
    assert!(trie.search("buzz".to_string()));
    assert!(trie.starts_with("fizz".to_string()));
    assert!(!trie.search("fizz".to_string()));
}

#[test]
fn trie_letter_slots() {
    assert_eq!(threadpool::trie::to_index('a'), 0);
    assert_eq!(threadpool::trie::to_index('z'), 25);
}

#[test]
fn union_find_initialize() {
    let mut disjoint_set = UnionFind::new(1);
    assert!(disjoint_set.is_connected(0, 0));
    assert_eq!(disjoint_set.get_number_of_disjoint_sets(), 1);
}

/// This allows creation of disjoint set from a list of edges
fn disjoint_set_from_vec(nf_vertices: usize, edges: Vec<Vec<usize>>) -> UnionFind {
    let mut disjoint_set = UnionFind::new(nf_vertices);

    for edge in edges {
        disjoint_set.union(edge[0], edge[1]);
    }

    disjoint_set
}

#[test]
fn create_from_list() {
    let edges = vec![vec![0, 1], vec![0, 2], vec![1, 6], vec![6, 7], vec![3, 4]];

    let mut disjoint_set = disjoint_set_from_vec(8, edges);

    assert!(disjoint_set.is_connected(2, 7));
    assert_eq!(disjoint_set.get_number_of_disjoint_sets(), 3);
}

#[test]
fn join() {
    let edges = vec![vec![0, 1], vec![0, 2], vec![1, 6], vec![6, 7], vec![3, 4]];

    let mut disjoint_set = disjoint_set_from_vec(8, edges);

    // Add a new edge between 2, 3, that merges the two disjoint sets
    disjoint_set.union(2, 3);

    assert!(disjoint_set.is_connected(4, 7));
    assert!(!disjoint_set.is_connected(5, 7));
    assert_eq!(disjoint_set.get_number_of_disjoint_sets(), 2);
}

#[test]
fn union_of_joined_sets_changes_nothing() {
    let mut disjoint_set = UnionFind::new(3);
    disjoint_set.union(0, 1);
    disjoint_set.union(1, 0);
    assert_eq!(disjoint_set.get_number_of_disjoint_sets(), 2);
    assert!(!disjoint_set.is_connected(0, 2));
}
