use os_kernel::hash_map::HashMap;
use os_kernel::heap::MaxHeap;
use os_kernel::list::LinkedList;
use os_kernel::tree::{BinaryTree, TreeNode};

#[test]
fn test_linked_list() {
    let mut list = LinkedList::new();
    list.push(1);
    list.push(2);

    assert_eq!(list.length(), 2);
    assert_eq!(list.pop(), Some(2));
    assert_eq!(list.length(), 1);
}

#[test]
fn test_max_heap() {
    let mut heap = MaxHeap::new();
    heap.insert(10);
    heap.insert(5);
    heap.insert(15);

    assert_eq!(heap.peek(), Some(&15));
    assert_eq!(heap.extract_max(), Some(15));
    assert_eq!(heap.peek(), Some(&10));
}

#[test]
fn list_insert_get_reverse() {
    let mut list = LinkedList::new();
    list.push(3);
    list.push(1);
    assert_eq!(list.insert(1, 2), Ok(()));
    assert_eq!(list.insert(3, 4), Ok(()));
    assert!(list.insert(9, 9).is_err());
    assert_eq!(list.length(), 4);
    assert_eq!(list.get(0), Some(&1));
    assert_eq!(list.get(2), Some(&3));
    assert_eq!(list.get(4), None);
    list.reverse();
    assert_eq!(list.get(0), Some(&4));
    assert_eq!(list.get(3), Some(&1));
    assert_eq!(list.pop(), Some(4));
    let mut empty: LinkedList<i32> = LinkedList::new();
    assert_eq!(empty.pop(), None);
}

#[test]
fn heap_drains_in_descending_order() {
    let mut heap = MaxHeap::new();
    for v in [4, -2, 9, 9, 0, 7, 3] {
        heap.insert(v);
    }
    assert_eq!(heap.size(), 7);
    let mut out = Vec::new();
    while let Some(v) = heap.extract_max() {
        out.push(v);
    }
    assert_eq!(out, vec![9, 9, 7, 4, 3, 0, -2]);
    assert!(heap.is_empty());
    assert_eq!(heap.peek(), None);
}

#[test]
fn test_binary_tree() {
    let mut tree = BinaryTree::new();
    tree.insert(5);
    tree.insert(3);
    tree.insert(7);

    assert!(tree.search(5));
    assert!(tree.search(3));
    assert!(!tree.search(1));
    assert_eq!(tree.size(), 3);
}

#[test]
fn tree_orders_and_measures() {
    let mut tree = BinaryTree::new();
    assert_eq!(tree.height(), 0);
    for v in [50, 30, 70, 20, 40, 60, 80, 30, 10] {
        tree.insert(v);
    }
    assert_eq!(tree.inorder_traversal(), vec![10, 20, 30, 40, 50, 60, 70, 80]);
    assert_eq!(tree.height(), 4);
    assert_eq!(tree.size(), 9);
    assert!(tree.search(10));
    assert!(!tree.search(65));
    let leaf = TreeNode::new(4);
    assert_eq!(leaf.value, 4);
    assert!(leaf.left.is_none() && leaf.right.is_none());
}

#[test]
fn test_hash_map() {
    let mut map = HashMap::new();
    map.insert("key1".to_string(), "value1".to_string());

    assert!(map.contains(&"key1".to_string()));
    assert_eq!(map.get(&"key1".to_string()), Some(&"value1".to_string()));
    assert_eq!(map.size(), 1);
}

#[test]
fn hash_map_grows_updates_and_removes() {
    let mut map = HashMap::new();
    for i in 0..50 {
        map.insert(format!("k{}", i), format!("v{}", i));
    }
    assert_eq!(map.size(), 50);
    map.insert("k7".to_string(), "seven".to_string());
    assert_eq!(map.size(), 50);
    assert_eq!(map.get(&"k7".to_string()), Some(&"seven".to_string()));
    assert_eq!(map.get(&"k49".to_string()), Some(&"v49".to_string()));
    assert_eq!(map.remove(&"k3".to_string()), Some("v3".to_string()));
    assert_eq!(map.remove(&"k3".to_string()), None);
    assert!(!map.contains(&"k3".to_string()));
    assert_eq!(map.size(), 49);
    let mut keys: Vec<String> = map.keys().into_iter().cloned().collect();
    keys.sort();
    assert_eq!(keys.len(), 49);
    assert!(keys.contains(&"k0".to_string()));
}
