use ordered_tree::BST;

fn make_tree1() -> BST<&'static str, i32> {
    BST::new("test", 23, BST::singleton("abc", 13), BST::singleton("xyz", 42))
}

fn make_tree2() -> BST<&'static str, i32> {
    BST::new("test", 42, BST::singleton("abc", 23), BST::singleton("xyz", 13))
}

#[test]
fn ex8_non_recursive_empty_tree() {
    let tree = BST::<&'static str, i32>::empty();
    assert!(tree.is_empty());
    assert!(!tree.contains("test"));
}

#[test]
fn ex8_non_recursive_insert() {
    let mut tree = BST::empty();
    tree.insert("test", 23);
    tree.insert("abc", 13);
    tree.insert("xyz", 42);
    assert_eq!(tree, make_tree1());
}

#[test]
fn ex8_non_recursive_insert_override() {
    let mut tree = make_tree1();
    tree.insert("test", 42);
    tree.insert("abc", 23);
    tree.insert("xyz", 13);
    assert_eq!(tree, make_tree2());
}

#[test]
fn ex8_non_recursive_lookup() {
    let tree = make_tree1();
    assert!(tree.contains("test"));
    assert_eq!(tree.lookup("test"), Some(&23));
    assert_eq!(tree.lookup("abc"), Some(&13));
    assert_eq!(tree.lookup("xyz"), Some(&42));
}

#[test]
fn large_tree() {
    let mut tree = BST::empty();
    for i in 1..10000000 {
        tree = BST::new(i, i + 1, tree, BST::empty());
    }
    assert_eq!(tree.lookup(1), Some(&2));
    assert_eq!(tree.lookup(9999999), Some(&10000000));
    assert!(!tree.contains(0));
    assert!(!tree.contains(10000000));
    tree.insert(10000000, 42);
    assert_eq!(tree.lookup(10000000), Some(&42));
}

#[test]
fn size() {
    let tree = make_tree1();
    assert_eq!(tree.size(), 3);
    assert!(!tree.is_empty());
}

#[test]
fn ex8_recursive_empty_tree() {
    let tree = BST::<&'static str, i32>::empty();
    assert_eq!(tree.size(), 0);
    assert!(tree.is_empty());
    assert!(!tree.contains("test"));
}

#[test]
fn ex8_recursive_insert() {
    let mut tree = BST::empty();
    tree.insert("test", 23);
    tree.insert("abc", 13);
    tree.insert("xyz", 42);
    assert_eq!(tree, make_tree1());
}

#[test]
fn ex8_recursive_insert_override() {
    let mut tree = make_tree1();
    tree.insert("test", 42);
    tree.insert("abc", 23);
    tree.insert("xyz", 13);
    assert_eq!(tree, make_tree2());
}

#[test]
fn ex8_recursive_lookup() {
    let tree = make_tree1();
    assert!(tree.contains("test"));
    assert_eq!(tree.lookup("test"), Some(&23));
    assert_eq!(tree.lookup("abc"), Some(&13));
    assert_eq!(tree.lookup("xyz"), Some(&42));
}

#[test]
fn last_write_wins() {
    let mut tree = BST::empty();
    tree.insert("k", 1);
    tree.insert("k", 2);
    tree.insert("k", 3);
    assert_eq!(tree.lookup("k"), Some(&3));
    assert!(tree.contains("k"));
    assert_eq!(tree.size(), 1);
    assert_eq!(tree.lookup("never"), None);
    assert!(!tree.contains("never"));
}

#[test]
fn size_counts_distinct_keys() {
    let mut a = BST::empty();
    for k in ["d", "b", "e", "a", "c"] {
        a.insert(k, 0);
    }
    let mut b = BST::empty();
    for k in ["a", "b", "c", "d", "e", "c", "a"] {
        b.insert(k, 1);
    }
    assert_eq!(a.size(), 5);
    assert_eq!(b.size(), 5);
}

#[test]
fn singleton_tree() {
    let tree = BST::singleton(7u64, "seven");
    assert!(!tree.is_empty());
    assert_eq!(tree.size(), 1);
    assert_eq!(tree.lookup(7), Some(&"seven"));
    assert_eq!(tree.lookup(8), None);
}

#[test]
fn string_prefix_keys() {
    let mut tree = BST::empty();
    tree.insert("ab", 1);
    tree.insert("abc", 2);
    tree.insert("a", 3);
    tree.insert("", 4);
    tree.insert("abd", 5);
    assert_eq!(tree.size(), 5);
    assert_eq!(tree.lookup("ab"), Some(&1));
    assert_eq!(tree.lookup("abc"), Some(&2));
    assert_eq!(tree.lookup("a"), Some(&3));
    assert_eq!(tree.lookup(""), Some(&4));
    assert_eq!(tree.lookup("abd"), Some(&5));
    assert!(!tree.contains("abe"));
    assert!(!tree.contains("b"));
}

#[test]
fn deep_chain_by_insertion() {
    let mut tree = BST::empty();
    for i in 0u64..10000 {
        tree.insert(i, i * 2);
    }
    assert_eq!(tree.size(), 10000);
    assert_eq!(tree.lookup(0), Some(&0));
    assert_eq!(tree.lookup(9999), Some(&19998));
    assert!(!tree.contains(10000));
}

#[test]
fn compose_then_update() {
    let mut tree = BST::new(
        10u64,
        "ten",
        BST::singleton(5, "five"),
        BST::singleton(15, "fifteen"),
    );
    assert_eq!(tree.size(), 3);
    tree.insert(5, "FIVE");
    assert_eq!(tree.lookup(5), Some(&"FIVE"));
    assert_eq!(tree.lookup(10), Some(&"ten"));
    assert_eq!(tree.lookup(15), Some(&"fifteen"));
    assert_eq!(tree.size(), 3);
}

#[test]
fn size_of_deep_chain() {
    let mut tree = BST::empty();
    for i in 1..2000000 {
        tree = BST::new(i, i + 1, tree, BST::empty());
    }
    assert_eq!(tree.size(), 1999999);
}
