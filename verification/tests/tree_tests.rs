use bstree::Tree;

#[test]
fn test_len_and_fold() {
    let mut tree = Tree::empty();
    tree.insert(1);
    tree.insert(2);
    tree.insert(3);
    tree.insert(4);
    tree.insert(5);
    tree.insert(6);
    tree.insert(7);
    tree.insert(8);
    tree.insert(-18);
    tree.insert(-10);
    tree.insert(-1);
    tree.insert(-2);

    assert_eq!(12, tree.len());
    assert_eq!(5, tree.fold(0, |acc, x| acc + x));
}

#[test]
fn test_plain_iter() {
    let mut tree = Tree::empty();
    tree.insert(1);
    tree.insert(2);
    tree.insert(3);
    tree.insert(4);
    tree.insert(5);
    tree.insert(6);
    tree.insert(7);
    tree.insert(8);

    let mut it = tree.into_iter();
    let mut expected: i64 = 1;
    while let Some(v) = it.next() {
        assert_eq!(v, expected);
        expected += 1;
    }
    assert_eq!(expected, 9);
}

#[test]
fn test_extend() {
    let mut tree = Tree::empty();
    let mut values = Vec::new();
    for k in 0..10 {
        values.push(k);
    }
    tree.extend(values);
    let mut it = tree.into_iter();
    let mut expected: i64 = 0;
    while let Some(v) = it.next() {
        assert_eq!(v, expected);
        expected += 1;
    }
    assert_eq!(expected, 10);
}

#[test]
fn test_from_iter() {
    let tree = Tree::from_iter(vec![0, 1, 2, 3, 4, 5]);

    assert_eq!(tree.len(), 6);
}

#[test]
fn test_iter_mut() {
    let mut tree = Tree::from_iter(vec![0, 1, 2, 3, 4, 5]);

    let mut cursor = tree.iter_mut();
    while let Some(v) = cursor.next() {
        cursor.put(v + 1);
    }
    tree = cursor.into_tree();

    let mut it = tree.iter();
    while let Some(v) = it.next() {
        println!("{:?}", v);
    }
    assert_eq!(tree.len(), 6);
    let mut sum: i64 = 0;
    let mut drain = tree.into_iter();
    while let Some(v) = drain.next() {
        sum += v;
    }
    assert_eq!(1 + 2 + 3 + 4 + 5 + 6, sum);
}

#[test]
fn test_ref_mut() {
    let tree = Tree::from_iter(vec![0, 1, 2, 3, 4, 5]);

    let mut it = tree.iter();
    while let Some(v) = it.next() {
        if v < 0 {
            panic!();
        } else if v > 5 {
            panic!();
        }
    }
    assert_eq!(tree.len(), 6);
}
