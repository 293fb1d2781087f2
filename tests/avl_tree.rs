use balanced_trees::{AvlTree, Side};

#[test]
fn create_empty_avltree() {
    let avltree = AvlTree::new();
    assert!(avltree.is_empty());
}

#[test]
fn insert_into_avltree_1() {
    let mut x = AvlTree::new();
    assert_eq!(0,x.count());
    x.insert(3);
    assert_eq!(x.key_at(&vec![]).unwrap(), 3);
    assert_eq!(x.count(),1);
    assert_eq!(x.height(),1);
    x.insert(2);
    assert_eq!(x.key_at(&vec![Side::Left]).unwrap(), 2);
    assert_eq!(x.count(), 2);
    assert_eq!(x.height(),2);
}

#[test]
fn insert_into_avltree_2() {
    //  ll rotation
    let mut x = AvlTree::new();
    assert_eq!(0,x.count());
    x.insert(3);
    assert_eq!(x.key_at(&vec![]).unwrap(), 3);
    assert_eq!(x.count(),1);
    assert_eq!(x.height(),1);
    x.insert(2);
    assert_eq!(x.key_at(&vec![Side::Left]).unwrap(), 2);
    assert_eq!(x.count(), 2);
    assert_eq!(x.height(),2);
    x.insert(1);
    assert_eq!(x.height(),2);
    assert_eq!(x.key_at(&vec![]).unwrap(),2);
    assert_eq!(x.key_at(&vec![Side::Left]).unwrap(),1);
    assert_eq!(x.key_at(&vec![Side::Right]).unwrap(),3);
    assert_eq!(x.count(), 3);
}

#[test]
fn insert_into_rbtree_3() {
    // lr rotation
    let mut x = AvlTree::new();
    assert_eq!(0,x.count());
    x.insert(4);
    assert_eq!(x.key_at(&vec![]).unwrap(), 4);
    assert_eq!(x.count(),1);
    assert_eq!(x.height(),1);
    x.insert(2);
    assert_eq!(x.key_at(&vec![Side::Left]).unwrap(), 2);
    assert_eq!(x.count(), 2);
    assert_eq!(x.height(),2);
    x.insert(3);
    assert_eq!(x.key_at(&vec![]).unwrap(),3);
    assert_eq!(x.key_at(&vec![Side::Left]).unwrap(),2);
    assert_eq!(x.key_at(&vec![Side::Right]).unwrap(),4);
    assert_eq!(x.count(), 3);
    assert_eq!(x.height(),2);
}

#[test]
fn insert_into_rbtree_4() {
    // rr rotaion
    let mut x = AvlTree::new();
    assert_eq!(0,x.count());
    x.insert(4);
    assert_eq!(x.key_at(&vec![]).unwrap(), 4);
    assert_eq!(x.count(),1);
    assert_eq!(x.height(),1);
    x.insert(5);
    assert_eq!(x.key_at(&vec![Side::Right]).unwrap(), 5);
    assert_eq!(x.count(), 2);
    assert_eq!(x.height(),2);
    x.insert(6);
    assert_eq!(x.key_at(&vec![]).unwrap(),5);
    assert_eq!(x.key_at(&vec![Side::Left]).unwrap(),4);
    assert_eq!(x.key_at(&vec![Side::Right]).unwrap(),6);
    assert_eq!(x.count(), 3);
    assert_eq!(x.height(),2);
}

#[test]
fn insert_into_rbtree_5() {
    // rl rotation
    let mut x = AvlTree::new();
    assert_eq!(0,x.count());
    x.insert(4);
    assert_eq!(x.key_at(&vec![]).unwrap(), 4);
    assert_eq!(x.count(),1);
    assert_eq!(x.height(),1);
    x.insert(6);
    assert_eq!(x.key_at(&vec![Side::Right]).unwrap(), 6);
    assert_eq!(x.count(), 2);
    assert_eq!(x.height(),2);
    x.insert(5);
    assert_eq!(x.key_at(&vec![]).unwrap(),5);
    assert_eq!(x.key_at(&vec![Side::Left]).unwrap(),4);
    assert_eq!(x.key_at(&vec![Side::Right]).unwrap(),6);
    assert_eq!(x.count(), 3);
    assert_eq!(x.height(),2);
}
 
#[test]
fn search_1() {
    let mut x = AvlTree::new();
    x.insert(9);
    x.insert(8);
    x.insert(12);
    x.insert(3);

    let y = x.search(8);
    assert_eq!(8,y.unwrap());
    let z = x.search(81);
    assert!(z.is_none());
}

#[test]
fn test_delete_1() {
    let mut x = AvlTree::new();
    x.insert(12);
    x.insert(8);
    x.insert(15);
    assert_eq!(x.height(),2);
    x.delete(12);
    assert_eq!(x.height(),2);
    assert_eq!(x.key_at(&vec![]).unwrap(),15);
    assert_eq!(x.key_at(&vec![Side::Left]).unwrap(),8);
}

#[test]
fn insert_test_1() {
    let mut x = AvlTree::new();
    x.insert(15);
    x.insert(11);
    x.insert(19);
    x.insert(8);
    x.insert(13);
    x.insert(16);
    x.insert(23);
    x.insert(12);
    x.insert(14);
    assert_eq!(x.key_at(&vec![]).unwrap(),15);
    assert_eq!(x.height(),4);

    assert_eq!(x.key_at(&vec![Side::Right]).unwrap(),19);
    assert_eq!(x.height_at(&vec![Side::Right]),2);

    assert_eq!(x.key_at(&vec![Side::Left]).unwrap(),11);
    assert_eq!(x.height_at(&vec![Side::Left]),3);

    assert_eq!(x.key_at(&vec![Side::Right, Side::Right]).unwrap(),23);

    assert_eq!(x.key_at(&vec![Side::Right, Side::Left]).unwrap(),16);

    assert_eq!(x.key_at(&vec![Side::Left, Side::Left]).unwrap(),8);

    assert_eq!(x.key_at(&vec![Side::Left, Side::Right]).unwrap(),13);

    assert_eq!(x.key_at(&vec![Side::Left, Side::Right, Side::Right]).unwrap(),14);
    assert_eq!(x.key_at(&vec![Side::Left, Side::Right, Side::Left]).unwrap(),12);
}

#[test]
fn delete_test_1() {
    let mut x = AvlTree::new();
    x.insert(15);
    x.insert(11);
    x.insert(19);
    x.insert(8);
    x.insert(13);
    x.insert(16);
    x.insert(23);
    x.insert(12);
    x.insert(14);
    x.delete(13);
    assert_eq!(x.key_at(&vec![]).unwrap(),15);

    assert_eq!(x.key_at(&vec![Side::Right]).unwrap(),19);

    assert_eq!(x.key_at(&vec![Side::Left]).unwrap(),11);

    assert_eq!(x.key_at(&vec![Side::Right, Side::Right]).unwrap(),23);

    assert_eq!(x.key_at(&vec![Side::Right, Side::Left]).unwrap(),16);

    assert_eq!(x.key_at(&vec![Side::Left, Side::Left]).unwrap(),8);

    assert_eq!(x.key_at(&vec![Side::Left, Side::Right]).unwrap(),14);

    assert_eq!(x.key_at(&vec![Side::Left, Side::Right, Side::Left]).unwrap(),12);
}

#[test]
fn insert_test_2() {
    let mut x = AvlTree::new();
    x.insert(10);
    x.insert(5);
    x.insert(30);
    x.insert(2);
    x.insert(9);
    x.insert(25);
    x.insert(40);
    x.insert(38);
    assert_eq!(x.key_at(&vec![]).unwrap(),10);

    assert_eq!(x.key_at(&vec![Side::Right]).unwrap(),30);

    assert_eq!(x.key_at(&vec![Side::Left]).unwrap(),5);

    assert_eq!(x.key_at(&vec![Side::Right, Side::Right]).unwrap(),40);

    assert_eq!(x.key_at(&vec![Side::Right, Side::Left]).unwrap(),25);

    assert_eq!(x.key_at(&vec![Side::Right, Side::Right, Side::Left]).unwrap(),38);

    assert_eq!(x.key_at(&vec![Side::Left, Side::Left]).unwrap(),2);

    assert_eq!(x.key_at(&vec![Side::Left, Side::Right]).unwrap(),9);
}

#[test]
fn delete_test_2() {
    let mut x = AvlTree::new();
    x.insert(10);
    x.insert(5);
    x.insert(30);
    x.insert(2);
    x.insert(9);
    x.insert(25);
    x.insert(40);
    x.insert(38);
    x.delete(30);
    assert_eq!(x.key_at(&vec![]).unwrap(),10);

    assert_eq!(x.key_at(&vec![Side::Right]).unwrap(),38);

    assert_eq!(x.key_at(&vec![Side::Left]).unwrap(),5);

    assert_eq!(x.key_at(&vec![Side::Right, Side::Right]).unwrap(),40);

    assert_eq!(x.key_at(&vec![Side::Right, Side::Left]).unwrap(),25);

    assert_eq!(x.key_at(&vec![Side::Left, Side::Left]).unwrap(),2);

    assert_eq!(x.key_at(&vec![Side::Left, Side::Right]).unwrap(),9);
}

#[test]
fn insert_test_3() {
    let mut x = AvlTree::new();
    x.insert(10);
    x.insert(5);
    x.insert(20);
    x.insert(15);
    x.insert(30);
    assert_eq!(x.key_at(&vec![]).unwrap(),10);

    assert_eq!(x.key_at(&vec![Side::Right]).unwrap(),20);

    assert_eq!(x.key_at(&vec![Side::Left]).unwrap(),5);

    assert_eq!(x.key_at(&vec![Side::Right, Side::Right]).unwrap(),30);

    assert_eq!(x.key_at(&vec![Side::Right, Side::Left]).unwrap(),15);
}

#[test]
fn delete_test_3() {
    let mut x = AvlTree::new();
    x.insert(10);
    x.insert(5);
    x.insert(20);
    x.insert(15);
    x.insert(30);
    assert_eq!(x.key_at(&vec![]).unwrap(),10);
    
    assert_eq!(x.key_at(&vec![Side::Right]).unwrap(),20);
 

    assert_eq!(x.key_at(&vec![Side::Left]).unwrap(),5);
    
    assert_eq!(x.key_at(&vec![Side::Right, Side::Right]).unwrap(),30);
}

#[test]
fn insert_test_4() {
    let mut x = AvlTree::new();
    x.insert(10);
    x.insert(5);
    x.insert(20);
    x.insert(1);
    x.insert(7);
    x.insert(15);
    x.insert(30);
    assert_eq!(x.key_at(&vec![]).unwrap(),10);
    

    assert_eq!(x.key_at(&vec![Side::Right]).unwrap(),20);


    assert_eq!(x.key_at(&vec![Side::Left]).unwrap(),5);


    assert_eq!(x.key_at(&vec![Side::Right, Side::Right]).unwrap(),30);


    assert_eq!(x.key_at(&vec![Side::Right, Side::Left]).unwrap(),15);


    assert_eq!(x.key_at(&vec![Side::Left, Side::Left]).unwrap(),1);


    assert_eq!(x.key_at(&vec![Side::Left, Side::Right]).unwrap(),7);

}

#[test]
fn delete_test_4() {
    let mut x = AvlTree::new();
    x.insert(10);
    x.insert(5);
    x.insert(20);
    x.insert(1);
    x.insert(7);
    x.insert(15);
    x.insert(30);
    x.delete(15);
    assert_eq!(x.key_at(&vec![]).unwrap(),10);

    assert_eq!(x.key_at(&vec![Side::Right]).unwrap(),20);

    assert_eq!(x.key_at(&vec![Side::Left]).unwrap(),5);

    assert_eq!(x.key_at(&vec![Side::Right, Side::Right]).unwrap(),30);

    assert_eq!(x.key_at(&vec![Side::Left, Side::Left]).unwrap(),1);

    assert_eq!(x.key_at(&vec![Side::Left, Side::Right]).unwrap(),7);
}

#[test]
fn insert_test_5() {
    let mut x = AvlTree::new();
    x.insert(10);
    x.insert(5);
    x.insert(20);
    x.insert(1);
    x.insert(7);
    x.insert(15);
    x.insert(30);
    x.insert(25);
    x.insert(40);
    assert_eq!(x.key_at(&vec![]).unwrap(),10);

    assert_eq!(x.key_at(&vec![Side::Right]).unwrap(),20);

    assert_eq!(x.key_at(&vec![Side::Left]).unwrap(),5);

    assert_eq!(x.key_at(&vec![Side::Right, Side::Right]).unwrap(),30);

    assert_eq!(x.key_at(&vec![Side::Right, Side::Left]).unwrap(),15);

    assert_eq!(x.key_at(&vec![Side::Right, Side::Right, Side::Left]).unwrap(),25);

    assert_eq!(x.key_at(&vec![Side::Right, Side::Right, Side::Right]).unwrap(),40);

    assert_eq!(x.key_at(&vec![Side::Left, Side::Left]).unwrap(),1);


    assert_eq!(x.key_at(&vec![Side::Left, Side::Right]).unwrap(),7);

}

#[test]
fn delete_test_5() {
    let mut x = AvlTree::new();
    x.insert(10);
    x.insert(5);
    x.insert(20);
    x.insert(1);
    x.insert(7);
    x.insert(15);
    x.insert(30);
    x.insert(25);
    x.insert(40);
    x.delete(15);
    assert_eq!(x.key_at(&vec![]).unwrap(),10);


    assert_eq!(x.key_at(&vec![Side::Right]).unwrap(),30);


    assert_eq!(x.key_at(&vec![Side::Left]).unwrap(),5);


    assert_eq!(x.key_at(&vec![Side::Right, Side::Right]).unwrap(),40);


    assert_eq!(x.key_at(&vec![Side::Right, Side::Left]).unwrap(),20);


    assert_eq!(x.key_at(&vec![Side::Right, Side::Left, Side::Right]).unwrap(),25);


    assert_eq!(x.key_at(&vec![Side::Left, Side::Left]).unwrap(),1);


    assert_eq!(x.key_at(&vec![Side::Left, Side::Right]).unwrap(),7);
}

#[test]
fn insert_test_6() {
    let mut x = AvlTree::new();
    x.insert(1);
    x.insert(5);
    x.insert(7);
    x.insert(10);
    x.insert(20);
    x.insert(25);
    x.insert(28);
    x.insert(30);
    x.insert(40);
    assert_eq!(x.key_at(&vec![]).unwrap(),10);

    assert_eq!(x.key_at(&vec![Side::Right]).unwrap(),25);

    assert_eq!(x.key_at(&vec![Side::Left]).unwrap(),5);

    assert_eq!(x.key_at(&vec![Side::Right, Side::Right]).unwrap(),30);

    assert_eq!(x.key_at(&vec![Side::Right, Side::Left]).unwrap(),20);

    assert_eq!(x.key_at(&vec![Side::Right, Side::Right, Side::Left]).unwrap(),28);

    assert_eq!(x.key_at(&vec![Side::Right, Side::Right, Side::Right]).unwrap(),40);

    assert_eq!(x.key_at(&vec![Side::Left, Side::Left]).unwrap(),1);

    assert_eq!(x.key_at(&vec![Side::Left, Side::Right]).unwrap(),7);
}

#[test]
fn delete_test_6() {
    let mut x = AvlTree::new();
    x.insert(1);
    x.insert(5);
    x.insert(7);
    x.insert(10);
    x.insert(20);
    x.insert(25);
    x.insert(28);
    x.insert(30);
    x.insert(40);
    x.delete(1);
    assert_eq!(x.key_at(&vec![]).unwrap(),10);

    assert_eq!(x.key_at(&vec![Side::Right]).unwrap(),25);

    assert_eq!(x.key_at(&vec![Side::Left]).unwrap(),5);

    assert_eq!(x.key_at(&vec![Side::Right, Side::Right]).unwrap(),30);

    assert_eq!(x.key_at(&vec![Side::Right, Side::Left]).unwrap(),20);

    assert_eq!(x.key_at(&vec![Side::Right, Side::Right, Side::Left]).unwrap(),28);

    assert_eq!(x.key_at(&vec![Side::Right, Side::Right, Side::Right]).unwrap(),40);

    assert_eq!(x.key_at(&vec![Side::Left, Side::Right]).unwrap(),7);
}

#[test]
fn test_letters() {
    let mut x = AvlTree::new();
    x.insert('a' as u64);
    x.insert('b' as u64);
    x.insert('c' as u64);
    x.insert('p' as u64);
    x.insert('m' as u64);
    x.delete('c' as u64);

    assert_eq!(x.key_at(&vec![]).unwrap(),'b' as u64);

    assert_eq!(x.key_at(&vec![Side::Right]).unwrap(),'m' as u64);

    assert_eq!(x.key_at(&vec![Side::Left]).unwrap(),'a' as u64);

    assert_eq!(x.key_at(&vec![Side::Right, Side::Right]).unwrap(), 'p' as u64);
}

#[test]
fn test_min_max_1() {
    let mut a = AvlTree::new();
    a.insert(455);
    a.insert(32);
    a.insert(4);
    a.insert(9);
    a.insert(12);
    a.insert(1);
    assert_eq!(a.min().unwrap(), 1);
    assert_eq!(a.max().unwrap(), 455);
}

#[test]
fn test_min_max_2() {
    let mut a = AvlTree::new();
    a.insert('a' as u64);
    a.insert('f' as u64);
    a.insert('d' as u64);
    a.insert('g' as u64);
    a.insert('u' as u64);
    a.insert('c' as u64);
    assert_eq!(a.min().unwrap(), 'a' as u64);
    assert_eq!(a.max().unwrap(), 'u' as u64);
}
