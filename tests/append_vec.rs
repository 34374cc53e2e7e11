use append_vec::AppendVec;

#[test]
fn test() {
    let mut vec = AppendVec::<String>::new();
    println!("{:?}", &vec);
    vec.push("hello".into());
    vec.push("hi".into());
    let x = vec.get(0).cloned();
    println!("{:?}", &vec);
    vec.push("is this burning yet?".into());
    println!("{:?}", x);
    assert_eq!(x, Some("hello".to_string()));
    assert_eq!(vec.get(0), Some(&"hello".to_string()));
    println!("{:?}", vec.pop());
    println!("{:?}", &vec);
    assert_eq!(vec.len(), 2);
}

#[test]
fn get_returns_each_pushed_value() {
    let mut v = AppendVec::with_block_capacity(3);
    for k in 0..10u32 {
        v.push(k * 7);
        for i in 0..=k {
            assert_eq!(v.get(i as usize), Some(&(i * 7)));
        }
    }
    assert_eq!(v.len(), 10);
}

#[test]
fn len_after_pushes_and_pops() {
    let mut v = AppendVec::with_block_capacity(2);
    for k in 0..5u8 {
        v.push(k);
    }
    assert_eq!(v.pop(), Some(4));
    assert_eq!(v.pop(), Some(3));
    v.push(9);
    assert_eq!(v.len(), 6 - 2);
    assert_eq!(v.len(), 4);
}

#[test]
fn absent_on_empty_and_out_of_range() {
    let mut v: AppendVec<i32> = AppendVec::new();
    assert_eq!(v.pop(), None);
    assert_eq!(v.get(0), None);
    assert_eq!(v.last(), None);
    v.push(5);
    assert_eq!(v.get(1), None);
    assert_eq!(v.get(usize::MAX), None);
    assert_eq!(v.last(), Some(&5));
}

#[test]
fn pop_round_trip_reverses() {
    let mut v = AppendVec::new();
    v.push('a');
    v.push('b');
    v.push('c');
    assert_eq!(v.pop(), Some('c'));
    assert_eq!(v.pop(), Some('b'));
    assert_eq!(v.pop(), Some('a'));
    assert_eq!(v.len(), 0);
    assert_eq!(v.block_count(), 0);
}

#[test]
fn block_boundary_with_capacity_two() {
    let mut v = AppendVec::with_block_capacity(2);
    v.push("x");
    v.push("y");
    assert_eq!(v.block_count(), 1);
    v.push("z");
    assert_eq!(v.len(), 3);
    assert_eq!(v.block_count(), 2);
    assert_eq!(v.pop(), Some("z"));
    assert_eq!(v.block_count(), 1);
    assert_eq!(v.get(1), Some(&"y"));
    assert_eq!(v.last(), Some(&"y"));
}

#[test]
fn clone_is_independent() {
    let mut v = AppendVec::with_block_capacity(2);
    v.push(1);
    v.push(2);
    v.push(3);
    let mut c = v.clone();
    c.push(4);
    assert_eq!(v.len(), 3);
    assert_eq!(c.len(), 4);
    assert_eq!(c.block_count(), 2);
    assert_eq!(v.inner(), vec![&1, &2, &3]);
    assert_eq!(c.inner(), vec![&1, &2, &3, &4]);
}

#[test]
fn inner_lists_elements_in_order() {
    let mut v = AppendVec::with_block_capacity(1);
    assert!(v.inner().is_empty());
    v.push(10u64);
    v.push(20);
    v.push(30);
    assert_eq!(v.block_count(), 3);
    assert_eq!(v.inner(), vec![&10, &20, &30]);
}

#[test]
fn new_uses_default_capacity() {
    let mut v = AppendVec::new();
    for k in 0..append_vec::DEFAULT_BLOCK_CAPACITY {
        v.push(k);
    }
    assert_eq!(v.block_count(), 1);
    v.push(0);
    assert_eq!(v.block_count(), 2);
    assert_eq!(v.get(append_vec::DEFAULT_BLOCK_CAPACITY), Some(&0));
}
