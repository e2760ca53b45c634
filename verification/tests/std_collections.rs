use clob::clob::Book;
use std::collections::{BTreeMap, BTreeSet};

#[test]
fn test_vec() {
    let mut v = vec![12, 34, 435, 56];
    println!("{:?}", v);
    v.remove(1);
    println!("{:?}", v);
    assert_eq!(v, vec![12, 435, 56]);
}

#[derive(PartialEq, PartialOrd, Eq, Ord, Debug)]
struct B {
    id: u64,
    b: u64,
}

impl B {
    pub fn n(id: u64, b: u64) -> Self {
        Self { id, b }
    }
}

#[test]
fn test_btree_map_struct() -> anyhow::Result<()> {
    let mut bm: BTreeMap<B, String> = BTreeMap::new();
    bm.insert(B::n(1, 21), "something".to_string());
    bm.insert(B::n(2, 45), "something3".to_string());
    bm.insert(B::n(3, 20), "something5".to_string());
    bm.insert(B::n(4, 19), "something55".to_string());

    for i in bm.iter() {
        println!("{:?}", i);
    }
    let ids: Vec<u64> = bm.keys().map(|k| k.id).collect();
    assert_eq!(ids, vec![1, 2, 3, 4]);
    Ok(())
}

#[test]
fn test_btree_map() -> anyhow::Result<()> {
    let mut bm: BTreeMap<u64, String> = BTreeMap::new();
    bm.insert(10, "something".to_string());
    bm.insert(3, "something3".to_string());
    bm.insert(5, "something5".to_string());
    bm.insert(5, "something55".to_string());

    for i in bm.iter() {
        println!("{:?}", i);
    }
    let keys: Vec<u64> = bm.keys().copied().collect();
    assert_eq!(keys, vec![3, 5, 10]);
    assert_eq!(bm[&5], "something55");
    Ok(())
}

#[derive(PartialEq, PartialOrd, Eq, Ord, Debug)]
struct A {
    v: u64,
}

#[test]
fn test_btree_set_struct() -> anyhow::Result<()> {
    let mut bm: BTreeSet<A> = BTreeSet::new();
    bm.insert(A { v: 45 });
    bm.insert(A { v: 43 });
    bm.insert(A { v: 41 });
    bm.insert(A { v: 49 });
    bm.insert(A { v: 49 });

    for i in bm.iter() {
        println!("{:?}", i);
    }
    let vs: Vec<u64> = bm.iter().map(|a| a.v).collect();
    assert_eq!(vs, vec![41, 43, 45, 49]);
    Ok(())
}

#[test]
fn test_btree_set() -> anyhow::Result<()> {
    let mut bm: BTreeSet<String> = BTreeSet::new();
    bm.insert("something".to_string());
    bm.insert("something3".to_string());
    bm.insert("something5".to_string());
    bm.insert("something55".to_string());

    for i in bm.iter() {
        println!("{:?}", i);
    }
    assert_eq!(bm.len(), 4);
    Ok(())
}

#[test]
fn sorted_levels_agree_with_an_ordered_map() {
    let prices: [u64; 6] = [40, 10, 30, 10, 50, 20];
    let mut book = Book::new();
    let mut map: BTreeMap<u64, u64> = BTreeMap::new();
    for (i, p) in prices.iter().enumerate() {
        let sender = clob::clob::Sender::new();
        book.ask(*p, i as u64 + 1, sender).unwrap();
        *map.entry(*p).or_insert(0) += i as u64 + 1;
    }
    let snap = book.snapshot();
    let got: Vec<(u64, u64)> = snap
        .asks
        .iter()
        .map(|l| (l.price, l.orders.iter().map(|o| o.quantity).sum()))
        .collect();
    let want: Vec<(u64, u64)> = map.into_iter().collect();
    assert_eq!(got, want);
}
