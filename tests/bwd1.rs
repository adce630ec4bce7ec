use bwd::Bwd1;

fn items(l: &Bwd1<i32>) -> Vec<i32> {
    let mut it = l.rev_iter();
    let mut out = Vec::new();
    while let Some(x) = it.next() {
        out.push(*x);
    }
    out
}

#[test]
fn singleton_has_one_element() {
    let l = Bwd1::singleton(7);
    assert_eq!(l.len(), 1);
    assert_eq!(l.to_vec(), vec![7]);
    assert_eq!(l.get(0), Some(&7));
    assert_eq!(l.get(1), None);
}

#[test]
fn non_empty_snoc_example() {
    let l = Bwd1::singleton(1).snoc(2).snoc(3);
    assert_eq!(l.to_vec(), vec![1, 2, 3]);
    assert_eq!(l.len(), 3);
    assert_eq!(l.get(0), Some(&1));
    assert_eq!(l.get(2), Some(&3));
    assert_eq!(l.get(3), None);
}

#[test]
fn non_empty_len_never_zero() {
    let a = Bwd1::singleton(0);
    let b = a.snoc(1);
    let c = a.extend_by(Vec::new());
    let d = b.extend_by(vec![2, 3]);
    for l in [&a, &b, &c, &d] {
        assert!(l.len() >= 1);
    }
    assert_eq!(c.len(), 1);
    assert_eq!(d.len(), 4);
}

#[test]
fn non_empty_snoc_adds_one_to_len() {
    let l = Bwd1::singleton(1).snoc(2);
    assert_eq!(l.snoc(3).len(), l.len() + 1);
}

#[test]
fn non_empty_get_ends() {
    let l = Bwd1::singleton(10).extend_by(vec![20, 30]).snoc(40);
    assert_eq!(l.get(l.len() - 1), Some(&40));
    assert_eq!(l.get(0), Some(&10));
    assert_eq!(l.get(2), Some(&30));
    assert_eq!(l.get(4), None);
}

#[test]
fn non_empty_find_prefers_newest() {
    let l = Bwd1::singleton('a').snoc('b').snoc('a');
    assert_eq!(l.find(|x: &char| *x == 'a'), Some((0, &'a')));
    assert_eq!(l.find(|x: &char| *x == 'b'), Some((1, &'b')));
    assert_eq!(l.find(|x: &char| *x == 'z'), None);
    let s = Bwd1::singleton('q');
    assert_eq!(s.find(|x: &char| *x == 'q'), Some((0, &'q')));
}

#[test]
fn non_empty_foldl_sums() {
    let l = Bwd1::singleton(1).snoc(2).snoc(3);
    assert_eq!(l.foldl(0, &|x: &i32, acc: i32| acc + x), 6);
    assert_eq!(l.foldl(0, &|x: &i32, acc: i32| acc * 10 + x), 123);
    assert_eq!(Bwd1::singleton(5).foldl(1, &|x: &i32, acc: i32| acc * x), 5);
}

#[test]
fn non_empty_common_ancestor_unchanged() {
    let l = Bwd1::singleton(1).snoc(2);
    let a = l.snoc(3);
    let b = l.snoc(4);
    assert_eq!(l.to_vec(), vec![1, 2]);
    assert_eq!(l.len(), 2);
    assert_eq!(a.to_vec(), vec![1, 2, 3]);
    assert_eq!(b.to_vec(), vec![1, 2, 4]);
}

#[test]
fn non_empty_extend_by() {
    let l = Bwd1::singleton(1);
    assert_eq!(l.extend_by(Vec::new()).to_vec(), vec![1]);
    assert_eq!(l.extend_by(vec![2, 3]).to_vec(), vec![1, 2, 3]);
}

#[test]
fn non_empty_rev_iter() {
    let l = Bwd1::singleton(1).snoc(2).snoc(3);
    assert_eq!(items(&l), vec![3, 2, 1]);
    assert_eq!(items(&l), vec![3, 2, 1]);
    assert_eq!(items(&Bwd1::singleton(9)), vec![9]);
    let s = Bwd1::singleton(9);
    let mut it = s.rev_iter();
    assert_eq!(it.next(), Some(&9));
    assert_eq!(it.next(), None);
    assert_eq!(it.next(), None);
}
