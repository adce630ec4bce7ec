use bwd::Bwd;

fn one_two_three() -> Bwd<i32> {
    Bwd::nil().snoc(1).snoc(2).snoc(3)
}

fn rev_items(l: &Bwd<i32>) -> Vec<i32> {
    let mut it = l.rev_iter();
    let mut out = Vec::new();
    while let Some(x) = it.next() {
        out.push(*x);
    }
    out
}

#[test]
fn snoc_three_example() {
    let l = one_two_three();
    assert_eq!(l.to_vec(), vec![1, 2, 3]);
    assert_eq!(l.len(), 3);
    assert_eq!(l.get(0), Some(&1));
    assert_eq!(l.get(2), Some(&3));
    assert_eq!(l.get(3), None);
}

#[test]
fn nil_is_empty() {
    let l: Bwd<i32> = Bwd::nil();
    assert_eq!(l.len(), 0);
    assert_eq!(l.to_vec(), Vec::<i32>::new());
    assert_eq!(l.get(0), None);
    assert_eq!(l.find(|_: &i32| true), None);
}

#[test]
fn from_vec_round_trip() {
    let xs = vec![5, -1, 7, 7, 0];
    let l = Bwd::from_vec(xs.clone());
    assert_eq!(l.to_vec(), xs);
    assert_eq!(l.len(), 5);
    let empty: Bwd<i32> = Bwd::from_vec(Vec::new());
    assert_eq!(empty.to_vec(), Vec::<i32>::new());
}

#[test]
fn snoc_then_pop_gives_back_list() {
    let l = one_two_three();
    assert_eq!(l.snoc(9).pop().to_vec(), l.to_vec());
    let n: Bwd<i32> = Bwd::nil();
    assert_eq!(n.snoc(4).pop().to_vec(), Vec::<i32>::new());
}

#[test]
fn pop_of_empty_is_empty() {
    let n: Bwd<i32> = Bwd::nil();
    assert_eq!(n.pop().len(), 0);
    assert_eq!(one_two_three().pop().to_vec(), vec![1, 2]);
}

#[test]
fn snoc_adds_one_to_len() {
    let l = one_two_three();
    assert_eq!(l.snoc(0).len(), l.len() + 1);
    let n: Bwd<i32> = Bwd::nil();
    assert_eq!(n.snoc(0).len(), 1);
}

#[test]
fn get_ends() {
    let l = Bwd::from_vec(vec![10, 20, 30, 40]).snoc(50);
    assert_eq!(l.get(l.len() - 1), Some(&50));
    assert_eq!(l.get(0), Some(&10));
    assert_eq!(l.get(1), Some(&20));
    assert_eq!(l.get(5), None);
    assert_eq!(l.get(usize::MAX), None);
}

#[test]
fn find_prefers_newest() {
    let l = Bwd::nil().snoc('a').snoc('b').snoc('a');
    assert_eq!(l.find(|x: &char| *x == 'a'), Some((0, &'a')));
    assert_eq!(l.find(|x: &char| *x == 'b'), Some((1, &'b')));
    assert_eq!(l.find(|x: &char| *x == 'c'), None);
}

#[test]
fn find_counts_from_newest() {
    let l = Bwd::from_vec(vec![1, 2, 3, 4]);
    assert_eq!(l.find(|x: &i32| *x < 3), Some((2, &2)));
    assert_eq!(l.find(|x: &i32| *x == 1), Some((3, &1)));
}

#[test]
fn foldl_sums_left_to_right() {
    let l = one_two_three();
    assert_eq!(l.foldl(0, &|x: &i32, acc: i32| acc + x), 6);
    let n: Bwd<i32> = Bwd::nil();
    assert_eq!(n.foldl(42, &|x: &i32, acc: i32| acc + x), 42);
}

#[test]
fn foldl_order_is_oldest_first() {
    let l = one_two_three();
    let s = l.foldl(String::new(), &|x: &i32, acc: String| format!("{}{}", acc, x));
    assert_eq!(s, "123");
    assert_eq!(l.foldl(0, &|x: &i32, acc: i32| acc * 10 + x), 123);
}

#[test]
fn common_ancestor_unchanged() {
    let l = one_two_three();
    let a = l.snoc(4);
    let b = l.snoc(5).snoc(6);
    assert_eq!(l.to_vec(), vec![1, 2, 3]);
    assert_eq!(l.len(), 3);
    assert_eq!(a.to_vec(), vec![1, 2, 3, 4]);
    assert_eq!(b.to_vec(), vec![1, 2, 3, 5, 6]);
    assert_eq!(a.pop(), l);
}

#[test]
fn extend_by_nothing_keeps_list() {
    let l = one_two_three();
    assert_eq!(l.extend_by(Vec::new()).to_vec(), l.to_vec());
}

#[test]
fn extend_by_appends_in_order() {
    let l = one_two_three();
    let m = l.extend_by(vec![4, 5, 6]);
    assert_eq!(m.to_vec(), vec![1, 2, 3, 4, 5, 6]);
    assert_eq!(m.len(), 6);
    assert_eq!(l.len(), 3);
}

#[test]
fn rev_iter_newest_first() {
    let l = one_two_three();
    assert_eq!(rev_items(&l), vec![3, 2, 1]);
    assert_eq!(rev_items(&l), vec![3, 2, 1]);
    let n: Bwd<i32> = Bwd::nil();
    assert_eq!(rev_items(&n), Vec::<i32>::new());
}

#[test]
fn rev_iter_stays_done() {
    let l = Bwd::nil().snoc(1);
    let mut it = l.rev_iter();
    assert_eq!(it.next(), Some(&1));
    assert_eq!(it.next(), None);
    assert_eq!(it.next(), None);
}

#[test]
fn longer_list_len_get_find() {
    let xs: Vec<u32> = (0..1_000).collect();
    let l = Bwd::from_vec(xs);
    assert_eq!(l.len(), 1_000);
    assert_eq!(l.get(0), Some(&0));
    assert_eq!(l.get(999), Some(&999));
    assert_eq!(l.find(|x: &u32| *x == 5), Some((994, &5)));
}
