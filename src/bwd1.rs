use std::rc::Rc;
use vstd::prelude::*;

use crate::common::{clones_of, fold_run, folds_to};

verus! {

/// A persistent list that grows at its end and always holds at least one
/// element: each value is either a single shared element or a shared node
/// holding the newest element and the list before it.
#[derive(PartialEq, Eq, Debug)]
pub enum Bwd1<T> {
    Singleton(Rc<T>),
    Snoc(Rc<(T, Bwd1<T>)>),
}

impl<T> View for Bwd1<T> {
    type V = Seq<T>;

    /// The elements, oldest first.
    open spec fn view(&self) -> Seq<T>
        decreases self,
    {
        match self {
            Bwd1::Singleton(x) => seq![**x],
            Bwd1::Snoc(r) => r.1@.push(r.0),
        }
    }
}

impl<T> Clone for Bwd1<T> {
    fn clone(&self) -> (res: Self)
        ensures
            res == *self,
    {
        match self {
            Bwd1::Singleton(x) => Bwd1::Singleton(x.clone()),
            Bwd1::Snoc(r) => Bwd1::Snoc(r.clone()),
        }
    }
}

impl<T> Bwd1<T> {
    /// Every list holds at least one element.
    pub proof fn lemma_nonempty(&self)
        ensures
            self@.len() >= 1,
        decreases self,
    {
        if let Bwd1::Snoc(r) = self {
            r.1.lemma_nonempty();
        }
    }

    /// The elements counted from the newest one: index 0 is the last element.
    pub open spec fn newest(&self, j: int) -> T {
        self@[self@.len() - 1 - j]
    }

    /// The list with `t` added after the last element.
    pub fn snoc(&self, t: T) -> (res: Self)
        ensures
            res@ == self@.push(t),
            res matches Bwd1::Snoc(r) && r.1 == *self,
    {
        Bwd1::Snoc(Rc::new((t, self.clone())))
    }

    /// The list of the one element `t`.
    pub fn singleton(t: T) -> (res: Self)
        ensures
            res@ == seq![t],
    {
        Bwd1::Singleton(Rc::new(t))
    }

    /// The newest element.
    fn last(&self) -> (res: &T)
        ensures
            self@.len() >= 1,
            *res == self@.last(),
    {
        proof {
            self.lemma_nonempty();
        }
        match self {
            Bwd1::Singleton(x) => {
                proof {
                    assert(self@ == seq![**x]);
                }
                x
            },
            Bwd1::Snoc(r) => {
                proof {
                    assert(self@ == r.1@.push(r.0));
                }
                &r.0
            },
        }
    }

    /// The list before the newest element, without copying; nothing for a
    /// list of one element.
    fn prev(&self) -> (res: Option<&Self>)
        ensures
            self@.len() >= 1,
            res is None <==> self@.len() == 1,
            res matches Some(p) ==> p@ == self@.drop_last(),
    {
        proof {
            self.lemma_nonempty();
        }
        match self {
            Bwd1::Singleton(_) => None,
            Bwd1::Snoc(r) => {
                proof {
                    r.1.lemma_nonempty();
                    assert(r.1@ =~= self@.drop_last());
                }
                Some(&r.1)
            },
        }
    }

    /// The element at index `i`, counted from the oldest element.
    pub fn get(&self, i: usize) -> (res: Option<&T>)
        ensures
            i < self@.len() ==> res == Some(&self@[i as int]),
            i >= self@.len() ==> res is None,
    {
        proof {
            self.lemma_nonempty();
        }
        // `lead` runs `i` nodes ahead of `cur`; when `lead` stands on the
        // oldest element, `cur` stands on the node with `i` older ones below it.
        let mut lead: &Bwd1<T> = self;
        let mut k: usize = 0;
        while k < i
            invariant
                k <= i,
                k < self@.len(),
                lead@ == self@.take(self@.len() - k),
            decreases i - k,
        {
            match lead.prev() {
                None => {
                    return None;
                },
                Some(p) => {
                    proof {
                        assert(p@ =~= self@.take(self@.len() - (k + 1)));
                    }
                    lead = p;
                },
            }
            k = k + 1;
        }
        let mut cur: &Bwd1<T> = self;
        let ghost mut m: int = self@.len() as int;
        loop
            invariant
                i < m <= self@.len(),
                lead@ == self@.take(m - i),
                cur@ == self@.take(m),
            decreases m,
        {
            match lead.prev() {
                None => {
                    let x = cur.last();
                    proof {
                        assert(cur@[i as int] == self@[i as int]);
                    }
                    return Some(x);
                },
                Some(p) => {
                    proof {
                        assert(p@ =~= self@.take(m - 1 - i));
                    }
                    lead = p;
                },
            }
            match cur.prev() {
                None => {
                    return None;
                },
                Some(c) => {
                    proof {
                        assert(c@ =~= self@.take(m - 1));
                        m = m - 1;
                    }
                    cur = c;
                },
            }
        }
    }

    /// The first element, scanning from the newest one towards the oldest,
    /// for which `f` holds, with its index counted from the newest element.
    pub fn find<F: Fn(&T) -> bool>(&self, f: F) -> (res: Option<(usize, &T)>)
        requires
            self@.len() <= usize::MAX,
            forall|j: int| 0 <= j < self@.len() ==> f.requires((&self@[j],)),
        ensures
            (match res {
                Some((n, x)) => {
                    &&& n < self@.len()
                    &&& *x == self.newest(n as int)
                    &&& f.ensures((x,), true)
                    &&& forall|j: int| 0 <= j < n ==> f.ensures((&#[trigger] self.newest(j),), false)
                },
                None => forall|j: int|
                    0 <= j < self@.len() ==> f.ensures((&#[trigger] self.newest(j),), false),
            }),
    {
        proof {
            self.lemma_nonempty();
        }
        let mut cur: &Bwd1<T> = self;
        let mut n: usize = 0;
        loop
            invariant
                n < self@.len() <= usize::MAX,
                cur@ == self@.take(self@.len() - n),
                forall|j: int| 0 <= j < self@.len() ==> f.requires((&self@[j],)),
                forall|j: int| 0 <= j < n ==> f.ensures((&#[trigger] self.newest(j),), false),
            decreases self@.len() - n,
        {
            let x = cur.last();
            proof {
                assert(*x == self@[self@.len() - 1 - n]);
            }
            if f(x) {
                return Some((n, x));
            }
            match cur.prev() {
                None => {
                    return None;
                },
                Some(p) => {
                    proof {
                        assert(p@ =~= self@.take(self@.len() - (n + 1)));
                    }
                    cur = p;
                    n = n + 1;
                },
            }
        }
    }

    /// Folds `f` over the elements, oldest first: the newest element is
    /// combined with the fold of the elements before it, and the oldest one
    /// with `init`.
    pub fn foldl<S, F: Fn(&T, S) -> S>(&self, init: S, f: &F) -> (res: S)
        requires
            forall|j: int, acc: S| 0 <= j < self@.len() ==> #[trigger] f.requires((&self@[j], acc)),
        ensures
            folds_to(*f, init, self@, res),
        decreases self,
    {
        match self {
            Bwd1::Singleton(x) => {
                proof {
                    assert(self@ == seq![**x]);
                    assert(f.requires((&self@[0], init)));
                }
                let out = f(x, init);
                proof {
                    let accs = seq![init, out];
                    assert(f.ensures((&self@[0], accs[0]), accs[0int + 1]));
                    assert(fold_run(*f, init, self@, accs));
                }
                out
            },
            Bwd1::Snoc(r) => {
                proof {
                    assert(self@ == r.1@.push(r.0));
                    assert forall|j: int, acc: S| 0 <= j < r.1@.len() implies #[trigger] f.requires(
                        (&r.1@[j], acc),
                    ) by {
                        assert(self@[j] == r.1@[j]);
                    }
                }
                let acc = r.1.foldl(init, f);
                proof {
                    assert(f.requires((&self@[self@.len() - 1], acc)));
                }
                let out = f(&r.0, acc);
                proof {
                    let accs0 = choose|accs: Seq<S>|
                        #[trigger] fold_run(*f, init, r.1@, accs) && accs.last() == acc;
                    let accs = accs0.push(out);
                    assert forall|i: int| 0 <= i < self@.len() implies f.ensures(
                        (&self@[i], accs[i]),
                        #[trigger] accs[i + 1],
                    ) by {
                        if i < r.1@.len() {
                            assert(self@[i] == r.1@[i]);
                            assert(f.ensures((&r.1@[i], accs0[i]), accs0[i + 1]));
                        }
                    }
                    assert(fold_run(*f, init, self@, accs));
                }
                out
            },
        }
    }

    /// The number of elements, counted without recursion.
    pub fn len(&self) -> (res: usize)
        requires
            self@.len() <= usize::MAX,
        ensures
            res == self@.len(),
            res >= 1,
    {
        proof {
            self.lemma_nonempty();
        }
        let mut cur: &Bwd1<T> = self;
        let mut n: usize = 0;
        loop
            invariant
                n < self@.len() <= usize::MAX,
                cur@ == self@.take(self@.len() - n),
            decreases self@.len() - n,
        {
            match cur.prev() {
                None => {
                    return n + 1;
                },
                Some(p) => {
                    proof {
                        assert(p@ =~= self@.take(self@.len() - (n + 1)));
                    }
                    cur = p;
                    n = n + 1;
                },
            }
        }
    }

    /// A fresh iterator over the elements, newest first.
    pub fn rev_iter<'a>(&'a self) -> (res: Bwd1Iter<'a, T>)
        ensures
            res@ == self@,
    {
        Bwd1Iter { bwd: Some(self) }
    }

    /// The list with the items of `items` added after the last element, in
    /// their order.
    pub fn extend_by(&self, items: Vec<T>) -> (res: Self)
        ensures
            res@ == self@ + items@,
    {
        let ghost all = items@;
        let mut rest = items;
        let mut stack: Vec<T> = Vec::new();
        while rest.len() > 0
            invariant
                rest@.len() + stack@.len() == all.len(),
                rest@ == all.take(rest@.len() as int),
                forall|j: int| 0 <= j < stack@.len() ==> stack@[j] == all[all.len() - 1 - j],
            decreases rest@.len(),
        {
            if let Some(x) = rest.pop() {
                stack.push(x);
            }
            proof {
                assert(rest@ =~= all.take(rest@.len() as int));
            }
        }
        let mut l = self.clone();
        while stack.len() > 0
            invariant
                stack@.len() <= all.len(),
                l@ == self@ + all.take(all.len() - stack@.len()),
                forall|j: int| 0 <= j < stack@.len() ==> stack@[j] == all[all.len() - 1 - j],
            decreases stack@.len(),
        {
            let ghost before = stack@.len();
            if let Some(x) = stack.pop() {
                proof {
                    assert(x == all[all.len() - before]);
                    assert(self@ + all.take(all.len() - before + 1) =~= l@.push(x));
                }
                l = l.snoc(x);
            }
        }
        proof {
            assert(all.take(all.len() as int) =~= all);
        }
        l
    }
}

impl<T: Clone> Bwd1<T> {
    /// A vector of clones of the elements, oldest first.
    pub fn to_vec(&self) -> (res: Vec<T>)
        ensures
            clones_of(self@, res@),
    {
        let mut out: Vec<T> = Vec::new();
        self.write_into(&mut out);
        proof {
            assert forall|i: int| 0 <= i < self@.len() implies cloned(self@[i], #[trigger] out@[i]) by {
                assert(out@[0 + i] == out@[i]);
            }
        }
        out
    }

    /// Appends clones of the elements, oldest first, to `out`.
    fn write_into(&self, out: &mut Vec<T>)
        ensures
            final(out)@.len() == old(out)@.len() + self@.len(),
            final(out)@.take(old(out)@.len() as int) == old(out)@,
            forall|i: int|
                0 <= i < self@.len() ==> cloned(self@[i], #[trigger] final(out)@[old(out)@.len() + i]),
        decreases self,
    {
        match self {
            Bwd1::Snoc(r) => {
                let ghost start = out@;
                r.1.write_into(out);
                let ghost mid = out@;
                let x = r.0.clone();
                out.push(x);
                proof {
                    assert(self@ == r.1@.push(r.0));
                    assert(out@.take(start.len() as int) =~= mid.take(start.len() as int));
                    assert forall|i: int| 0 <= i < self@.len() implies cloned(
                        self@[i],
                        #[trigger] out@[start.len() + i],
                    ) by {
                        if i < r.1@.len() {
                            assert(cloned(r.1@[i], mid[start.len() + i]));
                        }
                    }
                }
            },
            Bwd1::Singleton(x) => {
                let ghost start = out@;
                let y = (**x).clone();
                out.push(y);
                proof {
                    assert(self@ == seq![**x]);
                    assert(out@.take(start.len() as int) =~= start);
                    assert(out@[start.len() + 0int] == y);
                }
            },
        }
    }
}

/// A cursor over the elements of a non-empty list, newest first.
pub struct Bwd1Iter<'a, T> {
    bwd: Option<&'a Bwd1<T>>,
}

impl<'a, T> View for Bwd1Iter<'a, T> {
    type V = Seq<T>;

    /// The elements not handed out yet, oldest first.
    closed spec fn view(&self) -> Seq<T> {
        match self.bwd {
            Some(b) => b@,
            None => Seq::empty(),
        }
    }
}

impl<'a, T> Bwd1Iter<'a, T> {
    /// Hands out the newest element not handed out yet.
    pub fn next(&mut self) -> (res: Option<&'a T>)
        ensures
            old(self)@.len() == 0 ==> res is None && final(self)@ == old(self)@,
            old(self)@.len() > 0 ==> res == Some(&old(self)@.last()) && final(self)@
                == old(self)@.drop_last(),
    {
        match self.bwd {
            None => None,
            Some(b) => {
                let x = b.last();
                match b.prev() {
                    None => {
                        proof {
                            assert(b@.drop_last() =~= Seq::<T>::empty());
                        }
                        self.bwd = None;
                    },
                    Some(p) => {
                        self.bwd = Some(p);
                    },
                }
                Some(x)
            },
        }
    }
}

/// A list extended by one element holds one element more.
pub proof fn lemma_snoc_len<T>(l: Bwd1<T>, e: T)
    ensures
        l@.push(e).len() == l@.len() + 1,
{
}

/// After extending a list by `e`, the element at the last index is `e`, and
/// the element at index 0 is still the oldest element of the list before.
pub proof fn lemma_get_ends<T>(l: Bwd1<T>, e: T)
    ensures
        l@.push(e)[l@.len() as int] == e,
        l@.len() > 0 ==> l@.push(e)[0] == l@[0],
{
}

/// Extending a common ancestor twice leaves both new lists starting with
/// all the elements of the ancestor, in order.
pub proof fn lemma_common_ancestor<T>(l: Bwd1<T>, a: T, b: T)
    ensures
        l@.push(a).take(l@.len() as int) == l@,
        l@.push(b).take(l@.len() as int) == l@,
        l@.push(a).drop_last() == l@.push(b).drop_last(),
{
    assert(l@.push(a).take(l@.len() as int) =~= l@);
    assert(l@.push(b).take(l@.len() as int) =~= l@);
    assert(l@.push(a).drop_last() =~= l@);
    assert(l@.push(b).drop_last() =~= l@);
}

/// Extending a list by no items leaves its elements as they were.
pub proof fn lemma_extend_by_nothing<T>(l: Bwd1<T>, items: Seq<T>)
    requires
        items.len() == 0,
    ensures
        l@ + items == l@,
{
    assert(l@ + items =~= l@);
}

} // verus!
