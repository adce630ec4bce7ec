use std::rc::Rc;
use vstd::prelude::*;

use crate::common::{clones_of, fold_run, folds_to, lemma_exact_clones};

verus! {

/// A persistent list that grows at its end: each value is either empty or a
/// shared node holding the newest element and the list before it.
#[derive(PartialEq, Eq, Debug)]
pub enum Bwd<T> {
    Nil,
    Snoc(Rc<(T, Bwd<T>)>),
}

impl<T> View for Bwd<T> {
    type V = Seq<T>;

    /// The elements, oldest first.
    open spec fn view(&self) -> Seq<T>
        decreases self,
    {
        match self {
            Bwd::Nil => Seq::empty(),
            Bwd::Snoc(r) => r.1@.push(r.0),
        }
    }
}

impl<T> Clone for Bwd<T> {
    fn clone(&self) -> (res: Self)
        ensures
            res == *self,
    {
        match self {
            Bwd::Nil => Bwd::Nil,
            Bwd::Snoc(r) => Bwd::Snoc(r.clone()),
        }
    }
}

impl<T> Bwd<T> {
    /// The list with `t` added after the last element.
    pub fn snoc(&self, t: T) -> (res: Self)
        ensures
            res@ == self@.push(t),
            res matches Bwd::Snoc(r) && r.1 == *self,
    {
        Bwd::Snoc(Rc::new((t, self.clone())))
    }

    /// The empty list.
    pub fn nil() -> (res: Self)
        ensures
            res@ == Seq::<T>::empty(),
    {
        Bwd::Nil
    }

    /// The elements counted from the newest one: index 0 is the last element.
    pub open spec fn newest(&self, j: int) -> T {
        self@[self@.len() - 1 - j]
    }

    /// The list without its last element, shared with this one; the empty
    /// list stays empty.
    pub fn pop(&self) -> (res: Self)
        ensures
            res@ == popped(self@),
            self matches Bwd::Snoc(r) ==> res == r.1,
    {
        match self {
            Bwd::Nil => Bwd::Nil,
            Bwd::Snoc(r) => {
                proof {
                    assert(r.1@ =~= self@.drop_last());
                }
                r.1.clone()
            },
        }
    }

    /// The element at index `i`, counted from the oldest element.
    pub fn get(&self, i: usize) -> (res: Option<&T>)
        ensures
            i < self@.len() ==> res == Some(&self@[i as int]),
            i >= self@.len() ==> res is None,
    {
        // `lead` runs `i` nodes ahead of `cur`; when `lead` stands on the
        // oldest node, `cur` stands on the node with `i` older ones below it.
        let mut lead: &Bwd<T> = self;
        let mut k: usize = 0;
        while k < i
            invariant
                k <= i,
                k <= self@.len(),
                lead@ == self@.take(self@.len() - k),
            decreases i - k,
        {
            if let Bwd::Nil = lead {
                return None;
            }
            proof {
                lead.lemma_snoc_nonempty();
                assert(popped(lead@) =~= self@.take(self@.len() - (k + 1)));
            }
            lead = lead.prev();
            k = k + 1;
        }
        if let Bwd::Nil = lead {
            return None;
        }
        proof {
            lead.lemma_snoc_nonempty();
        }
        let mut cur: &Bwd<T> = self;
        let ghost mut m: int = self@.len() as int;
        loop
            invariant
                i < m <= self@.len(),
                lead@ == self@.take(m - i),
                cur@ == self@.take(m),
            decreases m,
        {
            let below = lead.prev();
            proof {
                below.lemma_snoc_nonempty();
                cur.lemma_snoc_nonempty();
            }
            if let Bwd::Nil = below {
                return match cur {
                    Bwd::Nil => None,
                    Bwd::Snoc(cr) => {
                        proof {
                            assert(cur@ == cr.1@.push(cr.0));
                            assert(cur@[i as int] == self@[i as int]);
                        }
                        Some(&cr.0)
                    },
                };
            }
            proof {
                assert(below@ =~= self@.take(m - 1 - i));
                assert(popped(cur@) =~= self@.take(m - 1));
                m = m - 1;
            }
            lead = below;
            cur = cur.prev();
        }
    }

    /// The first element, scanning from the newest one towards the oldest,
    /// for which `f` holds, with its index counted from the newest element.
    pub fn find<F: Fn(&T) -> bool>(&self, f: F) -> (res: Option<(usize, &T)>)
        requires
            self@.len() <= usize::MAX,
            forall|j: int| 0 <= j < self@.len() ==> f.requires((&self@[j],)),
        ensures
            (match res {
                Some((n, x)) => {
                    &&& n < self@.len()
                    &&& *x == self.newest(n as int)
                    &&& f.ensures((x,), true)
                    &&& forall|j: int| 0 <= j < n ==> f.ensures((&#[trigger] self.newest(j),), false)
                },
                None => forall|j: int|
                    0 <= j < self@.len() ==> f.ensures((&#[trigger] self.newest(j),), false),
            }),
    {
        let mut cur: &Bwd<T> = self;
        let mut n: usize = 0;
        loop
            invariant
                n <= self@.len() <= usize::MAX,
                cur@ == self@.take(self@.len() - n),
                forall|j: int| 0 <= j < self@.len() ==> f.requires((&self@[j],)),
                forall|j: int| 0 <= j < n ==> f.ensures((&#[trigger] self.newest(j),), false),
            decreases self@.len() - n,
        {
            proof {
                cur.lemma_snoc_nonempty();
            }
            match cur {
                Bwd::Nil => {
                    return None;
                },
                Bwd::Snoc(r) => {
                    proof {
                        assert(cur@ == r.1@.push(r.0));
                        assert(cur@[cur@.len() - 1] == r.0);
                        assert(r.0 == self@[self@.len() - 1 - n]);
                    }
                    if f(&r.0) {
                        return Some((n, &r.0));
                    }
                    proof {
                        assert(r.1@ =~= self@.take(self@.len() - (n + 1)));
                    }
                    cur = &r.1;
                    n = n + 1;
                },
            }
        }
    }

    /// Folds `f` over the elements, oldest first: the newest element is
    /// combined with the fold of the elements before it.
    pub fn foldl<S, F: Fn(&T, S) -> S>(&self, init: S, f: &F) -> (res: S)
        requires
            forall|j: int, acc: S| 0 <= j < self@.len() ==> #[trigger] f.requires((&self@[j], acc)),
        ensures
            folds_to(*f, init, self@, res),
        decreases self,
    {
        match self {
            Bwd::Nil => {
                proof {
                    assert(fold_run(*f, init, self@, seq![init]));
                }
                init
            },
            Bwd::Snoc(r) => {
                proof {
                    assert(self@ == r.1@.push(r.0));
                    assert forall|j: int, acc: S| 0 <= j < r.1@.len() implies #[trigger] f.requires(
                        (&r.1@[j], acc),
                    ) by {
                        assert(self@[j] == r.1@[j]);
                    }
                    assert(f.requires((&self@[self@.len() - 1], init)));
                }
                let acc = r.1.foldl(init, f);
                proof {
                    assert(f.requires((&self@[self@.len() - 1], acc)));
                }
                let out = f(&r.0, acc);
                proof {
                    let accs0 = choose|accs: Seq<S>|
                        #[trigger] fold_run(*f, init, r.1@, accs) && accs.last() == acc;
                    let accs = accs0.push(out);
                    assert forall|i: int| 0 <= i < self@.len() implies f.ensures(
                        (&self@[i], accs[i]),
                        #[trigger] accs[i + 1],
                    ) by {
                        if i < r.1@.len() {
                            assert(self@[i] == r.1@[i]);
                            assert(f.ensures((&r.1@[i], accs0[i]), accs0[i + 1]));
                        }
                    }
                    assert(fold_run(*f, init, self@, accs));
                }
                out
            },
        }
    }

    /// The number of elements, counted without recursion.
    pub fn len(&self) -> (res: usize)
        requires
            self@.len() <= usize::MAX,
        ensures
            res == self@.len(),
    {
        let mut cur: &Bwd<T> = self;
        let mut n: usize = 0;
        loop
            invariant
                n <= self@.len() <= usize::MAX,
                cur@ == self@.take(self@.len() - n),
            decreases self@.len() - n,
        {
            proof {
                cur.lemma_snoc_nonempty();
            }
            if let Bwd::Nil = cur {
                return n;
            }
            proof {
                assert(popped(cur@) =~= self@.take(self@.len() - (n + 1)));
            }
            cur = cur.prev();
            n = n + 1;
        }
    }

    /// A fresh iterator over the elements, newest first.
    pub fn rev_iter<'a>(&'a self) -> (res: BwdIter<'a, T>)
        ensures
            res@ == self@,
    {
        BwdIter { bwd: self }
    }

    /// The list with the items of `items` added after the last element, in
    /// their order.
    pub fn extend_by(&self, items: Vec<T>) -> (res: Self)
        ensures
            res@ == self@ + items@,
    {
        let ghost all = items@;
        let mut rest = items;
        let mut stack: Vec<T> = Vec::new();
        while rest.len() > 0
            invariant
                rest@.len() + stack@.len() == all.len(),
                rest@ == all.take(rest@.len() as int),
                forall|j: int| 0 <= j < stack@.len() ==> stack@[j] == all[all.len() - 1 - j],
            decreases rest@.len(),
        {
            if let Some(x) = rest.pop() {
                stack.push(x);
            }
            proof {
                assert(rest@ =~= all.take(rest@.len() as int));
            }
        }
        let mut l = self.clone();
        while stack.len() > 0
            invariant
                stack@.len() <= all.len(),
                l@ == self@ + all.take(all.len() - stack@.len()),
                forall|j: int| 0 <= j < stack@.len() ==> stack@[j] == all[all.len() - 1 - j],
            decreases stack@.len(),
        {
            let ghost before = stack@.len();
            if let Some(x) = stack.pop() {
                proof {
                    assert(x == all[all.len() - before]);
                    assert(self@ + all.take(all.len() - before + 1) =~= l@.push(x));
                }
                l = l.snoc(x);
            }
        }
        proof {
            assert(all.take(all.len() as int) =~= all);
        }
        l
    }

    /// The list of the items of `items`, in their order.
    pub fn from_vec(items: Vec<T>) -> (res: Self)
        ensures
            res@ == items@,
    {
        let res = Bwd::nil().extend_by(items);
        proof {
            assert(Seq::<T>::empty() + items@ =~= items@);
        }
        res
    }

    proof fn lemma_snoc_nonempty(&self)
        ensures
            self is Snoc <==> self@.len() > 0,
    {
        if let Bwd::Snoc(r) = self {
            assert(self@ == r.1@.push(r.0));
        }
    }

    /// The list before the last element, without copying; the empty list for
    /// the empty list.
    fn prev(&self) -> (res: &Self)
        ensures
            res@ == popped(self@),
    {
        match self {
            Bwd::Nil => self,
            Bwd::Snoc(r) => {
                proof {
                    assert(r.1@ =~= self@.drop_last());
                }
                &r.1
            },
        }
    }
}

impl<T: Clone> Bwd<T> {
    /// A vector of clones of the elements, oldest first.
    pub fn to_vec(&self) -> (res: Vec<T>)
        ensures
            clones_of(self@, res@),
    {
        let mut out: Vec<T> = Vec::new();
        self.write_into(&mut out);
        proof {
            assert forall|i: int| 0 <= i < self@.len() implies cloned(self@[i], #[trigger] out@[i]) by {
                assert(out@[0 + i] == out@[i]);
            }
        }
        out
    }

    /// Appends clones of the elements, oldest first, to `out`.
    fn write_into(&self, out: &mut Vec<T>)
        ensures
            final(out)@.len() == old(out)@.len() + self@.len(),
            final(out)@.take(old(out)@.len() as int) == old(out)@,
            forall|i: int|
                0 <= i < self@.len() ==> cloned(self@[i], #[trigger] final(out)@[old(out)@.len() + i]),
        decreases self,
    {
        match self {
            Bwd::Snoc(r) => {
                let ghost start = out@;
                r.1.write_into(out);
                let ghost mid = out@;
                let x = r.0.clone();
                out.push(x);
                proof {
                    assert(self@ == r.1@.push(r.0));
                    assert(out@.take(start.len() as int) =~= mid.take(start.len() as int));
                    assert forall|i: int| 0 <= i < self@.len() implies cloned(
                        self@[i],
                        #[trigger] out@[start.len() + i],
                    ) by {
                        if i < r.1@.len() {
                            assert(cloned(r.1@[i], mid[start.len() + i]));
                        }
                    }
                }
            },
            Bwd::Nil => {
                proof {
                    assert(out@.take(out@.len() as int) =~= out@);
                }
            },
        }
    }
}

/// A cursor over the elements of a list, newest first.
pub struct BwdIter<'a, T> {
    bwd: &'a Bwd<T>,
}

impl<'a, T> View for BwdIter<'a, T> {
    type V = Seq<T>;

    /// The elements not handed out yet, oldest first.
    closed spec fn view(&self) -> Seq<T> {
        self.bwd@
    }
}

impl<'a, T> BwdIter<'a, T> {
    /// Hands out the newest element not handed out yet.
    pub fn next(&mut self) -> (res: Option<&'a T>)
        ensures
            old(self)@.len() == 0 ==> res is None && final(self)@ == old(self)@,
            old(self)@.len() > 0 ==> res == Some(&old(self)@.last()) && final(self)@
                == old(self)@.drop_last(),
    {
        match self.bwd {
            Bwd::Nil => None,
            Bwd::Snoc(r) => {
                proof {
                    assert(self.bwd@ == r.1@.push(r.0));
                    assert(r.1@ =~= self.bwd@.drop_last());
                }
                self.bwd = &r.1;
                Some(&r.0)
            },
        }
    }
}

/// What `pop` leaves of the elements of a list.
pub open spec fn popped<T>(s: Seq<T>) -> Seq<T> {
    if s.len() == 0 {
        s
    } else {
        s.drop_last()
    }
}

/// A list extended by one element holds one element more.
pub proof fn lemma_snoc_len<T>(l: Bwd<T>, e: T)
    ensures
        l@.push(e).len() == l@.len() + 1,
{
}

/// After extending a list by `e`, the element at the last index is `e`, and
/// the element at index 0 is still the oldest element of the list before.
pub proof fn lemma_get_ends<T>(l: Bwd<T>, e: T)
    ensures
        l@.push(e)[l@.len() as int] == e,
        l@.len() > 0 ==> l@.push(e)[0] == l@[0],
{
}

/// Extending a common ancestor twice leaves both new lists starting with
/// all the elements of the ancestor, in order.
pub proof fn lemma_common_ancestor<T>(l: Bwd<T>, a: T, b: T)
    ensures
        l@.push(a).take(l@.len() as int) == l@,
        l@.push(b).take(l@.len() as int) == l@,
        l@.push(a).drop_last() == l@.push(b).drop_last(),
{
    assert(l@.push(a).take(l@.len() as int) =~= l@);
    assert(l@.push(b).take(l@.len() as int) =~= l@);
    assert(l@.push(a).drop_last() =~= l@);
    assert(l@.push(b).drop_last() =~= l@);
}

/// Extending a list by no items leaves its elements as they were.
pub proof fn lemma_extend_by_nothing<T>(l: Bwd<T>, items: Seq<T>)
    requires
        items.len() == 0,
    ensures
        l@ + items == l@,
{
    assert(l@ + items =~= l@);
}

/// Popping a list just extended by one element gives the elements of the list
/// before.
pub proof fn lemma_snoc_pop<T>(l: Bwd<T>, e: T)
    ensures
        popped(l@.push(e)) == l@,
{
    assert(l@.push(e).drop_last() =~= l@);
}

/// A list built from a sequence and read back with `to_vec` gives a clone of
/// each element of the sequence, in the same order; where cloning keeps the
/// value, the sequence itself.
pub proof fn lemma_round_trip<T: Clone>(xs: Seq<T>, l: Bwd<T>, out: Seq<T>)
    requires
        l@ == xs,
        clones_of(l@, out),
    ensures
        clones_of(xs, out),
        (forall|a: T, b: T| #[trigger] cloned(a, b) ==> a == b) ==> out == xs,
{
    if forall|a: T, b: T| #[trigger] cloned(a, b) ==> a == b {
        lemma_exact_clones(xs, out);
    }
}

} // verus!
