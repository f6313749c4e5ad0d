//! Reuse of objects through a small stack of idle ones.

use vstd::prelude::*;

verus! {

/// Take an object from the pool, reset by `reset`, or a new one from
/// `factory` when the pool is empty. `max` is accepted for symmetry with
/// `tl_release`.
pub fn tl_acquire<T, F: FnOnce() -> T, R: FnOnce(&mut T)>(pool: &mut Vec<T>, max: usize, factory: F, reset: R) -> (r: T)
    requires
        old(pool)@.len() == 0 ==> factory.requires(()),
        old(pool)@.len() > 0 ==> forall|x: &mut T| #[trigger] reset.requires((x,)),
    ensures
        old(pool)@.len() == 0 ==> final(pool)@ == old(pool)@ && factory.ensures((), r),
        old(pool)@.len() > 0 ==> final(pool)@ == old(pool)@.drop_last(),
        old(pool)@.len() > 0 ==> exists|m: &mut T| *m == old(pool)@.last() && reset.ensures((m,), ())
            && r == *final(m),
{
    match pool.pop() {
        Some(item) => {
            let mut item = item;
            reset(&mut item);
            item
        },
        None => factory(),
    }
}

/// Put an object back into the pool, unless the pool already holds `max`.
pub fn tl_release<T>(pool: &mut Vec<T>, max: usize, item: T)
    ensures
        old(pool)@.len() < max ==> final(pool)@ == old(pool)@.push(item),
        old(pool)@.len() >= max ==> final(pool)@ == old(pool)@,
{
    if pool.len() < max {
        pool.push(item);
    }
}

/// A pool of idle objects, holding at most `max_size` of them. The pool
/// has one owner at a time (`&mut self`); sharing it between threads is
/// left to the caller.
pub struct ObjectPool<T> {
    pool: Vec<T>,
    max_size: usize,
}

impl<T> ObjectPool<T> {
    /// The idle objects, the last one taken first.
    pub closed spec fn idle(&self) -> Seq<T> {
        self.pool@
    }

    /// The most idle objects the pool keeps.
    pub closed spec fn capacity(&self) -> nat {
        self.max_size as nat
    }

    /// The pool holds no more than its capacity.
    pub open spec fn wf(&self) -> bool {
        self.idle().len() <= self.capacity()
    }

    /// An empty pool that keeps up to `max_size` idle objects.
    pub fn new(max_size: usize) -> (r: Self)
        ensures
            r.idle() == Seq::<T>::empty(),
            r.capacity() == max_size,
            r.wf(),
    {
        ObjectPool { pool: Vec::new(), max_size }
    }

    /// Take an idle object, reset by `reset`, or a new one from `factory`
    /// when none is idle (see `tl_acquire`).
    pub fn acquire<F: FnOnce() -> T, R: FnOnce(&mut T)>(&mut self, factory: F, reset: R) -> (r: T)
        requires
            old(self).idle().len() == 0 ==> factory.requires(()),
            old(self).idle().len() > 0 ==> forall|x: &mut T| #[trigger] reset.requires((x,)),
        ensures
            final(self).capacity() == old(self).capacity(),
            old(self).wf() ==> final(self).wf(),
            old(self).idle().len() == 0 ==> final(self).idle() == old(self).idle() && factory.ensures((), r),
            old(self).idle().len() > 0 ==> final(self).idle() == old(self).idle().drop_last(),
            old(self).idle().len() > 0 ==> exists|m: &mut T| *m == old(self).idle().last() && reset.ensures((m,), ())
                && r == *final(m),
    {
        tl_acquire(&mut self.pool, self.max_size, factory, reset)
    }

    /// Put an object back, unless the pool already holds its capacity (the
    /// object is then dropped).
    pub fn release(&mut self, item: T)
        ensures
            final(self).capacity() == old(self).capacity(),
            old(self).wf() ==> final(self).wf(),
            old(self).idle().len() < old(self).capacity() ==> final(self).idle() == old(self).idle().push(item),
            old(self).idle().len() >= old(self).capacity() ==> final(self).idle() == old(self).idle(),
    {
        tl_release(&mut self.pool, self.max_size, item)
    }

    /// The number of idle objects.
    pub fn available(&self) -> (r: usize)
        ensures
            r == self.idle().len(),
    {
        self.pool.len()
    }
}

} // verus!
