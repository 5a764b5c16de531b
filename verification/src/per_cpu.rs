//! The per-CPU cache of dead threads' kernel stacks.
//!
//! Each CPU keeps a few stacks of threads that died on it, still mapped,
//! for its next spawns. Owner CPU only: the switch tail puts a stack its
//! CPU has switched off, and a spawn on that CPU takes one.

use vstd::prelude::*;

verus! {

/// Dead threads' stacks one CPU keeps mapped for its next spawns.
pub const STACK_CACHE_LEN: usize = 2;

/// A CPU's cache of dead threads' kernel stacks: the stack put last is
/// taken first.
pub struct StackCache<S> {
    slots: Vec<S>,
}

impl<S> View for StackCache<S> {
    type V = Seq<S>;

    /// The cached stacks, oldest first.
    closed spec fn view(&self) -> Seq<S> {
        self.slots@
    }
}

impl<S> StackCache<S> {
    pub closed spec fn wf(&self) -> bool {
        self.slots@.len() <= STACK_CACHE_LEN
    }

    pub fn new() -> (r: Self)
        ensures
            r.wf(),
            r@ == Seq::<S>::empty(),
    {
        StackCache { slots: Vec::new() }
    }

    /// Keep `stack`, or hand it back when the cache is full.
    pub fn put(&mut self, stack: S) -> (r: Result<(), S>)
        requires
            old(self).wf(),
        ensures
            final(self).wf(),
            old(self)@.len() < STACK_CACHE_LEN ==> r is Ok && final(self)@ == old(self)@.push(stack),
            old(self)@.len() >= STACK_CACHE_LEN ==> r == Err::<(), S>(stack) && final(self)@ == old(self)@,
    {
        if self.slots.len() < STACK_CACHE_LEN {
            self.slots.push(stack);
            Ok(())
        } else {
            Err(stack)
        }
    }

    /// The stack put last, if any.
    pub fn take(&mut self) -> (r: Option<S>)
        requires
            old(self).wf(),
        ensures
            final(self).wf(),
            old(self)@.len() == 0 ==> r is None && final(self)@ == old(self)@,
            old(self)@.len() > 0 ==> r == Some(old(self)@.last()) && final(self)@ == old(self)@.drop_last(),
    {
        self.slots.pop()
    }

    pub fn len(&self) -> (r: usize)
        ensures
            r == self@.len(),
    {
        self.slots.len()
    }

    pub fn is_empty(&self) -> (r: bool)
        ensures
            r == (self@.len() == 0),
    {
        self.slots.len() == 0
    }

    pub fn is_full(&self) -> (r: bool)
        requires
            self.wf(),
        ensures
            r == (self@.len() == STACK_CACHE_LEN),
    {
        self.slots.len() == STACK_CACHE_LEN
    }
}

impl<S> Default for StackCache<S> {
    fn default() -> (r: Self)
        ensures
            r.wf(),
            r@ == Seq::<S>::empty(),
    {
        StackCache::new()
    }
}

/// A cache that is taken from after `put` accepted a stack gives that
/// stack back and is as it was.
pub proof fn lemma_put_take<S>(before: Seq<S>, stack: S)
    requires
        before.len() < STACK_CACHE_LEN,
    ensures
        before.push(stack).last() == stack,
        before.push(stack).drop_last() == before,
{
    assert(before.push(stack).drop_last() =~= before);
}

} // verus!
