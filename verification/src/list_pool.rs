//! Growable lists of `u32` that share one backing store.
//!
//! A list is named by a handle. The handle remembers where the list's block lies in
//! the store, how much of the block is in use, and the generation of the store in
//! which the block was handed out. Clearing the store starts a new generation, and
//! a handle of an earlier generation names the empty list.
use vstd::prelude::*;

verus! {

pub struct ListPool {
    pub data: Vec<u32>,
    pub generation: u64,
}

#[derive(Clone, Copy, Debug)]
pub struct ListHandle {
    pub offset: usize,
    pub len: u32,
    pub capacity: usize,
    pub generation: u64,
}

impl ListPool {
    /// The generation of a fresh store; no handle made by `ListHandle::default`
    /// belongs to it or to a later one.
    pub open spec fn first_generation() -> u64 {
        1
    }

    /// A store with room for about `capacity` values before it has to grow.
    pub fn new(capacity: u32) -> (pool: ListPool)
        ensures
            pool.data@.len() == 0,
            pool.generation == Self::first_generation(),
    {
        ListPool { data: Vec::with_capacity(capacity as usize), generation: 1 }
    }

    /// Gives up every list: each handle made so far names the empty list again.
    pub fn clear(&mut self)
        requires
            old(self).generation < u64::MAX,
        ensures
            final(self).data@.len() == 0,
            final(self).generation == old(self).generation + 1,
            forall|handle: ListHandle|
                handle.generation <= old(self).generation ==> (#[trigger] handle.view_in(
                    final(self),
                )).len() == 0 && handle.wf(final(self)),
    {
        self.data.clear();
        self.generation = self.generation + 1;
    }
}

impl ListHandle {
    /// The handle belongs to the current generation of `pool`.
    pub open spec fn is_live(&self, pool: &ListPool) -> bool {
        self.generation == pool.generation
    }

    /// The handle is of an earlier generation, or its block lies within the store
    /// and holds its values.
    pub open spec fn wf(&self, pool: &ListPool) -> bool {
        &&& self.generation <= pool.generation
        &&& self.is_live(pool) ==> {
            &&& self.len <= self.capacity
            &&& self.offset + self.capacity <= pool.data@.len()
        }
    }

    /// The values of the list, oldest first.
    pub open spec fn view_in(&self, pool: &ListPool) -> Seq<u32> {
        if self.is_live(pool) {
            pool.data@.subrange(self.offset as int, self.offset + self.len)
        } else {
            Seq::empty()
        }
    }

    /// The handle of a live list leaves position `at` of the store alone.
    pub open spec fn avoids(&self, pool: &ListPool, at: int) -> bool {
        self.is_live(pool) ==> at < self.offset || self.offset + self.capacity <= at
    }

    /// The blocks of two live lists do not overlap.
    pub open spec fn apart(&self, other: ListHandle, pool: &ListPool) -> bool {
        self.is_live(pool) && other.is_live(pool) ==> self.offset + self.capacity <= other.offset
            || other.offset + other.capacity <= self.offset
    }

    /// The number of values in the list.
    pub fn len(&self, pool: &ListPool) -> (len: u32)
        requires
            self.wf(pool),
        ensures
            len == self.view_in(pool).len(),
    {
        if self.generation == pool.generation {
            self.len
        } else {
            0
        }
    }

    /// The values of the list. The slice is good until the next `push`, which may
    /// move the list.
    pub fn as_slice<'a>(&self, pool: &'a ListPool) -> (values: &'a [u32])
        requires
            self.wf(pool),
        ensures
            values@ == self.view_in(pool),
    {
        let data: &[u32] = pool.data.as_slice();
        let total: usize = data.len();
        if self.generation == pool.generation {
            vstd::slice::slice_subrange(data, self.offset, self.offset + self.len as usize)
        } else {
            vstd::slice::slice_subrange(data, 0, 0)
        }
    }

    /// Appends `value`. A list whose block is full moves to a new block, twice as
    /// large, at the end of the store; what lies before the end of the store is then
    /// left as it was.
    pub fn push(&mut self, value: u32, pool: &mut ListPool)
        requires
            old(self).wf(old(pool)),
            old(self).view_in(old(pool)).len() < u32::MAX,
        ensures
            final(self).wf(final(pool)),
            final(self).is_live(final(pool)),
            final(pool).generation == old(pool).generation,
            final(self).view_in(final(pool)) == old(self).view_in(old(pool)).push(value),
            final(pool).data@.len() >= old(pool).data@.len(),
            forall|at: int|
                0 <= at < old(pool).data@.len() && old(self).avoids(old(pool), at)
                    ==> final(pool).data@[at] == old(pool).data@[at],
            final(self).capacity > 0,
            final(self).offset >= old(pool).data@.len() || {
                &&& old(self).is_live(old(pool))
                &&& final(self).offset == old(self).offset
                &&& final(self).capacity == old(self).capacity
            },
    {
        let live: bool = self.generation == pool.generation;
        let to: usize = pool.data.len();
        let len: u32 = if live {
            self.len
        } else {
            0
        };
        if live && (len as usize) < self.capacity {
            pool.data[self.offset + len as usize] = value;
            self.len = len + 1;
            assert(self.view_in(pool) =~= old(self).view_in(old(pool)).push(value));
            return ;
        }
        let from: usize = self.offset;
        let ghost stale: Seq<u32> = old(self).view_in(old(pool));
        let mut copied: u32 = 0;
        while copied < len
            invariant
                copied <= len,
                len == stale.len(),
                stale == old(self).view_in(old(pool)),
                len > 0 ==> live,
                live ==> len == old(self).len,
                live == old(self).is_live(old(pool)),
                from == old(self).offset,
                live ==> from + len <= to,
                to == old(pool).data@.len(),
                pool.generation == old(pool).generation,
                pool.data@.len() == to + copied,
                pool.data@.subrange(0, to as int) == old(pool).data@,
                pool.data@.subrange(to as int, to + copied) == stale.subrange(0, copied as int),
            decreases len - copied,
        {
            let moved: u32 = pool.data[from + copied as usize];
            assert(pool.data@.subrange(0, to as int)[from + copied] == pool.data@[from + copied]);
            assert(moved == stale[copied as int]);
            let ghost so_far: Seq<u32> = pool.data@.subrange(to as int, to + copied);
            pool.data.push(moved);
            copied = copied + 1;
            assert(pool.data@.subrange(0, to as int) =~= old(pool).data@);
            assert(pool.data@.subrange(to as int, to + copied) =~= so_far.push(moved));
            assert(stale.subrange(0, copied as int) =~= stale.subrange(0, copied - 1).push(moved));
        }
        pool.data.push(value);
        let ghost fresh: Seq<u32> = stale.push(value);
        assert(stale.subrange(0, len as int) =~= stale);
        assert(pool.data@.subrange(to as int, to + len + 1) =~= fresh);
        // Leave as much room again as the list now takes.
        let mut spare: u32 = 0;
        while spare <= len
            invariant
                spare <= len + 1,
                len < u32::MAX,
                to == old(pool).data@.len(),
                pool.generation == old(pool).generation,
                pool.data@.len() == to + len + 1 + spare,
                pool.data@.subrange(0, to as int) == old(pool).data@,
                pool.data@.subrange(to as int, to + len + 1) == fresh,
            decreases len + 1 - spare,
        {
            pool.data.push(0);
            spare = spare + 1;
            assert(pool.data@.subrange(0, to as int) =~= old(pool).data@);
            assert(pool.data@.subrange(to as int, to + len + 1) =~= fresh);
        }
        self.offset = to;
        self.len = len + 1;
        self.capacity = pool.data.len() - to;
        self.generation = pool.generation;
        assert forall|at: int| 0 <= at < to implies pool.data@[at] == old(pool).data@[at] by {
            assert(pool.data@.subrange(0, to as int)[at] == pool.data@[at]);
        }
    }
}

impl Default for ListHandle {
    /// The handle of an empty list, good for every store.
    fn default() -> (handle: ListHandle)
        ensures
            handle.generation == 0,
            handle.len == 0,
            handle.capacity == 0,
            handle.offset == 0,
    {
        ListHandle { offset: 0, len: 0, capacity: 0, generation: 0 }
    }
}

} // verus!
