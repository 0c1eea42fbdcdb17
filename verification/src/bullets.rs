//! A pool of bullets: the bullets before the free index are in use, the
//! ones from the free index on are spare slots kept for reuse.
use vstd::prelude::*;

verus! {

/// Removing slot `index` from the used part `pool[..free]` by moving the last
/// used bullet into it drops exactly that bullet from the used ones.
pub proof fn lemma_swap_out_removes_one<B>(pool: Seq<B>, free: int, index: int)
    requires
        0 <= index < free <= pool.len(),
    ensures
        pool.update(index, pool[free - 1]).take(free - 1).to_multiset() =~= pool.take(
            free,
        ).to_multiset().remove(pool[index]),
{
    let used = pool.take(free);
    let last = pool[free - 1];
    let after = pool.update(index, last).take(free - 1);
    used.to_multiset_ensures();
    if index == free - 1 {
        assert(after =~= used.remove(index));
    } else {
        let u = used.update(index, last);
        u.to_multiset_ensures();
        assert(after =~= u.remove(free - 1));
        assert(u.remove(index) =~= used.remove(index));
        assert(after.to_multiset() =~= u.to_multiset().remove(last));
        assert(u.remove(index).to_multiset() =~= u.to_multiset().remove(last));
    }
}

pub struct BulletManager<B> {
    free: usize,
    bullet_pool: Vec<B>,
}

impl<B> BulletManager<B> {
    /// Every slot of the pool, used or spare.
    pub closed spec fn pool(&self) -> Seq<B> {
        self.bullet_pool@
    }

    /// The number of used slots: the slots below it are in use.
    pub closed spec fn free_index(&self) -> int {
        self.free as int
    }

    /// The bullets in use, in slot order.
    pub open spec fn active(&self) -> Seq<B> {
        self.pool().take(self.free_index())
    }

    #[verifier::type_invariant]
    spec fn wf(&self) -> bool {
        self.free <= self.bullet_pool@.len()
    }
}

impl<B: Copy> BulletManager<B> {
    pub fn new() -> (m: Self)
        ensures
            m.pool() == Seq::<B>::empty(),
            m.free_index() == 0,
    {
        BulletManager { free: 0, bullet_pool: Vec::new() }
    }

    /// The first used slot whose bullet `hits` reports as touching, if any.
    pub fn aabb_colliding_with_bullet<F: Fn(&B) -> bool>(&self, hits: F) -> (r: Option<usize>)
        requires
            forall|i: int| 0 <= i < self.free_index() ==> call_requires(hits, (&self.pool()[i],)),
        ensures
            match r {
                Some(i) => {
                    &&& i < self.free_index()
                    &&& call_ensures(hits, (&self.pool()[i as int],), true)
                    &&& forall|j: int|
                        0 <= j < i ==> call_ensures(hits, (&#[trigger] self.pool()[j],), false)
                },
                None => forall|j: int|
                    0 <= j < self.free_index() ==> call_ensures(
                        hits,
                        (&#[trigger] self.pool()[j],),
                        false,
                    ),
            },
    {
        proof {
            use_type_invariant(self);
        }
        let mut i: usize = 0;
        while i < self.free
            invariant
                i <= self.free <= self.bullet_pool@.len(),
                forall|k: int| 0 <= k < self.free_index() ==> call_requires(hits, (&self.pool()[k],)),
                forall|j: int|
                    0 <= j < i ==> call_ensures(hits, (&#[trigger] self.bullet_pool@[j],), false),
            decreases self.free - i,
        {
            assert(call_requires(hits, (&self.pool()[i as int],)));
            if hits(&self.bullet_pool[i]) {
                return Some(i);
            }
            i = i + 1;
        }
        None
    }

    /// Moves every slot of the pool, used or spare, one step by `step`.
    pub fn update_bullets<F: Fn(B) -> B>(&mut self, step: F)
        requires
            forall|i: int| 0 <= i < old(self).pool().len() ==> call_requires(step, (old(self).pool()[i],)),
        ensures
            final(self).free_index() == old(self).free_index(),
            final(self).pool().len() == old(self).pool().len(),
            forall|i: int|
                0 <= i < old(self).pool().len() ==> call_ensures(
                    step,
                    (old(self).pool()[i],),
                    #[trigger] final(self).pool()[i],
                ),
    {
        proof {
            use_type_invariant(&*self);
        }
        let ghost before = self.pool();
        let mut i: usize = 0;
        while i < self.bullet_pool.len()
            invariant
                self.free_index() == old(self).free_index(),
                self.pool().len() == before.len(),
                self.free_index() <= before.len(),
                before == old(self).pool(),
                i <= before.len(),
                forall|k: int| 0 <= k < before.len() ==> call_requires(step, (before[k],)),
                forall|k: int| i <= k < before.len() ==> self.pool()[k] == before[k],
                forall|k: int| 0 <= k < i ==> call_ensures(step, (before[k],), #[trigger] self.pool()[k]),
            decreases before.len() - i,
        {
            assert(call_requires(step, (before[i as int],)));
            let moved = step(self.bullet_pool[i]);
            self.bullet_pool[i] = moved;
            i = i + 1;
        }
    }

    /// Puts `new_bullet` in use in the first spare slot and returns its
    /// index. When there is no spare slot the pool first grows by one.
    pub fn create_bullet(&mut self, new_bullet: B) -> (index: usize)
        ensures
            index == old(self).free_index(),
            final(self).free_index() == old(self).free_index() + 1,
            final(self).pool()[index as int] == new_bullet,
            final(self).active() == old(self).active().push(new_bullet),
            final(self).active().to_multiset() == old(self).active().to_multiset().insert(
                new_bullet,
            ),
            old(self).free_index() < old(self).pool().len() ==> final(self).pool() == old(
                self,
            ).pool().update(index as int, new_bullet),
            old(self).free_index() == old(self).pool().len() ==> final(self).pool() == old(
                self,
            ).pool().push(new_bullet),
    {
        proof {
            use_type_invariant(&*self);
        }
        let ghost before = self.bullet_pool@;
        let f = self.free;
        if self.free >= self.bullet_pool.len() {
            self.free = 0;
            let mut pool = Vec::new();
            std::mem::swap(&mut pool, &mut self.bullet_pool);
            pool.push(new_bullet);
            let grown = pool.len();
            self.bullet_pool = pool;
            self.free = grown;
            proof {
                assert(self.bullet_pool@.take(f + 1) =~= before.take(f as int).push(new_bullet));
            }
        } else {
            self.bullet_pool[f] = new_bullet;
            self.free = f + 1;
            proof {
                assert(self.bullet_pool@.take(f + 1) =~= before.take(f as int).push(new_bullet));
            }
        }
        proof {
            before.take(f as int).to_multiset_ensures();
        }
        f
    }

    /// The number of slots, used or spare.
    pub fn pool_len(&self) -> (n: usize)
        ensures
            n == self.pool().len(),
    {
        self.bullet_pool.len()
    }

    /// The number of used slots.
    pub fn used_count(&self) -> (n: usize)
        ensures
            n == self.free_index(),
    {
        self.free
    }

    /// The number of spare slots.
    pub fn get_unused(&self) -> (n: usize)
        ensures
            n == self.pool().len() - self.free_index(),
            self.free_index() <= self.pool().len(),
    {
        proof {
            use_type_invariant(self);
        }
        self.bullet_pool.len() - self.free
    }

    /// The bullet in slot `index`.
    pub fn get_bullet(&self, index: usize) -> (b: &B)
        requires
            index < self.pool().len(),
        ensures
            *b == self.pool()[index as int],
    {
        &self.bullet_pool[index]
    }

    /// Gives up the bullet in slot `index`: the last used bullet moves into
    /// that slot and the used part shrinks by one.
    pub fn destroy_bullet(&mut self, index: usize)
        requires
            old(self).free_index() > 0,
            index < old(self).pool().len(),
        ensures
            final(self).free_index() == old(self).free_index() - 1,
            final(self).pool() == old(self).pool().update(
                index as int,
                old(self).pool()[old(self).free_index() - 1],
            ),
            index < old(self).free_index() ==> final(self).active().to_multiset()
                == old(self).active().to_multiset().remove(old(self).pool()[index as int]),
    {
        proof {
            use_type_invariant(&*self);
        }
        let ghost before = self.bullet_pool@;
        let f = self.free - 1;
        self.free = f;
        let last = self.bullet_pool[f];
        self.bullet_pool[index] = last;
        proof {
            if index < f + 1 {
                lemma_swap_out_removes_one(before, f + 1, index as int);
            }
        }
    }
}

} // verus!
