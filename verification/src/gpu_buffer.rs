//! Bookkeeping of GPU buffers that grow like a vector.
//!
//! The buffers themselves live on the GPU; these types decide what to do to
//! them. Each operation updates the lengths and returns a plan: where to
//! write, and when the buffer is full, how large a new buffer to make and how
//! many bytes of the old one to copy into it.
use vstd::prelude::*;
use vstd::arithmetic::power2::{lemma_pow2, lemma_pow2_unfold, pow2};

verus! {

/// Number of elements a new `BufferVec` has room for.
pub const START_MAXLEN: usize = 1;

/// Factor by which a full buffer grows.
pub const GROWTH_RATE: usize = 2;

/// Number of bytes a new `FlexBuffer` has room for.
pub const FLEX_START_MAXLEN: usize = 16;

/// Replace the buffer by a new zeroed one of `new_byte_size` bytes, after
/// copying the first `copy_bytes` bytes of the old buffer to the start of the
/// new one.
#[derive(Clone, Copy, Debug, PartialEq, Eq, Structural)]
pub struct GrowPlan {
    pub new_byte_size: usize,
    pub copy_bytes: u64,
}

/// Grow first if `grow` says so, then write the new data at byte
/// `write_offset`.
#[derive(Clone, Copy, Debug, PartialEq, Eq)]
pub struct PushPlan {
    pub grow: Option<GrowPlan>,
    pub write_offset: u64,
}

/// Make a scratch buffer of `scratch_bytes` bytes, copy `copy_bytes` bytes
/// from byte `copy_from` of the buffer into it, then copy them back into the
/// buffer at byte `copy_to`.
#[derive(Clone, Copy, Debug, PartialEq, Eq, Structural)]
pub struct DeletePlan {
    pub scratch_bytes: usize,
    pub copy_from: u64,
    pub copy_to: u64,
    pub copy_bytes: u64,
}

/// A GPU buffer used as a vector of elements of `element_size` bytes each.
pub struct BufferVec {
    element_size: usize,
    len: usize,
    maxlen: usize,
}

impl BufferVec {
    /// Bytes per element.
    pub closed spec fn elem_size(&self) -> nat {
        self.element_size as nat
    }

    /// Number of elements stored.
    pub closed spec fn length(&self) -> nat {
        self.len as nat
    }

    /// Number of elements the buffer has room for.
    pub closed spec fn capacity(&self) -> nat {
        self.maxlen as nat
    }

    /// Size of the GPU buffer in bytes.
    pub open spec fn byte_capacity(&self) -> nat {
        self.elem_size() * self.capacity()
    }

    #[verifier::type_invariant]
    spec fn wf(&self) -> bool {
        &&& self.len <= self.maxlen
        &&& 1 <= self.maxlen
        &&& self.element_size * self.maxlen <= usize::MAX
        &&& self.element_size % 4 == 0
    }

    /// An empty vector of elements of `element_size` bytes, with room for
    /// `START_MAXLEN` elements.
    pub fn new(element_size: usize) -> (b: Self)
        requires
            element_size % 4 == 0,
        ensures
            b.elem_size() == element_size,
            b.length() == 0,
            b.capacity() == START_MAXLEN,
    {
        BufferVec { element_size, len: 0, maxlen: START_MAXLEN }
    }

    pub fn element_size(&self) -> (n: usize)
        ensures
            n == self.elem_size(),
    {
        self.element_size
    }

    pub fn len(&self) -> (n: usize)
        ensures
            n == self.length(),
            self.length() <= self.capacity(),
    {
        proof {
            use_type_invariant(self);
        }
        self.len
    }

    /// Number of elements the buffer has room for.
    pub fn maxlen(&self) -> (n: usize)
        ensures
            n == self.capacity(),
    {
        self.maxlen
    }

    /// The byte offset at which element `index` is written; `data_len` is the
    /// length of the data, which must be one element.
    pub fn write_elem(&self, index: usize, data_len: usize) -> (offset: u64)
        requires
            data_len == self.elem_size(),
            index < self.capacity(),
        ensures
            offset == index * self.elem_size(),
            offset + self.elem_size() <= self.byte_capacity(),
    {
        proof {
            use_type_invariant(self);
            lemma_mul_le(index as nat, self.maxlen as nat, self.element_size as nat);
            lemma_mul_le((index + 1) as nat, self.maxlen as nat, self.element_size as nat);
            lemma_mul_succ(index as nat, self.element_size as nat);
        }
        (index * self.element_size) as u64
    }

    /// Appends one element of `elem_len` bytes. When the buffer is full it
    /// first grows to `GROWTH_RATE` times its room.
    pub fn push(&mut self, elem_len: usize) -> (plan: PushPlan)
        requires
            elem_len == old(self).elem_size(),
            old(self).length() >= old(self).capacity() ==> {
                &&& old(self).capacity() * GROWTH_RATE <= usize::MAX
                &&& old(self).elem_size() * (old(self).capacity() * GROWTH_RATE) <= usize::MAX
            },
        ensures
            final(self).elem_size() == old(self).elem_size(),
            final(self).length() == old(self).length() + 1,
            old(self).length() < old(self).capacity() ==> {
                &&& plan.grow == Option::<GrowPlan>::None
                &&& final(self).capacity() == old(self).capacity()
            },
            old(self).length() >= old(self).capacity() ==> {
                &&& final(self).capacity() == old(self).capacity() * GROWTH_RATE
                &&& plan.grow == Some(
                    GrowPlan {
                        new_byte_size: (old(self).elem_size() * final(self).capacity()) as usize,
                        copy_bytes: (old(self).length() * old(self).elem_size()) as u64,
                    },
                )
            },
            plan.write_offset == old(self).length() * old(self).elem_size(),
            plan.write_offset + final(self).elem_size() <= final(self).byte_capacity(),
    {
        proof {
            use_type_invariant(&*self);
        }
        let grow = if self.len >= self.maxlen {
            proof {
                lemma_mul_le(self.maxlen as nat, (self.maxlen * GROWTH_RATE) as nat, self.element_size as nat);
            }
            Some(self.reserve(self.maxlen * GROWTH_RATE))
        } else {
            None
        };
        proof {
            use_type_invariant(&*self);
            lemma_mul_le(self.len as nat, self.maxlen as nat, self.element_size as nat);
            lemma_mul_le((self.len + 1) as nat, self.maxlen as nat, self.element_size as nat);
            lemma_mul_succ(self.len as nat, self.element_size as nat);
        }
        let write_offset = (self.len * self.element_size) as u64;
        self.len = self.len + 1;
        PushPlan { grow, write_offset }
    }

    /// Drops the last element.
    pub fn pop(&mut self)
        requires
            old(self).length() > 0,
        ensures
            final(self).length() == old(self).length() - 1,
            final(self).capacity() == old(self).capacity(),
            final(self).elem_size() == old(self).elem_size(),
    {
        proof {
            use_type_invariant(&*self);
        }
        self.len = self.len - 1;
    }

    /// Drops one element: the length shrinks by one, and the bytes at offset
    /// of the new length are copied to offset `index` through a scratch
    /// buffer of one element.
    pub fn delete(&mut self, index: usize) -> (plan: DeletePlan)
        requires
            old(self).length() > 0,
        ensures
            final(self).length() == old(self).length() - 1,
            final(self).capacity() == old(self).capacity(),
            final(self).elem_size() == old(self).elem_size(),
            plan == (DeletePlan {
                scratch_bytes: old(self).elem_size() as usize,
                copy_from: final(self).length() as u64,
                copy_to: index as u64,
                copy_bytes: old(self).elem_size() as u64,
            }),
    {
        proof {
            use_type_invariant(&*self);
        }
        self.len = self.len - 1;
        DeletePlan {
            scratch_bytes: self.element_size,
            copy_from: self.len as u64,
            copy_to: index as u64,
            copy_bytes: self.element_size as u64,
        }
    }

    /// Gives the buffer room for `new_size` elements, keeping the stored ones.
    pub fn reserve(&mut self, new_size: usize) -> (plan: GrowPlan)
        requires
            new_size > old(self).length(),
            old(self).elem_size() * new_size <= usize::MAX,
        ensures
            final(self).capacity() == new_size,
            final(self).length() == old(self).length(),
            final(self).elem_size() == old(self).elem_size(),
            plan == (GrowPlan {
                new_byte_size: (old(self).elem_size() * new_size) as usize,
                copy_bytes: (old(self).length() * old(self).elem_size()) as u64,
            }),
    {
        proof {
            use_type_invariant(&*self);
            lemma_mul_le(self.len as nat, new_size as nat, self.element_size as nat);
        }
        self.maxlen = new_size;
        GrowPlan {
            new_byte_size: self.element_size * new_size,
            copy_bytes: (self.len * self.element_size) as u64,
        }
    }
}

/// Multiplying by the same factor keeps the order.
pub proof fn lemma_mul_le(a: nat, b: nat, k: nat)
    requires
        a <= b,
    ensures
        a * k <= b * k,
        k * a <= k * b,
{
    assert(a * k <= b * k) by (nonlinear_arith)
        requires
            a <= b,
    ;
    assert(k * a <= k * b) by (nonlinear_arith)
        requires
            a <= b,
    ;
}

/// One more factor adds the factor once.
pub proof fn lemma_mul_succ(a: nat, k: nat)
    ensures
        (a + 1) * k == a * k + k,
        k * (a + 1) == k * a + k,
{
    assert((a + 1) * k == a * k + k) by (nonlinear_arith);
    assert(k * (a + 1) == k * a + k) by (nonlinear_arith);
}

/// The room a buffer of `room` bytes ends with when it doubles until
/// `need` bytes fit.
pub open spec fn grown_room(room: nat, need: nat) -> nat
    decreases if room < need { need - room } else { 0 },
{
    if need <= room || room == 0 {
        room
    } else {
        grown_room(room * 2, need)
    }
}

/// Doubling a non-empty room ends with room for `need` bytes, and never
/// shrinks it.
pub proof fn lemma_grown_room(room: nat, need: nat)
    requires
        1 <= room,
    ensures
        need <= grown_room(room, need),
        room <= grown_room(room, need),
    decreases if room < need { need - room } else { 0 },
{
    if need > room {
        lemma_grown_room(room * 2, need);
    }
}

/// Growing doubles the room the fewest times that make `need` bytes fit:
/// a room that holds them already is kept; otherwise the new room is the old
/// one times a power of two, holds `need` bytes, and is less than twice
/// `need`, so that half of it would not hold them.
pub proof fn lemma_grown_room_fewest_doublings(room: nat, need: nat)
    requires
        1 <= room,
    ensures
        need <= room ==> grown_room(room, need) == room,
        need <= grown_room(room, need),
        need > room ==> grown_room(room, need) < 2 * need,
        exists|k: nat| grown_room(room, need) == room * #[trigger] pow2(k),
    decreases if room < need { need - room } else { 0 },
{
    if need <= room {
        lemma_pow2(0);
        vstd::arithmetic::power::lemma_pow0(2);
        assert(grown_room(room, need) == room * pow2(0));
    } else {
        lemma_grown_room_fewest_doublings(room * 2, need);
        let k = choose|k: nat| grown_room(room * 2, need) == room * 2 * #[trigger] pow2(k);
        lemma_pow2_unfold(k + 1);
        assert(room * 2 * pow2(k) == room * (2 * pow2(k))) by (nonlinear_arith);
        assert(grown_room(room, need) == room * pow2(k + 1));
    }
}

/// A GPU buffer used as a growing vector of bytes.
pub struct FlexBuffer {
    len: usize,
    maxlen: usize,
}

impl FlexBuffer {
    /// Number of bytes stored.
    pub closed spec fn length(&self) -> nat {
        self.len as nat
    }

    /// Size of the GPU buffer in bytes.
    pub closed spec fn capacity(&self) -> nat {
        self.maxlen as nat
    }

    #[verifier::type_invariant]
    spec fn wf(&self) -> bool {
        &&& self.len <= self.maxlen
        &&& 1 <= self.maxlen
    }

    /// An empty buffer with room for `FLEX_START_MAXLEN` bytes.
    pub fn new() -> (b: Self)
        ensures
            b.length() == 0,
            b.capacity() == FLEX_START_MAXLEN,
    {
        FlexBuffer { len: 0, maxlen: FLEX_START_MAXLEN }
    }

    pub fn len(&self) -> (n: usize)
        ensures
            n == self.length(),
            self.length() <= self.capacity(),
    {
        proof {
            use_type_invariant(self);
        }
        self.len
    }

    /// Size of the GPU buffer in bytes.
    pub fn maxlen(&self) -> (n: usize)
        ensures
            n == self.capacity(),
    {
        self.maxlen
    }

    /// Appends `data_len` bytes. When they do not fit, the buffer first grows,
    /// by `GROWTH_RATE` times its size as often as it takes for them to fit.
    pub fn push(&mut self, data_len: usize) -> (plan: PushPlan)
        requires
            old(self).length() + data_len <= usize::MAX,
            grown_room(old(self).capacity(), (old(self).length() + data_len) as nat) <= usize::MAX,
        ensures
            final(self).length() == old(self).length() + data_len,
            old(self).length() + data_len <= old(self).capacity() ==> {
                &&& plan.grow == Option::<GrowPlan>::None
                &&& final(self).capacity() == old(self).capacity()
            },
            old(self).length() + data_len > old(self).capacity() ==> {
                &&& final(self).capacity() == grown_room(
                    old(self).capacity(),
                    (old(self).length() + data_len) as nat,
                )
                &&& plan.grow == Some(
                    GrowPlan {
                        new_byte_size: final(self).capacity() as usize,
                        copy_bytes: old(self).length() as u64,
                    },
                )
            },
            plan.write_offset == old(self).length(),
            plan.write_offset + data_len <= final(self).capacity(),
    {
        proof {
            use_type_invariant(&*self);
        }
        let need = self.len + data_len;
        let grow = if need > self.maxlen {
            let ghost target = grown_room(self.maxlen as nat, need as nat);
            let mut room = self.maxlen;
            while room < need
                invariant
                    1 <= room,
                    grown_room(room as nat, need as nat) == target,
                    target <= usize::MAX,
                decreases if room < need { need - room } else { 0 },
            {
                proof {
                    lemma_grown_room(room as nat * 2, need as nat);
                }
                room = room * GROWTH_RATE;
            }
            Some(self.reserve(room))
        } else {
            None
        };
        let write_offset = self.len as u64;
        self.len = need;
        PushPlan { grow, write_offset }
    }

    /// Gives the buffer room for `new_size` bytes, keeping the stored ones.
    pub fn reserve(&mut self, new_size: usize) -> (plan: GrowPlan)
        requires
            new_size > old(self).length(),
        ensures
            final(self).capacity() == new_size,
            final(self).length() == old(self).length(),
            plan == (GrowPlan { new_byte_size: new_size, copy_bytes: old(self).length() as u64 }),
    {
        self.maxlen = new_size;
        GrowPlan { new_byte_size: new_size, copy_bytes: self.len as u64 }
    }
}

} // verus!
