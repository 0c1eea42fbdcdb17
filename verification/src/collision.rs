//! Collision layers: two shapes are tested against each other only when their
//! collision masks share a layer.
use vstd::prelude::*;

verus! {

/// Two masks share at least one collision layer.
pub open spec fn masks_overlap(a: u16, b: u16) -> bool {
    a & b != 0
}

/// A shape together with the layers it collides on. The shape itself is held
/// as `V`; what makes two shapes touch is decided by the caller's test.
pub struct CollisionShape<V> {
    pub variant: V,
    pub collision_mask: u16,
}

pub struct CollisionManager<V> {
    pub colliders: Vec<CollisionShape<V>>,
}

impl<V> CollisionShape<V> {
    /// Whether `self` and `other` collide: they must share a layer, and then
    /// the shapes must touch according to `shapes_colliding`, which is only
    /// called when the layers overlap.
    pub fn is_colliding<F: Fn(&V, &V) -> bool>(&self, other: &Self, shapes_colliding: F) -> (r: bool)
        requires
            masks_overlap(self.collision_mask, other.collision_mask) ==> call_requires(
                shapes_colliding,
                (&self.variant, &other.variant),
            ),
        ensures
            !masks_overlap(self.collision_mask, other.collision_mask) ==> !r,
            masks_overlap(self.collision_mask, other.collision_mask) ==> call_ensures(
                shapes_colliding,
                (&self.variant, &other.variant),
                r,
            ),
    {
        if (self.collision_mask & other.collision_mask) != 0 {
            shapes_colliding(&self.variant, &other.variant)
        } else {
            false
        }
    }
}

/// Sharing a layer does not depend on which of the two shapes asks.
pub proof fn lemma_masks_overlap_symmetric(a: u16, b: u16)
    ensures
        masks_overlap(a, b) == masks_overlap(b, a),
{
    assert(a & b == b & a) by (bit_vector);
}

/// A shape with no layer collides with nothing.
pub proof fn lemma_empty_mask_overlaps_nothing(a: u16)
    ensures
        !masks_overlap(0, a),
        !masks_overlap(a, 0),
{
    assert(0u16 & a == 0 && a & 0u16 == 0) by (bit_vector);
}

/// Two shapes that sit on a common layer `bit` share a layer.
pub proof fn lemma_common_layer_overlaps(a: u16, b: u16, bit: u16)
    requires
        bit < 16,
        a & (1u16 << bit) != 0,
        b & (1u16 << bit) != 0,
    ensures
        masks_overlap(a, b),
{
    assert(bit < 16 && a & (1u16 << bit) != 0 && b & (1u16 << bit) != 0 ==> a & b != 0)
        by (bit_vector);
}

} // verus!
