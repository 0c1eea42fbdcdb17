use game::collision::{CollisionManager, CollisionShape};
use std::cell::Cell;

#[test]
fn shapes_on_different_layers_do_not_collide() {
    let a = CollisionShape { variant: 1u32, collision_mask: 0b01 };
    let b = CollisionShape { variant: 1u32, collision_mask: 0b10 };
    let calls = Cell::new(0);
    let r = a.is_colliding(&b, |_x: &u32, _y: &u32| {
        calls.set(calls.get() + 1);
        true
    });
    assert!(!r);
    assert_eq!(calls.get(), 0);
}

#[test]
fn shapes_on_a_common_layer_use_the_shape_test() {
    let a = CollisionShape { variant: 3u32, collision_mask: 0b0110 };
    let b = CollisionShape { variant: 3u32, collision_mask: 0b0100 };
    let c = CollisionShape { variant: 4u32, collision_mask: 0b0100 };
    assert!(a.is_colliding(&b, |x: &u32, y: &u32| x == y));
    assert!(!a.is_colliding(&c, |x: &u32, y: &u32| x == y));
}

#[test]
fn empty_mask_collides_with_nothing() {
    let a = CollisionShape { variant: (), collision_mask: 0 };
    let b = CollisionShape { variant: (), collision_mask: 0xffff };
    assert!(!a.is_colliding(&b, |_: &(), _: &()| true));
    assert!(!b.is_colliding(&a, |_: &(), _: &()| true));
}

#[test]
fn manager_holds_colliders() {
    let m = CollisionManager { colliders: vec![CollisionShape { variant: 0u8, collision_mask: 1 }] };
    assert_eq!(m.colliders.len(), 1);
}
