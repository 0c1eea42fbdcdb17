use game::bullets::BulletManager;

#[test]
fn new_manager_is_empty() {
    let m: BulletManager<u32> = BulletManager::new();
    assert_eq!(m.get_unused(), 0);
    assert_eq!(m.pool_len(), 0);
    assert_eq!(m.used_count(), 0);
    assert_eq!(m.aabb_colliding_with_bullet(|_: &u32| true), None);
}

#[test]
fn create_on_a_full_pool_grows_it_and_uses_the_new_slot() {
    let mut m: BulletManager<u32> = BulletManager::new();
    assert_eq!(m.create_bullet(7), 0);
    assert_eq!(*m.get_bullet(0), 7);
    assert_eq!(m.get_unused(), 0);
    assert_eq!(m.used_count(), 1);
    assert_eq!(m.aabb_colliding_with_bullet(|_: &u32| true), Some(0));
}

#[test]
fn create_reuses_a_spare_slot() {
    let mut m: BulletManager<u32> = BulletManager::new();
    assert_eq!(m.create_bullet(7), 0);
    assert_eq!(m.create_bullet(8), 1);
    m.destroy_bullet(0);
    // used: 8; spare: one slot
    assert_eq!(m.get_unused(), 1);
    assert_eq!(m.create_bullet(9), 1);
    assert_eq!(m.pool_len(), 2);
    assert_eq!(*m.get_bullet(0), 8);
    assert_eq!(*m.get_bullet(1), 9);
    assert_eq!(m.get_unused(), 0);
    assert_eq!(m.aabb_colliding_with_bullet(|b: &u32| *b == 9), Some(1));
}

#[test]
fn destroy_moves_the_last_used_bullet() {
    let mut m: BulletManager<u32> = BulletManager::new();
    m.create_bullet(10);
    m.create_bullet(20);
    m.create_bullet(30);
    assert_eq!(m.get_unused(), 0);
    m.destroy_bullet(0);
    assert_eq!(*m.get_bullet(0), 30);
    assert_eq!(*m.get_bullet(1), 20);
    assert_eq!(m.get_unused(), 1);
    assert_eq!(m.aabb_colliding_with_bullet(|b: &u32| *b == 30), Some(0));
    assert_eq!(m.aabb_colliding_with_bullet(|b: &u32| *b >= 20), Some(0));
    assert_eq!(m.aabb_colliding_with_bullet(|b: &u32| *b == 10), None);
}

#[test]
fn first_hit_is_returned() {
    let mut m: BulletManager<u32> = BulletManager::new();
    for v in [5u32, 6, 7] {
        m.create_bullet(v);
    }
    assert_eq!(m.aabb_colliding_with_bullet(|b: &u32| *b > 5), Some(1));
}

#[test]
fn spare_slots_are_not_searched() {
    let mut m: BulletManager<u32> = BulletManager::new();
    m.create_bullet(1);
    m.create_bullet(2);
    m.destroy_bullet(1);
    assert_eq!(m.aabb_colliding_with_bullet(|b: &u32| *b == 2), None);
}

#[test]
fn update_moves_every_slot() {
    let mut m: BulletManager<u32> = BulletManager::new();
    m.create_bullet(1);
    m.create_bullet(2);
    m.create_bullet(3);
    m.update_bullets(|b: u32| b * 10);
    assert_eq!(*m.get_bullet(0), 10);
    assert_eq!(*m.get_bullet(1), 20);
    assert_eq!(*m.get_bullet(2), 30);
    assert_eq!(m.get_unused(), 0);
}
