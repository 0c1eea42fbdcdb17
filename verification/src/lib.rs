//! Game logic with proved contracts: card dealing, collision masks and
//! trees, the bullet pool, packet decoding, the projectile grid, input state,
//! model layout and the bookkeeping of growable GPU buffers.
pub mod cards;
pub mod bullets;
pub mod collision;
pub mod gpu_buffer;
pub mod input;
pub mod ground;
pub mod model_layout;
pub mod packet;
pub mod projectiles;
pub mod render;
