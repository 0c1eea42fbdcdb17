use game::gpu_buffer::{BufferVec, DeletePlan, FlexBuffer, GrowPlan, START_MAXLEN};

#[test]
fn buffer_vec_starts_empty() {
    let b = BufferVec::new(16);
    assert_eq!(b.len(), 0);
    assert_eq!(b.element_size(), 16);
    assert_eq!(START_MAXLEN, 1);
}

#[test]
fn buffer_vec_doubles_when_full() {
    let mut b = BufferVec::new(16);
    let p = b.push(16);
    assert_eq!(p.grow, None);
    assert_eq!(p.write_offset, 0);
    let p = b.push(16);
    assert_eq!(p.grow, Some(GrowPlan { new_byte_size: 32, copy_bytes: 16 }));
    assert_eq!(p.write_offset, 16);
    let p = b.push(16);
    assert_eq!(p.grow, Some(GrowPlan { new_byte_size: 64, copy_bytes: 32 }));
    assert_eq!(p.write_offset, 32);
    let p = b.push(16);
    assert_eq!(p.grow, None);
    assert_eq!(p.write_offset, 48);
    assert_eq!(b.len(), 4);
}

#[test]
fn buffer_vec_write_elem_offset() {
    let mut b = BufferVec::new(8);
    b.reserve(4);
    assert_eq!(b.write_elem(3, 8), 24);
}

#[test]
fn buffer_vec_reserve_plans_the_copy() {
    let mut b = BufferVec::new(4);
    b.push(4);
    assert_eq!(b.reserve(10), GrowPlan { new_byte_size: 40, copy_bytes: 4 });
    let p = b.push(4);
    assert_eq!(p.grow, None);
    assert_eq!(p.write_offset, 4);
}

#[test]
fn buffer_vec_pop_and_delete_shrink() {
    let mut b = BufferVec::new(4);
    b.push(4);
    b.push(4);
    b.push(4);
    b.pop();
    assert_eq!(b.len(), 2);
    let plan = b.delete(0);
    assert_eq!(b.len(), 1);
    assert_eq!(plan, DeletePlan { scratch_bytes: 4, copy_from: 1, copy_to: 0, copy_bytes: 4 });
}

#[test]
fn flex_buffer_grows_once_when_data_does_not_fit() {
    let mut f = FlexBuffer::new();
    let p = f.push(10);
    assert_eq!(p.grow, None);
    assert_eq!(p.write_offset, 0);
    let p = f.push(10);
    assert_eq!(p.grow, Some(GrowPlan { new_byte_size: 32, copy_bytes: 10 }));
    assert_eq!(p.write_offset, 10);
    assert_eq!(f.len(), 20);
    let p = f.push(12);
    assert_eq!(p.grow, None);
    assert_eq!(p.write_offset, 20);
}

#[test]
fn flex_buffer_reserve() {
    let mut f = FlexBuffer::new();
    f.push(3);
    assert_eq!(f.reserve(100), GrowPlan { new_byte_size: 100, copy_bytes: 3 });
    assert_eq!(f.push(97).grow, None);
    assert_eq!(f.len(), 100);
}

#[test]
fn flex_buffer_grows_until_data_fits() {
    let mut f = FlexBuffer::new();
    let p = f.push(40);
    assert_eq!(p.grow, Some(GrowPlan { new_byte_size: 64, copy_bytes: 0 }));
    assert_eq!(p.write_offset, 0);
    assert_eq!(f.maxlen(), 64);
    let p = f.push(100);
    assert_eq!(p.grow, Some(GrowPlan { new_byte_size: 256, copy_bytes: 40 }));
    assert_eq!(p.write_offset, 40);
    assert_eq!(f.len(), 140);
}
