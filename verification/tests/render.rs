use game::render::{MeshInstance, Pipeline, Primitive};

#[test]
fn render_indices_hold_their_values() {
    let m = MeshInstance { model_index: 2, instance_index: 5 };
    assert_eq!((m.model_index, m.instance_index), (2, 5));
    let p = Primitive { vertex_buffer_ref: 1, index_buffer_ref: 1, material_ref: 0 };
    assert_eq!(p.material_ref, 0);
    assert_ne!(Pipeline::Default, Pipeline::Unset);
}
