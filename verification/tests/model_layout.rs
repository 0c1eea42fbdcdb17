use game::model_layout::{append_node, append_scene, ModelLayout, NodeSource};
use game::render::{model_slot, player_mesh_instance, MeshInstance, Primitive};

fn leaf(mesh: Option<Vec<usize>>) -> NodeSource {
    NodeSource { mesh, children: vec![] }
}

fn empty_layout() -> ModelLayout {
    ModelLayout::new()
}

#[test]
fn single_node_without_mesh() {
    let mut layout = empty_layout();
    assert_eq!(append_node(&mut layout, &leaf(None)), 0);
    assert_eq!(layout.nodes.len(), 1);
    assert_eq!(layout.nodes[0].mesh, None);
    assert!(layout.nodes[0].children.is_empty());
    assert!(layout.meshes.is_empty());
    assert_eq!(layout.buffer_count, 0);
}

#[test]
fn tree_is_laid_out_depth_first() {
    // root (mesh of 2 primitives) -> [a (no mesh) -> [c (mesh of 1)], b (mesh of 1)]
    let c = leaf(Some(vec![7]));
    let a = NodeSource { mesh: None, children: vec![c] };
    let b = leaf(Some(vec![3]));
    let root = NodeSource { mesh: Some(vec![0, 4]), children: vec![a, b] };
    let mut layout = empty_layout();
    assert_eq!(append_node(&mut layout, &root), 0);
    assert_eq!(layout.nodes.len(), 4);
    assert_eq!(layout.nodes[0].mesh, Some(0));
    assert_eq!(layout.nodes[0].children, vec![1, 3]);
    assert_eq!(layout.nodes[1].mesh, None);
    assert_eq!(layout.nodes[1].children, vec![2]);
    assert_eq!(layout.nodes[2].mesh, Some(1));
    assert_eq!(layout.nodes[3].mesh, Some(2));
    assert_eq!(layout.buffer_count, 4);
    assert_eq!(
        layout.meshes[0],
        vec![
            Primitive { vertex_buffer_ref: 0, index_buffer_ref: 0, material_ref: 0 },
            Primitive { vertex_buffer_ref: 1, index_buffer_ref: 1, material_ref: 4 },
        ]
    );
    assert_eq!(layout.meshes[1], vec![Primitive { vertex_buffer_ref: 2, index_buffer_ref: 2, material_ref: 7 }]);
    assert_eq!(layout.meshes[2], vec![Primitive { vertex_buffer_ref: 3, index_buffer_ref: 3, material_ref: 3 }]);
}

#[test]
fn second_root_follows_the_first() {
    let mut layout = empty_layout();
    append_node(&mut layout, &leaf(Some(vec![1])));
    let second = NodeSource { mesh: Some(vec![2]), children: vec![leaf(None)] };
    assert_eq!(append_node(&mut layout, &second), 1);
    assert_eq!(layout.nodes[1].mesh, Some(1));
    assert_eq!(layout.nodes[1].children, vec![2]);
    assert_eq!(layout.meshes[1], vec![Primitive { vertex_buffer_ref: 1, index_buffer_ref: 1, material_ref: 2 }]);
}

#[test]
fn model_slot_finds_the_last_model_of_that_name() {
    let names = vec![String::from("cube.obj"), String::from("tree.obj"), String::from("cube.obj")];
    assert_eq!(model_slot(&names, &String::from("cube.obj")), Some(2));
    assert_eq!(model_slot(&names, &String::from("tree.obj")), Some(1));
    assert_eq!(model_slot(&names, &String::from("rock.obj")), None);
    assert_eq!(model_slot(&vec![], &String::from("cube.obj")), None);
}

#[test]
fn scene_roots_are_recorded_in_order() {
    let mut layout = empty_layout();
    let first = NodeSource { mesh: None, children: vec![leaf(Some(vec![5])), leaf(None)] };
    let second = leaf(Some(vec![6, 8]));
    append_scene(&mut layout, &vec![first, second]);
    append_scene(&mut layout, &vec![leaf(None)]);
    assert_eq!(layout.root_nodes, vec![0, 3, 4]);
    assert_eq!(layout.nodes.len(), 5);
    assert_eq!(layout.nodes[0].children, vec![1, 2]);
    assert_eq!(layout.nodes[1].mesh, Some(0));
    assert_eq!(layout.nodes[3].mesh, Some(1));
    assert_eq!(layout.buffer_count, 3);
    assert_eq!(
        layout.meshes[1],
        vec![
            Primitive { vertex_buffer_ref: 1, index_buffer_ref: 1, material_ref: 6 },
            Primitive { vertex_buffer_ref: 2, index_buffer_ref: 2, material_ref: 8 },
        ]
    );
}

#[test]
fn player_uses_the_named_model_or_the_next_slot() {
    let names = vec![String::from("cube.obj"), String::from("tree.obj")];
    assert_eq!(
        player_mesh_instance(&names, &String::from("cube.obj")),
        MeshInstance { model_index: 0, instance_index: 0 }
    );
    assert_eq!(
        player_mesh_instance(&names, &String::from("rock.obj")),
        MeshInstance { model_index: 2, instance_index: 0 }
    );
}
