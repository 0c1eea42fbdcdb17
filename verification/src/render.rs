//! Indices that tie what is drawn to the models and buffers that draw it.
use vstd::prelude::*;

verus! {

/// Which render pipeline is bound.
#[derive(Clone, Copy, Debug, PartialEq, Eq, Structural)]
pub enum Pipeline {
    Default,
    /// No pipeline chosen.
    Unset,
}

/// One drawn instance of a mesh. `model_index` is the index of the model in
/// the renderer's list of models; `instance_index` the slot of this instance
/// in that model's instance buffer.
#[derive(Clone, Copy, Debug, PartialEq, Eq, Structural)]
pub struct MeshInstance {
    pub model_index: usize,
    pub instance_index: usize,
}

/// References one vertex buffer, one index buffer and one material of a
/// model, by their indices in the model's lists.
#[derive(Clone, Copy, Debug, PartialEq, Eq, Structural)]
pub struct Primitive {
    pub vertex_buffer_ref: usize,
    pub index_buffer_ref: usize,
    pub material_ref: usize,
}

/// The slot of the model named `wanted` among the models named by `names`:
/// the last index that bears that name, or `None` when no model does.
pub fn model_slot(names: &Vec<String>, wanted: &String) -> (r: Option<usize>)
    ensures
        match r {
            Some(i) => {
                &&& i < names@.len()
                &&& names@[i as int]@ == wanted@
                &&& forall|j: int| i < j < names@.len() ==> names@[j]@ != wanted@
            },
            None => forall|j: int| 0 <= j < names@.len() ==> names@[j]@ != wanted@,
        },
{
    let mut found: Option<usize> = None;
    let mut index: usize = 0;
    while index < names.len()
        invariant
            index <= names@.len(),
            match found {
                Some(i) => {
                    &&& i < index
                    &&& names@[i as int]@ == wanted@
                    &&& forall|j: int| i < j < index ==> names@[j]@ != wanted@
                },
                None => forall|j: int| 0 <= j < index ==> names@[j]@ != wanted@,
            },
        decreases names@.len() - index,
    {
        if names[index] == *wanted {
            found = Some(index);
        }
        index = index + 1;
    }
    found
}

/// The mesh instance of a new player drawn with the model named `wanted`:
/// the slot of that model among the models named by `names`, or, when none
/// bears that name, the next slot, `names.len()`, where that model is to be
/// loaded and added; the player's instance takes the first instance slot.
pub fn player_mesh_instance(names: &Vec<String>, wanted: &String) -> (m: MeshInstance)
    ensures
        m.instance_index == 0,
        m.model_index <= names@.len(),
        m.model_index < names@.len() ==> {
            &&& names@[m.model_index as int]@ == wanted@
            &&& forall|j: int| m.model_index < j < names@.len() ==> names@[j]@ != wanted@
        },
        m.model_index == names@.len() ==> forall|j: int|
            0 <= j < names@.len() ==> names@[j]@ != wanted@,
{
    let model_index = match model_slot(names, wanted) {
        Some(i) => i,
        None => names.len(),
    };
    MeshInstance { model_index, instance_index: 0 }
}

} // verus!
