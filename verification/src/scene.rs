//! Models found in the asset directory, which of them is active, and when
//! the scene on the GPU has to be uploaded again.

use vstd::prelude::*;

verus! {

/// Marks the model whose scenes the user can pick from. One scene of the
/// active model is the one uploaded to the GPU and rendered.
#[derive(Clone, Copy, PartialEq, Eq, Structural, Debug)]
pub struct ActiveModel;

/// Marks the geometry pipeline that the geometry pass dispatches.
#[derive(Clone, Copy, PartialEq, Eq, Structural, Debug)]
pub struct ActiveGeometryPipeline;

/// A model directory found in the asset tree.
pub struct ModelInfo {
    pub name: String,
    pub path: String,
    pub active_scene: usize,
}

/// Which scene of which model the GPU buffers currently hold.
#[derive(Clone, Copy, PartialEq, Eq, Structural, Debug)]
pub struct CurrentUploadedScene {
    pub model: u64,
    pub scene: usize,
}

/// The buffers must be cleared and filled again when the record was just
/// created, or when the active model or its active scene differ from it.
pub open spec fn reupload_needed(
    just_added: bool,
    current: CurrentUploadedScene,
    active_model: u64,
    active_scene: usize,
) -> bool {
    just_added || current.model != active_model || current.scene != active_scene
}

impl CurrentUploadedScene {
    /// Whether the scene on the GPU must be uploaded again for the given
    /// active model and scene.
    pub fn needs_reupload(&self, just_added: bool, active_model: u64, active_scene: usize) -> (r: bool)
        ensures
            r == reupload_needed(just_added, *self, active_model, active_scene),
            just_added ==> r,
            self.model != active_model ==> r,
            self.scene != active_scene ==> r,
            !just_added && self.model == active_model && self.scene == active_scene ==> !r,
    {
        just_added || self.model != active_model || self.scene != active_scene
    }

    /// The record after the active scene was uploaded.
    pub fn uploaded(active_model: u64, active_scene: usize) -> (r: Self)
        ensures
            r.model == active_model,
            r.scene == active_scene,
    {
        CurrentUploadedScene { model: active_model, scene: active_scene }
    }
}

/// A re-upload is needed exactly when the record was just created or the
/// active model or scene differs from the uploaded one, in either direction:
/// any other scene index or model than the uploaded one calls for it.
pub proof fn lemma_reupload_when_different(
    just_added: bool,
    current: CurrentUploadedScene,
    active_model: u64,
    active_scene: usize,
)
    ensures
        just_added ==> reupload_needed(just_added, current, active_model, active_scene),
        current.model != active_model ==> reupload_needed(just_added, current, active_model, active_scene),
        current.scene != active_scene ==> reupload_needed(just_added, current, active_model, active_scene),
        !just_added && current.model == active_model && current.scene == active_scene ==> !reupload_needed(
            just_added,
            current,
            active_model,
            active_scene,
        ),
{
}

/// After an upload of the active scene, the same active model and scene need
/// no further upload.
pub proof fn lemma_upload_settles(active_model: u64, active_scene: usize)
    ensures
        !reupload_needed(
            false,
            CurrentUploadedScene { model: active_model, scene: active_scene },
            active_model,
            active_scene,
        ),
{
}

/// Of the model directories found in order, the first one becomes the active
/// model; `r[i]` says whether the `i`-th one is marked active.
pub fn initial_active_marks(model_count: usize) -> (r: Vec<bool>)
    ensures
        r@.len() == model_count,
        forall|i: int| 0 <= i < model_count ==> (#[trigger] r@[i] <==> i == 0),
{
    let mut marks: Vec<bool> = Vec::new();
    let mut first_model = true;
    let mut i: usize = 0;
    while i < model_count
        invariant
            i <= model_count,
            marks@.len() == i,
            first_model <==> i == 0,
            forall|j: int| 0 <= j < i ==> (#[trigger] marks@[j] <==> j == 0),
        decreases model_count - i,
    {
        marks.push(first_model);
        first_model = false;
        i = i + 1;
    }
    marks
}

} // verus!
