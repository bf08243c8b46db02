//! The library's global guarantees, written out and proved: id
//! uniqueness, keyframe ordering, and the undo/redo round trips. The
//! pre-order contiguity guarantee itself is
//! [`crate::hierarchy::lemma_descendants_contiguous`].

use vstd::prelude::*;

use crate::hierarchy::hierarchy_wf;
use crate::hierarchy::ids_distinct;
use crate::model::AnimationView;
use crate::model::Bone;
use crate::session::ActionEnum;
use crate::session::ActionType;
use crate::session::ActionView;
use crate::session::SessionState;
use crate::session::fresh_bone_ok;
use crate::session::redo_rel;
use crate::session::session_wf;
use crate::session::spec_restored;
use crate::session::undo_rel;

verus! {

/// Id uniqueness: in every well-formed hierarchy — and every operation of
/// the library keeps the hierarchy well-formed — all live bone ids are
/// distinct and non-negative.
pub proof fn lemma_ids_unique_nonnegative(s: Seq<Bone>)
    requires
        hierarchy_wf(s),
    ensures
        ids_distinct(s),
        forall|i: int| 0 <= i < s.len() ==> (#[trigger] s[i].id) >= 0,
{
}

/// Keyframe uniqueness and order: in every well-formed animation — and
/// every edit of the library keeps the animation well-formed — keyframes
/// are strictly ascending by frame, so no frame occurs twice.
pub proof fn lemma_keyframes_strictly_ascending(a: AnimationView)
    requires
        crate::animation::animation_wf(a),
    ensures
        crate::animation::frames_sorted(a.keyframes),
        forall|i: int, j: int|
            #![trigger a.keyframes[i], a.keyframes[j]]
            0 <= i < a.keyframes.len() && 0 <= j < a.keyframes.len() && i != j
                ==> a.keyframes[i].frame != a.keyframes[j].frame,
{
}

/// Undo/redo round trip: after one recorded modification of a bone —
/// whose snapshot, as every snapshot the library records, keeps the
/// bone's id and parent — undoing and then redoing restores the exact
/// post-modification state: every bone, animation, selection and both
/// stacks are as before.
pub proof fn lemma_undo_redo_round_trip(s0: SessionState, s1: SessionState, s2: SessionState)
    requires
        session_wf(s0),
        s0.undo.len() > 0,
        s0.undo.last().action == ActionEnum::Bone,
        s0.undo.last().action_type == ActionType::Modified,
        0 <= s0.undo.last().id < s0.bones.len(),
        s0.undo.last().bone.id == s0.bones[s0.undo.last().id].id,
        s0.undo.last().bone.parent_id == s0.bones[s0.undo.last().id].parent_id,
        undo_rel(s0, s1),
        redo_rel(s1, s2),
    ensures
        s2.bones == s0.bones,
        s2.textures == s0.textures,
        s2.animations == s0.animations,
        s2.selected_bone == s0.selected_bone,
        s2.selected_animation == s0.selected_animation,
        s2.undo == s0.undo,
        s2.redo == s0.redo,
{
    let a = s0.undo.last();
    let i = a.id;
    let cur = s0.bones[i];
    assert(s1.bones == s0.bones.update(i, spec_restored(cur, a.bone)));
    assert(s1.redo == s0.redo.push(ActionView { bone: cur, ..a }));
    let b = s1.redo.last();
    assert(b.action == ActionEnum::Bone && b.action_type == ActionType::Modified);
    assert(b.id == i);
    assert(s1.bones[i] == spec_restored(cur, a.bone));
    assert(s2.bones == s1.bones.update(i, spec_restored(s1.bones[i], b.bone)));
    assert(spec_restored(s1.bones[i], b.bone) == cur);
    assert(s2.bones =~= s0.bones);
    assert(spec_restored(cur, a.bone) == a.bone);
    assert(s2.undo =~= s0.undo);
    assert(s2.redo =~= s0.redo);
}

/// Creation undo: creating a bone and undoing removes exactly the created
/// bone and resets the bone selection; redoing recreates a bone under the
/// same id-assignment rule (the smallest unused id, on the same prior
/// sequence).
pub proof fn lemma_creation_undo_redo(
    prior: Seq<Bone>,
    s0: SessionState,
    s1: SessionState,
    s2: SessionState,
)
    requires
        s0.undo.len() > 0,
        s0.undo.last().action == ActionEnum::Bone,
        s0.undo.last().action_type == ActionType::Created,
        s0.bones.len() == prior.len() + 1,
        s0.bones.subrange(0, prior.len() as int) == prior,
        undo_rel(s0, s1),
        redo_rel(s1, s2),
    ensures
        s1.bones == prior,
        s1.selected_bone == usize::MAX as int,
        s2.bones.len() == prior.len() + 1,
        s2.bones.subrange(0, prior.len() as int) == prior,
        fresh_bone_ok(prior, s2.bones.last()),
{
    assert(s1.bones =~= prior);
    let a = s1.redo.last();
    assert(a == s0.undo.last());
    assert(s2.bones.subrange(0, s1.bones.len() as int) == s1.bones);
}

} // verus!
