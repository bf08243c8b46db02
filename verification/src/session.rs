//! The editing session: the armature, the selections, and the snapshot
//! based undo/redo log.
//!
//! Every reversible edit pushes the pre-edit state as an [`Action`] onto
//! the undo stack and clears the redo stack. Undoing a creation deletes
//! the created entity and clears the selection; undoing a modification
//! swaps the stored snapshot with the current state and moves the action
//! to the redo stack. Redo mirrors undo.

use vstd::prelude::*;

use crate::animation::animation_wf;
use crate::hierarchy::has_id;
use crate::hierarchy::hierarchy_wf;
use crate::hierarchy::is_fresh_id_spec;
use crate::hierarchy::lemma_drop_last_wf;
use crate::hierarchy::lemma_wf_same_structure;
use crate::model::Animation;
use crate::model::AnimationView;
use crate::model::Armature;
use crate::model::Bone;
use crate::model::Texture;
use crate::model::Vec2;

verus! {

/// What kind of entity an action concerns.
#[derive(Clone, Copy, PartialEq, Eq, Structural, Debug)]
pub enum ActionEnum {
    Bone,
    Animation,
}

/// Whether the action records a creation or a modification.
#[derive(Clone, Copy, PartialEq, Eq, Structural, Debug)]
pub enum ActionType {
    Created,
    Modified,
}

/// One reversible edit: what was edited, and a full snapshot sufficient to
/// restore the prior state.
pub struct Action {
    pub action: ActionEnum,
    pub action_type: ActionType,
    pub id: i32,
    pub bone: Bone,
    pub animation: Animation,
}

/// Mathematical value of an [`Action`].
#[verifier::ext_equal]
pub ghost struct ActionView {
    pub action: ActionEnum,
    pub action_type: ActionType,
    pub id: int,
    pub bone: Bone,
    pub animation: AnimationView,
}

impl View for Action {
    type V = ActionView;

    open spec fn view(&self) -> ActionView {
        ActionView {
            action: self.action,
            action_type: self.action_type,
            id: self.id as int,
            bone: self.bone,
            animation: self.animation@,
        }
    }
}

impl Action {
    pub fn duplicate(&self) -> (r: Action)
        ensures
            r@ == self@,
    {
        Action {
            action: self.action,
            action_type: self.action_type,
            id: self.id,
            bone: self.bone.duplicate(),
            animation: self.animation.duplicate(),
        }
    }
}

/// The editing session.
pub struct Session {
    pub armature: Armature,
    pub selected_bone: usize,
    pub selected_animation: usize,
    pub undo_actions: Vec<Action>,
    pub redo_actions: Vec<Action>,
}

/// Mathematical value of a [`Session`].
#[verifier::ext_equal]
pub ghost struct SessionState {
    pub bones: Seq<Bone>,
    pub textures: Seq<Texture>,
    pub animations: Seq<AnimationView>,
    pub selected_bone: int,
    pub selected_animation: int,
    pub undo: Seq<ActionView>,
    pub redo: Seq<ActionView>,
}

impl View for Session {
    type V = SessionState;

    open spec fn view(&self) -> SessionState {
        SessionState {
            bones: self.armature.bones@,
            textures: self.armature.textures@,
            animations: self.armature.animations@.map_values(|a: Animation| a@),
            selected_bone: self.selected_bone as int,
            selected_animation: self.selected_animation as int,
            undo: self.undo_actions@.map_values(|a: Action| a@),
            redo: self.redo_actions@.map_values(|a: Action| a@),
        }
    }
}

/// A texture reference is the none-sentinel or a valid index.
pub open spec fn tex_ok(t: int, ntex: int) -> bool {
    t == usize::MAX as int || 0 <= t < ntex
}

/// A stored action's payloads are restorable: its animation snapshot is
/// well-formed and its bone snapshot references only existing textures.
pub open spec fn action_ok(a: ActionView, ntex: int) -> bool {
    &&& animation_wf(a.animation)
    &&& tex_ok(a.bone.tex_idx as int, ntex)
}

/// The session invariant.
pub open spec fn session_wf(s: SessionState) -> bool {
    &&& hierarchy_wf(s.bones)
    &&& forall|i: int| 0 <= i < s.animations.len() ==> animation_wf(#[trigger] s.animations[i])
    &&& forall|i: int|
        0 <= i < s.bones.len() ==> tex_ok((#[trigger] s.bones[i]).tex_idx as int, s.textures.len() as int)
    &&& forall|i: int|
        0 <= i < s.undo.len() ==> action_ok(#[trigger] s.undo[i], s.textures.len() as int)
    &&& forall|i: int|
        0 <= i < s.redo.len() ==> action_ok(#[trigger] s.redo[i], s.textures.len() as int)
}

/// A bone with its editable fields (name, transforms, texture) taken from
/// the snapshot while its place in the hierarchy (id, parent) is kept.
pub open spec fn spec_restored(cur: Bone, snap: Bone) -> Bone {
    Bone {
        id: cur.id,
        name: snap.name,
        parent_id: cur.parent_id,
        pos: snap.pos,
        scale: snap.scale,
        pivot: snap.pivot,
        rot: snap.rot,
        zindex: snap.zindex,
        tex_idx: snap.tex_idx,
    }
}

/// A freshly created bone: the smallest unused id, bind-pose defaults, the
/// counted name.
pub open spec fn fresh_bone_ok(prior: Seq<Bone>, b: Bone) -> bool {
    &&& is_fresh_id_spec(prior, b.id as int)
    &&& b.parent_id == -1
    &&& b.name@ == "bone"@ + crate::model::decimal_digits(prior.len() as int)
    &&& b.pos == (Vec2 { x: 0, y: 0 })
    &&& b.scale == (Vec2 { x: crate::model::SCALE_ONE, y: crate::model::SCALE_ONE })
    &&& b.pivot == (Vec2 { x: 0, y: 0 })
    &&& b.rot == 0
    &&& b.zindex == 0
    &&& b.tex_idx == usize::MAX
}

/// What one undo step does.
pub open spec fn undo_rel(o: SessionState, n: SessionState) -> bool {
    if o.undo.len() == 0 {
        n == o
    } else {
        let a = o.undo.last();
        &&& n.undo == o.undo.drop_last()
        &&& n.textures == o.textures
        &&& match (a.action, a.action_type) {
            (ActionEnum::Bone, ActionType::Created) => {
                &&& n.bones == (if o.bones.len() > 0 {
                    o.bones.drop_last()
                } else {
                    o.bones
                })
                &&& n.selected_bone == usize::MAX as int
                &&& n.animations == o.animations
                &&& n.selected_animation == o.selected_animation
                &&& n.redo == o.redo.push(a)
            },
            (ActionEnum::Bone, ActionType::Modified) => {
                &&& (if 0 <= a.id < o.bones.len() {
                    n.bones == o.bones.update(a.id, spec_restored(o.bones[a.id], a.bone))
                        && n.redo == o.redo.push(ActionView { bone: o.bones[a.id], ..a })
                } else {
                    n.bones == o.bones && n.redo == o.redo.push(a)
                })
                &&& n.selected_bone == o.selected_bone
                &&& n.animations == o.animations
                &&& n.selected_animation == o.selected_animation
            },
            (ActionEnum::Animation, ActionType::Created) => {
                &&& n.animations == (if o.animations.len() > 0 {
                    o.animations.drop_last()
                } else {
                    o.animations
                })
                &&& n.selected_animation == usize::MAX as int
                &&& n.bones == o.bones
                &&& n.selected_bone == o.selected_bone
                &&& n.redo == o.redo.push(a)
            },
            (ActionEnum::Animation, ActionType::Modified) => {
                &&& (if 0 <= a.id < o.animations.len() {
                    n.animations == o.animations.update(a.id, a.animation) && n.redo == o.redo.push(
                        ActionView { animation: o.animations[a.id], ..a },
                    )
                } else {
                    n.animations == o.animations && n.redo == o.redo.push(a)
                })
                &&& n.bones == o.bones
                &&& n.selected_bone == o.selected_bone
                &&& n.selected_animation == o.selected_animation
            },
        }
    }
}

/// What one redo step does: the mirror of [`undo_rel`], except that
/// redoing a creation actually re-creates the entity.
pub open spec fn redo_rel(o: SessionState, n: SessionState) -> bool {
    if o.redo.len() == 0 {
        n == o
    } else {
        let a = o.redo.last();
        &&& n.redo == o.redo.drop_last()
        &&& n.textures == o.textures
        &&& match (a.action, a.action_type) {
            (ActionEnum::Bone, ActionType::Created) => {
                &&& n.bones.len() == o.bones.len() + 1
                &&& n.bones.subrange(0, o.bones.len() as int) == o.bones
                &&& fresh_bone_ok(o.bones, n.bones.last())
                &&& n.selected_bone == usize::MAX as int
                &&& n.animations == o.animations
                &&& n.selected_animation == o.selected_animation
                &&& n.undo == o.undo.push(a)
            },
            (ActionEnum::Bone, ActionType::Modified) => {
                &&& (if 0 <= a.id < o.bones.len() {
                    n.bones == o.bones.update(a.id, spec_restored(o.bones[a.id], a.bone))
                        && n.undo == o.undo.push(ActionView { bone: o.bones[a.id], ..a })
                } else {
                    n.bones == o.bones && n.undo == o.undo.push(a)
                })
                &&& n.selected_bone == o.selected_bone
                &&& n.animations == o.animations
                &&& n.selected_animation == o.selected_animation
            },
            (ActionEnum::Animation, ActionType::Created) => {
                &&& n.animations == o.animations.push(
                    AnimationView { name: Seq::empty(), fps: 60, keyframes: Seq::empty() },
                )
                &&& n.selected_animation == usize::MAX as int
                &&& n.bones == o.bones
                &&& n.selected_bone == o.selected_bone
                &&& n.undo == o.undo.push(a)
            },
            (ActionEnum::Animation, ActionType::Modified) => {
                &&& (if 0 <= a.id < o.animations.len() {
                    n.animations == o.animations.update(a.id, a.animation) && n.undo == o.undo.push(
                        ActionView { animation: o.animations[a.id], ..a },
                    )
                } else {
                    n.animations == o.animations && n.undo == o.undo.push(a)
                })
                &&& n.bones == o.bones
                &&& n.selected_bone == o.selected_bone
                &&& n.selected_animation == o.selected_animation
            },
        }
    }
}

/// The facts every undo/redo branch leaves for the common tail: the
/// hierarchy and all animations stay well-formed, textures are untouched,
/// and the action about to change stacks is restorable.
pub open spec fn branch_facts(o: SessionState, mid: SessionState, na: ActionView) -> bool {
    &&& hierarchy_wf(mid.bones)
    &&& forall|i: int| 0 <= i < mid.animations.len() ==> animation_wf(#[trigger] mid.animations[i])
    &&& forall|i: int|
        0 <= i < mid.bones.len() ==> tex_ok(
            (#[trigger] mid.bones[i]).tex_idx as int,
            o.textures.len() as int,
        )
    &&& mid.textures == o.textures
    &&& action_ok(na, o.textures.len() as int)
}

/// Build the restored bone.
fn restore_bone(cur: &Bone, snap: &Bone) -> (r: Bone)
    ensures
        r == spec_restored(*cur, *snap),
{
    Bone {
        id: cur.id,
        name: snap.name.clone(),
        parent_id: cur.parent_id,
        pos: snap.pos,
        scale: snap.scale,
        pivot: snap.pivot,
        rot: snap.rot,
        zindex: snap.zindex,
        tex_idx: snap.tex_idx,
    }
}

impl Session {
    /// A fresh, empty session.
    pub fn new() -> (s: Session)
        ensures
            session_wf(s@),
            s@.bones.len() == 0,
            s@.textures.len() == 0,
            s@.animations.len() == 0,
            s@.selected_bone == usize::MAX as int,
            s@.selected_animation == usize::MAX as int,
            s@.undo.len() == 0,
            s@.redo.len() == 0,
    {
        let s = Session {
            armature: Armature::new(),
            selected_bone: usize::MAX,
            selected_animation: usize::MAX,
            undo_actions: Vec::new(),
            redo_actions: Vec::new(),
        };
        proof {
            assert(s@.animations =~= Seq::<AnimationView>::empty());
            assert(s@.undo =~= Seq::<ActionView>::empty());
            assert(s@.redo =~= Seq::<ActionView>::empty());
        }
        s
    }

    /// Undo the most recent edit, a no-op when the undo stack is empty.
    pub fn undo(&mut self)
        requires
            session_wf(old(self)@),
        ensures
            session_wf(final(self)@),
            undo_rel(old(self)@, final(self)@),
    {
        let ghost o = self@;
        if self.undo_actions.len() == 0 {
            return ;
        }
        let n = self.undo_actions.len();
        let a = self.undo_actions[n - 1].duplicate();
        self.undo_actions.pop();
        proof {
            assert(self.undo_actions@.map_values(|x: Action| x@) =~= o.undo.drop_last());
            assert(a@ == o.undo.last());
            assert(action_ok(a@, o.textures.len() as int));
        }
        let mut new_action = a.duplicate();
        match (a.action, a.action_type) {
            (ActionEnum::Bone, ActionType::Created) => {
                self.selected_bone = usize::MAX;
                self.armature.bones.pop();
                proof {
                    if o.bones.len() > 0 {
                        lemma_drop_last_wf(o.bones);
                        assert(self.armature.bones@ =~= o.bones.drop_last());
                    }
                    assert(self@.animations == o.animations);
                    assert(branch_facts(o, self@, new_action@));
                }
            },
            (ActionEnum::Bone, ActionType::Modified) => {
                if a.id >= 0 && (a.id as usize) < self.armature.bones.len() {
                    let i = a.id as usize;
                    new_action.bone = self.armature.bones[i].duplicate();
                    let restored = restore_bone(&self.armature.bones[i], &a.bone);
                    self.armature.bones[i] = restored;
                    proof {
                        lemma_wf_same_structure(o.bones, self.armature.bones@);
                    }
                }
                proof {
                    assert(self@.animations == o.animations);
                    assert(branch_facts(o, self@, new_action@));
                }
            },
            (ActionEnum::Animation, ActionType::Created) => {
                self.selected_animation = usize::MAX;
                self.armature.animations.pop();
                proof {
                    if o.animations.len() > 0 {
                        assert(self.armature.animations@.map_values(|x: Animation| x@)
                            =~= o.animations.drop_last());
                        assert forall|i: int|
                            0 <= i < self@.animations.len() implies animation_wf(
                            #[trigger] self@.animations[i],
                        ) by {
                            assert(self@.animations[i] == o.animations[i]);
                        }
                    }
                    assert(branch_facts(o, self@, new_action@));
                }
            },
            (ActionEnum::Animation, ActionType::Modified) => {
                if a.id >= 0 && (a.id as usize) < self.armature.animations.len() {
                    let i = a.id as usize;
                    proof {
                        assert(animation_wf(o.animations[a.id as int]));
                        assert(self.armature.animations@[a.id as int]@ == o.animations[
                            a.id as int
                        ]);
                    }
                    new_action.animation = self.armature.animations[i].duplicate();
                    let snap = a.animation.duplicate();
                    self.armature.animations[i] = snap;
                    proof {
                        assert(new_action@.animation == o.animations[a.id as int]);
                        assert(self.armature.animations@.map_values(|x: Animation| x@)
                            =~= o.animations.update(a.id as int, a@.animation));
                        assert forall|k: int|
                            0 <= k < self@.animations.len() implies animation_wf(
                            #[trigger] self@.animations[k],
                        ) by {
                            if k != a.id as int {
                                assert(self@.animations[k] == o.animations[k]);
                            }
                        }
                    }
                }
                proof {
                    assert(branch_facts(o, self@, new_action@));
                }
            },
        }
        self.redo_actions.push(new_action);
        proof {
            assert(self.redo_actions@.map_values(|x: Action| x@) =~= o.redo.push(new_action@));
            let nst = self@;
            assert(hierarchy_wf(nst.bones));
            assert(forall|i: int|
                0 <= i < nst.animations.len() ==> animation_wf(#[trigger] nst.animations[i]));
            assert(forall|i: int|
                0 <= i < nst.bones.len() ==> tex_ok(
                    (#[trigger] nst.bones[i]).tex_idx as int,
                    nst.textures.len() as int,
                ));
            assert(forall|i: int|
                0 <= i < nst.undo.len() ==> action_ok(
                    #[trigger] nst.undo[i],
                    nst.textures.len() as int,
                ));
            assert(forall|i: int|
                0 <= i < nst.redo.len() ==> action_ok(
                    #[trigger] nst.redo[i],
                    nst.textures.len() as int,
                ));
            assert(undo_rel(o, nst));
        }
    }

    /// Redo the most recently undone edit, a no-op when the redo stack is
    /// empty.
    pub fn redo(&mut self)
        requires
            session_wf(old(self)@),
            old(self)@.bones.len() < i32::MAX as int,
        ensures
            session_wf(final(self)@),
            redo_rel(old(self)@, final(self)@),
    {
        let ghost o = self@;
        if self.redo_actions.len() == 0 {
            return ;
        }
        let n = self.redo_actions.len();
        let a = self.redo_actions[n - 1].duplicate();
        self.redo_actions.pop();
        proof {
            assert(self.redo_actions@.map_values(|x: Action| x@) =~= o.redo.drop_last());
            assert(a@ == o.redo.last());
            assert(action_ok(a@, o.textures.len() as int));
        }
        let mut new_action = a.duplicate();
        match (a.action, a.action_type) {
            (ActionEnum::Bone, ActionType::Created) => {
                self.selected_bone = usize::MAX;
                crate::hierarchy::new_bone(&mut self.armature.bones);
                proof {
                    assert(is_fresh_id_spec(o.bones, self.armature.bones@.last().id as int));
                    assert(self.armature.bones@.subrange(0, o.bones.len() as int) == o.bones);
                    assert(fresh_bone_ok(o.bones, self.armature.bones@.last()));
                    assert forall|i: int|
                        0 <= i < self@.bones.len() implies tex_ok(
                        (#[trigger] self@.bones[i]).tex_idx as int,
                        o.textures.len() as int,
                    ) by {
                        if i < o.bones.len() {
                            assert(self@.bones[i] == o.bones[i]);
                        }
                    }
                    assert(self@.animations == o.animations);
                    assert(branch_facts(o, self@, new_action@));
                }
            },
            (ActionEnum::Bone, ActionType::Modified) => {
                if a.id >= 0 && (a.id as usize) < self.armature.bones.len() {
                    let i = a.id as usize;
                    new_action.bone = self.armature.bones[i].duplicate();
                    let restored = restore_bone(&self.armature.bones[i], &a.bone);
                    self.armature.bones[i] = restored;
                    proof {
                        lemma_wf_same_structure(o.bones, self.armature.bones@);
                    }
                }
                proof {
                    assert(self@.animations == o.animations);
                    assert(branch_facts(o, self@, new_action@));
                }
            },
            (ActionEnum::Animation, ActionType::Created) => {
                self.selected_animation = usize::MAX;
                self.armature.animations.push(Animation::with_defaults());
                proof {
                    assert(self.armature.animations@.map_values(|x: Animation| x@)
                        =~= o.animations.push(
                        AnimationView { name: Seq::empty(), fps: 60, keyframes: Seq::empty() },
                    ));
                    assert forall|i: int|
                        0 <= i < self@.animations.len() implies animation_wf(
                        #[trigger] self@.animations[i],
                    ) by {
                        if i < o.animations.len() {
                            assert(self@.animations[i] == o.animations[i]);
                        } else {
                            assert(self@.animations[i] == (AnimationView {
                                name: Seq::empty(),
                                fps: 60,
                                keyframes: Seq::empty(),
                            }));
                        }
                    }
                    assert(branch_facts(o, self@, new_action@));
                }
            },
            (ActionEnum::Animation, ActionType::Modified) => {
                let ghost valid = a.id >= 0 && (a.id as int) < o.animations.len();
                if a.id >= 0 && (a.id as usize) < self.armature.animations.len() {
                    let i = a.id as usize;
                    proof {
                        assert(animation_wf(o.animations[a.id as int]));
                        assert(self.armature.animations@[a.id as int]@ == o.animations[
                            a.id as int
                        ]);
                    }
                    new_action.animation = self.armature.animations[i].duplicate();
                    let snap = a.animation.duplicate();
                    self.armature.animations[i] = snap;
                    proof {
                        assert(new_action@.animation == o.animations[a.id as int]);
                        assert(self.armature.animations@.map_values(|x: Animation| x@)
                            =~= o.animations.update(a.id as int, a@.animation));
                        assert forall|k: int|
                            0 <= k < self@.animations.len() implies animation_wf(
                            #[trigger] self@.animations[k],
                        ) by {
                            if k != a.id as int {
                                assert(self@.animations[k] == o.animations[k]);
                            }
                        }
                    }
                }
                proof {
                    if !valid {
                        assert(self@.animations == o.animations);
                    }
                    assert(hierarchy_wf(self@.bones));
                    assert(forall|i: int|
                        0 <= i < self@.animations.len() ==> animation_wf(
                            #[trigger] self@.animations[i],
                        ));
                    assert(forall|i: int|
                        0 <= i < self@.bones.len() ==> tex_ok(
                            (#[trigger] self@.bones[i]).tex_idx as int,
                            o.textures.len() as int,
                        ));
                    assert(self@.textures == o.textures);
                    assert(action_ok(new_action@, o.textures.len() as int));
                    assert(branch_facts(o, self@, new_action@));
                }
            },
        }
        self.undo_actions.push(new_action);
        proof {
            assert(self.undo_actions@.map_values(|x: Action| x@) =~= o.undo.push(new_action@));
            let nst = self@;
            assert(forall|i: int|
                0 <= i < nst.undo.len() ==> action_ok(
                    #[trigger] nst.undo[i],
                    nst.textures.len() as int,
                ));
            assert(forall|i: int|
                0 <= i < nst.redo.len() ==> action_ok(
                    #[trigger] nst.redo[i],
                    nst.textures.len() as int,
                ));
            assert(session_wf(nst));
            assert(redo_rel(o, nst));
        }
    }
}

} // verus!

verus! {

impl Session {
    /// Create a bone: push the pre-edit record, clear the redo history,
    /// and append a fresh root bone. Returns the new bone's id.
    pub fn create_bone(&mut self) -> (id: i32)
        requires
            session_wf(old(self)@),
            old(self)@.bones.len() < i32::MAX as int,
        ensures
            session_wf(final(self)@),
            final(self)@.bones.len() == old(self)@.bones.len() + 1,
            final(self)@.bones.subrange(0, old(self)@.bones.len() as int) == old(self)@.bones,
            fresh_bone_ok(old(self)@.bones, final(self)@.bones.last()),
            id == final(self)@.bones.last().id,
            final(self)@.undo == old(self)@.undo.push(final(self)@.undo.last()),
            final(self)@.undo.last().action == ActionEnum::Bone,
            final(self)@.undo.last().action_type == ActionType::Created,
            final(self)@.redo.len() == 0,
            final(self)@.animations == old(self)@.animations,
            final(self)@.textures == old(self)@.textures,
            final(self)@.selected_bone == old(self)@.selected_bone,
            final(self)@.selected_animation == old(self)@.selected_animation,
    {
        let ghost o = self@;
        self.redo_actions.clear();
        crate::hierarchy::new_bone(&mut self.armature.bones);
        let n = self.armature.bones.len();
        let nb = self.armature.bones[n - 1].duplicate();
        let nid = nb.id;
        let act = Action {
            action: ActionEnum::Bone,
            action_type: ActionType::Created,
            id: nid,
            bone: nb,
            animation: Animation::with_defaults(),
        };
        self.undo_actions.push(act);
        proof {
            assert(self@.redo =~= Seq::<ActionView>::empty());
            assert(self@.undo =~= o.undo.push(self@.undo.last()));
            assert(self@.animations == o.animations);
            assert(self@.bones.subrange(0, o.bones.len() as int) == o.bones);
            assert forall|i: int|
                0 <= i < self@.bones.len() implies tex_ok(
                (#[trigger] self@.bones[i]).tex_idx as int,
                o.textures.len() as int,
            ) by {
                if i < o.bones.len() {
                    assert(self@.bones[i] == o.bones[i]);
                }
            }
            assert forall|i: int|
                0 <= i < self@.undo.len() implies action_ok(
                #[trigger] self@.undo[i],
                self@.textures.len() as int,
            ) by {
                if i < o.undo.len() {
                    assert(self@.undo[i] == o.undo[i]);
                }
            }
            assert(session_wf(self@));
        }
        nid
    }

    /// Delete the bone with this id together with its whole subtree; the
    /// bone selection is cleared when something was deleted.
    pub fn delete_bone(&mut self, id: i32) -> (r: bool)
        requires
            session_wf(old(self)@),
        ensures
            session_wf(final(self)@),
            r == has_id(old(self)@.bones, id as int),
            r ==> ({
                let s = old(self)@.bones;
                let i0 = crate::hierarchy::id_index(s, id as int);
                final(self)@.bones == crate::hierarchy::remove_run(
                    s,
                    i0,
                    crate::hierarchy::run_end(s, i0),
                ) && final(self)@.selected_bone == usize::MAX as int
            }),
            !r ==> final(self)@ == old(self)@,
            final(self)@.animations == old(self)@.animations,
            final(self)@.textures == old(self)@.textures,
            final(self)@.undo == old(self)@.undo,
            final(self)@.redo == old(self)@.redo,
            final(self)@.selected_animation == old(self)@.selected_animation,
    {
        let ghost o = self@;
        let r = crate::hierarchy::delete_bone(&mut self.armature.bones, id);
        if r {
            self.selected_bone = usize::MAX;
            proof {
                let s = o.bones;
                crate::hierarchy::lemma_id_index_props(s, id as int);
                let i0 = crate::hierarchy::id_index(s, id as int);
                crate::hierarchy::lemma_subtree_run(s, i0);
                let e = crate::hierarchy::run_end(s, i0);
                let ns = self@.bones;
                assert(ns == crate::hierarchy::remove_run(s, i0, e));
                assert forall|x: int|
                    0 <= x < ns.len() implies tex_ok(
                    (#[trigger] ns[x]).tex_idx as int,
                    o.textures.len() as int,
                ) by {
                    if x < i0 {
                        assert(ns[x] == s[x]);
                    } else {
                        assert(ns[x] == s.subrange(e, s.len() as int)[x - i0]);
                        assert(ns[x] == s[x + (e - i0)]);
                    }
                }
                assert(self@.animations == o.animations);
                assert(self@.undo == o.undo);
                assert(self@.redo == o.redo);
                assert(self@.textures == o.textures);
            }
        }
        r
    }

    /// Re-hang the bone with `moved_id` (and its subtree) before or inside
    /// the bone with `anchor_id`; refused when that would create a cycle.
    pub fn reparent(&mut self, moved_id: i32, anchor_id: i32, as_child: bool) -> (r: Result<
        (),
        crate::hierarchy::CycleError,
    >)
        requires
            session_wf(old(self)@),
            has_id(old(self)@.bones, moved_id as int),
            has_id(old(self)@.bones, anchor_id as int),
        ensures
            session_wf(final(self)@),
            ({
                let s = old(self)@.bones;
                let i0 = crate::hierarchy::id_index(s, moved_id as int);
                let e = crate::hierarchy::run_end(s, i0);
                let a0 = crate::hierarchy::id_index(s, anchor_id as int);
                if i0 <= a0 < e {
                    final(self)@.bones == s && (r is Err)
                } else {
                    final(self)@.bones == crate::hierarchy::reparent_result(s, i0, e, a0, as_child)
                        && (r is Ok)
                }
            }),
            final(self)@.animations == old(self)@.animations,
            final(self)@.textures == old(self)@.textures,
            final(self)@.undo == old(self)@.undo,
            final(self)@.redo == old(self)@.redo,
            final(self)@.selected_bone == old(self)@.selected_bone,
            final(self)@.selected_animation == old(self)@.selected_animation,
    {
        let ghost o = self@;
        let r = crate::hierarchy::reparent(&mut self.armature.bones, moved_id, anchor_id, as_child);
        proof {
            let s = o.bones;
            crate::hierarchy::lemma_id_index_props(s, moved_id as int);
            crate::hierarchy::lemma_id_index_props(s, anchor_id as int);
            let i0 = crate::hierarchy::id_index(s, moved_id as int);
            crate::hierarchy::lemma_subtree_run(s, i0);
            let e = crate::hierarchy::run_end(s, i0);
            let a0 = crate::hierarchy::id_index(s, anchor_id as int);
            let ns = self@.bones;
            assert(self@.animations == o.animations);
            assert(self@.undo == o.undo);
            assert(self@.redo == o.redo);
            assert(self@.textures == o.textures);
            if !(i0 <= a0 < e) {
                assert(ns == crate::hierarchy::reparent_result(s, i0, e, a0, as_child));
                let np: i32 = if as_child {
                    s[a0].id
                } else {
                    s[a0].parent_id
                };
                let s1 = crate::hierarchy::remove_run(s, i0, e);
                let b = crate::hierarchy::moved_block(s, i0, e, np);
                let l = e - i0;
                let p = crate::hierarchy::rm_pos(i0, e, a0) + (if as_child {
                    1int
                } else {
                    0int
                });
                assert forall|y: int| 0 <= y < s1.len() implies #[trigger] s1[y] == s[if y < i0 {
                    y
                } else {
                    y + l
                }] by {
                    if y >= i0 {
                        assert(s1[y] == s.subrange(e, s.len() as int)[y - i0]);
                    }
                }
                assert forall|x: int|
                    0 <= x < ns.len() implies tex_ok(
                    (#[trigger] ns[x]).tex_idx as int,
                    o.textures.len() as int,
                ) by {
                    if x < p {
                        assert(ns[x] == s1[x]);
                    } else if x < p + l {
                        assert(ns[x] == b[x - p]);
                        assert(b[x - p].tex_idx == s[i0 + (x - p)].tex_idx);
                    } else {
                        assert(ns[x] == s1.subrange(p, s1.len() as int)[x - p - l]);
                        assert(ns[x] == s1[x - l]);
                    }
                }
            }
        }
        r
    }

    /// Directly set one bind-pose channel of the bone with this id.
    /// Returns whether the bone exists.
    pub fn set_field(&mut self, bone_id: i32, element: crate::model::AnimElement, value: i64) -> (r:
        bool)
        requires
            session_wf(old(self)@),
        ensures
            session_wf(final(self)@),
            r == has_id(old(self)@.bones, bone_id as int),
            r ==> ({
                let s = old(self)@.bones;
                let ix = crate::hierarchy::id_index(s, bone_id as int);
                final(self)@.bones == s.update(ix, s[ix].spec_with_value(element, value))
            }),
            !r ==> final(self)@ == old(self)@,
            final(self)@.animations == old(self)@.animations,
            final(self)@.textures == old(self)@.textures,
            final(self)@.undo == old(self)@.undo,
            final(self)@.redo == old(self)@.redo,
            final(self)@.selected_bone == old(self)@.selected_bone,
            final(self)@.selected_animation == old(self)@.selected_animation,
    {
        let ghost o = self@;
        proof {
            crate::hierarchy::lemma_id_index_props(o.bones, bone_id as int);
        }
        let found = crate::hierarchy::find_bone_idx_usize(&self.armature.bones, bone_id);
        match found {
            None => false,
            Some(ix) => {
                let mut nb = self.armature.bones[ix].duplicate();
                nb.set_value(element, value);
                self.armature.bones[ix] = nb;
                proof {
                    assert(self@.animations == o.animations);
                    assert(self@.undo == o.undo);
                    assert(self@.redo == o.redo);
                    crate::hierarchy::lemma_wf_same_structure(o.bones, self@.bones);
                    assert forall|i: int|
                        0 <= i < self@.bones.len() implies tex_ok(
                        (#[trigger] self@.bones[i]).tex_idx as int,
                        o.textures.len() as int,
                    ) by {
                        if i != ix as int {
                            assert(self@.bones[i] == o.bones[i]);
                        }
                    }
                }
                true
            },
        }
    }

    /// Read one bind-pose channel of the bone with this id.
    pub fn get_field(&self, bone_id: i32, element: crate::model::AnimElement) -> (r: Option<i64>)
        ensures
            r == (if has_id(self@.bones, bone_id as int) {
                Some(
                    self@.bones[crate::hierarchy::id_index(self@.bones, bone_id as int)]
                        .spec_bind_value(element),
                )
            } else {
                None::<i64>
            }),
    {
        match crate::hierarchy::find_bone(&self.armature.bones, bone_id) {
            None => None,
            Some(b) => Some(b.bind_value(element)),
        }
    }
}

} // verus!

verus! {

impl Session {
    /// Record the selected bone's current state as a reversible
    /// modification, clearing the redo history. A no-op without a valid
    /// selection.
    pub fn save_edited_bone(&mut self)
        requires
            session_wf(old(self)@),
            old(self)@.bones.len() <= i32::MAX as int,
        ensures
            session_wf(final(self)@),
            ({
                let o = old(self)@;
                if 0 <= o.selected_bone < o.bones.len() {
                    final(self)@ == (SessionState {
                        undo: o.undo.push(
                            ActionView {
                                action: ActionEnum::Bone,
                                action_type: ActionType::Modified,
                                id: o.selected_bone,
                                bone: o.bones[o.selected_bone],
                                animation: AnimationView {
                                    name: Seq::empty(),
                                    fps: 60,
                                    keyframes: Seq::empty(),
                                },
                            },
                        ),
                        redo: Seq::empty(),
                        ..o
                    })
                } else {
                    final(self)@ == o
                }
            }),
    {
        let ghost o = self@;
        if self.selected_bone >= self.armature.bones.len() {
            return ;
        }
        self.redo_actions.clear();
        let snap = self.armature.bones[self.selected_bone].duplicate();
        let act = Action {
            action: ActionEnum::Bone,
            action_type: ActionType::Modified,
            id: self.selected_bone as i32,
            bone: snap,
            animation: Animation::with_defaults(),
        };
        self.undo_actions.push(act);
        proof {
            assert(self@.redo =~= Seq::<ActionView>::empty());
            assert(self@.undo =~= o.undo.push(
                ActionView {
                    action: ActionEnum::Bone,
                    action_type: ActionType::Modified,
                    id: o.selected_bone,
                    bone: o.bones[o.selected_bone],
                    animation: AnimationView { name: Seq::empty(), fps: 60, keyframes: Seq::empty() },
                },
            ));
            assert(self@.animations == o.animations);
            assert(self@.bones == o.bones);
            assert forall|i: int|
                0 <= i < self@.undo.len() implies action_ok(
                #[trigger] self@.undo[i],
                self@.textures.len() as int,
            ) by {
                if i < o.undo.len() {
                    assert(self@.undo[i] == o.undo[i]);
                }
            }
            assert(self@ =~= (SessionState {
                undo: o.undo.push(
                    ActionView {
                        action: ActionEnum::Bone,
                        action_type: ActionType::Modified,
                        id: o.selected_bone,
                        bone: o.bones[o.selected_bone],
                        animation: AnimationView {
                            name: Seq::empty(),
                            fps: 60,
                            keyframes: Seq::empty(),
                        },
                    },
                ),
                redo: Seq::empty(),
                ..o
            }));
        }
    }

    /// Record the selected animation's current state as a reversible
    /// modification, clearing the redo history. A no-op without a valid
    /// selection.
    pub fn save_edited_animation(&mut self)
        requires
            session_wf(old(self)@),
            old(self)@.animations.len() <= i32::MAX as int,
        ensures
            session_wf(final(self)@),
            ({
                let o = old(self)@;
                if 0 <= o.selected_animation < o.animations.len() {
                    final(self)@ == (SessionState {
                        undo: o.undo.push(
                            ActionView {
                                action: ActionEnum::Animation,
                                action_type: ActionType::Modified,
                                id: o.selected_animation,
                                bone: final(self)@.undo.last().bone,
                                animation: o.animations[o.selected_animation],
                            },
                        ),
                        redo: Seq::empty(),
                        ..o
                    }) && final(self)@.undo.last().bone.tex_idx == usize::MAX
                } else {
                    final(self)@ == o
                }
            }),
    {
        let ghost o = self@;
        if self.selected_animation >= self.armature.animations.len() {
            return ;
        }
        self.redo_actions.clear();
        let snap = self.armature.animations[self.selected_animation].duplicate();
        let act = Action {
            action: ActionEnum::Animation,
            action_type: ActionType::Modified,
            id: self.selected_animation as i32,
            bone: Bone::with_defaults(0, String::new()),
            animation: snap,
        };
        self.undo_actions.push(act);
        proof {
            assert(self@.redo =~= Seq::<ActionView>::empty());
            assert(self.armature.animations@[o.selected_animation]@ == o.animations[
                o.selected_animation
            ]);
            assert(animation_wf(o.animations[o.selected_animation]));
            assert(self@.undo =~= o.undo.push(self@.undo.last()));
            assert(self@.animations == o.animations);
            assert(self@.bones == o.bones);
            assert forall|i: int|
                0 <= i < self@.undo.len() implies action_ok(
                #[trigger] self@.undo[i],
                self@.textures.len() as int,
            ) by {
                if i < o.undo.len() {
                    assert(self@.undo[i] == o.undo[i]);
                }
            }
            assert(self@ =~= (SessionState {
                undo: o.undo.push(self@.undo.last()),
                redo: Seq::empty(),
                ..o
            }));
        }
    }

    /// Create an animation with the defaults, record the creation, clear
    /// the redo history and select it. Returns its position.
    pub fn new_animation(&mut self) -> (idx: usize)
        requires
            session_wf(old(self)@),
            old(self)@.animations.len() < i32::MAX as int,
        ensures
            session_wf(final(self)@),
            idx == old(self)@.animations.len(),
            final(self)@.animations == old(self)@.animations.push(
                AnimationView { name: Seq::empty(), fps: 60, keyframes: Seq::empty() },
            ),
            final(self)@.selected_animation == idx,
            final(self)@.undo == old(self)@.undo.push(final(self)@.undo.last()),
            final(self)@.undo.last().action == ActionEnum::Animation,
            final(self)@.undo.last().action_type == ActionType::Created,
            final(self)@.redo.len() == 0,
            final(self)@.bones == old(self)@.bones,
            final(self)@.textures == old(self)@.textures,
            final(self)@.selected_bone == old(self)@.selected_bone,
    {
        let ghost o = self@;
        self.redo_actions.clear();
        let idx = self.armature.animations.len();
        self.armature.animations.push(Animation::with_defaults());
        self.selected_animation = idx;
        let act = Action {
            action: ActionEnum::Animation,
            action_type: ActionType::Created,
            id: idx as i32,
            bone: Bone::with_defaults(0, String::new()),
            animation: Animation::with_defaults(),
        };
        self.undo_actions.push(act);
        proof {
            assert(self@.redo =~= Seq::<ActionView>::empty());
            assert(self@.undo =~= o.undo.push(self@.undo.last()));
            assert(self@.animations =~= o.animations.push(
                AnimationView { name: Seq::empty(), fps: 60, keyframes: Seq::empty() },
            ));
            assert forall|i: int|
                0 <= i < self@.animations.len() implies animation_wf(
                #[trigger] self@.animations[i],
            ) by {
                if i < o.animations.len() {
                    assert(self@.animations[i] == o.animations[i]);
                }
            }
            assert forall|i: int|
                0 <= i < self@.undo.len() implies action_ok(
                #[trigger] self@.undo[i],
                self@.textures.len() as int,
            ) by {
                if i < o.undo.len() {
                    assert(self@.undo[i] == o.undo[i]);
                }
            }
            assert(session_wf(self@));
        }
        idx
    }
}

} // verus!

verus! {

impl Session {
    /// Insert or merge one animated field change at a frame of one
    /// animation. Returns whether the animation exists.
    pub fn set_frame_field(
        &mut self,
        animation_id: usize,
        bone_id: i32,
        element: crate::model::AnimElement,
        value: i64,
        frame: i32,
    ) -> (r: bool)
        requires
            session_wf(old(self)@),
            frame >= 0,
            bone_id >= 0,
        ensures
            session_wf(final(self)@),
            r == (animation_id < old(self)@.animations.len()),
            !r ==> final(self)@ == old(self)@,
            r ==> ({
                let oa = old(self)@.animations[animation_id as int];
                let na = final(self)@.animations[animation_id as int];
                &&& final(self)@.animations == old(self)@.animations.update(
                    animation_id as int,
                    na,
                )
                &&& na.name == oa.name
                &&& na.fps == oa.fps
                &&& crate::animation::anim_lookup(na, frame as int, bone_id as int, element)
                    == Some(value)
                &&& forall|f2: int, id2: int, e2: crate::model::AnimElement|
                    !(f2 == frame as int && id2 == bone_id as int && e2 == element)
                        ==> #[trigger] crate::animation::anim_lookup(na, f2, id2, e2)
                        == crate::animation::anim_lookup(oa, f2, id2, e2)
                &&& forall|f2: int|
                    #[trigger] crate::animation::has_frame(na.keyframes, f2) == (
                    crate::animation::has_frame(oa.keyframes, f2) || f2 == frame as int)
            }),
            final(self)@.bones == old(self)@.bones,
            final(self)@.textures == old(self)@.textures,
            final(self)@.undo == old(self)@.undo,
            final(self)@.redo == old(self)@.redo,
            final(self)@.selected_bone == old(self)@.selected_bone,
            final(self)@.selected_animation == old(self)@.selected_animation,
    {
        let ghost o = self@;
        if animation_id >= self.armature.animations.len() {
            return false;
        }
        let mut anim = self.armature.animations[animation_id].duplicate();
        proof {
            assert(anim@ == o.animations[animation_id as int]);
            assert(animation_wf(anim@));
        }
        anim.set_frame_field(bone_id, element, value, frame);
        self.armature.animations[animation_id] = anim;
        proof {
            assert(self@.animations =~= o.animations.update(
                animation_id as int,
                self@.animations[animation_id as int],
            ));
            assert forall|k: int|
                0 <= k < self@.animations.len() implies animation_wf(
                #[trigger] self@.animations[k],
            ) by {
                if k != animation_id as int {
                    assert(self@.animations[k] == o.animations[k]);
                }
            }
            assert(self@.undo == o.undo);
            assert(self@.redo == o.redo);
        }
        true
    }

    /// Move one animated field change between frames of one animation.
    /// Returns whether a change was made.
    pub fn move_keyframe_field(
        &mut self,
        animation_id: usize,
        bone_id: i32,
        element: crate::model::AnimElement,
        from_frame: i32,
        to_frame: i32,
    ) -> (r: bool)
        requires
            session_wf(old(self)@),
            bone_id >= 0,
        ensures
            session_wf(final(self)@),
            r == (animation_id < old(self)@.animations.len() && from_frame != to_frame && to_frame
                >= 0 && crate::animation::anim_lookup(
                old(self)@.animations[animation_id as int],
                from_frame as int,
                bone_id as int,
                element,
            ) is Some),
            !r ==> final(self)@ == old(self)@,
            r ==> ({
                let oa = old(self)@.animations[animation_id as int];
                let na = final(self)@.animations[animation_id as int];
                &&& final(self)@.animations == old(self)@.animations.update(
                    animation_id as int,
                    na,
                )
                &&& na.name == oa.name
                &&& na.fps == oa.fps
                &&& crate::animation::anim_lookup(na, to_frame as int, bone_id as int, element)
                    == crate::animation::anim_lookup(oa, from_frame as int, bone_id as int, element)
                &&& crate::animation::anim_lookup(na, from_frame as int, bone_id as int, element)
                    is None
                &&& forall|f2: int, id2: int, e2: crate::model::AnimElement|
                    !((f2 == from_frame as int || f2 == to_frame as int) && id2 == bone_id as int
                        && e2 == element) ==> #[trigger] crate::animation::anim_lookup(
                        na,
                        f2,
                        id2,
                        e2,
                    ) == crate::animation::anim_lookup(oa, f2, id2, e2)
            }),
            final(self)@.bones == old(self)@.bones,
            final(self)@.textures == old(self)@.textures,
            final(self)@.undo == old(self)@.undo,
            final(self)@.redo == old(self)@.redo,
            final(self)@.selected_bone == old(self)@.selected_bone,
            final(self)@.selected_animation == old(self)@.selected_animation,
    {
        let ghost o = self@;
        if animation_id >= self.armature.animations.len() {
            return false;
        }
        let mut anim = self.armature.animations[animation_id].duplicate();
        proof {
            assert(anim@ == o.animations[animation_id as int]);
            assert(animation_wf(anim@));
        }
        let changed = anim.move_keyframe_field(bone_id, element, from_frame, to_frame);
        if !changed {
            proof {
                assert(anim@ == o.animations[animation_id as int]);
            }
            return false;
        }
        self.armature.animations[animation_id] = anim;
        proof {
            assert(self@.animations =~= o.animations.update(
                animation_id as int,
                self@.animations[animation_id as int],
            ));
            assert forall|k: int|
                0 <= k < self@.animations.len() implies animation_wf(
                #[trigger] self@.animations[k],
            ) by {
                if k != animation_id as int {
                    assert(self@.animations[k] == o.animations[k]);
                }
            }
            assert(self@.undo == o.undo);
            assert(self@.redo == o.redo);
        }
        true
    }

    /// Resolve the pose of the whole armature under one animation at one
    /// frame; a read-only query.
    pub fn resolve_pose(&self, animation_id: usize, frame: i32) -> (r: Option<Vec<Bone>>)
        requires
            session_wf(self@),
        ensures
            (r is Some) == (animation_id < self@.animations.len()),
            r matches Some(v) ==> v@.len() == self@.bones.len() && forall|i: int|
                0 <= i < self@.bones.len() ==> v@[i] == crate::pose::resolved_bone(
                    self@.animations[animation_id as int],
                    self@.bones[i],
                    frame as int,
                ),
    {
        if animation_id >= self.armature.animations.len() {
            return None;
        }
        proof {
            assert(self.armature.animations@[animation_id as int]@ == self@.animations[
                animation_id as int
            ]);
        }
        let v = crate::pose::resolve_pose(
            &self.armature.bones,
            &self.armature.animations[animation_id],
            frame,
        );
        Some(v)
    }

    /// Attach a decoded RGBA texture to the bone at this position: the
    /// texture is appended and the bone points at it.
    pub fn set_texture(&mut self, bone_idx: usize, width: u32, height: u32, pixels: Vec<u8>) -> (r:
        bool)
        requires
            session_wf(old(self)@),
        ensures
            session_wf(final(self)@),
            r == (bone_idx < old(self)@.bones.len()),
            !r ==> final(self)@ == old(self)@,
            r ==> ({
                let o = old(self)@;
                &&& final(self)@.textures.len() == o.textures.len() + 1
                &&& final(self)@.textures.subrange(0, o.textures.len() as int) == o.textures
                &&& final(self)@.textures.last().width == width
                &&& final(self)@.textures.last().height == height
                &&& final(self)@.textures.last().pixels@ == pixels@
                &&& final(self)@.bones.len() == o.bones.len()
                &&& final(self)@.bones[bone_idx as int].tex_idx == o.textures.len()
                &&& (forall|i: int|
                    0 <= i < o.bones.len() && i != bone_idx ==> final(self)@.bones[i] == o.bones[i])
                &&& final(self)@.bones[bone_idx as int].id == o.bones[bone_idx as int].id
                &&& final(self)@.bones[bone_idx as int].parent_id == o.bones[
                    bone_idx as int
                ].parent_id
                &&& final(self)@.animations == o.animations
                &&& final(self)@.undo == o.undo
                &&& final(self)@.redo == o.redo
            }),
    {
        let ghost o = self@;
        if bone_idx >= self.armature.bones.len() {
            return false;
        }
        let tex = Texture { width, height, pixels };
        self.armature.textures.push(tex);
        let mut nb = self.armature.bones[bone_idx].duplicate();
        nb.tex_idx = self.armature.textures.len() - 1;
        self.armature.bones[bone_idx] = nb;
        proof {
            crate::hierarchy::lemma_wf_same_structure(o.bones, self@.bones);
            assert(self@.textures.subrange(0, o.textures.len() as int) =~= o.textures);
            assert forall|i: int|
                0 <= i < self@.bones.len() implies tex_ok(
                (#[trigger] self@.bones[i]).tex_idx as int,
                self@.textures.len() as int,
            ) by {
                if i != bone_idx as int {
                    assert(self@.bones[i] == o.bones[i]);
                    assert(tex_ok(o.bones[i].tex_idx as int, o.textures.len() as int));
                }
            }
            assert forall|i: int|
                0 <= i < self@.undo.len() implies action_ok(
                #[trigger] self@.undo[i],
                self@.textures.len() as int,
            ) by {
                assert(self@.undo[i] == o.undo[i]);
                assert(action_ok(o.undo[i], o.textures.len() as int));
            }
            assert forall|i: int|
                0 <= i < self@.redo.len() implies action_ok(
                #[trigger] self@.redo[i],
                self@.textures.len() as int,
            ) by {
                assert(self@.redo[i] == o.redo[i]);
                assert(action_ok(o.redo[i], o.textures.len() as int));
            }
            assert(self@.animations == o.animations);
            assert(self@.undo == o.undo);
            assert(self@.redo == o.redo);
        }
        true
    }
}

} // verus!
