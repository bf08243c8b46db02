use skelform_core::model::AnimElement;
use skelform_core::session::Session;

#[test]
fn create_bone_returns_fresh_ids() {
    let mut s = Session::new();
    assert_eq!(s.create_bone(), 0);
    assert_eq!(s.create_bone(), 1);
    assert_eq!(s.armature.bones.len(), 2);
    assert_eq!(s.armature.bones[1].name, "bone1");
}

#[test]
fn set_and_get_field_by_id() {
    let mut s = Session::new();
    let id = s.create_bone();
    assert!(s.set_field(id, AnimElement::PositionX, 42));
    assert_eq!(s.get_field(id, AnimElement::PositionX), Some(42));
    assert_eq!(s.get_field(id, AnimElement::PositionY), Some(0));
    // lookups of a missing bone are absorbed, not fatal
    assert!(!s.set_field(99, AnimElement::PositionX, 1));
    assert_eq!(s.get_field(99, AnimElement::PositionX), None);
}

#[test]
fn undo_and_redo_of_empty_stacks_are_no_ops() {
    let mut s = Session::new();
    s.undo();
    s.redo();
    assert_eq!(s.armature.bones.len(), 0);
    assert_eq!(s.undo_actions.len(), 0);
    assert_eq!(s.redo_actions.len(), 0);
}

#[test]
fn creation_undo_removes_exactly_the_created_bone() {
    let mut s = Session::new();
    s.create_bone();
    s.selected_bone = 0;
    s.create_bone();
    assert_eq!(s.armature.bones.len(), 2);
    s.undo();
    // exactly the created bone is gone, and the selection is reset
    assert_eq!(s.armature.bones.len(), 1);
    assert_eq!(s.armature.bones[0].id, 0);
    assert_eq!(s.selected_bone, usize::MAX);
    // redoing recreates a bone with the same id assignment behavior
    s.redo();
    assert_eq!(s.armature.bones.len(), 2);
    assert_eq!(s.armature.bones[1].id, 1);
    assert_eq!(s.armature.bones[1].name, "bone1");
}

#[test]
fn modification_undo_redo_round_trip() {
    let mut s = Session::new();
    let id = s.create_bone();
    s.selected_bone = 0;
    // the tracked modification: snapshot, then edit
    s.save_edited_bone();
    assert!(s.set_field(id, AnimElement::Rotation, 314));
    assert_eq!(s.get_field(id, AnimElement::Rotation), Some(314));
    s.undo();
    assert_eq!(s.get_field(id, AnimElement::Rotation), Some(0));
    s.redo();
    // the round trip restores the exact post-modification state
    assert_eq!(s.get_field(id, AnimElement::Rotation), Some(314));
    assert_eq!(s.undo_actions.len(), 2);
    assert_eq!(s.redo_actions.len(), 0);
    // and a second round trip agrees
    s.undo();
    s.redo();
    assert_eq!(s.get_field(id, AnimElement::Rotation), Some(314));
}

#[test]
fn a_new_edit_clears_the_redo_stack() {
    let mut s = Session::new();
    s.create_bone();
    s.undo();
    assert_eq!(s.redo_actions.len(), 1);
    s.create_bone();
    assert_eq!(s.redo_actions.len(), 0);
}

#[test]
fn animation_creation_and_undo() {
    let mut s = Session::new();
    let idx = s.new_animation();
    assert_eq!(idx, 0);
    assert_eq!(s.selected_animation, 0);
    assert_eq!(s.armature.animations.len(), 1);
    assert_eq!(s.armature.animations[0].fps, 60);
    s.undo();
    assert_eq!(s.armature.animations.len(), 0);
    assert_eq!(s.selected_animation, usize::MAX);
    s.redo();
    assert_eq!(s.armature.animations.len(), 1);
}

#[test]
fn animation_modification_round_trip() {
    let mut s = Session::new();
    let id = s.create_bone();
    let idx = s.new_animation();
    s.save_edited_animation();
    assert!(s.set_frame_field(idx, id, AnimElement::PositionX, 9, 3));
    assert_eq!(s.armature.animations[0].keyframes.len(), 1);
    s.undo();
    assert_eq!(s.armature.animations[0].keyframes.len(), 0);
    s.redo();
    assert_eq!(s.armature.animations[0].keyframes.len(), 1);
    assert_eq!(s.armature.animations[0].keyframes[0].frame, 3);
}

#[test]
fn session_move_keyframe_field_and_pose() {
    let mut s = Session::new();
    let id = s.create_bone();
    let idx = s.new_animation();
    assert!(s.set_frame_field(idx, id, AnimElement::PositionX, 0, 0));
    assert!(s.set_frame_field(idx, id, AnimElement::PositionX, 80_000, 8));
    assert!(s.move_keyframe_field(idx, id, AnimElement::PositionX, 8, 10));
    let pose = s.resolve_pose(idx, 5).unwrap();
    assert_eq!(pose[0].pos.x, 40_000);
    assert!(s.resolve_pose(7, 5).is_none());
    // an out-of-range animation is refused
    assert!(!s.set_frame_field(9, id, AnimElement::PositionX, 1, 1));
}

#[test]
fn delete_bone_clears_selection() {
    let mut s = Session::new();
    let id = s.create_bone();
    s.selected_bone = 0;
    assert!(s.delete_bone(id));
    assert_eq!(s.armature.bones.len(), 0);
    assert_eq!(s.selected_bone, usize::MAX);
    assert!(!s.delete_bone(id));
}

#[test]
fn session_reparent_rejects_cycles() {
    let mut s = Session::new();
    let a = s.create_bone();
    let b = s.create_bone();
    assert!(s.reparent(b, a, true).is_ok());
    assert!(s.reparent(a, b, true).is_err());
    assert_eq!(s.armature.bones[1].parent_id, 0);
}

#[test]
fn set_texture_assigns_index() {
    let mut s = Session::new();
    s.create_bone();
    assert_eq!(s.armature.bones[0].tex_idx, usize::MAX);
    assert!(s.set_texture(0, 2, 1, vec![0, 0, 0, 255, 255, 255, 255, 255]));
    assert_eq!(s.armature.textures.len(), 1);
    assert_eq!(s.armature.bones[0].tex_idx, 0);
    assert_eq!(s.armature.textures[0].width, 2);
    assert!(!s.set_texture(5, 1, 1, vec![0, 0, 0, 0]));
}
