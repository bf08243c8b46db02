use skelform_core::model::AnimElement;
use skelform_core::model::Animation;
use skelform_core::model::Bone;
use skelform_core::pose::resolve_pose;

fn frames(a: &Animation) -> Vec<i32> {
    let mut v: Vec<i32> = Vec::new();
    for kf in &a.keyframes {
        v.push(kf.frame);
    }
    v
}

#[test]
fn keyframes_stay_sorted_and_unique() {
    let mut a = Animation::with_defaults();
    assert_eq!(a.fps, 60);
    a.set_frame_field(0, AnimElement::PositionX, 1, 10);
    a.set_frame_field(0, AnimElement::PositionX, 2, 5);
    a.set_frame_field(0, AnimElement::PositionX, 3, 7);
    assert_eq!(frames(&a), vec![5, 7, 10]);
    // setting at an existing frame merges instead of duplicating
    a.set_frame_field(0, AnimElement::PositionY, 4, 7);
    assert_eq!(frames(&a), vec![5, 7, 10]);
    a.set_frame_field(1, AnimElement::Rotation, 5, 7);
    assert_eq!(frames(&a), vec![5, 7, 10]);
}

#[test]
fn set_frame_field_overwrites_existing_value() {
    let mut a = Animation::with_defaults();
    a.set_frame_field(0, AnimElement::PositionX, 10, 3);
    a.set_frame_field(0, AnimElement::PositionX, 20, 3);
    assert_eq!(frames(&a), vec![3]);
    assert_eq!(a.keyframes[0].bones.len(), 1);
    assert_eq!(a.keyframes[0].bones[0].fields.len(), 1);
    assert_eq!(a.keyframes[0].bones[0].find_field(AnimElement::PositionX), Some(20));
}

#[test]
fn move_field_merges_into_occupied_frame() {
    let mut a = Animation::with_defaults();
    a.set_frame_field(0, AnimElement::PositionX, 11, 5);
    a.set_frame_field(0, AnimElement::PositionY, 22, 8);
    // drag the PositionX diamond from frame 5 onto the occupied frame 8
    assert!(a.move_keyframe_field(0, AnimElement::PositionX, 5, 8));
    // exactly one keyframe remains, at frame 8, holding both fields
    assert_eq!(frames(&a), vec![8]);
    assert_eq!(a.keyframes[0].bones.len(), 1);
    let entry = &a.keyframes[0].bones[0];
    assert_eq!(entry.find_field(AnimElement::PositionX), Some(11));
    assert_eq!(entry.find_field(AnimElement::PositionY), Some(22));
}

#[test]
fn move_field_keeps_origin_frame_with_other_fields() {
    let mut a = Animation::with_defaults();
    a.set_frame_field(0, AnimElement::PositionX, 11, 5);
    a.set_frame_field(0, AnimElement::Rotation, 33, 5);
    assert!(a.move_keyframe_field(0, AnimElement::PositionX, 5, 8));
    assert_eq!(frames(&a), vec![5, 8]);
    assert_eq!(a.keyframes[0].bones[0].find_field(AnimElement::Rotation), Some(33));
    assert_eq!(a.keyframes[0].bones[0].find_field(AnimElement::PositionX), None);
    assert_eq!(a.keyframes[1].bones[0].find_field(AnimElement::PositionX), Some(11));
}

#[test]
fn move_field_onto_own_frame_is_refused() {
    let mut a = Animation::with_defaults();
    a.set_frame_field(0, AnimElement::PositionX, 11, 5);
    assert!(!a.move_keyframe_field(0, AnimElement::PositionX, 5, 5));
    assert_eq!(frames(&a), vec![5]);
    assert_eq!(a.keyframes[0].bones[0].find_field(AnimElement::PositionX), Some(11));
}

#[test]
fn move_of_missing_field_is_refused() {
    let mut a = Animation::with_defaults();
    a.set_frame_field(0, AnimElement::PositionX, 11, 5);
    assert!(!a.move_keyframe_field(0, AnimElement::PositionY, 5, 8));
    assert!(!a.move_keyframe_field(0, AnimElement::PositionX, 6, 8));
    assert_eq!(frames(&a), vec![5]);
}

#[test]
fn remove_frame_field_cascades() {
    let mut a = Animation::with_defaults();
    a.set_frame_field(0, AnimElement::PositionX, 11, 5);
    a.set_frame_field(1, AnimElement::PositionX, 12, 5);
    // removing bone 0's only field drops its entry but keeps the keyframe
    assert_eq!(a.remove_frame_field(0, AnimElement::PositionX, 5), Some(11));
    assert_eq!(frames(&a), vec![5]);
    assert_eq!(a.keyframes[0].bones.len(), 1);
    // removing the last entry's last field drops the whole keyframe
    assert_eq!(a.remove_frame_field(1, AnimElement::PositionX, 5), Some(12));
    assert_eq!(frames(&a), Vec::<i32>::new());
    assert_eq!(a.remove_frame_field(1, AnimElement::PositionX, 5), None);
}

fn one_bone() -> Vec<Bone> {
    let mut bones: Vec<Bone> = Vec::new();
    skelform_core::hierarchy::new_bone(&mut bones);
    bones
}

#[test]
fn interpolation_boundaries() {
    // keyframes at frame 0 (value 0) and frame 10 (value 100.0, held as
    // 100_000 milli-units) for PositionX
    let bones = one_bone();
    let mut a = Animation::with_defaults();
    a.set_frame_field(0, AnimElement::PositionX, 0, 0);
    a.set_frame_field(0, AnimElement::PositionX, 100_000, 10);
    let at = |t: i32| resolve_pose(&bones, &a, t)[0].pos.x;
    assert_eq!(at(5), 50_000); // halfway
    assert_eq!(at(0), 0); // at the first keyframe
    assert_eq!(at(10), 100_000); // at the last keyframe
    assert_eq!(at(20), 100_000); // past the last keyframe: held
}

#[test]
fn interpolation_exact_values() {
    let bones = one_bone();
    let mut a = Animation::with_defaults();
    a.set_frame_field(0, AnimElement::Rotation, 0, 0);
    a.set_frame_field(0, AnimElement::Rotation, 10, 3);
    let at = |t: i32| resolve_pose(&bones, &a, t)[0].rot;
    assert_eq!(at(1), 3); // 10 * 1 / 3, truncated
    assert_eq!(at(2), 6);
    // a falling channel truncates toward zero
    let mut b = Animation::with_defaults();
    b.set_frame_field(0, AnimElement::Rotation, 0, 0);
    b.set_frame_field(0, AnimElement::Rotation, -10, 3);
    let bat = |t: i32| resolve_pose(&bones, &b, t)[0].rot;
    assert_eq!(bat(1), -3);
    assert_eq!(bat(2), -6);
}

#[test]
fn unanimated_channels_keep_bind_pose() {
    let mut bones = one_bone();
    bones[0].pos.y = 777;
    let mut a = Animation::with_defaults();
    a.set_frame_field(0, AnimElement::PositionX, 5_000, 4);
    let pose = resolve_pose(&bones, &a, 2);
    assert_eq!(pose[0].pos.y, 777); // no keyframe: bind pose
    assert_eq!(pose[0].pos.x, 5_000); // only "after" exists: held backward
    assert_eq!(pose[0].scale.x, 1000);
}

#[test]
fn pose_keeps_identity_and_structure() {
    let mut bones: Vec<Bone> = Vec::new();
    skelform_core::hierarchy::new_bone(&mut bones);
    skelform_core::hierarchy::new_bone(&mut bones);
    assert!(skelform_core::hierarchy::reparent(&mut bones, 1, 0, true).is_ok());
    let mut a = Animation::with_defaults();
    a.set_frame_field(1, AnimElement::ScaleX, 2_000, 0);
    let pose = resolve_pose(&bones, &a, 0);
    assert_eq!(pose.len(), 2);
    assert_eq!(pose[0].id, bones[0].id);
    assert_eq!(pose[1].id, bones[1].id);
    assert_eq!(pose[1].parent_id, 0);
    assert_eq!(pose[0].name, bones[0].name);
    assert_eq!(pose[1].scale.x, 2_000);
}

#[test]
fn retime_keyframe_moves_whole_keyframe() {
    let mut a = Animation::with_defaults();
    a.set_frame_field(0, AnimElement::PositionX, 11, 5);
    a.set_frame_field(1, AnimElement::Rotation, 22, 5);
    a.set_frame_field(0, AnimElement::PositionY, 33, 9);
    assert!(a.retime_keyframe(5, 7));
    assert_eq!(frames(&a), vec![7, 9]);
    assert_eq!(a.keyframes[0].bones.len(), 2);
    assert_eq!(a.keyframes[0].bones[0].find_field(AnimElement::PositionX), Some(11));
    assert_eq!(a.keyframes[0].bones[1].find_field(AnimElement::Rotation), Some(22));
    // dropping onto an occupied frame is refused
    assert!(!a.retime_keyframe(7, 9));
    assert_eq!(frames(&a), vec![7, 9]);
    // moving a missing keyframe is refused
    assert!(!a.retime_keyframe(4, 2));
    // a negative target is refused
    assert!(!a.retime_keyframe(7, -1));
}

#[test]
fn playback_advances_and_wraps() {
    let mut a = Animation::with_defaults();
    a.set_frame_field(0, AnimElement::PositionX, 1, 2);
    // fps 60: the elapsed count must exceed 60/fps == 1 to step
    assert_eq!(a.advance_playback(0, 0), (1, 0));
    assert_eq!(a.advance_playback(1, 0), (0, 1));
    // past the last keyframe the playhead wraps to 0
    assert_eq!(a.advance_playback(1, 2), (0, 0));
    // at fps 30 a step takes one tick more
    a.fps = 30;
    assert_eq!(a.advance_playback(0, 0), (1, 0));
    assert_eq!(a.advance_playback(1, 0), (2, 0));
    assert_eq!(a.advance_playback(2, 0), (0, 1));
}
