//! Pose resolution: turn an animation plus a target frame into a full set
//! of bone transforms.
//!
//! For every bone and every animatable channel, the nearest keyframe at or
//! before the target that defines the channel and the nearest one after it
//! are found; the value is held constant when only one side exists, kept at
//! the bind pose when neither does, and linearly interpolated when both do.

use vstd::prelude::*;

use crate::animation::anim_bone_wf;
use crate::animation::animation_wf;
use crate::animation::bone_entry_index;
use crate::animation::field_value;
use crate::animation::has_bone_entry;
use crate::animation::has_element;
use crate::animation::keyframe_wf;
use crate::animation::lemma_bone_entry_unique;
use crate::model::AnimElement;
use crate::model::Animation;
use crate::model::AnimationView;
use crate::model::Bone;
use crate::model::Keyframe;
use crate::model::KeyframeView;

verus! {

/// Division rounding toward zero, as machine division does.
pub open spec fn trunc_div(x: int, d: int) -> int {
    if x >= 0 {
        x / d
    } else {
        -((-x) / d)
    }
}

/// Linear interpolation from `a` to `b`, `n` parts out of `d`.
pub open spec fn lerp_spec(a: int, b: int, n: int, d: int) -> int {
    a + trunc_div((b - a) * n, d)
}

/// The keyframe defines a change of this bone's channel.
pub open spec fn kf_defines(kf: KeyframeView, id: int, el: AnimElement) -> bool {
    has_bone_entry(kf.bones, id) && has_element(
        kf.bones[bone_entry_index(kf.bones, id)].fields,
        el,
    )
}

/// The change the keyframe holds for this bone's channel.
pub open spec fn kf_value(kf: KeyframeView, id: int, el: AnimElement) -> i64 {
    field_value(kf.bones[bone_entry_index(kf.bones, id)].fields, el)
}

/// The position of the last keyframe at or before `t` defining the
/// channel, or `-1`.
pub open spec fn before_pos(kfs: Seq<KeyframeView>, id: int, el: AnimElement, t: int) -> int
    decreases kfs.len(),
{
    if kfs.len() == 0 {
        -1
    } else if kfs.last().frame <= t && kf_defines(kfs.last(), id, el) {
        kfs.len() - 1
    } else {
        before_pos(kfs.drop_last(), id, el, t)
    }
}

/// The position of the first keyframe after `t` defining the channel, or
/// `-1`.
pub open spec fn after_pos_from(
    kfs: Seq<KeyframeView>,
    id: int,
    el: AnimElement,
    t: int,
    j: int,
) -> int
    decreases kfs.len() - j,
{
    if j < 0 || j >= kfs.len() {
        -1
    } else if kfs[j].frame > t && kf_defines(kfs[j], id, el) {
        j
    } else {
        after_pos_from(kfs, id, el, t, j + 1)
    }
}

/// The position of the first keyframe after `t` defining the channel.
pub open spec fn after_pos(kfs: Seq<KeyframeView>, id: int, el: AnimElement, t: int) -> int {
    after_pos_from(kfs, id, el, t, 0)
}

/// The effective value of one channel of one bone at frame `t`.
pub open spec fn resolve_element_spec(a: AnimationView, bone: Bone, el: AnimElement, t: int) -> i64 {
    let kfs = a.keyframes;
    let id = bone.id as int;
    let b = before_pos(kfs, id, el, t);
    let af = after_pos(kfs, id, el, t);
    if b >= 0 && af >= 0 {
        lerp_spec(
            kf_value(kfs[b], id, el) as int,
            kf_value(kfs[af], id, el) as int,
            t - kfs[b].frame,
            kfs[af].frame - kfs[b].frame,
        ) as i64
    } else if b >= 0 {
        kf_value(kfs[b], id, el)
    } else if af >= 0 {
        kf_value(kfs[af], id, el)
    } else {
        bone.spec_bind_value(el)
    }
}

/// What [`before_pos`] finds.
pub proof fn lemma_before_pos_props(kfs: Seq<KeyframeView>, id: int, el: AnimElement, t: int)
    ensures
        before_pos(kfs, id, el, t) == -1 || (0 <= before_pos(kfs, id, el, t) < kfs.len()
            && kfs[before_pos(kfs, id, el, t)].frame <= t && kf_defines(
            kfs[before_pos(kfs, id, el, t)],
            id,
            el,
        )),
    decreases kfs.len(),
{
    if kfs.len() > 0 && !(kfs.last().frame <= t && kf_defines(kfs.last(), id, el)) {
        lemma_before_pos_props(kfs.drop_last(), id, el, t);
        assert(forall|k: int|
            0 <= k < kfs.len() - 1 ==> #[trigger] kfs.drop_last()[k] == kfs[k]);
    }
}

/// What [`after_pos_from`] finds.
pub proof fn lemma_after_pos_props(kfs: Seq<KeyframeView>, id: int, el: AnimElement, t: int, j: int)
    ensures
        after_pos_from(kfs, id, el, t, j) == -1 || (j <= after_pos_from(kfs, id, el, t, j)
            < kfs.len() && kfs[after_pos_from(kfs, id, el, t, j)].frame > t && kf_defines(
            kfs[after_pos_from(kfs, id, el, t, j)],
            id,
            el,
        )),
    decreases kfs.len() - j,
{
    if 0 <= j < kfs.len() && !(kfs[j].frame > t && kf_defines(kfs[j], id, el)) {
        lemma_after_pos_props(kfs, id, el, t, j + 1);
    }
}

/// Linear interpolation with machine (truncating) division. The result
/// lies between the two endpoints.
fn lerp(a: i64, b: i64, n: i64, d: i64) -> (r: i64)
    requires
        0 <= n < d,
        d <= 0x1_0000_0000,
    ensures
        r == lerp_spec(a as int, b as int, n as int, d as int),
        a <= b ==> a <= r <= b,
        b <= a ==> b <= r <= a,
{
    let neg = b < a;
    let absdiff: u128 = if b >= a {
        (b as i128 - a as i128) as u128
    } else {
        (a as i128 - b as i128) as u128
    };
    proof {
        assert(absdiff as int <= 0x1_0000_0000_0000_0000);
        assert(absdiff as int * n as int <= 0x1_0000_0000_0000_0000 * 0x1_0000_0000)
            by (nonlinear_arith)
            requires
                0 <= absdiff as int <= 0x1_0000_0000_0000_0000,
                0 <= n as int <= 0x1_0000_0000,
        ;
    }
    let prod: u128 = absdiff * (n as u128);
    let q: u128 = prod / (d as u128);
    proof {
        let x = absdiff as int * n as int;
        let dd = d as int;
        assert(prod as int == x);
        vstd::arithmetic::div_mod::lemma_fundamental_div_mod(x, dd);
        vstd::arithmetic::div_mod::lemma_mod_bound(x, dd);
        assert(q as int == x / dd);
        assert(dd * (x / dd) == x - x % dd);
        assert(x % dd >= 0);
        assert((q as int) * dd <= x);
        assert(x < absdiff as int * dd + 1 * dd) by (nonlinear_arith)
            requires
                n < d,
                absdiff as int >= 0,
                x == absdiff as int * n as int,
                dd == d as int,
                d > 0,
        ;
        assert(q as int <= absdiff as int) by (nonlinear_arith)
            requires
                (q as int) * dd <= x,
                x < absdiff as int * dd + 1 * dd,
                dd > 0,
                q as int >= 0,
                absdiff as int >= 0,
        ;
    }
    let r: i64 = if neg {
        (a as i128 - q as i128) as i64
    } else {
        (a as i128 + q as i128) as i64
    };
    proof {
        let x = absdiff as int * n as int;
        if neg {
            assert((b as int - a as int) * n as int == -x) by (nonlinear_arith)
                requires
                    absdiff as int == a as int - b as int,
                    x == absdiff as int * n as int,
            ;
            assert(trunc_div((b as int - a as int) * n as int, d as int) == -(q as int));
        } else {
            assert((b as int - a as int) * n as int == x) by (nonlinear_arith)
                requires
                    absdiff as int == b as int - a as int,
                    x == absdiff as int * n as int,
            ;
            assert(trunc_div((b as int - a as int) * n as int, d as int) == q as int);
        }
    }
    r
}

/// The change a keyframe holds for one bone's channel, if any.
fn kf_find(kf: &Keyframe, id: i32, el: AnimElement) -> (r: Option<i64>)
    requires
        keyframe_wf(kf@),
    ensures
        r == (if kf_defines(kf@, id as int, el) {
            Some(kf_value(kf@, id as int, el))
        } else {
            None::<i64>
        }),
{
    let ghost bones = kf@.bones;
    let mut b: usize = 0;
    while b < kf.bones.len()
        invariant
            bones == kf@.bones,
            keyframe_wf(kf@),
            0 <= b <= bones.len(),
            forall|k: int| 0 <= k < b ==> (#[trigger] bones[k]).id != id as int,
        decreases bones.len() - b,
    {
        if kf.bones[b].id == id {
            proof {
                assert(bones[b as int] == kf.bones@[b as int]@);
                lemma_bone_entry_unique(bones, id as int, b as int);
                assert(anim_bone_wf(bones[b as int]));
            }
            return kf.bones[b].find_field(el);
        }
        b = b + 1;
    }
    proof {
        if has_bone_entry(bones, id as int) {
            let w = choose|k: int| 0 <= k < bones.len() && (#[trigger] bones[k]).id == id as int;
            assert(false);
        }
    }
    None
}

/// The effective value of one channel of one bone at frame `t`.
pub fn resolve_element(anim: &Animation, bone: &Bone, el: AnimElement, t: i32) -> (r: i64)
    requires
        animation_wf(anim@),
    ensures
        r == resolve_element_spec(anim@, *bone, el, t as int),
{
    let ghost kfs = anim@.keyframes;
    let ghost gid = bone.id as int;
    let n = anim.keyframes.len();
    // the last keyframe at or before t defining the channel
    let mut best: Option<usize> = None;
    let mut j: usize = 0;
    while j < n
        invariant
            kfs == anim@.keyframes,
            animation_wf(anim@),
            n == kfs.len(),
            gid == bone.id as int,
            0 <= j <= n,
            (match best {
                None => before_pos(kfs.take(j as int), gid, el, t as int) == -1,
                Some(bb) => bb < j && before_pos(kfs.take(j as int), gid, el, t as int)
                    == bb as int,
            }),
        decreases n - j,
    {
        proof {
            assert(kfs[j as int] == anim.keyframes@[j as int]@);
            assert(keyframe_wf(kfs[j as int]));
            assert(kfs.take(j + 1).last() == kfs[j as int]);
            assert(kfs.take(j + 1).drop_last() =~= kfs.take(j as int));
        }
        let kf = &anim.keyframes[j];
        let here = if kf.frame <= t {
            kf_find(kf, bone.id, el)
        } else {
            None
        };
        if here.is_some() {
            best = Some(j);
        }
        j = j + 1;
    }
    proof {
        assert(kfs.take(n as int) =~= kfs);
    }
    // the first keyframe after t defining the channel
    let mut after: Option<usize> = None;
    let mut j: usize = 0;
    while j < n && after.is_none()
        invariant
            kfs == anim@.keyframes,
            animation_wf(anim@),
            n == kfs.len(),
            gid == bone.id as int,
            0 <= j <= n,
            (match after {
                None => after_pos(kfs, gid, el, t as int) == after_pos_from(
                    kfs,
                    gid,
                    el,
                    t as int,
                    j as int,
                ),
                Some(aa) => aa < n && after_pos(kfs, gid, el, t as int) == aa as int,
            }),
        decreases n - j + (if after is None { 1int } else { 0int }),
    {
        proof {
            assert(kfs[j as int] == anim.keyframes@[j as int]@);
            assert(keyframe_wf(kfs[j as int]));
        }
        let kf = &anim.keyframes[j];
        let here = if kf.frame > t {
            kf_find(kf, bone.id, el)
        } else {
            None
        };
        if here.is_some() {
            after = Some(j);
        } else {
            j = j + 1;
        }
    }
    proof {
        if after is None {
            assert(after_pos_from(kfs, gid, el, t as int, n as int) == -1);
        }
        lemma_before_pos_props(kfs, gid, el, t as int);
        lemma_after_pos_props(kfs, gid, el, t as int, 0);
    }
    match (best, after) {
        (Some(b), Some(af)) => {
            proof {
                assert(kfs[b as int] == anim.keyframes@[b as int]@);
                assert(kfs[af as int] == anim.keyframes@[af as int]@);
                assert(keyframe_wf(kfs[b as int]));
                assert(keyframe_wf(kfs[af as int]));
            }
            let vb = kf_find(&anim.keyframes[b], bone.id, el).unwrap();
            let va = kf_find(&anim.keyframes[af], bone.id, el).unwrap();
            let bf = anim.keyframes[b].frame;
            let aff = anim.keyframes[af].frame;
            proof {
                assert(kfs[b as int].frame >= 0);
            }
            lerp(vb, va, t as i64 - bf as i64, aff as i64 - bf as i64)
        },
        (Some(b), None) => {
            proof {
                assert(kfs[b as int] == anim.keyframes@[b as int]@);
                assert(keyframe_wf(kfs[b as int]));
            }
            kf_find(&anim.keyframes[b], bone.id, el).unwrap()
        },
        (None, Some(af)) => {
            proof {
                assert(kfs[af as int] == anim.keyframes@[af as int]@);
                assert(keyframe_wf(kfs[af as int]));
            }
            kf_find(&anim.keyframes[af], bone.id, el).unwrap()
        },
        (None, None) => bone.bind_value(el),
    }
}

/// A bone with all eight channels replaced by their effective values at
/// frame `t`. Identity, name, parent and texture are untouched.
pub open spec fn resolved_bone(a: AnimationView, bone: Bone, t: int) -> Bone {
    bone.spec_with_value(
        AnimElement::PositionX,
        resolve_element_spec(a, bone, AnimElement::PositionX, t),
    ).spec_with_value(
        AnimElement::PositionY,
        resolve_element_spec(a, bone, AnimElement::PositionY, t),
    ).spec_with_value(
        AnimElement::ScaleX,
        resolve_element_spec(a, bone, AnimElement::ScaleX, t),
    ).spec_with_value(
        AnimElement::ScaleY,
        resolve_element_spec(a, bone, AnimElement::ScaleY, t),
    ).spec_with_value(
        AnimElement::PivotX,
        resolve_element_spec(a, bone, AnimElement::PivotX, t),
    ).spec_with_value(
        AnimElement::PivotY,
        resolve_element_spec(a, bone, AnimElement::PivotY, t),
    ).spec_with_value(
        AnimElement::Rotation,
        resolve_element_spec(a, bone, AnimElement::Rotation, t),
    ).spec_with_value(
        AnimElement::Zindex,
        resolve_element_spec(a, bone, AnimElement::Zindex, t),
    )
}

/// Resolve the full pose: a snapshot of the bone sequence with transforms
/// replaced by their effective values at frame `t`. Ids, names, parents
/// and textures are unchanged, so the hierarchy structure carries over.
pub fn resolve_pose(bones: &Vec<Bone>, anim: &Animation, t: i32) -> (r: Vec<Bone>)
    requires
        animation_wf(anim@),
    ensures
        r@.len() == bones@.len(),
        forall|i: int| 0 <= i < bones@.len() ==> r@[i] == resolved_bone(anim@, bones@[i], t as int),
        forall|i: int|
            0 <= i < bones@.len() ==> (#[trigger] r@[i]).id == bones@[i].id && r@[i].parent_id
                == bones@[i].parent_id && r@[i].name == bones@[i].name && r@[i].tex_idx
                == bones@[i].tex_idx,
{
    let mut out: Vec<Bone> = Vec::new();
    let mut i: usize = 0;
    while i < bones.len()
        invariant
            animation_wf(anim@),
            0 <= i <= bones@.len(),
            out@.len() == i,
            forall|k: int|
                0 <= k < i ==> out@[k] == resolved_bone(anim@, bones@[k], t as int),
        decreases bones@.len() - i,
    {
        let bone = &bones[i];
        let mut nb = bone.duplicate();
        nb.set_value(AnimElement::PositionX, resolve_element(anim, bone, AnimElement::PositionX, t));
        nb.set_value(AnimElement::PositionY, resolve_element(anim, bone, AnimElement::PositionY, t));
        nb.set_value(AnimElement::ScaleX, resolve_element(anim, bone, AnimElement::ScaleX, t));
        nb.set_value(AnimElement::ScaleY, resolve_element(anim, bone, AnimElement::ScaleY, t));
        nb.set_value(AnimElement::PivotX, resolve_element(anim, bone, AnimElement::PivotX, t));
        nb.set_value(AnimElement::PivotY, resolve_element(anim, bone, AnimElement::PivotY, t));
        nb.set_value(AnimElement::Rotation, resolve_element(anim, bone, AnimElement::Rotation, t));
        nb.set_value(AnimElement::Zindex, resolve_element(anim, bone, AnimElement::Zindex, t));
        out.push(nb);
        i = i + 1;
    }
    out
}

} // verus!
