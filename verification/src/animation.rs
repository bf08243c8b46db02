//! The animation engine's structural side: sparse per-field changes stored
//! per frame per bone, with strictly ascending, duplicate-free keyframes.
//!
//! The well-formedness predicate [`animation_wf`] carries what every edit
//! preserves: a positive frame rate, keyframes strictly ascending by frame,
//! every keyframe non-empty with distinct bone entries, every bone entry
//! non-empty with distinct elements.

use vstd::prelude::*;

use crate::model::AnimBone;
use crate::model::AnimBoneView;
use crate::model::AnimElement;
use crate::model::AnimField;
use crate::model::Animation;
use crate::model::AnimationView;
use crate::model::Keyframe;
use crate::model::KeyframeView;

verus! {

/// Some field of this element is present.
pub open spec fn has_element(fields: Seq<AnimField>, el: AnimElement) -> bool {
    exists|i: int| 0 <= i < fields.len() && (#[trigger] fields[i]).element == el
}

/// A position holding this element (the position, under distinct elements).
pub open spec fn element_index(fields: Seq<AnimField>, el: AnimElement) -> int {
    choose|i: int| 0 <= i < fields.len() && (#[trigger] fields[i]).element == el
}

/// The value stored for this element (meaningful when it is present).
pub open spec fn field_value(fields: Seq<AnimField>, el: AnimElement) -> i64 {
    fields[element_index(fields, el)].value
}

/// No element occurs twice.
pub open spec fn fields_distinct(fields: Seq<AnimField>) -> bool {
    forall|i: int, j: int|
        #![trigger fields[i], fields[j]]
        0 <= i < fields.len() && 0 <= j < fields.len() && i != j ==> fields[i].element
            != fields[j].element
}

/// A bone's entry at a keyframe: non-empty, distinct elements.
pub open spec fn anim_bone_wf(ab: AnimBoneView) -> bool {
    &&& ab.id >= 0
    &&& ab.fields.len() >= 1
    &&& fields_distinct(ab.fields)
}

/// Some entry for this bone id is present.
pub open spec fn has_bone_entry(bones: Seq<AnimBoneView>, id: int) -> bool {
    exists|i: int| 0 <= i < bones.len() && (#[trigger] bones[i]).id == id
}

/// A position holding this bone's entry.
pub open spec fn bone_entry_index(bones: Seq<AnimBoneView>, id: int) -> int {
    choose|i: int| 0 <= i < bones.len() && (#[trigger] bones[i]).id == id
}

/// No bone id occurs twice among a keyframe's entries.
pub open spec fn bone_entries_distinct(bones: Seq<AnimBoneView>) -> bool {
    forall|i: int, j: int|
        #![trigger bones[i], bones[j]]
        0 <= i < bones.len() && 0 <= j < bones.len() && i != j ==> bones[i].id != bones[j].id
}

/// A keyframe: non-negative frame, at least one entry, entries well-formed
/// and unique per bone.
pub open spec fn keyframe_wf(kf: KeyframeView) -> bool {
    &&& kf.frame >= 0
    &&& kf.bones.len() >= 1
    &&& bone_entries_distinct(kf.bones)
    &&& forall|i: int| 0 <= i < kf.bones.len() ==> anim_bone_wf(#[trigger] kf.bones[i])
}

/// Some keyframe sits at this frame.
pub open spec fn has_frame(kfs: Seq<KeyframeView>, frame: int) -> bool {
    exists|i: int| 0 <= i < kfs.len() && (#[trigger] kfs[i]).frame == frame
}

/// A position holding the keyframe at this frame.
pub open spec fn frame_index(kfs: Seq<KeyframeView>, frame: int) -> int {
    choose|i: int| 0 <= i < kfs.len() && (#[trigger] kfs[i]).frame == frame
}

/// Keyframes strictly ascending by frame (so frames are unique).
pub open spec fn frames_sorted(kfs: Seq<KeyframeView>) -> bool {
    forall|i: int, j: int|
        #![trigger kfs[i], kfs[j]]
        0 <= i < j < kfs.len() ==> kfs[i].frame < kfs[j].frame
}

/// The animation invariant.
pub open spec fn animation_wf(a: AnimationView) -> bool {
    &&& a.fps >= 1
    &&& frames_sorted(a.keyframes)
    &&& forall|i: int| 0 <= i < a.keyframes.len() ==> keyframe_wf(#[trigger] a.keyframes[i])
}

/// The value an animation stores for (frame, bone, element), if any.
pub open spec fn anim_lookup(a: AnimationView, frame: int, id: int, el: AnimElement) -> Option<
    i64,
> {
    if has_frame(a.keyframes, frame) {
        let kf = a.keyframes[frame_index(a.keyframes, frame)];
        if has_bone_entry(kf.bones, id) {
            let ab = kf.bones[bone_entry_index(kf.bones, id)];
            if has_element(ab.fields, el) {
                Some(field_value(ab.fields, el))
            } else {
                None
            }
        } else {
            None
        }
    } else {
        None
    }
}

/// With distinct elements, any position holding `el` is the chosen one.
pub proof fn lemma_element_unique(fields: Seq<AnimField>, el: AnimElement, i: int)
    requires
        fields_distinct(fields),
        0 <= i < fields.len(),
        fields[i].element == el,
    ensures
        has_element(fields, el),
        element_index(fields, el) == i,
{
    assert(has_element(fields, el));
    let j = element_index(fields, el);
    assert(0 <= j < fields.len() && fields[j].element == el);
}

/// With distinct ids, any position holding `id` is the chosen one.
pub proof fn lemma_bone_entry_unique(bones: Seq<AnimBoneView>, id: int, i: int)
    requires
        bone_entries_distinct(bones),
        0 <= i < bones.len(),
        bones[i].id == id,
    ensures
        has_bone_entry(bones, id),
        bone_entry_index(bones, id) == i,
{
    assert(has_bone_entry(bones, id));
    let j = bone_entry_index(bones, id);
    assert(0 <= j < bones.len() && bones[j].id == id);
}

/// With sorted frames, any position holding `frame` is the chosen one.
pub proof fn lemma_frame_unique(kfs: Seq<KeyframeView>, frame: int, i: int)
    requires
        frames_sorted(kfs),
        0 <= i < kfs.len(),
        kfs[i].frame == frame,
    ensures
        has_frame(kfs, frame),
        frame_index(kfs, frame) == i,
{
    assert(has_frame(kfs, frame));
    let j = frame_index(kfs, frame);
    assert(0 <= j < kfs.len() && kfs[j].frame == frame);
}

impl AnimBone {
    /// A fresh entry holding a single field.
    pub fn single(id: i32, element: AnimElement, value: i64) -> (r: AnimBone)
        ensures
            r@.id == id,
            r@.fields == seq![AnimField { element, value }],
    {
        let mut fields: Vec<AnimField> = Vec::new();
        fields.push(AnimField { element, value });
        proof {
            assert(fields@ =~= seq![AnimField { element, value }]);
        }
        AnimBone { id, fields }
    }

    /// The value this entry stores for `element`, if any.
    pub fn find_field(&self, element: AnimElement) -> (r: Option<i64>)
        requires
            fields_distinct(self@.fields),
        ensures
            r == (if has_element(self@.fields, element) {
                Some(field_value(self@.fields, element))
            } else {
                None::<i64>
            }),
    {
        let ghost fs = self@.fields;
        let mut i: usize = 0;
        while i < self.fields.len()
            invariant
                fs == self@.fields,
                fields_distinct(fs),
                0 <= i <= fs.len(),
                forall|k: int| 0 <= k < i ==> (#[trigger] fs[k]).element != element,
            decreases fs.len() - i,
        {
            if self.fields[i].element == element {
                proof {
                    lemma_element_unique(fs, element, i as int);
                }
                return Some(self.fields[i].value);
            }
            i = i + 1;
        }
        proof {
            if has_element(fs, element) {
                let w = choose|k: int| 0 <= k < fs.len() && (#[trigger] fs[k]).element == element;
                assert(false);
            }
        }
        None
    }

    /// Set (insert or overwrite) the value for `element`.
    pub fn set_field(&mut self, element: AnimElement, value: i64)
        requires
            fields_distinct(old(self)@.fields),
        ensures
            final(self)@.id == old(self)@.id,
            fields_distinct(final(self)@.fields),
            has_element(final(self)@.fields, element),
            field_value(final(self)@.fields, element) == value,
            forall|e2: AnimElement|
                e2 != element ==> #[trigger] has_element(final(self)@.fields, e2) == has_element(
                    old(self)@.fields,
                    e2,
                ),
            forall|e2: AnimElement|
                e2 != element && has_element(old(self)@.fields, e2) ==> #[trigger] field_value(
                    final(self)@.fields,
                    e2,
                ) == field_value(old(self)@.fields, e2),
            final(self)@.fields.len() == old(self)@.fields.len() + (if has_element(
                old(self)@.fields,
                element,
            ) {
                0int
            } else {
                1int
            }),
    {
        let ghost fs = self@.fields;
        let mut i: usize = 0;
        while i < self.fields.len()
            invariant
                self@ == old(self)@,
                fs == self@.fields,
                fields_distinct(fs),
                0 <= i <= fs.len(),
                forall|k: int| 0 <= k < i ==> (#[trigger] fs[k]).element != element,
            decreases fs.len() - i,
        {
            if self.fields[i].element == element {
                self.fields[i] = AnimField { element, value };
                proof {
                    let nfs = self@.fields;
                    assert(nfs == fs.update(i as int, AnimField { element, value }));
                    lemma_element_unique(fs, element, i as int);
                    assert(fields_distinct(nfs));
                    lemma_element_unique(nfs, element, i as int);
                    assert forall|e2: AnimElement| e2 != element implies #[trigger] has_element(
                        nfs,
                        e2,
                    ) == has_element(fs, e2) by {
                        if has_element(nfs, e2) {
                            let w = choose|k: int|
                                0 <= k < nfs.len() && (#[trigger] nfs[k]).element == e2;
                            assert(fs[w].element == e2);
                        }
                        if has_element(fs, e2) {
                            let w = choose|k: int|
                                0 <= k < fs.len() && (#[trigger] fs[k]).element == e2;
                            assert(nfs[w].element == e2);
                        }
                    }
                    assert forall|e2: AnimElement|
                        e2 != element && has_element(fs, e2) implies #[trigger] field_value(
                        nfs,
                        e2,
                    ) == field_value(fs, e2) by {
                        let w = choose|k: int|
                            0 <= k < fs.len() && (#[trigger] fs[k]).element == e2;
                        lemma_element_unique(fs, e2, w);
                        lemma_element_unique(nfs, e2, w);
                    }
                }
                return ;
            }
            i = i + 1;
        }
        self.fields.push(AnimField { element, value });
        proof {
            let nfs = self@.fields;
            assert(nfs == fs.push(AnimField { element, value }));
            assert(nfs[fs.len() as int].element == element);
            if has_element(fs, element) {
                let w = choose|k: int| 0 <= k < fs.len() && (#[trigger] fs[k]).element == element;
                assert(false);
            }
            assert forall|x: int, y: int|
                #![trigger nfs[x], nfs[y]]
                0 <= x < nfs.len() && 0 <= y < nfs.len() && x != y implies nfs[x].element
                != nfs[y].element by {
                if x < fs.len() && y < fs.len() {
                    assert(fs[x].element != fs[y].element);
                } else if x < fs.len() {
                    assert(fs[x].element != element);
                } else if y < fs.len() {
                    assert(fs[y].element != element);
                }
            }
            lemma_element_unique(nfs, element, fs.len() as int);
            assert forall|e2: AnimElement| e2 != element implies #[trigger] has_element(nfs, e2)
                == has_element(fs, e2) by {
                if has_element(nfs, e2) {
                    let w = choose|k: int| 0 <= k < nfs.len() && (#[trigger] nfs[k]).element == e2;
                    assert(w < fs.len());
                    assert(fs[w].element == e2);
                }
                if has_element(fs, e2) {
                    let w = choose|k: int| 0 <= k < fs.len() && (#[trigger] fs[k]).element == e2;
                    assert(nfs[w].element == e2);
                }
            }
            assert forall|e2: AnimElement|
                e2 != element && has_element(fs, e2) implies #[trigger] field_value(nfs, e2)
                == field_value(fs, e2) by {
                let w = choose|k: int| 0 <= k < fs.len() && (#[trigger] fs[k]).element == e2;
                lemma_element_unique(fs, e2, w);
                lemma_element_unique(nfs, e2, w);
            }
        }
    }

    /// Remove the field for `element`, if present. Returns whether it was.
    pub fn remove_field(&mut self, element: AnimElement) -> (r: bool)
        requires
            fields_distinct(old(self)@.fields),
        ensures
            final(self)@.id == old(self)@.id,
            fields_distinct(final(self)@.fields),
            !has_element(final(self)@.fields, element),
            r == has_element(old(self)@.fields, element),
            forall|e2: AnimElement|
                e2 != element ==> #[trigger] has_element(final(self)@.fields, e2) == has_element(
                    old(self)@.fields,
                    e2,
                ),
            forall|e2: AnimElement|
                e2 != element && has_element(old(self)@.fields, e2) ==> #[trigger] field_value(
                    final(self)@.fields,
                    e2,
                ) == field_value(old(self)@.fields, e2),
            final(self)@.fields.len() == old(self)@.fields.len() - (if has_element(
                old(self)@.fields,
                element,
            ) {
                1int
            } else {
                0int
            }),
    {
        let ghost fs = self@.fields;
        let mut i: usize = 0;
        while i < self.fields.len()
            invariant
                self@ == old(self)@,
                fs == self@.fields,
                fields_distinct(fs),
                0 <= i <= fs.len(),
                forall|k: int| 0 <= k < i ==> (#[trigger] fs[k]).element != element,
            decreases fs.len() - i,
        {
            if self.fields[i].element == element {
                self.fields.remove(i);
                proof {
                    let nfs = self@.fields;
                    assert(nfs == fs.remove(i as int));
                    lemma_element_unique(fs, element, i as int);
                    assert forall|k: int| 0 <= k < nfs.len() implies #[trigger] nfs[k] == fs[if k
                        < i as int {
                        k
                    } else {
                        k + 1
                    }] by {}
                    assert(fields_distinct(nfs));
                    if has_element(nfs, element) {
                        let w = choose|k: int|
                            0 <= k < nfs.len() && (#[trigger] nfs[k]).element == element;
                        if w < i as int {
                            assert(fs[w].element == element);
                        } else {
                            assert(fs[w + 1].element == element);
                        }
                        assert(false);
                    }
                    assert forall|e2: AnimElement| e2 != element implies #[trigger] has_element(
                        nfs,
                        e2,
                    ) == has_element(fs, e2) by {
                        if has_element(nfs, e2) {
                            let w = choose|k: int|
                                0 <= k < nfs.len() && (#[trigger] nfs[k]).element == e2;
                            if w < i as int {
                                assert(fs[w].element == e2);
                            } else {
                                assert(fs[w + 1].element == e2);
                            }
                        }
                        if has_element(fs, e2) {
                            let w = choose|k: int|
                                0 <= k < fs.len() && (#[trigger] fs[k]).element == e2;
                            if w < i as int {
                                assert(nfs[w].element == e2);
                            } else {
                                assert(nfs[w - 1].element == e2);
                            }
                        }
                    }
                    assert forall|e2: AnimElement|
                        e2 != element && has_element(fs, e2) implies #[trigger] field_value(
                        nfs,
                        e2,
                    ) == field_value(fs, e2) by {
                        let w = choose|k: int|
                            0 <= k < fs.len() && (#[trigger] fs[k]).element == e2;
                        lemma_element_unique(fs, e2, w);
                        if w < i as int {
                            lemma_element_unique(nfs, e2, w);
                        } else {
                            lemma_element_unique(nfs, e2, w - 1);
                        }
                    }
                }
                return true;
            }
            i = i + 1;
        }
        proof {
            if has_element(fs, element) {
                let w = choose|k: int| 0 <= k < fs.len() && (#[trigger] fs[k]).element == element;
                assert(false);
            }
        }
        false
    }
}

} // verus!

verus! {

impl Animation {
    /// A fresh animation: no name, no keyframes, the default frame rate.
    pub fn with_defaults() -> (r: Animation)
        ensures
            r@ == (AnimationView { name: Seq::empty(), fps: 60, keyframes: Seq::empty() }),
            animation_wf(r@),
    {
        let r = Animation { name: String::new(), fps: 60, keyframes: Vec::new() };
        proof {
            assert(r@.keyframes =~= Seq::<KeyframeView>::empty());
            assert(r@.name =~= Seq::<char>::empty());
        }
        r
    }

    /// The position of the keyframe at `frame`, if there is one.
    pub fn find_keyframe(&self, frame: i32) -> (r: Option<usize>)
        requires
            frames_sorted(self@.keyframes),
        ensures
            r matches Some(i) ==> (i as int) < self@.keyframes.len() && has_frame(
                self@.keyframes,
                frame as int,
            ) && frame_index(self@.keyframes, frame as int) == i as int,
            r is None ==> !has_frame(self@.keyframes, frame as int),
    {
        let ghost kfs = self@.keyframes;
        let mut i: usize = 0;
        while i < self.keyframes.len()
            invariant
                kfs == self@.keyframes,
                frames_sorted(kfs),
                0 <= i <= kfs.len(),
                forall|k: int| 0 <= k < i ==> (#[trigger] kfs[k]).frame != frame as int,
            decreases kfs.len() - i,
        {
            if self.keyframes[i].frame == frame {
                proof {
                    assert(kfs[i as int].frame == frame as int);
                    lemma_frame_unique(kfs, frame as int, i as int);
                }
                return Some(i);
            }
            i = i + 1;
        }
        proof {
            if has_frame(kfs, frame as int) {
                let w = choose|k: int| 0 <= k < kfs.len() && (#[trigger] kfs[k]).frame
                    == frame as int;
                assert(false);
            }
        }
        None
    }

    /// The last (highest-frame) keyframe, if any.
    pub fn last_keyframe(&self) -> (r: Option<&Keyframe>)
        ensures
            (r is Some) <==> self@.keyframes.len() > 0,
            r matches Some(k) ==> k@ == self@.keyframes.last(),
    {
        if self.keyframes.len() == 0 {
            None
        } else {
            let k = &self.keyframes[self.keyframes.len() - 1];
            Some(k)
        }
    }

    /// Insert or merge one field change at a frame: reuse the keyframe at
    /// that frame if one exists (and within it, the bone's entry), else
    /// insert a fresh keyframe at its sorted position.
    pub fn set_frame_field(&mut self, bone_id: i32, element: AnimElement, value: i64, frame: i32)
        requires
            animation_wf(old(self)@),
            frame >= 0,
            bone_id >= 0,
        ensures
            animation_wf(final(self)@),
            final(self)@.name == old(self)@.name,
            final(self)@.fps == old(self)@.fps,
            anim_lookup(final(self)@, frame as int, bone_id as int, element) == Some(value),
            forall|f2: int, id2: int, e2: AnimElement|
                !(f2 == frame as int && id2 == bone_id as int && e2 == element)
                    ==> #[trigger] anim_lookup(final(self)@, f2, id2, e2) == anim_lookup(
                    old(self)@,
                    f2,
                    id2,
                    e2,
                ),
            forall|f2: int|
                #[trigger] has_frame(final(self)@.keyframes, f2) == (has_frame(
                    old(self)@.keyframes,
                    f2,
                ) || f2 == frame as int),
    {
        let ghost oa = self@;
        let ghost okfs = oa.keyframes;
        let found = self.find_keyframe(frame);
        match found {
            Some(ki) => {
                let ghost okf = okfs[ki as int];
                let mut kf = self.keyframes[ki].duplicate();
                // find this bone's entry in the keyframe
                let mut bi_found: Option<usize> = None;
                let mut b: usize = 0;
                while b < kf.bones.len() && bi_found.is_none()
                    invariant
                        kf@ == okf,
                        0 <= b <= kf.bones@.len(),
                        bi_found is None ==> forall|k: int|
                            0 <= k < b ==> (#[trigger] kf.bones@[k]).id != bone_id,
                        bi_found matches Some(bi) ==> bi < kf.bones@.len() && kf.bones@[
                            bi as int
                        ].id == bone_id,
                    decreases kf.bones@.len() - b + (if bi_found is None { 1int } else { 0int }),
                {
                    if kf.bones[b].id == bone_id {
                        bi_found = Some(b);
                    } else {
                        b = b + 1;
                    }
                }
                match bi_found {
                    Some(bi) => {
                        proof {
                            assert(keyframe_wf(okf));
                            assert(okf.bones[bi as int] == kf.bones@[bi as int]@);
                            assert(anim_bone_wf(okf.bones[bi as int]));
                        }
                        let mut ab = kf.bones[bi].duplicate();
                        ab.set_field(element, value);
                        let ghost abv = ab@;
                        kf.bones[bi] = ab;
                        proof {
                            assert(kf@.bones =~= okf.bones.update(bi as int, abv));
                        }
                        let ghost nkf = kf@;
                        self.keyframes[ki] = kf;
                        proof {
                            let na = self@;
                            assert(na.keyframes =~= okfs.update(ki as int, nkf));
                            lemma_kf_entry_updated(
                                oa,
                                na,
                                ki as int,
                                bi as int,
                                bone_id as int,
                                element,
                                value,
                            );
                        }
                    },
                    None => {
                        proof {
                            if has_bone_entry(okf.bones, bone_id as int) {
                                let w = choose|k: int|
                                    0 <= k < okf.bones.len() && (#[trigger] okf.bones[k]).id
                                        == bone_id as int;
                                assert(kf.bones@[w]@.id == bone_id as int);
                                assert(false);
                            }
                        }
                        let ab = AnimBone::single(bone_id, element, value);
                        kf.bones.push(ab);
                        proof {
                            assert(kf@.bones =~= okf.bones.push(
                                AnimBoneView {
                                    id: bone_id as int,
                                    fields: seq![AnimField { element, value }],
                                },
                            ));
                        }
                        let ghost nkf = kf@;
                        self.keyframes[ki] = kf;
                        proof {
                            let na = self@;
                            assert(na.keyframes =~= okfs.update(ki as int, nkf));
                            lemma_kf_entry_pushed(oa, na, ki as int, bone_id as int, element, value);
                        }
                    },
                }
            },
            None => {
                // find the sorted insertion position
                let mut pos: usize = 0;
                while pos < self.keyframes.len() && self.keyframes[pos].frame < frame
                    invariant
                        self@ == oa,
                        okfs == oa.keyframes,
                        okfs.len() == self.keyframes@.len(),
                        0 <= pos <= okfs.len(),
                        forall|k: int| 0 <= k < pos ==> (#[trigger] okfs[k]).frame < frame as int,
                    decreases okfs.len() - pos,
                {
                    proof {
                        assert(okfs[pos as int] == self.keyframes@[pos as int]@);
                    }
                    pos = pos + 1;
                }
                proof {
                    if pos < okfs.len() {
                        assert(okfs[pos as int].frame >= frame as int);
                        if okfs[pos as int].frame == frame as int {
                            assert(has_frame(okfs, frame as int));
                            assert(false);
                        }
                    }
                }
                let ab = AnimBone::single(bone_id, element, value);
                let mut bones_v: Vec<AnimBone> = Vec::new();
                bones_v.push(ab);
                let nk = Keyframe { frame, bones: bones_v };
                proof {
                    assert(nk@.bones =~= seq![
                        AnimBoneView {
                            id: bone_id as int,
                            fields: seq![AnimField { element, value }],
                        },
                    ]);
                }
                self.keyframes.insert(pos, nk);
                proof {
                    let na = self@;
                    assert(na.keyframes =~= okfs.insert(pos as int, nk@));
                    lemma_kf_inserted(oa, na, pos as int, frame as int, bone_id as int, element, value);
                }
            },
        }
    }
}

} // verus!

verus! {

/// After overwriting one element of one bone entry of the keyframe at
/// `ki`, the animation is still well-formed, that one (frame, bone,
/// element) now reads the new value, and every other triple is unchanged.
proof fn lemma_kf_entry_updated(
    oa: AnimationView,
    na: AnimationView,
    ki: int,
    bi: int,
    id: int,
    el: AnimElement,
    v: i64,
)
    requires
        animation_wf(oa),
        0 <= ki < oa.keyframes.len(),
        na.name == oa.name,
        na.fps == oa.fps,
        na.keyframes.len() == oa.keyframes.len(),
        forall|j: int|
            0 <= j < oa.keyframes.len() && j != ki ==> na.keyframes[j] == oa.keyframes[j],
        na.keyframes[ki].frame == oa.keyframes[ki].frame,
        na.keyframes[ki].bones.len() == oa.keyframes[ki].bones.len(),
        0 <= bi < oa.keyframes[ki].bones.len(),
        forall|x: int|
            0 <= x < oa.keyframes[ki].bones.len() && x != bi ==> na.keyframes[ki].bones[x]
                == oa.keyframes[ki].bones[x],
        oa.keyframes[ki].bones[bi].id == id,
        na.keyframes[ki].bones[bi].id == id,
        fields_distinct(na.keyframes[ki].bones[bi].fields),
        na.keyframes[ki].bones[bi].fields.len() >= 1,
        has_element(na.keyframes[ki].bones[bi].fields, el),
        field_value(na.keyframes[ki].bones[bi].fields, el) == v,
        forall|e2: AnimElement|
            e2 != el ==> #[trigger] has_element(na.keyframes[ki].bones[bi].fields, e2)
                == has_element(oa.keyframes[ki].bones[bi].fields, e2),
        forall|e2: AnimElement|
            e2 != el && has_element(oa.keyframes[ki].bones[bi].fields, e2)
                ==> #[trigger] field_value(na.keyframes[ki].bones[bi].fields, e2) == field_value(
                oa.keyframes[ki].bones[bi].fields,
                e2,
            ),
    ensures
        animation_wf(na),
        anim_lookup(na, oa.keyframes[ki].frame, id, el) == Some(v),
        forall|f2: int, id2: int, e2: AnimElement|
            !(f2 == oa.keyframes[ki].frame && id2 == id && e2 == el) ==> #[trigger] anim_lookup(
                na,
                f2,
                id2,
                e2,
            ) == anim_lookup(oa, f2, id2, e2),
        forall|f2: int|
            #[trigger] has_frame(na.keyframes, f2) == has_frame(oa.keyframes, f2),
{
    let okfs = oa.keyframes;
    let nkfs = na.keyframes;
    let frame = okfs[ki].frame;
    let ok = okfs[ki].bones;
    let nk = nkfs[ki].bones;
    assert forall|j: int| 0 <= j < nkfs.len() implies (#[trigger] nkfs[j]).frame
        == okfs[j].frame by {}
    assert(frames_sorted(nkfs));
    assert forall|f2: int| #[trigger] has_frame(nkfs, f2) == has_frame(okfs, f2) by {
        if has_frame(nkfs, f2) {
            let w = choose|k: int| 0 <= k < nkfs.len() && (#[trigger] nkfs[k]).frame == f2;
            assert(okfs[w].frame == f2);
        }
        if has_frame(okfs, f2) {
            let w = choose|k: int| 0 <= k < okfs.len() && (#[trigger] okfs[k]).frame == f2;
            assert(nkfs[w].frame == f2);
        }
    }
    assert(keyframe_wf(okfs[ki]));
    assert forall|x: int| 0 <= x < nk.len() implies (#[trigger] nk[x]).id == ok[x].id by {}
    assert(bone_entries_distinct(nk));
    assert(anim_bone_wf(nk[bi]));
    assert forall|x: int| 0 <= x < nk.len() implies anim_bone_wf(#[trigger] nk[x]) by {
        if x != bi {
            assert(nk[x] == ok[x]);
            assert(anim_bone_wf(ok[x]));
        }
    }
    assert(keyframe_wf(nkfs[ki]));
    assert forall|j: int| 0 <= j < nkfs.len() implies keyframe_wf(#[trigger] nkfs[j]) by {
        if j != ki {
            assert(nkfs[j] == okfs[j]);
            assert(keyframe_wf(okfs[j]));
        }
    }
    assert(animation_wf(na));
    lemma_frame_unique(okfs, frame, ki);
    lemma_frame_unique(nkfs, frame, ki);
    lemma_bone_entry_unique(ok, id, bi);
    lemma_bone_entry_unique(nk, id, bi);
    assert(anim_lookup(na, frame, id, el) == Some(v));
    assert forall|f2: int, id2: int, e2: AnimElement|
        !(f2 == frame && id2 == id && e2 == el) implies #[trigger] anim_lookup(na, f2, id2, e2)
        == anim_lookup(oa, f2, id2, e2) by {
        if f2 != frame {
            if has_frame(okfs, f2) {
                let fi = frame_index(okfs, f2);
                assert(0 <= fi < okfs.len() && okfs[fi].frame == f2);
                assert(fi != ki);
                assert(nkfs[fi] == okfs[fi]);
                lemma_frame_unique(nkfs, f2, fi);
            }
        } else {
            if id2 != id {
                if has_bone_entry(ok, id2) {
                    let w = bone_entry_index(ok, id2);
                    assert(0 <= w < ok.len() && ok[w].id == id2);
                    assert(w != bi);
                    assert(nk[w] == ok[w]);
                    lemma_bone_entry_unique(nk, id2, w);
                } else {
                    if has_bone_entry(nk, id2) {
                        let w = choose|k: int| 0 <= k < nk.len() && (#[trigger] nk[k]).id == id2;
                        assert(ok[w].id == id2);
                        assert(false);
                    }
                }
            }
        }
    }
}

/// After appending a fresh single-field bone entry to the keyframe at
/// `ki`, the animation is still well-formed, the new (frame, bone,
/// element) reads the new value, and every other triple is unchanged.
proof fn lemma_kf_entry_pushed(
    oa: AnimationView,
    na: AnimationView,
    ki: int,
    id: int,
    el: AnimElement,
    v: i64,
)
    requires
        animation_wf(oa),
        0 <= ki < oa.keyframes.len(),
        na.name == oa.name,
        na.fps == oa.fps,
        na.keyframes.len() == oa.keyframes.len(),
        forall|j: int|
            0 <= j < oa.keyframes.len() && j != ki ==> na.keyframes[j] == oa.keyframes[j],
        na.keyframes[ki].frame == oa.keyframes[ki].frame,
        na.keyframes[ki].bones == oa.keyframes[ki].bones.push(
            AnimBoneView { id, fields: seq![AnimField { element: el, value: v }] },
        ),
        !has_bone_entry(oa.keyframes[ki].bones, id),
        id >= 0,
    ensures
        animation_wf(na),
        anim_lookup(na, oa.keyframes[ki].frame, id, el) == Some(v),
        forall|f2: int, id2: int, e2: AnimElement|
            !(f2 == oa.keyframes[ki].frame && id2 == id && e2 == el) ==> #[trigger] anim_lookup(
                na,
                f2,
                id2,
                e2,
            ) == anim_lookup(oa, f2, id2, e2),
        forall|f2: int|
            #[trigger] has_frame(na.keyframes, f2) == has_frame(oa.keyframes, f2),
{
    let okfs = oa.keyframes;
    let nkfs = na.keyframes;
    let frame = okfs[ki].frame;
    let ok = okfs[ki].bones;
    let nk = nkfs[ki].bones;
    let ab = AnimBoneView { id, fields: seq![AnimField { element: el, value: v }] };
    assert forall|j: int| 0 <= j < nkfs.len() implies (#[trigger] nkfs[j]).frame
        == okfs[j].frame by {}
    assert(frames_sorted(nkfs));
    assert forall|f2: int| #[trigger] has_frame(nkfs, f2) == has_frame(okfs, f2) by {
        if has_frame(nkfs, f2) {
            let w = choose|k: int| 0 <= k < nkfs.len() && (#[trigger] nkfs[k]).frame == f2;
            assert(okfs[w].frame == f2);
        }
        if has_frame(okfs, f2) {
            let w = choose|k: int| 0 <= k < okfs.len() && (#[trigger] okfs[k]).frame == f2;
            assert(nkfs[w].frame == f2);
        }
    }
    assert(keyframe_wf(okfs[ki]));
    assert forall|x: int, y: int|
        #![trigger nk[x], nk[y]]
        0 <= x < nk.len() && 0 <= y < nk.len() && x != y implies nk[x].id != nk[y].id by {
        if x < ok.len() && y < ok.len() {
            assert(ok[x].id != ok[y].id);
        } else if x < ok.len() {
            assert(ok[x].id != id);
        } else if y < ok.len() {
            assert(ok[y].id != id);
        }
    }
    assert(fields_distinct(ab.fields));
    assert(anim_bone_wf(ab));
    assert forall|x: int| 0 <= x < nk.len() implies anim_bone_wf(#[trigger] nk[x]) by {
        if x < ok.len() {
            assert(nk[x] == ok[x]);
            assert(anim_bone_wf(ok[x]));
        }
    }
    assert(keyframe_wf(nkfs[ki]));
    assert forall|j: int| 0 <= j < nkfs.len() implies keyframe_wf(#[trigger] nkfs[j]) by {
        if j != ki {
            assert(nkfs[j] == okfs[j]);
            assert(keyframe_wf(okfs[j]));
        }
    }
    assert(animation_wf(na));
    lemma_frame_unique(okfs, frame, ki);
    lemma_frame_unique(nkfs, frame, ki);
    lemma_bone_entry_unique(nk, id, ok.len() as int);
    lemma_element_unique(ab.fields, el, 0);
    assert(anim_lookup(na, frame, id, el) == Some(v));
    assert forall|f2: int, id2: int, e2: AnimElement|
        !(f2 == frame && id2 == id && e2 == el) implies #[trigger] anim_lookup(na, f2, id2, e2)
        == anim_lookup(oa, f2, id2, e2) by {
        if f2 != frame {
            if has_frame(okfs, f2) {
                let fi = frame_index(okfs, f2);
                assert(0 <= fi < okfs.len() && okfs[fi].frame == f2);
                assert(fi != ki);
                assert(nkfs[fi] == okfs[fi]);
                lemma_frame_unique(nkfs, f2, fi);
            }
        } else {
            if id2 != id {
                if has_bone_entry(ok, id2) {
                    let w = bone_entry_index(ok, id2);
                    assert(0 <= w < ok.len() && ok[w].id == id2);
                    assert(nk[w] == ok[w]);
                    lemma_bone_entry_unique(nk, id2, w);
                } else {
                    if has_bone_entry(nk, id2) {
                        let w = choose|k: int| 0 <= k < nk.len() && (#[trigger] nk[k]).id == id2;
                        assert(w < ok.len());
                        assert(ok[w].id == id2);
                        assert(false);
                    }
                }
            } else {
                // e2 != el: the fresh entry defines only `el`
                if has_element(ab.fields, e2) {
                    let w = choose|k: int|
                        0 <= k < ab.fields.len() && (#[trigger] ab.fields[k]).element == e2;
                    assert(w == 0);
                    assert(false);
                }
            }
        }
    }
}

/// After inserting a fresh single-entry keyframe at its sorted position,
/// the animation is still well-formed, the new triple reads the new value,
/// every other triple is unchanged, and exactly the new frame was added.
proof fn lemma_kf_inserted(
    oa: AnimationView,
    na: AnimationView,
    pos: int,
    frame: int,
    id: int,
    el: AnimElement,
    v: i64,
)
    requires
        animation_wf(oa),
        0 <= pos <= oa.keyframes.len(),
        na.name == oa.name,
        na.fps == oa.fps,
        na.keyframes == oa.keyframes.insert(
            pos,
            KeyframeView {
                frame,
                bones: seq![
                    AnimBoneView { id, fields: seq![AnimField { element: el, value: v }] },
                ],
            },
        ),
        !has_frame(oa.keyframes, frame),
        frame >= 0,
        id >= 0,
        forall|k: int| 0 <= k < pos ==> (#[trigger] oa.keyframes[k]).frame < frame,
        pos < oa.keyframes.len() ==> oa.keyframes[pos].frame > frame,
    ensures
        animation_wf(na),
        anim_lookup(na, frame, id, el) == Some(v),
        forall|f2: int, id2: int, e2: AnimElement|
            !(f2 == frame && id2 == id && e2 == el) ==> #[trigger] anim_lookup(na, f2, id2, e2)
                == anim_lookup(oa, f2, id2, e2),
        forall|f2: int|
            #[trigger] has_frame(na.keyframes, f2) == (has_frame(oa.keyframes, f2) || f2
                == frame),
{
    let okfs = oa.keyframes;
    let nkfs = na.keyframes;
    let ab = AnimBoneView { id, fields: seq![AnimField { element: el, value: v }] };
    let nkf = KeyframeView { frame, bones: seq![ab] };
    assert forall|x: int| 0 <= x < nkfs.len() implies #[trigger] nkfs[x] == (if x < pos {
        okfs[x]
    } else if x == pos {
        nkf
    } else {
        okfs[x - 1]
    }) by {}
    assert forall|i: int, j: int|
        #![trigger nkfs[i], nkfs[j]]
        0 <= i < j < nkfs.len() implies nkfs[i].frame < nkfs[j].frame by {
        if i < pos && j < pos {
        } else if i < pos && j == pos {
        } else if i < pos {
            assert(nkfs[j] == okfs[j - 1]);
            if j - 1 == pos {
                assert(okfs[j - 1].frame > frame);
            } else {
                assert(okfs[pos].frame <= okfs[j - 1].frame);
            }
        } else if i == pos {
            assert(nkfs[j] == okfs[j - 1]);
            if j - 1 == pos {
            } else {
                assert(okfs[pos].frame <= okfs[j - 1].frame);
            }
        } else {
        }
    }
    assert(frames_sorted(nkfs));
    assert(fields_distinct(ab.fields));
    assert(anim_bone_wf(ab));
    assert(bone_entries_distinct(nkf.bones));
    assert(keyframe_wf(nkf));
    assert forall|j: int| 0 <= j < nkfs.len() implies keyframe_wf(#[trigger] nkfs[j]) by {
        if j < pos {
            assert(nkfs[j] == okfs[j]);
            assert(keyframe_wf(okfs[j]));
        } else if j > pos {
            assert(nkfs[j] == okfs[j - 1]);
            assert(keyframe_wf(okfs[j - 1]));
        }
    }
    assert(animation_wf(na));
    assert forall|f2: int| #[trigger] has_frame(nkfs, f2) == (has_frame(okfs, f2) || f2
        == frame) by {
        if has_frame(nkfs, f2) {
            let w = choose|k: int| 0 <= k < nkfs.len() && (#[trigger] nkfs[k]).frame == f2;
            if w < pos {
                assert(okfs[w].frame == f2);
            } else if w > pos {
                assert(okfs[w - 1].frame == f2);
            }
        }
        if has_frame(okfs, f2) {
            let w = choose|k: int| 0 <= k < okfs.len() && (#[trigger] okfs[k]).frame == f2;
            if w < pos {
                assert(nkfs[w].frame == f2);
            } else {
                assert(nkfs[w + 1].frame == f2);
            }
        }
        if f2 == frame {
            assert(nkfs[pos].frame == f2);
        }
    }
    lemma_frame_unique(nkfs, frame, pos);
    lemma_bone_entry_unique(nkf.bones, id, 0);
    lemma_element_unique(ab.fields, el, 0);
    assert(anim_lookup(na, frame, id, el) == Some(v));
    assert forall|f2: int, id2: int, e2: AnimElement|
        !(f2 == frame && id2 == id && e2 == el) implies #[trigger] anim_lookup(na, f2, id2, e2)
        == anim_lookup(oa, f2, id2, e2) by {
        if f2 != frame {
            if has_frame(okfs, f2) {
                let fi = frame_index(okfs, f2);
                assert(0 <= fi < okfs.len() && okfs[fi].frame == f2);
                if fi < pos {
                    assert(nkfs[fi] == okfs[fi]);
                    lemma_frame_unique(nkfs, f2, fi);
                } else {
                    assert(nkfs[fi + 1] == okfs[fi]);
                    lemma_frame_unique(nkfs, f2, fi + 1);
                }
            }
        } else {
            // at the new frame nothing but (id, el) is defined
            if id2 != id {
                if has_bone_entry(nkf.bones, id2) {
                    let w = choose|k: int|
                        0 <= k < nkf.bones.len() && (#[trigger] nkf.bones[k]).id == id2;
                    assert(w == 0);
                    assert(false);
                }
            } else {
                if has_element(ab.fields, e2) {
                    let w = choose|k: int|
                        0 <= k < ab.fields.len() && (#[trigger] ab.fields[k]).element == e2;
                    assert(w == 0);
                    assert(false);
                }
            }
        }
    }
}

} // verus!

verus! {

/// After removing one element from one bone entry (the entry keeps other
/// fields), that triple reads nothing, every other triple is unchanged.
proof fn lemma_kf_field_removed(
    oa: AnimationView,
    na: AnimationView,
    ki: int,
    bi: int,
    id: int,
    el: AnimElement,
)
    requires
        animation_wf(oa),
        0 <= ki < oa.keyframes.len(),
        na.name == oa.name,
        na.fps == oa.fps,
        na.keyframes.len() == oa.keyframes.len(),
        forall|j: int|
            0 <= j < oa.keyframes.len() && j != ki ==> na.keyframes[j] == oa.keyframes[j],
        na.keyframes[ki].frame == oa.keyframes[ki].frame,
        na.keyframes[ki].bones.len() == oa.keyframes[ki].bones.len(),
        0 <= bi < oa.keyframes[ki].bones.len(),
        forall|x: int|
            0 <= x < oa.keyframes[ki].bones.len() && x != bi ==> na.keyframes[ki].bones[x]
                == oa.keyframes[ki].bones[x],
        oa.keyframes[ki].bones[bi].id == id,
        na.keyframes[ki].bones[bi].id == id,
        fields_distinct(na.keyframes[ki].bones[bi].fields),
        na.keyframes[ki].bones[bi].fields.len() >= 1,
        !has_element(na.keyframes[ki].bones[bi].fields, el),
        forall|e2: AnimElement|
            e2 != el ==> #[trigger] has_element(na.keyframes[ki].bones[bi].fields, e2)
                == has_element(oa.keyframes[ki].bones[bi].fields, e2),
        forall|e2: AnimElement|
            e2 != el && has_element(oa.keyframes[ki].bones[bi].fields, e2)
                ==> #[trigger] field_value(na.keyframes[ki].bones[bi].fields, e2) == field_value(
                oa.keyframes[ki].bones[bi].fields,
                e2,
            ),
    ensures
        animation_wf(na),
        anim_lookup(na, oa.keyframes[ki].frame, id, el) is None,
        forall|f2: int, id2: int, e2: AnimElement|
            !(f2 == oa.keyframes[ki].frame && id2 == id && e2 == el) ==> #[trigger] anim_lookup(
                na,
                f2,
                id2,
                e2,
            ) == anim_lookup(oa, f2, id2, e2),
        forall|f2: int|
            #[trigger] has_frame(na.keyframes, f2) == has_frame(oa.keyframes, f2),
{
    let okfs = oa.keyframes;
    let nkfs = na.keyframes;
    let frame = okfs[ki].frame;
    let ok = okfs[ki].bones;
    let nk = nkfs[ki].bones;
    assert forall|j: int| 0 <= j < nkfs.len() implies (#[trigger] nkfs[j]).frame
        == okfs[j].frame by {}
    assert(frames_sorted(nkfs));
    assert forall|f2: int| #[trigger] has_frame(nkfs, f2) == has_frame(okfs, f2) by {
        if has_frame(nkfs, f2) {
            let w = choose|k: int| 0 <= k < nkfs.len() && (#[trigger] nkfs[k]).frame == f2;
            assert(okfs[w].frame == f2);
        }
        if has_frame(okfs, f2) {
            let w = choose|k: int| 0 <= k < okfs.len() && (#[trigger] okfs[k]).frame == f2;
            assert(nkfs[w].frame == f2);
        }
    }
    assert(keyframe_wf(okfs[ki]));
    assert forall|x: int| 0 <= x < nk.len() implies (#[trigger] nk[x]).id == ok[x].id by {}
    assert(bone_entries_distinct(nk));
    assert(anim_bone_wf(nk[bi]));
    assert forall|x: int| 0 <= x < nk.len() implies anim_bone_wf(#[trigger] nk[x]) by {
        if x != bi {
            assert(nk[x] == ok[x]);
            assert(anim_bone_wf(ok[x]));
        }
    }
    assert(keyframe_wf(nkfs[ki]));
    assert forall|j: int| 0 <= j < nkfs.len() implies keyframe_wf(#[trigger] nkfs[j]) by {
        if j != ki {
            assert(nkfs[j] == okfs[j]);
            assert(keyframe_wf(okfs[j]));
        }
    }
    assert(animation_wf(na));
    lemma_frame_unique(okfs, frame, ki);
    lemma_frame_unique(nkfs, frame, ki);
    lemma_bone_entry_unique(ok, id, bi);
    lemma_bone_entry_unique(nk, id, bi);
    assert(anim_lookup(na, frame, id, el) is None);
    assert forall|f2: int, id2: int, e2: AnimElement|
        !(f2 == frame && id2 == id && e2 == el) implies #[trigger] anim_lookup(na, f2, id2, e2)
        == anim_lookup(oa, f2, id2, e2) by {
        if f2 != frame {
            if has_frame(okfs, f2) {
                let fi = frame_index(okfs, f2);
                assert(0 <= fi < okfs.len() && okfs[fi].frame == f2);
                assert(fi != ki);
                assert(nkfs[fi] == okfs[fi]);
                lemma_frame_unique(nkfs, f2, fi);
            }
        } else {
            if id2 != id {
                if has_bone_entry(ok, id2) {
                    let w = bone_entry_index(ok, id2);
                    assert(0 <= w < ok.len() && ok[w].id == id2);
                    assert(w != bi);
                    assert(nk[w] == ok[w]);
                    lemma_bone_entry_unique(nk, id2, w);
                } else {
                    if has_bone_entry(nk, id2) {
                        let w = choose|k: int| 0 <= k < nk.len() && (#[trigger] nk[k]).id == id2;
                        assert(ok[w].id == id2);
                        assert(false);
                    }
                }
            }
        }
    }
}

/// After removing a whole bone entry (which held nothing but `el`), every
/// triple of that bone at that frame reads nothing; the rest is unchanged.
proof fn lemma_kf_entry_removed(
    oa: AnimationView,
    na: AnimationView,
    ki: int,
    bi: int,
    id: int,
    el: AnimElement,
)
    requires
        animation_wf(oa),
        0 <= ki < oa.keyframes.len(),
        na.name == oa.name,
        na.fps == oa.fps,
        na.keyframes.len() == oa.keyframes.len(),
        forall|j: int|
            0 <= j < oa.keyframes.len() && j != ki ==> na.keyframes[j] == oa.keyframes[j],
        na.keyframes[ki].frame == oa.keyframes[ki].frame,
        0 <= bi < oa.keyframes[ki].bones.len(),
        oa.keyframes[ki].bones[bi].id == id,
        na.keyframes[ki].bones == oa.keyframes[ki].bones.remove(bi),
        na.keyframes[ki].bones.len() >= 1,
        forall|e2: AnimElement|
            e2 != el ==> !has_element(oa.keyframes[ki].bones[bi].fields, e2),
    ensures
        animation_wf(na),
        anim_lookup(na, oa.keyframes[ki].frame, id, el) is None,
        forall|f2: int, id2: int, e2: AnimElement|
            !(f2 == oa.keyframes[ki].frame && id2 == id && e2 == el) ==> #[trigger] anim_lookup(
                na,
                f2,
                id2,
                e2,
            ) == anim_lookup(oa, f2, id2, e2),
        forall|f2: int|
            #[trigger] has_frame(na.keyframes, f2) == has_frame(oa.keyframes, f2),
{
    let okfs = oa.keyframes;
    let nkfs = na.keyframes;
    let frame = okfs[ki].frame;
    let ok = okfs[ki].bones;
    let nk = nkfs[ki].bones;
    assert forall|j: int| 0 <= j < nkfs.len() implies (#[trigger] nkfs[j]).frame
        == okfs[j].frame by {}
    assert(frames_sorted(nkfs));
    assert forall|f2: int| #[trigger] has_frame(nkfs, f2) == has_frame(okfs, f2) by {
        if has_frame(nkfs, f2) {
            let w = choose|k: int| 0 <= k < nkfs.len() && (#[trigger] nkfs[k]).frame == f2;
            assert(okfs[w].frame == f2);
        }
        if has_frame(okfs, f2) {
            let w = choose|k: int| 0 <= k < okfs.len() && (#[trigger] okfs[k]).frame == f2;
            assert(nkfs[w].frame == f2);
        }
    }
    assert(keyframe_wf(okfs[ki]));
    assert forall|x: int| 0 <= x < nk.len() implies #[trigger] nk[x] == ok[if x < bi {
        x
    } else {
        x + 1
    }] by {}
    assert(bone_entries_distinct(nk));
    assert forall|x: int| 0 <= x < nk.len() implies anim_bone_wf(#[trigger] nk[x]) by {
        if x < bi {
            assert(anim_bone_wf(ok[x]));
        } else {
            assert(anim_bone_wf(ok[x + 1]));
        }
    }
    assert(keyframe_wf(nkfs[ki]));
    assert forall|j: int| 0 <= j < nkfs.len() implies keyframe_wf(#[trigger] nkfs[j]) by {
        if j != ki {
            assert(nkfs[j] == okfs[j]);
            assert(keyframe_wf(okfs[j]));
        }
    }
    assert(animation_wf(na));
    lemma_frame_unique(okfs, frame, ki);
    lemma_frame_unique(nkfs, frame, ki);
    lemma_bone_entry_unique(ok, id, bi);
    if has_bone_entry(nk, id) {
        let w = choose|k: int| 0 <= k < nk.len() && (#[trigger] nk[k]).id == id;
        if w < bi {
            assert(ok[w].id == id);
            assert(false);
        } else {
            assert(ok[w + 1].id == id);
            assert(false);
        }
    }
    assert(anim_lookup(na, frame, id, el) is None);
    assert forall|f2: int, id2: int, e2: AnimElement|
        !(f2 == frame && id2 == id && e2 == el) implies #[trigger] anim_lookup(na, f2, id2, e2)
        == anim_lookup(oa, f2, id2, e2) by {
        if f2 != frame {
            if has_frame(okfs, f2) {
                let fi = frame_index(okfs, f2);
                assert(0 <= fi < okfs.len() && okfs[fi].frame == f2);
                assert(fi != ki);
                assert(nkfs[fi] == okfs[fi]);
                lemma_frame_unique(nkfs, f2, fi);
            }
        } else {
            if id2 != id {
                if has_bone_entry(ok, id2) {
                    let w = bone_entry_index(ok, id2);
                    assert(0 <= w < ok.len() && ok[w].id == id2);
                    assert(w != bi);
                    if w < bi {
                        assert(nk[w] == ok[w]);
                        lemma_bone_entry_unique(nk, id2, w);
                    } else {
                        assert(nk[w - 1] == ok[w]);
                        lemma_bone_entry_unique(nk, id2, w - 1);
                    }
                } else {
                    if has_bone_entry(nk, id2) {
                        let w = choose|k: int| 0 <= k < nk.len() && (#[trigger] nk[k]).id == id2;
                        if w < bi {
                            assert(ok[w].id == id2);
                        } else {
                            assert(ok[w + 1].id == id2);
                        }
                        assert(false);
                    }
                }
            }
            // id2 == id: both sides read nothing for e2 != el
        }
    }
}

/// After removing a whole keyframe (which held nothing but bone `id`'s
/// single element `el`), its frame is gone; everything else is unchanged.
proof fn lemma_kf_removed(oa: AnimationView, na: AnimationView, ki: int, id: int, el: AnimElement)
    requires
        animation_wf(oa),
        0 <= ki < oa.keyframes.len(),
        na.name == oa.name,
        na.fps == oa.fps,
        na.keyframes == oa.keyframes.remove(ki),
        oa.keyframes[ki].bones.len() == 1,
        oa.keyframes[ki].bones[0].id == id,
        forall|e2: AnimElement|
            e2 != el ==> !has_element(oa.keyframes[ki].bones[0].fields, e2),
    ensures
        animation_wf(na),
        anim_lookup(na, oa.keyframes[ki].frame, id, el) is None,
        forall|f2: int, id2: int, e2: AnimElement|
            !(f2 == oa.keyframes[ki].frame && id2 == id && e2 == el) ==> #[trigger] anim_lookup(
                na,
                f2,
                id2,
                e2,
            ) == anim_lookup(oa, f2, id2, e2),
        forall|f2: int|
            #[trigger] has_frame(na.keyframes, f2) == (has_frame(oa.keyframes, f2) && f2
                != oa.keyframes[ki].frame),
{
    let okfs = oa.keyframes;
    let nkfs = na.keyframes;
    let frame = okfs[ki].frame;
    let ok = okfs[ki].bones;
    assert forall|x: int| 0 <= x < nkfs.len() implies #[trigger] nkfs[x] == okfs[if x < ki {
        x
    } else {
        x + 1
    }] by {}
    assert(frames_sorted(nkfs));
    assert forall|j: int| 0 <= j < nkfs.len() implies keyframe_wf(#[trigger] nkfs[j]) by {
        if j < ki {
            assert(keyframe_wf(okfs[j]));
        } else {
            assert(keyframe_wf(okfs[j + 1]));
        }
    }
    assert(animation_wf(na));
    lemma_frame_unique(okfs, frame, ki);
    assert forall|f2: int| #[trigger] has_frame(nkfs, f2) == (has_frame(okfs, f2) && f2
        != frame) by {
        if has_frame(nkfs, f2) {
            let w = choose|k: int| 0 <= k < nkfs.len() && (#[trigger] nkfs[k]).frame == f2;
            if w < ki {
                assert(okfs[w].frame == f2);
                if f2 == frame {
                    lemma_frame_unique(okfs, frame, w);
                }
            } else {
                assert(okfs[w + 1].frame == f2);
                if f2 == frame {
                    lemma_frame_unique(okfs, frame, w + 1);
                }
            }
        }
        if has_frame(okfs, f2) && f2 != frame {
            let w = choose|k: int| 0 <= k < okfs.len() && (#[trigger] okfs[k]).frame == f2;
            assert(w != ki);
            if w < ki {
                assert(nkfs[w].frame == f2);
            } else {
                assert(nkfs[w - 1].frame == f2);
            }
        }
    }
    assert(anim_lookup(na, frame, id, el) is None);
    assert forall|f2: int, id2: int, e2: AnimElement|
        !(f2 == frame && id2 == id && e2 == el) implies #[trigger] anim_lookup(na, f2, id2, e2)
        == anim_lookup(oa, f2, id2, e2) by {
        if f2 != frame {
            if has_frame(okfs, f2) {
                let fi = frame_index(okfs, f2);
                assert(0 <= fi < okfs.len() && okfs[fi].frame == f2);
                assert(fi != ki);
                if fi < ki {
                    assert(nkfs[fi] == okfs[fi]);
                    lemma_frame_unique(nkfs, f2, fi);
                } else {
                    assert(nkfs[fi - 1] == okfs[fi]);
                    lemma_frame_unique(nkfs, f2, fi - 1);
                }
            }
        } else {
            // the removed keyframe held only (id, el)
            assert(!has_frame(nkfs, frame));
            lemma_bone_entry_unique(ok, id, 0);
            if id2 != id {
                if has_bone_entry(ok, id2) {
                    let w = choose|k: int| 0 <= k < ok.len() && (#[trigger] ok[k]).id == id2;
                    assert(w == 0);
                    assert(false);
                }
            }
        }
    }
}

} // verus!

verus! {

impl Animation {
    /// Remove the change stored for (frame, bone, element), cascading:
    /// an emptied bone entry leaves its keyframe, an emptied keyframe
    /// leaves the animation. Returns the removed value.
    pub fn remove_frame_field(&mut self, bone_id: i32, element: AnimElement, frame: i32) -> (r:
        Option<i64>)
        requires
            animation_wf(old(self)@),
        ensures
            animation_wf(final(self)@),
            final(self)@.name == old(self)@.name,
            final(self)@.fps == old(self)@.fps,
            r == anim_lookup(old(self)@, frame as int, bone_id as int, element),
            anim_lookup(final(self)@, frame as int, bone_id as int, element) is None,
            r is None ==> final(self)@ == old(self)@,
            forall|f2: int, id2: int, e2: AnimElement|
                !(f2 == frame as int && id2 == bone_id as int && e2 == element)
                    ==> #[trigger] anim_lookup(final(self)@, f2, id2, e2) == anim_lookup(
                    old(self)@,
                    f2,
                    id2,
                    e2,
                ),
            forall|f2: int|
                f2 != frame as int ==> #[trigger] has_frame(final(self)@.keyframes, f2)
                    == has_frame(old(self)@.keyframes, f2),
    {
        let ghost oa = self@;
        let ghost okfs = oa.keyframes;
        let found = self.find_keyframe(frame);
        let ki = match found {
            None => {
                return None;
            },
            Some(ki) => ki,
        };
        let ghost okf = okfs[ki as int];
        proof {
            assert(okf.frame == frame as int);
            assert(keyframe_wf(okf));
        }
        let mut kf = self.keyframes[ki].duplicate();
        let mut bi_found: Option<usize> = None;
        let mut b: usize = 0;
        while b < kf.bones.len() && bi_found.is_none()
            invariant
                kf@ == okf,
                0 <= b <= kf.bones@.len(),
                bi_found is None ==> forall|k: int|
                    0 <= k < b ==> (#[trigger] kf.bones@[k]).id != bone_id,
                bi_found matches Some(bi) ==> bi < kf.bones@.len() && kf.bones@[bi as int].id
                    == bone_id,
            decreases kf.bones@.len() - b + (if bi_found is None { 1int } else { 0int }),
        {
            if kf.bones[b].id == bone_id {
                bi_found = Some(b);
            } else {
                b = b + 1;
            }
        }
        let bi = match bi_found {
            None => {
                proof {
                    if has_bone_entry(okf.bones, bone_id as int) {
                        let w = choose|k: int|
                            0 <= k < okf.bones.len() && (#[trigger] okf.bones[k]).id
                                == bone_id as int;
                        assert(kf.bones@[w]@.id == bone_id as int);
                        assert(false);
                    }
                }
                return None;
            },
            Some(bi) => bi,
        };
        proof {
            assert(okf.bones[bi as int] == kf.bones@[bi as int]@);
            assert(anim_bone_wf(okf.bones[bi as int]));
            lemma_frame_unique(okfs, frame as int, ki as int);
            lemma_bone_entry_unique(okf.bones, bone_id as int, bi as int);
        }
        let mut ab = kf.bones[bi].duplicate();
        let value = match ab.find_field(element) {
            None => {
                return None;
            },
            Some(v) => v,
        };
        ab.remove_field(element);
        let ghost abv = ab@;
        if ab.fields.len() == 0 {
            // the entry is empty: it leaves the keyframe
            kf.bones.remove(bi);
            proof {
                assert(kf@.bones =~= okf.bones.remove(bi as int));
                assert forall|e2: AnimElement| e2 != element implies !has_element(
                    okf.bones[bi as int].fields,
                    e2,
                ) by {
                    assert(has_element(abv.fields, e2) == has_element(
                        okf.bones[bi as int].fields,
                        e2,
                    ));
                    if has_element(abv.fields, e2) {
                        let w = choose|k: int|
                            0 <= k < abv.fields.len() && (#[trigger] abv.fields[k]).element == e2;
                        assert(false);
                    }
                }
            }
            if kf.bones.len() == 0 {
                // the keyframe is empty: it leaves the animation
                proof {
                    assert(okf.bones.len() == 1);
                    assert(bi as int == 0);
                }
                self.keyframes.remove(ki);
                proof {
                    let na = self@;
                    assert(na.keyframes =~= okfs.remove(ki as int));
                    lemma_kf_removed(oa, na, ki as int, bone_id as int, element);
                }
                return Some(value);
            }
            let ghost nkf = kf@;
            self.keyframes[ki] = kf;
            proof {
                let na = self@;
                assert(na.keyframes =~= okfs.update(ki as int, nkf));
                lemma_kf_entry_removed(oa, na, ki as int, bi as int, bone_id as int, element);
            }
            return Some(value);
        }
        kf.bones[bi] = ab;
        proof {
            assert(kf@.bones =~= okf.bones.update(bi as int, abv));
        }
        let ghost nkf = kf@;
        self.keyframes[ki] = kf;
        proof {
            let na = self@;
            assert(na.keyframes =~= okfs.update(ki as int, nkf));
            lemma_kf_field_removed(oa, na, ki as int, bi as int, bone_id as int, element);
        }
        Some(value)
    }

    /// Move one field's change from one frame to another: remove it at the
    /// origin (cascading as needed) and merge it in at the destination.
    /// Dropping onto the origin frame itself, onto a negative frame, or
    /// moving a change that is not there, is refused as a no-op.
    pub fn move_keyframe_field(
        &mut self,
        bone_id: i32,
        element: AnimElement,
        from_frame: i32,
        to_frame: i32,
    ) -> (r: bool)
        requires
            animation_wf(old(self)@),
            bone_id >= 0,
        ensures
            animation_wf(final(self)@),
            final(self)@.name == old(self)@.name,
            final(self)@.fps == old(self)@.fps,
            r == (from_frame != to_frame && to_frame >= 0 && anim_lookup(
                old(self)@,
                from_frame as int,
                bone_id as int,
                element,
            ) is Some),
            !r ==> final(self)@ == old(self)@,
            r ==> anim_lookup(final(self)@, to_frame as int, bone_id as int, element)
                == anim_lookup(old(self)@, from_frame as int, bone_id as int, element),
            r ==> anim_lookup(final(self)@, from_frame as int, bone_id as int, element) is None,
            r ==> forall|f2: int, id2: int, e2: AnimElement|
                !((f2 == from_frame as int || f2 == to_frame as int) && id2 == bone_id as int && e2
                    == element) ==> #[trigger] anim_lookup(final(self)@, f2, id2, e2)
                    == anim_lookup(old(self)@, f2, id2, e2),
    {
        if from_frame == to_frame || to_frame < 0 {
            return false;
        }
        let removed = self.remove_frame_field(bone_id, element, from_frame);
        let value = match removed {
            None => {
                return false;
            },
            Some(v) => v,
        };
        let ghost mid = self@;
        self.set_frame_field(bone_id, element, value, to_frame);
        proof {
            assert(anim_lookup(self@, from_frame as int, bone_id as int, element) == anim_lookup(
                mid,
                from_frame as int,
                bone_id as int,
                element,
            ));
        }
        true
    }
}

} // verus!

verus! {

impl Animation {
    /// One tick of timeline playback: count ticks until a frame's worth
    /// (at 60 ticks per second) has passed, then step to the next frame,
    /// wrapping to frame 0 past the last keyframe. Returns the new
    /// (elapsed, frame) pair.
    pub fn advance_playback(&self, elapsed: i32, frame: i32) -> (r: (i32, i32))
        requires
            animation_wf(self@),
            self@.keyframes.len() > 0,
            0 <= elapsed < i32::MAX,
            0 <= frame < i32::MAX,
        ensures
            ({
                let per_frame = 60int / self@.fps;
                if elapsed + 1 > per_frame {
                    r.0 == 0 && r.1 == (if frame + 1 > self@.keyframes.last().frame {
                        0int
                    } else {
                        frame + 1
                    })
                } else {
                    r.0 == elapsed + 1 && r.1 == frame
                }
            }),
    {
        let e = elapsed + 1;
        if e > 60 / self.fps {
            let n = self.keyframes.len();
            let last = self.keyframes[n - 1].frame;
            proof {
                assert(self@.keyframes[n - 1] == self.keyframes@[n - 1]@);
                assert(self@.keyframes.last().frame == last as int);
            }
            if frame + 1 > last {
                (0, 0)
            } else {
                (0, frame + 1)
            }
        } else {
            (e, frame)
        }
    }
}

} // verus!

verus! {

/// What one keyframe stores for (bone, element), if anything.
pub open spec fn kf_lookup(kf: KeyframeView, id: int, el: AnimElement) -> Option<i64> {
    if has_bone_entry(kf.bones, id) {
        let ab = kf.bones[bone_entry_index(kf.bones, id)];
        if has_element(ab.fields, el) {
            Some(field_value(ab.fields, el))
        } else {
            None
        }
    } else {
        None
    }
}

/// Removing a whole keyframe drops its frame and changes nothing else.
proof fn lemma_whole_kf_removed(oa: AnimationView, na: AnimationView, ki: int)
    requires
        animation_wf(oa),
        0 <= ki < oa.keyframes.len(),
        na.name == oa.name,
        na.fps == oa.fps,
        na.keyframes == oa.keyframes.remove(ki),
    ensures
        animation_wf(na),
        forall|f2: int|
            #[trigger] has_frame(na.keyframes, f2) == (has_frame(oa.keyframes, f2) && f2
                != oa.keyframes[ki].frame),
        forall|f2: int, id2: int, e2: AnimElement|
            f2 != oa.keyframes[ki].frame ==> #[trigger] anim_lookup(na, f2, id2, e2)
                == anim_lookup(oa, f2, id2, e2),
{
    let okfs = oa.keyframes;
    let nkfs = na.keyframes;
    let frame = okfs[ki].frame;
    assert forall|x: int| 0 <= x < nkfs.len() implies #[trigger] nkfs[x] == okfs[if x < ki {
        x
    } else {
        x + 1
    }] by {}
    assert(frames_sorted(nkfs));
    assert forall|j: int| 0 <= j < nkfs.len() implies keyframe_wf(#[trigger] nkfs[j]) by {
        if j < ki {
            assert(keyframe_wf(okfs[j]));
        } else {
            assert(keyframe_wf(okfs[j + 1]));
        }
    }
    assert(animation_wf(na));
    lemma_frame_unique(okfs, frame, ki);
    assert forall|f2: int| #[trigger] has_frame(nkfs, f2) == (has_frame(okfs, f2) && f2
        != frame) by {
        if has_frame(nkfs, f2) {
            let w = choose|k: int| 0 <= k < nkfs.len() && (#[trigger] nkfs[k]).frame == f2;
            if w < ki {
                assert(okfs[w].frame == f2);
                if f2 == frame {
                    lemma_frame_unique(okfs, frame, w);
                }
            } else {
                assert(okfs[w + 1].frame == f2);
                if f2 == frame {
                    lemma_frame_unique(okfs, frame, w + 1);
                }
            }
        }
        if has_frame(okfs, f2) && f2 != frame {
            let w = choose|k: int| 0 <= k < okfs.len() && (#[trigger] okfs[k]).frame == f2;
            assert(w != ki);
            if w < ki {
                assert(nkfs[w].frame == f2);
            } else {
                assert(nkfs[w - 1].frame == f2);
            }
        }
    }
    assert forall|f2: int, id2: int, e2: AnimElement|
        f2 != frame implies #[trigger] anim_lookup(na, f2, id2, e2) == anim_lookup(
        oa,
        f2,
        id2,
        e2,
    ) by {
        if has_frame(okfs, f2) {
            let fi = frame_index(okfs, f2);
            assert(0 <= fi < okfs.len() && okfs[fi].frame == f2);
            assert(fi != ki);
            if fi < ki {
                assert(nkfs[fi] == okfs[fi]);
                lemma_frame_unique(nkfs, f2, fi);
            } else {
                assert(nkfs[fi - 1] == okfs[fi]);
                lemma_frame_unique(nkfs, f2, fi - 1);
            }
        }
    }
}

/// Inserting a whole keyframe at its sorted position adds its frame, whose
/// content is the keyframe's, and changes nothing else.
proof fn lemma_whole_kf_inserted(oa: AnimationView, na: AnimationView, pos: int, kf: KeyframeView)
    requires
        animation_wf(oa),
        0 <= pos <= oa.keyframes.len(),
        na.name == oa.name,
        na.fps == oa.fps,
        na.keyframes == oa.keyframes.insert(pos, kf),
        keyframe_wf(kf),
        !has_frame(oa.keyframes, kf.frame),
        forall|k: int| 0 <= k < pos ==> (#[trigger] oa.keyframes[k]).frame < kf.frame,
        pos < oa.keyframes.len() ==> oa.keyframes[pos].frame > kf.frame,
    ensures
        animation_wf(na),
        forall|f2: int|
            #[trigger] has_frame(na.keyframes, f2) == (has_frame(oa.keyframes, f2) || f2
                == kf.frame),
        forall|f2: int, id2: int, e2: AnimElement|
            f2 != kf.frame ==> #[trigger] anim_lookup(na, f2, id2, e2) == anim_lookup(
                oa,
                f2,
                id2,
                e2,
            ),
        forall|id2: int, e2: AnimElement|
            #[trigger] anim_lookup(na, kf.frame, id2, e2) == kf_lookup(kf, id2, e2),
{
    let okfs = oa.keyframes;
    let nkfs = na.keyframes;
    assert forall|x: int| 0 <= x < nkfs.len() implies #[trigger] nkfs[x] == (if x < pos {
        okfs[x]
    } else if x == pos {
        kf
    } else {
        okfs[x - 1]
    }) by {}
    assert forall|i: int, j: int|
        #![trigger nkfs[i], nkfs[j]]
        0 <= i < j < nkfs.len() implies nkfs[i].frame < nkfs[j].frame by {
        if i < pos && j < pos {
        } else if i < pos && j == pos {
        } else if i < pos {
            if j - 1 == pos {
                assert(okfs[j - 1].frame > kf.frame);
            } else {
                assert(okfs[pos].frame <= okfs[j - 1].frame);
            }
        } else if i == pos {
            if j - 1 == pos {
            } else {
                assert(okfs[pos].frame <= okfs[j - 1].frame);
            }
        } else {
        }
    }
    assert(frames_sorted(nkfs));
    assert forall|j: int| 0 <= j < nkfs.len() implies keyframe_wf(#[trigger] nkfs[j]) by {
        if j < pos {
            assert(keyframe_wf(okfs[j]));
        } else if j > pos {
            assert(keyframe_wf(okfs[j - 1]));
        }
    }
    assert(animation_wf(na));
    lemma_frame_unique(nkfs, kf.frame, pos);
    assert forall|f2: int| #[trigger] has_frame(nkfs, f2) == (has_frame(okfs, f2) || f2
        == kf.frame) by {
        if has_frame(nkfs, f2) {
            let w = choose|k: int| 0 <= k < nkfs.len() && (#[trigger] nkfs[k]).frame == f2;
            if w < pos {
                assert(okfs[w].frame == f2);
            } else if w > pos {
                assert(okfs[w - 1].frame == f2);
            }
        }
        if has_frame(okfs, f2) {
            let w = choose|k: int| 0 <= k < okfs.len() && (#[trigger] okfs[k]).frame == f2;
            if w < pos {
                assert(nkfs[w].frame == f2);
            } else {
                assert(nkfs[w + 1].frame == f2);
            }
        }
        if f2 == kf.frame {
            assert(nkfs[pos].frame == f2);
        }
    }
    assert forall|f2: int, id2: int, e2: AnimElement|
        f2 != kf.frame implies #[trigger] anim_lookup(na, f2, id2, e2) == anim_lookup(
        oa,
        f2,
        id2,
        e2,
    ) by {
        if has_frame(okfs, f2) {
            let fi = frame_index(okfs, f2);
            assert(0 <= fi < okfs.len() && okfs[fi].frame == f2);
            if fi < pos {
                assert(nkfs[fi] == okfs[fi]);
                lemma_frame_unique(nkfs, f2, fi);
            } else {
                assert(nkfs[fi + 1] == okfs[fi]);
                lemma_frame_unique(nkfs, f2, fi + 1);
            }
        }
    }
}

impl Animation {
    /// Re-time a whole keyframe: move the keyframe at `from_frame`, with
    /// everything it holds, to the unoccupied `to_frame`, keeping the
    /// timeline sorted. Dropping it onto an occupied or negative frame, or
    /// moving a missing keyframe, is refused as a no-op.
    pub fn retime_keyframe(&mut self, from_frame: i32, to_frame: i32) -> (r: bool)
        requires
            animation_wf(old(self)@),
        ensures
            animation_wf(final(self)@),
            final(self)@.name == old(self)@.name,
            final(self)@.fps == old(self)@.fps,
            r == (to_frame >= 0 && has_frame(old(self)@.keyframes, from_frame as int) && !has_frame(
                old(self)@.keyframes,
                to_frame as int,
            )),
            !r ==> final(self)@ == old(self)@,
            r ==> ({
                let o = old(self)@;
                let n = final(self)@;
                &&& forall|f2: int|
                    #[trigger] has_frame(n.keyframes, f2) == ((has_frame(o.keyframes, f2) && f2
                        != from_frame as int) || f2 == to_frame as int)
                &&& forall|f2: int, id2: int, e2: AnimElement|
                    f2 != from_frame as int && f2 != to_frame as int ==> #[trigger] anim_lookup(
                        n,
                        f2,
                        id2,
                        e2,
                    ) == anim_lookup(o, f2, id2, e2)
                &&& forall|id2: int, e2: AnimElement|
                    #[trigger] anim_lookup(n, to_frame as int, id2, e2) == anim_lookup(
                        o,
                        from_frame as int,
                        id2,
                        e2,
                    )
                &&& !has_frame(n.keyframes, from_frame as int)
            }),
    {
        let ghost oa = self@;
        let ghost okfs = oa.keyframes;
        if to_frame < 0 {
            return false;
        }
        let ki = match self.find_keyframe(from_frame) {
            None => {
                return false;
            },
            Some(k) => k,
        };
        if self.find_keyframe(to_frame).is_some() {
            return false;
        }
        let ghost okf = okfs[ki as int];
        proof {
            assert(okf.frame == from_frame as int);
            assert(keyframe_wf(okf));
            lemma_frame_unique(okfs, from_frame as int, ki as int);
        }
        let old_kf = self.keyframes.remove(ki);
        let moved = Keyframe { frame: to_frame, bones: old_kf.bones };
        let ghost mid = self@;
        proof {
            assert(mid.keyframes =~= okfs.remove(ki as int));
            lemma_whole_kf_removed(oa, mid, ki as int);
            assert(moved@.bones == okf.bones);
            assert(keyframe_wf(moved@));
            assert(!has_frame(mid.keyframes, to_frame as int));
        }
        let mut pos: usize = 0;
        while pos < self.keyframes.len() && self.keyframes[pos].frame < to_frame
            invariant
                self@ == mid,
                mid.keyframes.len() == self.keyframes@.len(),
                0 <= pos <= mid.keyframes.len(),
                forall|k: int|
                    0 <= k < pos ==> (#[trigger] mid.keyframes[k]).frame < to_frame as int,
            decreases mid.keyframes.len() - pos,
        {
            proof {
                assert(mid.keyframes[pos as int] == self.keyframes@[pos as int]@);
            }
            pos = pos + 1;
        }
        proof {
            if pos < mid.keyframes.len() {
                assert(mid.keyframes[pos as int].frame >= to_frame as int);
                if mid.keyframes[pos as int].frame == to_frame as int {
                    assert(has_frame(mid.keyframes, to_frame as int));
                    assert(false);
                }
            }
        }
        self.keyframes.insert(pos, moved);
        proof {
            let na = self@;
            assert(na.keyframes =~= mid.keyframes.insert(pos as int, moved@));
            lemma_whole_kf_inserted(mid, na, pos as int, moved@);
            assert forall|id2: int, e2: AnimElement|
                #[trigger] anim_lookup(na, to_frame as int, id2, e2) == anim_lookup(
                oa,
                from_frame as int,
                id2,
                e2,
            ) by {
                assert(anim_lookup(na, to_frame as int, id2, e2) == kf_lookup(moved@, id2, e2));
                assert(anim_lookup(oa, from_frame as int, id2, e2) == kf_lookup(okf, id2, e2));
            }
        }
        true
    }
}

} // verus!
