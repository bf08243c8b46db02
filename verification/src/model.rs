//! Entity model: bones, armatures, textures, animations and keyframes.
//!
//! Animatable quantities are fixed-point integers (`i64`); a value of
//! [`SCALE_ONE`] stands for 1.0. Callers pick the conversion when they bring
//! their own floating-point values to the library.

use vstd::prelude::*;

verus! {

/// Fixed-point representation of 1.0 (milli-units).
pub const SCALE_ONE: i64 = 1000;

/// A 2D vector with fixed-point integer components.
#[derive(Clone, Copy, PartialEq, Eq, Structural, Debug)]
pub struct Vec2 {
    pub x: i64,
    pub y: i64,
}

impl Vec2 {
    pub fn new(x: i64, y: i64) -> (v: Vec2)
        ensures
            v == (Vec2 { x, y }),
    {
        Vec2 { x, y }
    }

    pub fn zero() -> (v: Vec2)
        ensures
            v == (Vec2 { x: 0, y: 0 }),
    {
        Vec2 { x: 0, y: 0 }
    }
}

/// One animatable scalar channel of a bone.
#[derive(Clone, Copy, PartialEq, Eq, Structural, Debug)]
pub enum AnimElement {
    PositionX,
    PositionY,
    ScaleX,
    ScaleY,
    PivotX,
    PivotY,
    Rotation,
    Zindex,
}

/// A named transform node of the armature hierarchy.
///
/// `parent_id == -1` marks a root. `tex_idx == usize::MAX` marks a bone with
/// no texture.
pub struct Bone {
    pub id: i32,
    pub name: String,
    pub parent_id: i32,
    pub pos: Vec2,
    pub scale: Vec2,
    pub pivot: Vec2,
    pub rot: i64,
    pub zindex: i64,
    pub tex_idx: usize,
}

impl Bone {
    /// A fresh root bone with the bind-pose defaults.
    pub fn with_defaults(id: i32, name: String) -> (b: Bone)
        ensures
            b.id == id,
            b.name == name,
            b.parent_id == -1,
            b.pos == (Vec2 { x: 0, y: 0 }),
            b.scale == (Vec2 { x: SCALE_ONE as i64, y: SCALE_ONE as i64 }),
            b.pivot == (Vec2 { x: 0, y: 0 }),
            b.rot == 0,
            b.zindex == 0,
            b.tex_idx == usize::MAX,
    {
        Bone {
            id,
            name,
            parent_id: -1,
            pos: Vec2::zero(),
            scale: Vec2::new(SCALE_ONE, SCALE_ONE),
            pivot: Vec2::zero(),
            rot: 0,
            zindex: 0,
            tex_idx: usize::MAX,
        }
    }

    /// A deep copy; `String` cloning preserves the value exactly.
    pub fn duplicate(&self) -> (r: Bone)
        ensures
            r == *self,
    {
        Bone {
            id: self.id,
            name: self.name.clone(),
            parent_id: self.parent_id,
            pos: self.pos,
            scale: self.scale,
            pivot: self.pivot,
            rot: self.rot,
            zindex: self.zindex,
            tex_idx: self.tex_idx,
        }
    }

    /// The bind-pose value of one animatable channel.
    pub open spec fn spec_bind_value(&self, el: AnimElement) -> i64 {
        match el {
            AnimElement::PositionX => self.pos.x,
            AnimElement::PositionY => self.pos.y,
            AnimElement::ScaleX => self.scale.x,
            AnimElement::ScaleY => self.scale.y,
            AnimElement::PivotX => self.pivot.x,
            AnimElement::PivotY => self.pivot.y,
            AnimElement::Rotation => self.rot,
            AnimElement::Zindex => self.zindex,
        }
    }

    /// Read one animatable channel.
    pub fn bind_value(&self, el: AnimElement) -> (v: i64)
        ensures
            v == self.spec_bind_value(el),
    {
        match el {
            AnimElement::PositionX => self.pos.x,
            AnimElement::PositionY => self.pos.y,
            AnimElement::ScaleX => self.scale.x,
            AnimElement::ScaleY => self.scale.y,
            AnimElement::PivotX => self.pivot.x,
            AnimElement::PivotY => self.pivot.y,
            AnimElement::Rotation => self.rot,
            AnimElement::Zindex => self.zindex,
        }
    }

    /// `self` with one animatable channel replaced.
    pub open spec fn spec_with_value(&self, el: AnimElement, v: i64) -> Bone {
        match el {
            AnimElement::PositionX => Bone { pos: Vec2 { x: v, ..self.pos }, ..*self },
            AnimElement::PositionY => Bone { pos: Vec2 { y: v, ..self.pos }, ..*self },
            AnimElement::ScaleX => Bone { scale: Vec2 { x: v, ..self.scale }, ..*self },
            AnimElement::ScaleY => Bone { scale: Vec2 { y: v, ..self.scale }, ..*self },
            AnimElement::PivotX => Bone { pivot: Vec2 { x: v, ..self.pivot }, ..*self },
            AnimElement::PivotY => Bone { pivot: Vec2 { y: v, ..self.pivot }, ..*self },
            AnimElement::Rotation => Bone { rot: v, ..*self },
            AnimElement::Zindex => Bone { zindex: v, ..*self },
        }
    }

    /// Write one animatable channel in place.
    pub fn set_value(&mut self, el: AnimElement, v: i64)
        ensures
            *final(self) == old(self).spec_with_value(el, v),
    {
        match el {
            AnimElement::PositionX => self.pos.x = v,
            AnimElement::PositionY => self.pos.y = v,
            AnimElement::ScaleX => self.scale.x = v,
            AnimElement::ScaleY => self.scale.y = v,
            AnimElement::PivotX => self.pivot.x = v,
            AnimElement::PivotY => self.pivot.y = v,
            AnimElement::Rotation => self.rot = v,
            AnimElement::Zindex => self.zindex = v,
        }
    }
}

/// A raw RGBA8 pixel buffer with its dimensions.
pub struct Texture {
    pub width: u32,
    pub height: u32,
    pub pixels: Vec<u8>,
}

/// One field change of one bone at one keyframe.
#[derive(Clone, Copy, PartialEq, Eq, Structural, Debug)]
pub struct AnimField {
    pub element: AnimElement,
    pub value: i64,
}

/// The sparse set of field changes of one bone at one keyframe.
pub struct AnimBone {
    pub id: i32,
    pub fields: Vec<AnimField>,
}

/// Mathematical value of an [`AnimBone`].
pub ghost struct AnimBoneView {
    pub id: int,
    pub fields: Seq<AnimField>,
}

impl View for AnimBone {
    type V = AnimBoneView;

    open spec fn view(&self) -> AnimBoneView {
        AnimBoneView { id: self.id as int, fields: self.fields@ }
    }
}

impl AnimBone {
    pub fn duplicate(&self) -> (r: AnimBone)
        ensures
            r@ == self@,
    {
        let mut fields: Vec<AnimField> = Vec::new();
        let mut i: usize = 0;
        while i < self.fields.len()
            invariant
                i <= self.fields.len(),
                fields@ == self.fields@.take(i as int),
            decreases self.fields.len() - i,
        {
            fields.push(self.fields[i]);
            i = i + 1;
        }
        proof {
            assert(fields@ =~= self.fields@);
        }
        AnimBone { id: self.id, fields }
    }
}

/// A point on the timeline holding one or more bones' field changes.
pub struct Keyframe {
    pub frame: i32,
    pub bones: Vec<AnimBone>,
}

/// Mathematical value of a [`Keyframe`].
pub ghost struct KeyframeView {
    pub frame: int,
    pub bones: Seq<AnimBoneView>,
}

impl View for Keyframe {
    type V = KeyframeView;

    open spec fn view(&self) -> KeyframeView {
        KeyframeView { frame: self.frame as int, bones: self.bones@.map_values(|b: AnimBone| b@) }
    }
}

impl Keyframe {
    pub fn duplicate(&self) -> (r: Keyframe)
        ensures
            r@ == self@,
    {
        let mut bones: Vec<AnimBone> = Vec::new();
        let mut i: usize = 0;
        while i < self.bones.len()
            invariant
                i <= self.bones.len(),
                bones@.len() == i,
                forall|j: int| 0 <= j < i ==> bones@[j]@ == #[trigger] self.bones@[j]@,
            decreases self.bones.len() - i,
        {
            bones.push(self.bones[i].duplicate());
            i = i + 1;
        }
        proof {
            assert(bones@.map_values(|b: AnimBone| b@) =~= self.bones@.map_values(
                |b: AnimBone| b@,
            ));
        }
        Keyframe { frame: self.frame, bones }
    }
}

/// A named timeline of keyframes, sorted strictly ascending by frame.
pub struct Animation {
    pub name: String,
    pub fps: i32,
    pub keyframes: Vec<Keyframe>,
}

/// Mathematical value of an [`Animation`].
pub ghost struct AnimationView {
    pub name: Seq<char>,
    pub fps: int,
    pub keyframes: Seq<KeyframeView>,
}

impl View for Animation {
    type V = AnimationView;

    open spec fn view(&self) -> AnimationView {
        AnimationView {
            name: self.name@,
            fps: self.fps as int,
            keyframes: self.keyframes@.map_values(|k: Keyframe| k@),
        }
    }
}

impl Animation {
    pub fn duplicate(&self) -> (r: Animation)
        ensures
            r@ == self@,
    {
        let mut keyframes: Vec<Keyframe> = Vec::new();
        let mut i: usize = 0;
        while i < self.keyframes.len()
            invariant
                i <= self.keyframes.len(),
                keyframes@.len() == i,
                forall|j: int| 0 <= j < i ==> keyframes@[j]@ == #[trigger] self.keyframes@[j]@,
            decreases self.keyframes.len() - i,
        {
            keyframes.push(self.keyframes[i].duplicate());
            i = i + 1;
        }
        proof {
            assert(keyframes@.map_values(|k: Keyframe| k@) =~= self.keyframes@.map_values(
                |k: Keyframe| k@,
            ));
        }
        Animation { name: self.name.clone(), fps: self.fps, keyframes }
    }
}

/// The full rig: the bone hierarchy, its textures and its animations.
pub struct Armature {
    pub bones: Vec<Bone>,
    pub textures: Vec<Texture>,
    pub animations: Vec<Animation>,
}

impl Armature {
    pub fn new() -> (a: Armature)
        ensures
            a.bones@.len() == 0,
            a.textures@.len() == 0,
            a.animations@.len() == 0,
    {
        Armature { bones: Vec::new(), textures: Vec::new(), animations: Vec::new() }
    }
}

} // verus!

verus! {

/// The decimal digit character for `d` in `0..10`.
pub open spec fn digit_char(d: int) -> char {
    if d == 1 {
        '1'
    } else if d == 2 {
        '2'
    } else if d == 3 {
        '3'
    } else if d == 4 {
        '4'
    } else if d == 5 {
        '5'
    } else if d == 6 {
        '6'
    } else if d == 7 {
        '7'
    } else if d == 8 {
        '8'
    } else if d == 9 {
        '9'
    } else {
        '0'
    }
}

/// The decimal digits of `n`, most significant first.
pub open spec fn decimal_digits(n: int) -> Seq<char>
    decreases n,
{
    if n < 10 {
        seq![digit_char(n)]
    } else {
        decimal_digits(n / 10) + seq![digit_char(n % 10)]
    }
}

fn digit_str(d: u64) -> (s: &'static str)
    requires
        d < 10,
    ensures
        s@ == seq![digit_char(d as int)],
{
    proof {
        reveal_strlit("0");
        reveal_strlit("1");
        reveal_strlit("2");
        reveal_strlit("3");
        reveal_strlit("4");
        reveal_strlit("5");
        reveal_strlit("6");
        reveal_strlit("7");
        reveal_strlit("8");
        reveal_strlit("9");
    }
    let r: &'static str = if d == 1 {
        "1"
    } else if d == 2 {
        "2"
    } else if d == 3 {
        "3"
    } else if d == 4 {
        "4"
    } else if d == 5 {
        "5"
    } else if d == 6 {
        "6"
    } else if d == 7 {
        "7"
    } else if d == 8 {
        "8"
    } else if d == 9 {
        "9"
    } else {
        "0"
    };
    proof {
        assert(r@ =~= seq![digit_char(d as int)]);
    }
    r
}

/// `n` written in decimal.
pub fn decimal_string(n: u64) -> (s: String)
    ensures
        s@ == decimal_digits(n as int),
    decreases n,
{
    if n < 10 {
        String::from_str(digit_str(n))
    } else {
        let mut s = decimal_string(n / 10);
        s.append(digit_str(n % 10));
        proof {
            assert(s@ =~= decimal_digits(n as int));
        }
        s
    }
}

/// The automatic name of the `n`-th created bone.
pub fn bone_name(n: u64) -> (s: String)
    ensures
        s@ == "bone"@ + decimal_digits(n as int),
{
    let mut s = String::from_str("bone");
    let digits = decimal_string(n);
    s.append(digits.as_str());
    s
}

} // verus!
