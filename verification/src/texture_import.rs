//! Importing image files as textures: the byte-level decode is delegated
//! to the image codec crate; what happens with the decoded pixels is
//! verified.

use vstd::prelude::*;

use crate::model::Bone;
use crate::session::Session;
use crate::session::session_wf;

verus! {

/// The RGBA8 decoding of an encoded image, as (pixels, width, height);
/// `None` when the bytes are not a decodable image. Decoding depends on
/// the bytes alone.
pub uninterp spec fn decoded_rgba(bytes: Seq<u8>) -> Option<(Seq<u8>, u32, u32)>;

/// Relies on image::load_from_memory and DynamicImage::to_rgba8: decoding
/// an image is a function of the input bytes alone, and the RGBA8 buffer
/// returned by ImageBuffer::into_raw holds exactly width * height * 4
/// bytes.
#[verifier::external_body]
fn decode_rgba(bytes: &Vec<u8>) -> (r: Option<(Vec<u8>, u32, u32)>)
    ensures
        r matches Some(t) ==> decoded_rgba(bytes@) == Some((t.0@, t.1, t.2)) && t.0@.len() == 4 * (
        t.1 as int) * (t.2 as int),
        (r is None) ==> decoded_rgba(bytes@) is None,
{
    match image::load_from_memory(bytes.as_slice()) {
        Ok(img) => {
            let rgba = img.to_rgba8();
            let w = rgba.width();
            let h = rgba.height();
            Some((rgba.into_raw(), w, h))
        },
        Err(_) => None,
    }
}

impl Session {
    /// Decode an encoded image and attach it to the bone at this position:
    /// the decoded texture is appended and the bone points at it. Refused
    /// (leaving the session unchanged) when the bytes do not decode or the
    /// position is out of range.
    pub fn load_texture_from_bytes(&mut self, bone_idx: usize, bytes: &Vec<u8>) -> (r: bool)
        requires
            session_wf(old(self)@),
        ensures
            session_wf(final(self)@),
            r == ((decoded_rgba(bytes@) is Some) && bone_idx < old(self)@.bones.len()),
            !r ==> final(self)@ == old(self)@,
            r ==> ({
                let o = old(self)@;
                let t = decoded_rgba(bytes@).unwrap();
                &&& final(self)@.textures.len() == o.textures.len() + 1
                &&& final(self)@.textures.subrange(0, o.textures.len() as int) == o.textures
                &&& final(self)@.textures.last().pixels@ == t.0
                &&& final(self)@.textures.last().width == t.1
                &&& final(self)@.textures.last().height == t.2
                &&& final(self)@.textures.last().pixels@.len() == 4 * (t.1 as int) * (t.2 as int)
                &&& final(self)@.bones[bone_idx as int].tex_idx == o.textures.len()
                &&& (forall|i: int|
                    0 <= i < o.bones.len() && i != bone_idx ==> final(self)@.bones[i] == o.bones[i])
                &&& final(self)@.animations == o.animations
            }),
    {
        match decode_rgba(bytes) {
            None => false,
            Some((pixels, width, height)) => self.set_texture(bone_idx, width, height, pixels),
        }
    }
}

} // verus!
