use skelform_core::session::Session;

fn encode_png(pixels: Vec<u8>, w: u32, h: u32) -> Vec<u8> {
    let img = image::RgbaImage::from_raw(w, h, pixels).unwrap();
    let mut out: Vec<u8> = Vec::new();
    image::DynamicImage::ImageRgba8(img)
        .write_to(&mut std::io::Cursor::new(&mut out), image::ImageFormat::Png)
        .unwrap();
    out
}

#[test]
fn load_texture_decodes_encoded_image() {
    let pixels = vec![10u8, 20, 30, 255, 40, 50, 60, 255];
    let bytes = encode_png(pixels.clone(), 2, 1);
    // the encoded stream differs from the raw pixels; only a real decode
    // recovers them
    assert_ne!(bytes, pixels);
    let mut s = Session::new();
    s.create_bone();
    assert!(s.load_texture_from_bytes(0, &bytes));
    assert_eq!(s.armature.textures.len(), 1);
    assert_eq!(s.armature.textures[0].width, 2);
    assert_eq!(s.armature.textures[0].height, 1);
    assert_eq!(s.armature.textures[0].pixels, pixels);
    assert_eq!(s.armature.bones[0].tex_idx, 0);
}

#[test]
fn load_texture_refuses_undecodable_bytes() {
    let mut s = Session::new();
    s.create_bone();
    let junk = vec![1u8, 2, 3, 4, 5];
    assert!(!s.load_texture_from_bytes(0, &junk));
    assert_eq!(s.armature.textures.len(), 0);
    assert_eq!(s.armature.bones[0].tex_idx, usize::MAX);
}

#[test]
fn load_texture_refuses_missing_bone() {
    let bytes = encode_png(vec![0u8, 0, 0, 255], 1, 1);
    let mut s = Session::new();
    assert!(!s.load_texture_from_bytes(0, &bytes));
    assert_eq!(s.armature.textures.len(), 0);
}
