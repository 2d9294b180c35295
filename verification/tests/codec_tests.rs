use texpack::codec::encode_texture_data;
use texpack::{read_texture_data, Raster, TexError, TextureDataArgs, TextureFormat};

fn decode(
    payload: &[u8],
    width: u32,
    height: u32,
    format: TextureFormat,
) -> Result<Raster, TexError> {
    let args = TextureDataArgs { width, height, texture_format: format };
    read_texture_data(payload, &args)
}

#[test]
fn r8g8b8a8_round_trip_is_exact() {
    let pixels: Vec<u8> = (0u8..32).collect();
    let raster = Raster { width: 2, height: 4, pixels: pixels.clone() };
    let payload = encode_texture_data(&raster, TextureFormat::R8G8B8A8);
    assert_eq!(payload.len(), 32);
    let back = decode(&payload, 2, 4, TextureFormat::R8G8B8A8).ok().unwrap();
    assert_eq!(back.pixels, pixels);
}

#[test]
fn r8g8b8a8_payload_is_stored_bottom_to_top() {
    let raster = Raster {
        width: 1,
        height: 2,
        pixels: vec![1, 2, 3, 4, 5, 6, 7, 8],
    };
    let payload = encode_texture_data(&raster, TextureFormat::R8G8B8A8);
    assert_eq!(payload, vec![5, 6, 7, 8, 1, 2, 3, 4]);
}

#[test]
fn r5g5b5a1_quantization_values() {
    let raster = Raster { width: 1, height: 1, pixels: vec![66, 200, 123, 255] };
    let payload = encode_texture_data(&raster, TextureFormat::R5G5B5A1);
    assert_eq!(payload.len(), 2);
    let back = decode(&payload, 1, 1, TextureFormat::R5G5B5A1).ok().unwrap();
    assert_eq!(back.pixels, vec![65, 197, 115, 255]);
    for c in 0..3 {
        let diff = raster.pixels[c] as i32 - back.pixels[c] as i32;
        assert!((0..=9).contains(&diff));
    }
}

#[test]
fn r4g4b4a4_quantization_values() {
    let raster = Raster { width: 1, height: 1, pixels: vec![255, 128, 17, 0] };
    let payload = encode_texture_data(&raster, TextureFormat::R4G4B4A4);
    let back = decode(&payload, 1, 1, TextureFormat::R4G4B4A4).ok().unwrap();
    assert_eq!(back.pixels, vec![255, 119, 17, 0]);
    for c in 0..4 {
        let diff = raster.pixels[c] as i32 - back.pixels[c] as i32;
        assert!((0..=16).contains(&diff));
    }
}

#[test]
fn r5g6b5_forces_opaque_alpha() {
    let raster = Raster { width: 1, height: 1, pixels: vec![10, 20, 30, 77] };
    let payload = encode_texture_data(&raster, TextureFormat::R5G6B5);
    let back = decode(&payload, 1, 1, TextureFormat::R5G6B5).ok().unwrap();
    assert_eq!(back.pixels[3], 255);
    assert!(back.pixels[0] <= 10 && 10 - back.pixels[0] <= 9);
    assert!(back.pixels[1] <= 20 && 20 - back.pixels[1] <= 4);
    assert!(back.pixels[2] <= 30 && 30 - back.pixels[2] <= 9);
}

#[test]
fn wrong_payload_length_is_malformed() {
    match decode(&[0, 1, 2], 1, 1, TextureFormat::R8G8B8A8) {
        Err(e) => assert_eq!(e, TexError::MalformedContainer),
        Ok(_) => panic!("expected an error"),
    }
}

#[test]
fn flip_is_involutive() {
    let raster = Raster {
        width: 2,
        height: 3,
        pixels: (0u8..24).collect(),
    };
    let once = raster.flip_vertical();
    assert_eq!(
        once.pixels[0..8].to_vec(),
        raster.pixels[16..24].to_vec(),
    );
    let twice = once.flip_vertical();
    assert_eq!(twice.pixels, raster.pixels);
    assert_eq!(twice.width, 2);
    assert_eq!(twice.height, 3);
}
