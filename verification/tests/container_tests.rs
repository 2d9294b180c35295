use texpack::{
    data_size, read_texture_package, write_texture_package, Raster, TexError, Texture,
    TextureFormat, TextureHeader, TextureMeta, TexturePackage,
};

fn le32(v: u32) -> [u8; 4] {
    [
        (v & 0xff) as u8,
        ((v >> 8) & 0xff) as u8,
        ((v >> 16) & 0xff) as u8,
        ((v >> 24) & 0xff) as u8,
    ]
}

/// A container with one 4x4 R8G8B8A8 texture filled with (255,0,0,255):
/// header table at 0x20, payload at 0x44.
fn red_4x4_container() -> Vec<u8> {
    let mut b = Vec::new();
    b.extend_from_slice(&le32(1));
    b.extend_from_slice(&le32(0x20));
    b.extend_from_slice(&[0u8; 24]);
    b.extend_from_slice(&le32(7)); // id
    b.extend_from_slice(&le32(4)); // width
    b.extend_from_slice(&le32(4)); // height
    b.extend_from_slice(&le32(0)); // unk_c
    b.extend_from_slice(&le32(0)); // unk_10
    b.extend_from_slice(&le32(0)); // unk_14
    b.extend_from_slice(&le32(0)); // unk_18
    b.extend_from_slice(&le32(3)); // format: R8G8B8A8
    b.extend_from_slice(&le32(0x44)); // data pointer
    assert_eq!(b.len(), 0x44);
    for _ in 0..16 {
        b.extend_from_slice(&[255, 0, 0, 255]);
    }
    b
}

#[test]
fn parse_red_4x4() {
    let bytes = red_4x4_container();
    let pkg = match read_texture_package(&bytes) {
        Ok(p) => p,
        Err(_) => panic!("expected a package"),
    };
    assert_eq!(pkg.textures.len(), 1);
    let t = &pkg.textures[0];
    assert_eq!(t.meta.id, 7);
    assert_eq!(t.meta.texture_format, TextureFormat::R8G8B8A8);
    assert_eq!(t.data.width, 4);
    assert_eq!(t.data.height, 4);
    let mut expected = Vec::new();
    for _ in 0..16 {
        expected.extend_from_slice(&[255, 0, 0, 255]);
    }
    assert_eq!(t.data.pixels, expected);
}

#[test]
fn truncated_before_table_is_malformed() {
    let mut b = Vec::new();
    b.extend_from_slice(&le32(1));
    b.extend_from_slice(&le32(0x20));
    match read_texture_package(&b) {
        Err(e) => assert_eq!(e, TexError::MalformedContainer),
        Ok(_) => panic!("expected an error"),
    }
}

#[test]
fn short_buffer_is_malformed() {
    match read_texture_package(&[1, 0, 0]) {
        Err(e) => assert_eq!(e, TexError::MalformedContainer),
        Ok(_) => panic!("expected an error"),
    }
}

#[test]
fn format_discriminant_four_is_unknown() {
    let mut bytes = red_4x4_container();
    bytes[0x20 + 28] = 4;
    match read_texture_package(&bytes) {
        Err(e) => assert_eq!(e, TexError::UnknownFormat),
        Ok(_) => panic!("expected an error"),
    }
}

#[test]
fn payload_pointer_out_of_range_is_malformed() {
    let mut bytes = red_4x4_container();
    bytes[0x20 + 32] = 0xff;
    bytes[0x20 + 33] = 0xff;
    match read_texture_package(&bytes) {
        Err(e) => assert_eq!(e, TexError::MalformedContainer),
        Ok(_) => panic!("expected an error"),
    }
}

#[test]
fn write_single_pixel_layout() {
    let pkg = TexturePackage {
        textures: vec![Texture {
            meta: TextureMeta {
                id: 9,
                unk_c: -1,
                unk_10: 2,
                unk_14: 3,
                unk_18: 4,
                texture_format: TextureFormat::R8G8B8A8,
            },
            data: Raster { width: 1, height: 1, pixels: vec![1, 2, 3, 4] },
        }],
    };
    let bytes = match write_texture_package(&pkg) {
        Ok(b) => b,
        Err(_) => panic!("expected bytes"),
    };
    let mut expected = Vec::new();
    expected.extend_from_slice(&le32(1));
    expected.extend_from_slice(&le32(0x20));
    expected.extend_from_slice(&[0u8; 24]);
    expected.extend_from_slice(&le32(9));
    expected.extend_from_slice(&le32(1));
    expected.extend_from_slice(&le32(1));
    expected.extend_from_slice(&le32(-1i32 as u32));
    expected.extend_from_slice(&le32(2));
    expected.extend_from_slice(&le32(3));
    expected.extend_from_slice(&le32(4));
    expected.extend_from_slice(&le32(3));
    expected.extend_from_slice(&le32(0x44));
    expected.extend_from_slice(&[1, 2, 3, 4]);
    assert_eq!(bytes, expected);
}

#[test]
fn write_parse_write_is_stable() {
    let pkg = TexturePackage {
        textures: vec![
            Texture {
                meta: TextureMeta {
                    id: 1,
                    unk_c: 10,
                    unk_10: -20,
                    unk_14: 30,
                    unk_18: -40,
                    texture_format: TextureFormat::R8G8B8A8,
                },
                data: Raster {
                    width: 2,
                    height: 2,
                    pixels: (0u8..16).collect(),
                },
            },
            Texture {
                meta: TextureMeta {
                    id: 2,
                    unk_c: 0,
                    unk_10: 0,
                    unk_14: 0,
                    unk_18: 0,
                    texture_format: TextureFormat::R8G8B8A8,
                },
                data: Raster { width: 1, height: 2, pixels: vec![9, 8, 7, 6, 5, 4, 3, 2] },
            },
        ],
    };
    let bytes = write_texture_package(&pkg).ok().unwrap();
    let parsed = match read_texture_package(&bytes) {
        Ok(p) => p,
        Err(_) => panic!("expected a package"),
    };
    assert_eq!(parsed.textures.len(), 2);
    assert_eq!(parsed.textures[0].data.pixels, pkg.textures[0].data.pixels);
    assert_eq!(parsed.textures[1].data.pixels, pkg.textures[1].data.pixels);
    let bytes2 = write_texture_package(&parsed).ok().unwrap();
    assert_eq!(bytes, bytes2);
}

#[test]
fn force_format_rewrites_every_meta() {
    let mut pkg = TexturePackage {
        textures: vec![Texture {
            meta: TextureMeta {
                id: 5,
                unk_c: 1,
                unk_10: 2,
                unk_14: 3,
                unk_18: 4,
                texture_format: TextureFormat::R8G8B8A8,
            },
            data: Raster { width: 1, height: 1, pixels: vec![10, 20, 30, 255] },
        }],
    };
    pkg.force_format(TextureFormat::R5G6B5);
    assert_eq!(pkg.textures[0].meta.texture_format, TextureFormat::R5G6B5);
    assert_eq!(pkg.textures[0].meta.id, 5);
    assert_eq!(pkg.textures[0].data.pixels, vec![10, 20, 30, 255]);
}

#[test]
fn oversized_payload_is_unsupported() {
    let pkg = TexturePackage {
        textures: vec![Texture {
            meta: TextureMeta {
                id: 0,
                unk_c: 0,
                unk_10: 0,
                unk_14: 0,
                unk_18: 0,
                texture_format: TextureFormat::R8G8B8A8,
            },
            data: Raster { width: 0x10000, height: 0x10000, pixels: Vec::new() },
        }],
    };
    match write_texture_package(&pkg) {
        Err(e) => assert_eq!(e, TexError::UnsupportedDimensions),
        Ok(_) => panic!("expected an error"),
    }
}

#[test]
fn data_size_of_each_format() {
    assert_eq!(data_size(TextureFormat::R5G5B5A1, 4, 4), 32);
    assert_eq!(data_size(TextureFormat::R4G4B4A4, 4, 4), 32);
    assert_eq!(data_size(TextureFormat::R5G6B5, 4, 4), 32);
    assert_eq!(data_size(TextureFormat::R8G8B8A8, 4, 4), 64);
}

#[test]
fn header_meta_and_size() {
    let h = TextureHeader {
        id: 11,
        width: 8,
        height: 2,
        unk_c: -5,
        unk_10: 6,
        unk_14: -7,
        unk_18: 8,
        texture_format: TextureFormat::R5G6B5,
    };
    let m = h.meta();
    assert_eq!(m.id, 11);
    assert_eq!(m.unk_c, -5);
    assert_eq!(m.unk_10, 6);
    assert_eq!(m.unk_14, -7);
    assert_eq!(m.unk_18, 8);
    assert_eq!(m.texture_format, TextureFormat::R5G6B5);
    assert_eq!(h.data_size(), 32);
    assert_eq!(m.data_size(8, 2), 32);
}
