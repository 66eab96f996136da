use hyprwpe::tex::{
    decode_rgb565, decompress_dxt1, decompress_dxt3, decompress_dxt5, Rgb, TexError, TexFormat,
    TexImage,
};

#[test]
fn parse_raw_rgba8_tex() {
    let mut bytes = Vec::new();
    bytes.extend_from_slice(b"TEXV0001");
    bytes.extend_from_slice(&0u32.to_le_bytes()); // Format: Rgba8
    bytes.extend_from_slice(&2u32.to_le_bytes()); // Width: 2
    bytes.extend_from_slice(&2u32.to_le_bytes()); // Height: 2
    bytes.extend_from_slice(&0u32.to_le_bytes()); // Extra

    // 4 pixels RGBA8
    let pixel_data = [
        255, 0, 0, 255,
        0, 255, 0, 255,
        0, 0, 255, 255,
        255, 255, 255, 255,
    ];
    bytes.extend_from_slice(&pixel_data);

    let tex = TexImage::parse(&bytes).expect("valid tex header");
    assert_eq!(tex.width, 2);
    assert_eq!(tex.height, 2);
    assert_eq!(tex.format, TexFormat::Rgba8);

    let rgba = tex.to_rgba8().expect("decodes to rgba");
    assert_eq!(rgba, pixel_data);
}

#[test]
fn decompress_simple_dxt1_block() {
    // Red color (RGB565: 0xF800), Green color (RGB565: 0x07E0)
    let c0: u16 = 0xF800; // Red
    let c1: u16 = 0x07E0; // Green
    let lookup: u32 = 0x00000000; // All pixels use color 0

    let mut block = Vec::new();
    block.extend_from_slice(&c0.to_le_bytes());
    block.extend_from_slice(&c1.to_le_bytes());
    block.extend_from_slice(&lookup.to_le_bytes());

    let decoded = decompress_dxt1(4, 4, &block).expect("dxt1 decompress");
    assert_eq!(decoded.len(), 4 * 4 * 4);

    // Every pixel should be pure red (255, 0, 0, 255)
    for px in decoded.chunks_exact(4) {
        assert_eq!(px[0], 255);
        assert_eq!(px[1], 0);
        assert_eq!(px[2], 0);
        assert_eq!(px[3], 255);
    }
}

#[test]
fn colours_are_widened_to_eight_bits() {
    assert_eq!(decode_rgb565(0xF800), Rgb { r: 255, g: 0, b: 0 });
    assert_eq!(decode_rgb565(0x07E0), Rgb { r: 0, g: 255, b: 0 });
    assert_eq!(decode_rgb565(0x001F), Rgb { r: 0, g: 0, b: 255 });
    assert_eq!(decode_rgb565(0xFFFF), Rgb { r: 255, g: 255, b: 255 });
}

fn block(c0: u16, c1: u16, lookup: u32) -> Vec<u8> {
    let mut out = Vec::new();
    out.extend_from_slice(&c0.to_le_bytes());
    out.extend_from_slice(&c1.to_le_bytes());
    out.extend_from_slice(&lookup.to_le_bytes());
    out
}

#[test]
fn colours_between_the_ends_are_mixed() {
    // Pixels 0 to 3 take the colours 0 to 3.
    let data = block(0xF800, 0x07E0, 0b11_10_01_00);
    let out = decompress_dxt1(4, 4, &data).unwrap();
    assert_eq!(&out[0..4], &[255, 0, 0, 255]);
    assert_eq!(&out[4..8], &[0, 255, 0, 255]);
    assert_eq!(&out[8..12], &[170, 85, 0, 255]);
    assert_eq!(&out[12..16], &[85, 170, 0, 255]);
    // With the ends the other way round, the third colour is the middle and the
    // fourth is clear.
    let data = block(0x07E0, 0xF800, 0b11_10_01_00);
    let out = decompress_dxt1(4, 4, &data).unwrap();
    assert_eq!(&out[8..12], &[127, 127, 0, 255]);
    assert_eq!(&out[12..16], &[0, 0, 0, 0]);
}

#[test]
fn opacity_is_read_in_each_codec() {
    let mut three = vec![0x0F; 8];
    three.extend(block(0xF800, 0x07E0, 0));
    let out = decompress_dxt3(4, 4, &three).unwrap();
    assert_eq!(out[3], 255);
    assert_eq!(out[7], 0);
    let mut five = vec![200, 100, 0, 0, 0, 0, 0, 0];
    five.extend(block(0xF800, 0x07E0, 0));
    let out = decompress_dxt5(4, 4, &five).unwrap();
    assert!(out.chunks_exact(4).all(|p| p == [255, 0, 0, 200]));
}

#[test]
fn blocks_that_are_missing_are_an_error() {
    assert!(matches!(
        decompress_dxt1(8, 4, &block(0, 0, 0)),
        Err(TexError::Insufficient { needed: 16, got: 8, .. })
    ));
}

fn texture(magic: &[u8], format: u32, width: u32, height: u32, data: &[u8]) -> Vec<u8> {
    let mut out = magic.to_vec();
    out.extend_from_slice(&format.to_le_bytes());
    out.extend_from_slice(&width.to_le_bytes());
    out.extend_from_slice(&height.to_le_bytes());
    out.extend_from_slice(&0u32.to_le_bytes());
    out.extend_from_slice(data);
    out
}

#[test]
fn each_fault_of_a_texture_has_its_name() {
    assert!(matches!(TexImage::parse(b"TEX"), Err(TexError::TooSmall)));
    assert!(matches!(
        TexImage::parse(&texture(b"ZIPV0001", 0, 1, 1, &[0; 64])),
        Err(TexError::UnknownMagic)
    ));
    let mut cut = 100u32.to_le_bytes().to_vec();
    cut.extend_from_slice(b"TEXV0001....");
    assert!(matches!(TexImage::parse(&cut), Err(TexError::TruncatedHeader)));
    let tex = TexImage::parse(&texture(b"TEXV0001", 99, 1, 1, &[0; 64])).unwrap();
    assert!(matches!(tex.to_rgba8(), Err(TexError::Unsupported(99))));
    let tex = TexImage::parse(&texture(b"TEXV0001", 0, 9, 9, &[0; 8])).unwrap();
    assert!(matches!(
        tex.to_rgba8(),
        Err(TexError::Insufficient { needed: 324, got: 8, .. })
    ));
}

#[test]
fn a_decoded_texture_has_four_bytes_for_each_pixel() {
    let tex = TexImage::parse(&texture(b"TEXV0001", 0, 3, 2, &[7; 24])).unwrap();
    assert_eq!(tex.to_rgba8().unwrap().len(), 3 * 2 * 4);
}
