use stegshare::carrier::{b64_decode, b64_encode, decode_access_rights, encode_access_rights,
    hide_payload, png_decode, png_encode, reveal_alpha, update_carrier_views, Image};

fn flat_image(width: u32, height: u32, byte: u8) -> Image {
    Image { width, height, pixels: vec![byte; (width * height * 4) as usize] }
}

/// Access-rights round trip on a concrete carrier: the decoded views and the
/// stripped inner carrier are bit-exact.
#[test]
fn access_rights_round_trip() {
    let inner = flat_image(3, 2, 9);
    let outer = encode_access_rights(&inner, 0x1234);
    assert_eq!(outer.width, 3);
    assert_eq!(outer.height, 3);
    // The appended row: zeros but for the two alpha bytes carrying 0x1234.
    assert_eq!(&outer.pixels[24..], &[0, 0, 0, 0x12, 0, 0, 0, 0x34, 0, 0, 0, 0]);
    let (views, stripped) = decode_access_rights(&outer).expect("the outer carrier has rows");
    assert_eq!(views, 0x1234);
    assert_eq!(stripped.width, inner.width);
    assert_eq!(stripped.height, inner.height);
    assert_eq!(stripped.pixels, inner.pixels);
}

#[test]
fn access_rights_extremes_round_trip() {
    let inner = flat_image(2, 1, 0);
    for views in [0u16, 1, 255, 256, 65535] {
        let outer = encode_access_rights(&inner, views);
        let (got, stripped) = decode_access_rights(&outer).expect("rows present");
        assert_eq!(got, views);
        assert_eq!(stripped.pixels, inner.pixels);
    }
}

#[test]
fn decode_fails_only_on_empty_image() {
    let empty = Image { width: 5, height: 0, pixels: Vec::new() };
    assert!(decode_access_rights(&empty).is_err());
}

/// Hiding writes the payload into the alpha channel and revealing returns
/// it; the cover's other channels are kept. Runs the real steganography
/// crate.
#[test]
fn hide_then_reveal_returns_payload() {
    let cover = flat_image(4, 4, 200);
    let payload = b"hidden!";
    let inner = hide_payload(&cover, payload);
    assert_eq!(inner.width, 4);
    assert_eq!(inner.height, 4);
    // Colour bytes unchanged, alpha bytes replaced while the payload lasts.
    assert_eq!(&inner.pixels[0..3], &[200, 200, 200]);
    assert_eq!(inner.pixels[3], b'h');
    let revealed = reveal_alpha(&inner);
    assert_eq!(revealed.len(), 16);
    assert_eq!(&revealed[0..payload.len()], payload);
    assert_eq!(revealed[payload.len()], 200);
}

/// Hidden-payload survival end to end: wrap the inner carrier with an
/// access-rights row, strip it, and the revealed bytes still begin with the
/// payload.
#[test]
fn hidden_payload_survives_access_rights() {
    let cover = flat_image(5, 3, 17);
    let payload = b"cat.jpg bytes";
    let inner = hide_payload(&cover, payload);
    let outer = encode_access_rights(&inner, 3);
    let (views, stripped) = decode_access_rights(&outer).expect("rows present");
    assert_eq!(views, 3);
    let revealed = reveal_alpha(&stripped);
    assert_eq!(&revealed[0..payload.len()], payload);
}

/// The PNG wrappers encode to real PNG bytes and decode them back bit-exact.
#[test]
fn png_encode_decode_round_trip() {
    let mut img = flat_image(3, 2, 100);
    img.pixels[3] = 7;
    img.pixels[10] = 250;
    let bytes = png_encode(&img);
    assert_eq!(&bytes[1..4], b"PNG");
    let back = png_decode(&bytes).expect("the bytes are a PNG image");
    assert_eq!(back.width, img.width);
    assert_eq!(back.height, img.height);
    assert_eq!(back.pixels, img.pixels);
}

#[test]
fn png_decode_rejects_other_bytes() {
    assert!(png_decode(b"not a png").is_none());
    assert!(png_decode(&[]).is_none());
}

#[test]
fn base64_wrappers_round_trip() {
    let data = vec![0u8, 1, 2, 254, 255, 77];
    let text = b64_encode(&data);
    assert_eq!(text, "AAEC/v9N");
    assert_eq!(b64_decode(&text), Some(data));
    assert!(b64_decode("!!!not base64!!!").is_none());
}

/// Updating a carrier's view count shifts it with saturation and keeps the
/// inner layers.
#[test]
fn update_carrier_views_shifts_with_saturation() {
    let inner = hide_payload(&flat_image(4, 2, 30), b"pic");
    let outer = encode_access_rights(&inner, 5);

    let (up, views) = update_carrier_views(&outer, 3).expect("rows present");
    assert_eq!(views, 8);
    let (_, stripped) = decode_access_rights(&up).expect("rows present");
    assert_eq!(stripped.pixels, inner.pixels);

    let (_, views) = update_carrier_views(&outer, -7).expect("rows present");
    assert_eq!(views, 0);
    let (_, views) = update_carrier_views(&outer, -100000).expect("rows present");
    assert_eq!(views, 0);
    let (_, views) = update_carrier_views(&outer, 70000).expect("rows present");
    assert_eq!(views, 65535);
    let (_, views) = update_carrier_views(&outer, i32::MIN).expect("rows present");
    assert_eq!(views, 0);
    let (_, views) = update_carrier_views(&outer, i32::MAX).expect("rows present");
    assert_eq!(views, 65535);
}
