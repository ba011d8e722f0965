use hyge::rgbe::{decode_rgbe_hdr, RgbeError, RgbeErrorKind};

fn header(res: &[u8]) -> Vec<u8> {
    let mut bytes: Vec<u8> = Vec::new();
    bytes.extend_from_slice(b"#?RADIANCE\n");
    bytes.extend_from_slice(b"FORMAT=32-bit_rle_rgbe\n");
    bytes.extend_from_slice(b"\n");
    bytes.extend_from_slice(res);
    bytes
}

fn to_linear(t: [u8; 4]) -> [f32; 3] {
    if t[3] == 0 {
        return [0.0, 0.0, 0.0];
    }
    let f = ((t[3] as f32) - 128.0).exp2() / 256.0;
    [t[0] as f32 * f, t[1] as f32 * f, t[2] as f32 * f]
}

#[test]
fn rgbe_decoder_round_trips_minimal_file() {
    let mut bytes = header(b"-Y 2 +X 2\n");
    // 2x2 image, all pixels [1.0, 2.0, 3.0], RGBE-encoded.
    let rgb = [[1.0_f32, 2.0, 3.0]; 4];
    for _ in &rgb {
        bytes.extend_from_slice(&[64, 128, 191, 130]);
    }
    let img = decode_rgbe_hdr(&bytes).expect("decode");
    assert_eq!(img.width, 2);
    assert_eq!(img.height, 2);
    assert_eq!(img.texels.len(), 4);
    for (i, t) in img.texels.iter().enumerate() {
        let px = to_linear(*t);
        for ch in 0..3 {
            let rel = ((px[ch] - rgb[i][ch]) / rgb[i][ch]).abs();
            assert!(rel < 0.02, "px {i} ch {ch} decoded={} orig={}", px[ch], rgb[i][ch]);
        }
    }
}

#[test]
fn rgbe_decoder_rejects_truncated_input() {
    let bytes = header(b"-Y 4 +X 8\n");
    let err = decode_rgbe_hdr(&bytes).expect_err("truncated HDR must error");
    let msg = err.message();
    assert!(
        msg.contains("EOF") || msg.contains("truncated") || msg.contains("unexpected"),
        "expected a parse error, got: {msg}"
    );
    assert_eq!(err, RgbeError::EofAtScanlineStart);
}

#[test]
fn rgbe_decoder_rejects_missing_resolution() {
    let bytes = header(b"");
    let err = decode_rgbe_hdr(&bytes).expect_err("missing resolution must error");
    let msg = err.message();
    assert!(
        msg.contains("resolution") || msg.contains("missing"),
        "expected a parse error about resolution, got: {msg}"
    );
    assert_eq!(err, RgbeError::MissingResolution);
}

#[test]
fn rgbe_decoder_reads_run_length_scanline() {
    // One 8-pixel RLE scanline: the marker byte 2 and the four bytes after
    // it are skipped, then come the four channels.
    let mut bytes = header(b"-Y 1 +X 8\n");
    bytes.extend_from_slice(&[2, 2, 0, 8, 0]);
    // R: a run of 8 x 10.
    bytes.extend_from_slice(&[8, 10]);
    // G: a literal run of 8 bytes.
    bytes.extend_from_slice(&[136, 1, 2, 3, 4, 5, 6, 7, 8]);
    // B: run of 4 x 9, then run of 4 x 7.
    bytes.extend_from_slice(&[4, 9, 4, 7]);
    // E: run of 8 x 128.
    bytes.extend_from_slice(&[8, 128]);
    let img = decode_rgbe_hdr(&bytes).expect("decode");
    assert_eq!((img.width, img.height), (8, 1));
    assert_eq!(img.texels[0], [10, 1, 9, 128]);
    assert_eq!(img.texels[5], [10, 6, 7, 128]);
    assert_eq!(img.texels[7], [10, 8, 7, 128]);
}

#[test]
fn rgbe_decoder_accepts_axis_tokens_in_any_sign() {
    let mut bytes = header(b"+Y 1 -X 1\n");
    bytes.extend_from_slice(&[1, 2, 3, 4]);
    let img = decode_rgbe_hdr(&bytes).expect("decode");
    assert_eq!((img.width, img.height), (1, 1));
    assert_eq!(img.texels, vec![[1, 2, 3, 4]]);
}

#[test]
fn rgbe_decoder_error_variants() {
    assert_eq!(
        decode_rgbe_hdr(b"#?RADIANCE").unwrap_err(),
        RgbeError::UnterminatedHeader
    );
    assert_eq!(
        decode_rgbe_hdr(&header(b"-Y\n")).unwrap_err(),
        RgbeError::MissingYValue
    );
    assert_eq!(
        decode_rgbe_hdr(&header(b"-Y abc +X 2\n")).unwrap_err(),
        RgbeError::BadYValue
    );
    assert_eq!(
        decode_rgbe_hdr(&header(b"-Y 2 +X\n")).unwrap_err(),
        RgbeError::MissingXValue
    );
    assert_eq!(
        decode_rgbe_hdr(&header(b"-Y 2 +X -1\n")).unwrap_err(),
        RgbeError::BadXValue
    );
    assert_eq!(
        decode_rgbe_hdr(&header(b"-Y 2 \xff +X 2\n")).unwrap_err(),
        RgbeError::NonUtf8ResolutionLine
    );
    assert_eq!(
        decode_rgbe_hdr(&header(b"-Y 100000 +X 100000\n")).unwrap_err(),
        RgbeError::TooLarge
    );
    let mut plain = header(b"-Y 1 +X 2\n");
    plain.extend_from_slice(&[1, 2, 3, 4, 5]);
    assert_eq!(decode_rgbe_hdr(&plain).unwrap_err(), RgbeError::EofInPixelData);
    let mut rle_head = header(b"-Y 1 +X 8\n");
    rle_head.extend_from_slice(&[2, 2, 0, 8]);
    assert_eq!(decode_rgbe_hdr(&rle_head).unwrap_err(), RgbeError::EofInRleHeader);
    let mut rle_stream = header(b"-Y 1 +X 8\n");
    rle_stream.extend_from_slice(&[2, 2, 0, 8, 4]);
    assert_eq!(decode_rgbe_hdr(&rle_stream).unwrap_err(), RgbeError::EofInRleStream);
    let mut rle_literal = header(b"-Y 1 +X 8\n");
    rle_literal.extend_from_slice(&[2, 2, 0, 8, 0, 137, 1, 2]);
    assert_eq!(
        decode_rgbe_hdr(&rle_literal).unwrap_err(),
        RgbeError::RleNonRunOutOfRange
    );
}

#[test]
fn rgbe_error_messages() {
    assert_eq!(
        RgbeError::EofAtScanlineStart.message(),
        "rgbe: unexpected EOF at scanline start"
    );
    assert_eq!(
        RgbeError::MissingResolution.message(),
        "rgbe: missing resolution in header"
    );
}

#[test]
fn rgbe_decoder_rejects_zero_resolution_as_invalid_argument() {
    let err = decode_rgbe_hdr(b"#?RADIANCE\n\n-Y 0 +X 4\n").unwrap_err();
    assert_eq!(err, RgbeError::ZeroResolution);
    assert_eq!(err.kind(), RgbeErrorKind::InvalidArgument);
    let big = decode_rgbe_hdr(b"#?RADIANCE\n\n-Y 65536 +X 65536\n").unwrap_err();
    assert_eq!(big, RgbeError::TooLarge);
    assert_eq!(big.kind(), RgbeErrorKind::InvalidArgument);
    assert_eq!(
        decode_rgbe_hdr(&header(b"-Y 4\n")).unwrap_err(),
        RgbeError::MissingResolution
    );
    assert_eq!(RgbeError::MissingResolution.kind(), RgbeErrorKind::Parse);
    assert_eq!(
        decode_rgbe_hdr(&header(b"-Y 0\n")).unwrap_err(),
        RgbeError::ZeroResolution
    );
}
