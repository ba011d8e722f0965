use hyge::ibl::{
    decode_env_file, encode_env_file, encode_for_test, env_file_hash, mip_dim, prefilter_mip_count,
    BakeConfig, BrdfLut, EnvFileError, EnvironmentBake, IrradianceCubemap, PrefilterCubemap,
    BRDF_LUT_SIZE, ENV_FILE_MAGIC, ENV_FILE_VERSION, IRRADIANCE_SIZE, PREFILTER_BASE_SIZE,
};

fn small_bake() -> EnvironmentBake {
    let pc = PrefilterCubemap {
        base_size: 4,
        mip_count: 3,
        mip_chain: (0..3)
            .map(|mip| {
                let s = (4u32 >> mip).max(1) as usize;
                [
                    vec![[0x33, 0x66, 0x99, 0xCC, 0x33, 0x66, 0x99, 0xCC]; s * s],
                    vec![[0x33, 0x66, 0x99, 0xCC, 0x33, 0x66, 0x99, 0xCC]; s * s],
                    vec![[0x33, 0x66, 0x99, 0xCC, 0x33, 0x66, 0x99, 0xCC]; s * s],
                    vec![[0x33, 0x66, 0x99, 0xCC, 0x33, 0x66, 0x99, 0xCC]; s * s],
                    vec![[0x33, 0x66, 0x99, 0xCC, 0x33, 0x66, 0x99, 0xCC]; s * s],
                    vec![[0x33, 0x66, 0x99, 0xCC, 0x33, 0x66, 0x99, 0xCC]; s * s],
                ]
            })
            .collect(),
    };
    let irr = IrradianceCubemap {
        size: 2,
        faces_rgba16f: [
            vec![[0x11, 0x22, 0x33, 0x44, 0x11, 0x22, 0x33, 0x44]; 4],
            vec![[0x11, 0x22, 0x33, 0x44, 0x11, 0x22, 0x33, 0x44]; 4],
            vec![[0x11, 0x22, 0x33, 0x44, 0x11, 0x22, 0x33, 0x44]; 4],
            vec![[0x11, 0x22, 0x33, 0x44, 0x11, 0x22, 0x33, 0x44]; 4],
            vec![[0x11, 0x22, 0x33, 0x44, 0x11, 0x22, 0x33, 0x44]; 4],
            vec![[0x11, 0x22, 0x33, 0x44, 0x11, 0x22, 0x33, 0x44]; 4],
        ],
    };
    let lut = BrdfLut {
        size: 2,
        pixels_rgba16f: vec![[0xAA, 0xBB, 0xCC, 0xDD, 0xAA, 0xBB, 0xCC, 0xDD]; 4],
    };
    EnvironmentBake {
        prefilter: pc,
        irradiance: irr,
        brdf_lut: lut,
        source_hash: [0x55; 32],
    }
}

#[test]
fn env_file_round_trips_through_disk() {
    let bake = small_bake();
    let bytes = encode_env_file(&bake).unwrap();
    let parsed = decode_env_file(&bytes).unwrap();
    assert_eq!(parsed.prefilter.base_size, bake.prefilter.base_size);
    assert_eq!(parsed.prefilter.mip_count, bake.prefilter.mip_count);
    assert_eq!(parsed.irradiance.size, bake.irradiance.size);
    assert_eq!(parsed.brdf_lut.size, bake.brdf_lut.size);
    assert_eq!(parsed.source_hash, bake.source_hash);
    for face in 0..6 {
        assert_eq!(
            parsed.irradiance.faces_rgba16f[face],
            bake.irradiance.faces_rgba16f[face]
        );
    }
    assert_eq!(parsed.brdf_lut.pixels_rgba16f, bake.brdf_lut.pixels_rgba16f);
}

#[test]
fn env_file_hash_is_deterministic() {
    let bake = EnvironmentBake {
        prefilter: PrefilterCubemap {
            base_size: 4,
            mip_count: 1,
            mip_chain: vec![[
                vec![[0u8; 8]; 16],
                vec![[0u8; 8]; 16],
                vec![[0u8; 8]; 16],
                vec![[0u8; 8]; 16],
                vec![[0u8; 8]; 16],
                vec![[0u8; 8]; 16],
            ]],
        },
        irradiance: IrradianceCubemap {
            size: 2,
            faces_rgba16f: [
                vec![[0u8; 8]; 4],
                vec![[0u8; 8]; 4],
                vec![[0u8; 8]; 4],
                vec![[0u8; 8]; 4],
                vec![[0u8; 8]; 4],
                vec![[0u8; 8]; 4],
            ],
        },
        brdf_lut: BrdfLut {
            size: 2,
            pixels_rgba16f: vec![[0u8; 8]; 4],
        },
        source_hash: [0u8; 32],
    };
    let h1 = env_file_hash(&bake);
    let h2 = env_file_hash(&bake);
    assert_eq!(h1, h2);
}

#[test]
fn env_file_layout_is_header_then_payload() {
    let bake = small_bake();
    let bytes = encode_for_test(&bake);
    // 64-byte header, 6 faces of 16 + 4 + 1 texels, 6 faces of 4 texels,
    // 4 LUT texels; 8 bytes per texel.
    assert_eq!(bytes.len(), 64 + 8 * (6 * 21 + 6 * 4 + 4));
    assert_eq!(&bytes[0..8], &ENV_FILE_MAGIC[..]);
    assert_eq!(&bytes[8..12], &ENV_FILE_VERSION.to_le_bytes()[..]);
    assert_eq!(&bytes[12..16], &[0u8; 4][..]);
    assert_eq!(&bytes[16..20], &4u32.to_le_bytes()[..]);
    assert_eq!(&bytes[20..24], &3u32.to_le_bytes()[..]);
    assert_eq!(&bytes[24..28], &2u32.to_le_bytes()[..]);
    assert_eq!(&bytes[28..32], &2u32.to_le_bytes()[..]);
    assert_eq!(&bytes[32..64], &[0x55u8; 32][..]);
    assert_eq!(&bytes[64..72], &[0x33, 0x66, 0x99, 0xCC, 0x33, 0x66, 0x99, 0xCC][..]);
    assert_eq!(encode_env_file(&bake).unwrap(), bytes);
}

#[test]
fn env_file_hash_changes_with_content() {
    let a = small_bake();
    let mut b = small_bake();
    b.brdf_lut.pixels_rgba16f[3][0] = 0;
    assert_ne!(env_file_hash(&a), env_file_hash(&b));
}

#[test]
fn encode_rejects_mismatched_prefilter_face() {
    let mut bake = small_bake();
    bake.prefilter.mip_chain[1][4].pop();
    assert_eq!(
        encode_env_file(&bake).unwrap_err(),
        EnvFileError::PrefilterLengthMismatch { mip: 1, face: 4 }
    );
}

#[test]
fn decode_rejects_short_input() {
    let bytes = encode_for_test(&small_bake());
    assert_eq!(decode_env_file(&bytes[..63]).unwrap_err(), EnvFileError::TooShort);
    assert_eq!(decode_env_file(&[]).unwrap_err(), EnvFileError::TooShort);
}

#[test]
fn decode_rejects_bad_magic_and_version() {
    let mut bytes = encode_for_test(&small_bake());
    bytes[0] = b'X';
    assert_eq!(decode_env_file(&bytes).unwrap_err(), EnvFileError::BadMagic);
    let mut bytes = encode_for_test(&small_bake());
    bytes[8] = 2;
    assert_eq!(
        decode_env_file(&bytes).unwrap_err(),
        EnvFileError::UnsupportedVersion(2)
    );
}

#[test]
fn decode_reports_where_input_ends() {
    let bytes = encode_for_test(&small_bake());
    // Inside mip 1, face 2: header + mip 0 (6 * 16 texels) + two faces of 4.
    let cut = 64 + 8 * (6 * 16 + 2 * 4) + 5;
    assert_eq!(
        decode_env_file(&bytes[..cut]).unwrap_err(),
        EnvFileError::TruncatedPrefilter { mip: 1, face: 2 }
    );
    let irr_start = 64 + 8 * (6 * 21);
    assert_eq!(
        decode_env_file(&bytes[..irr_start + 8 * 4 * 3 + 1]).unwrap_err(),
        EnvFileError::TruncatedIrradiance { face: 3 }
    );
    let lut_start = irr_start + 8 * 24;
    assert_eq!(
        decode_env_file(&bytes[..lut_start + 8]).unwrap_err(),
        EnvFileError::TruncatedBrdfLut
    );
}

#[test]
fn decode_ignores_trailing_bytes() {
    let bake = small_bake();
    let mut bytes = encode_for_test(&bake);
    bytes.extend_from_slice(&[1, 2, 3]);
    let parsed = decode_env_file(&bytes).unwrap();
    assert_eq!(parsed.brdf_lut.pixels_rgba16f, bake.brdf_lut.pixels_rgba16f);
    assert_eq!(parsed.prefilter.mip_chain.len(), 3);
    assert_eq!(parsed.prefilter.mip_chain[2][5].len(), 1);
}

#[test]
fn prefilter_mip_count_is_bit_length() {
    assert_eq!(prefilter_mip_count(16), 5);
    assert_eq!(prefilter_mip_count(256), 9);
    assert_eq!(prefilter_mip_count(1), 1);
    assert_eq!(prefilter_mip_count(0), 0);
    assert_eq!(prefilter_mip_count(255), 8);
}

#[test]
fn mip_dim_halves_rounding_up() {
    assert_eq!(mip_dim(16, 8), (8, 4));
    assert_eq!(mip_dim(5, 3), (3, 2));
    assert_eq!(mip_dim(1, 1), (1, 1));
    assert_eq!(mip_dim(0, 0), (1, 1));
}

#[test]
fn bake_config_default_sizes() {
    let c = BakeConfig::default();
    assert_eq!(c.prefilter_size, PREFILTER_BASE_SIZE);
    assert_eq!(c.irradiance_size, IRRADIANCE_SIZE);
    assert_eq!(c.brdf_lut_size, BRDF_LUT_SIZE);
    assert_eq!(c.sample_count, 1024);
    assert_eq!(PREFILTER_BASE_SIZE, 256);
}

#[test]
fn encode_for_test_writes_mis_sized_faces_as_they_are() {
    let bake = EnvironmentBake {
        prefilter: PrefilterCubemap {
            base_size: 4,
            mip_count: 1,
            mip_chain: vec![[
                vec![[1u8; 8]; 15],
                vec![[0u8; 8]; 16],
                vec![[0u8; 8]; 16],
                vec![[0u8; 8]; 16],
                vec![[0u8; 8]; 16],
                vec![[0u8; 8]; 16],
            ]],
        },
        irradiance: IrradianceCubemap {
            size: 0,
            faces_rgba16f: Default::default(),
        },
        brdf_lut: BrdfLut { size: 0, pixels_rgba16f: vec![] },
        source_hash: [0; 32],
    };
    let bytes = encode_for_test(&bake);
    assert_eq!(bytes.len(), 64 + 8 * (15 + 5 * 16));
    assert_eq!(&bytes[64..72], &[1u8; 8][..]);
    assert_eq!(env_file_hash(&bake), env_file_hash(&bake));
    assert_eq!(
        encode_env_file(&bake).unwrap_err(),
        EnvFileError::PrefilterLengthMismatch { mip: 0, face: 0 }
    );
}
