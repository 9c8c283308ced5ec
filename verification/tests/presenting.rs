use display_server::OutputDamageRect;
use display_server::present::{
    encode_present_fence, DamageRect, FB_MAX_COMMAND_BYTES, FB_OP_PATCH_PALETTE_RLE_BATCH,
    FB_OP_PATCH_RLE, FB_OP_PRESENT_FENCE,
};
use display_server::present::bands::{
    changed_bands, changed_bands_bounded, changed_bounds, rows_equal_u64,
};
use display_server::present::palette::encode_palette_rle_patch_batch;
use display_server::present::runs::encode_rle_patch;
use display_server::present::shadow::advance_presented_damage;

fn frame(width: u32, height: u32) -> Vec<u8> {
    vec![0; width as usize * height as usize * 4]
}

#[test]
fn present_fence_command_is_opcode_plus_little_endian_serial() {
    assert_eq!(FB_OP_PRESENT_FENCE, 0x09);
    assert_eq!(
        encode_present_fence(0x0102_0304),
        [0x09, 0x04, 0x03, 0x02, 0x01],
    );
}

#[test]
fn identical_frame_has_no_damage() {
    let pixels = frame(4, 3);
    assert_eq!(changed_bounds(&pixels, &pixels, 4, 3), None);
}

#[test]
fn one_changed_pixel_produces_one_pixel_damage() {
    let previous = frame(4, 3);
    let mut current = previous.clone();
    let (x, y) = (2usize, 1usize);
    current[(y * 4 + x) * 4] = 0xff;
    assert_eq!(
        changed_bounds(&previous, &current, 4, 3),
        Some(DamageRect {
            x: 2,
            y: 1,
            width: 1,
            height: 1,
        })
    );
}

#[test]
fn separated_changes_produce_minimal_bounding_rectangle() {
    let previous = frame(6, 5);
    let mut current = previous.clone();
    let (x1, y1) = (4usize, 1usize);
    let (x2, y2) = (1usize, 4usize);
    current[(y1 * 6 + x1) * 4 + 1] = 1;
    current[(y2 * 6 + x2) * 4 + 3] = 1;
    assert_eq!(
        changed_bounds(&previous, &current, 6, 5),
        Some(DamageRect {
            x: 1,
            y: 1,
            width: 4,
            height: 4,
        })
    );
}

#[test]
fn missing_shadow_requires_a_full_frame() {
    assert_eq!(
        changed_bounds(&[], &frame(3, 2), 3, 2),
        Some(DamageRect {
            x: 0,
            y: 0,
            width: 3,
            height: 2,
        })
    );
}

#[test]
fn disjoint_changed_rows_exclude_the_unchanged_gap() {
    let previous = frame(5, 6);
    let mut current = previous.clone();
    current[24] = 1;
    current[(4 * 5 + 3) * 4] = 2;
    assert_eq!(
        changed_bands(&previous, &current, 5, 6, 8),
        vec![
            DamageRect {
                x: 1,
                y: 1,
                width: 1,
                height: 1,
            },
            DamageRect {
                x: 3,
                y: 4,
                width: 1,
                height: 1,
            },
        ]
    );
}

#[test]
fn fragmented_changed_rows_coalesce_at_the_band_cap() {
    let previous = frame(3, 5);
    let mut current = previous.clone();
    for y in [0usize, 2, 4] {
        current[(y * 3 + 1) * 4] = 1;
    }
    assert_eq!(
        changed_bands(&previous, &current, 3, 5, 2),
        vec![DamageRect {
            x: 1,
            y: 0,
            width: 1,
            height: 5,
        }]
    );
}

#[test]
fn wordwise_row_equality_matches_slice_equality_for_words_and_tails() {
    for len in 0usize..40 {
        let previous = (0..len).map(|index| index as u8).collect::<Vec<_>>();
        let mut current = previous.clone();
        assert!(rows_equal_u64(&previous, &current));
        for changed in 0..len {
            current[changed] ^= 0xff;
            assert!(!rows_equal_u64(&previous, &current));
            current[changed] ^= 0xff;
        }
    }
    assert!(!rows_equal_u64(&[1, 2, 3], &[1, 2]));
}

#[test]
fn bounded_scan_reports_only_changes_inside_validated_candidates() {
    let previous = frame(4, 4);
    let mut current = previous.clone();
    current[0] = 1;
    current[(2 * 4 + 2) * 4] = 2;
    let candidates = [OutputDamageRect {
        x: 2,
        y: 2,
        width: 1,
        height: 1,
    }];
    assert_eq!(
        changed_bands_bounded(&previous, &current, 4, 4, &candidates, 8),
        vec![DamageRect {
            x: 2,
            y: 2,
            width: 1,
            height: 1,
        }],
    );
}

#[test]
fn bounded_scan_clips_candidates_and_missing_shadow_still_falls_back_full() {
    let previous = frame(4, 4);
    let mut current = previous.clone();
    current[(3 * 4 + 3) * 4] = 1;
    let candidates = [OutputDamageRect {
        x: 3,
        y: 3,
        width: 20,
        height: 20,
    }];
    assert_eq!(
        changed_bands_bounded(&previous, &current, 4, 4, &candidates, 8),
        vec![DamageRect {
            x: 3,
            y: 3,
            width: 1,
            height: 1,
        }],
    );
    assert_eq!(
        changed_bands_bounded(&[], &current, 4, 4, &candidates, 8),
        vec![DamageRect {
            x: 0,
            y: 0,
            width: 4,
            height: 4,
        }],
    );
}

#[test]
fn bounded_shadow_advancement_never_claims_unwritten_pixels() {
    let mut presented = frame(4, 4);
    let mut current = presented.clone();
    current[0] = 1;
    current[(2 * 4 + 2) * 4] = 2;
    let candidates = [OutputDamageRect {
        x: 2,
        y: 2,
        width: 1,
        height: 1,
    }];
    let damages = changed_bands_bounded(&presented, &current, 4, 4, &candidates, 8);
    assert_eq!(damages.len(), 1);
    assert!(advance_presented_damage(
        &mut presented,
        &current,
        4,
        damages[0],
    ));
    assert_eq!(presented[(2 * 4 + 2) * 4], 2);
    assert_eq!(presented[0], 0, "outside-candidate shadow stays untouched");
    assert_eq!(
        changed_bands(&presented, &current, 4, 4, 8),
        vec![DamageRect {
            x: 0,
            y: 0,
            width: 1,
            height: 1,
        }],
        "a later full fallback still discovers outside-candidate divergence",
    );
}

#[test]
fn solid_damage_selects_one_bounded_rle_run() {
    let pixels = vec![0x2a; 4 * 3 * 4];
    let damage = DamageRect {
        x: 1,
        y: 1,
        width: 2,
        height: 2,
    };
    let command = encode_rle_patch(&pixels, 4, 3, damage, FB_MAX_COMMAND_BYTES)
        .expect("solid patch compresses");
    assert_eq!(command[0], FB_OP_PATCH_RLE);
    assert_eq!(command.len(), 1 + 16 + 8);
    assert_eq!(u32::from_le_bytes(command[17..21].try_into().unwrap()), 4);
    assert_eq!(&command[21..25], &[0x2a; 4]);
}

#[test]
fn rle_falls_back_when_runs_are_not_smaller_or_do_not_fit() {
    let pixels = vec![1, 0, 0, 255, 2, 0, 0, 255, 3, 0, 0, 255, 4, 0, 0, 255];
    let damage = DamageRect {
        x: 0,
        y: 0,
        width: 4,
        height: 1,
    };
    assert!(encode_rle_patch(&pixels, 4, 1, damage, FB_MAX_COMMAND_BYTES).is_none());

    let solid = vec![0x11; 4 * 4];
    assert!(encode_rle_patch(&solid, 4, 1, damage, 24).is_none());
}

#[test]
fn palette_batch_encodes_disjoint_rectangles_as_one_command() {
    let mut pixels = frame(5, 4);
    pixels[0..8].copy_from_slice(&[10, 20, 30, 255, 10, 20, 30, 255]);
    for y in 2usize..4 {
        let offset = (y * 5 + 3) * 4;
        pixels[offset..offset + 4].copy_from_slice(&[40, 50, 60, 255]);
    }
    let damages = [
        DamageRect {
            x: 0,
            y: 0,
            width: 2,
            height: 1,
        },
        DamageRect {
            x: 3,
            y: 2,
            width: 1,
            height: 2,
        },
    ];

    let command = encode_palette_rle_patch_batch(&pixels, 5, 4, &damages, FB_MAX_COMMAND_BYTES)
        .expect("two-color batch fits");
    assert_eq!(command[0], FB_OP_PATCH_PALETTE_RLE_BATCH);
    assert_eq!(command[1], 2);
    assert_eq!(command[2], 1);
    assert_eq!(&command[3..11], &[10, 20, 30, 255, 40, 50, 60, 255]);
    assert_eq!(command.len(), 1 + 2 + 2 * 4 + 2 * 16 + 2 * 3);
    assert_eq!(u32::from_le_bytes(command[11..15].try_into().unwrap()), 0);
    assert_eq!(u16::from_le_bytes(command[27..29].try_into().unwrap()), 2);
    assert_eq!(command[29], 0);
    assert_eq!(u32::from_le_bytes(command[30..34].try_into().unwrap()), 3);
    assert_eq!(u16::from_le_bytes(command[46..48].try_into().unwrap()), 2);
    assert_eq!(command[48], 1);
}

#[test]
fn palette_batch_fits_when_independent_rle_commands_exceed_one_write() {
    let width = 6_600u32;
    let height = 3u32;
    let mut pixels = frame(width, height);
    for y in [0usize, 2] {
        for x in 0..width as usize {
            let offset = (y * width as usize + x) * 4;
            pixels[offset..offset + 4].copy_from_slice(if (x / 3) % 2 == 0 {
                &[1, 2, 3, 255]
            } else {
                &[4, 5, 6, 255]
            });
        }
    }
    let damages = [
        DamageRect {
            x: 0,
            y: 0,
            width,
            height: 1,
        },
        DamageRect {
            x: 0,
            y: 2,
            width,
            height: 1,
        },
    ];
    let independent_bytes: usize = damages
        .iter()
        .map(|damage| {
            encode_rle_patch(&pixels, width, height, *damage, FB_MAX_COMMAND_BYTES)
                .expect("individual rectangle fits")
                .len()
        })
        .sum();
    assert!(independent_bytes > FB_MAX_COMMAND_BYTES);

    let batch =
        encode_palette_rle_patch_batch(&pixels, width, height, &damages, FB_MAX_COMMAND_BYTES)
            .expect("shared palette keeps the atomic batch bounded");
    assert!(batch.len() < FB_MAX_COMMAND_BYTES);
}

#[test]
fn palette_batch_falls_back_on_palette_or_command_budget_overflow() {
    let width = 257u32;
    let mut pixels = frame(width, 2);
    for x in 0..width as usize {
        let offset = x * 4;
        pixels[offset..offset + 4].copy_from_slice(&[(x & 0xff) as u8, (x >> 8) as u8, 0, 255]);
    }
    let damages = [
        DamageRect {
            x: 0,
            y: 0,
            width,
            height: 1,
        },
        DamageRect {
            x: 0,
            y: 1,
            width: 1,
            height: 1,
        },
    ];
    assert!(
        encode_palette_rle_patch_batch(&pixels, width, 2, &damages, FB_MAX_COMMAND_BYTES,)
            .is_none()
    );

    let solid = vec![7; 4 * 4 * 4];
    let small = [
        DamageRect {
            x: 0,
            y: 0,
            width: 1,
            height: 1,
        },
        DamageRect {
            x: 3,
            y: 3,
            width: 1,
            height: 1,
        },
    ];
    assert!(encode_palette_rle_patch_batch(&solid, 4, 4, &small, 40).is_none());
}

#[test]
fn presented_shadow_advances_only_after_the_selected_damage() {
    let mut presented = vec![0u8; 4 * 3 * 4];
    let mut pixels = presented.clone();
    for y in 1usize..3 {
        for x in 1usize..3 {
            let offset = (y * 4 + x) * 4;
            pixels[offset..offset + 4].copy_from_slice(&[9, 8, 7, 255]);
        }
    }
    let damage = DamageRect {
        x: 1,
        y: 1,
        width: 2,
        height: 2,
    };
    assert!(advance_presented_damage(&mut presented, &pixels, 4, damage));
    assert_eq!(presented, pixels);

    let before = presented.clone();
    let short_len = presented.len() - 1;
    assert!(!advance_presented_damage(
        &mut presented[..short_len],
        &pixels,
        4,
        damage,
    ));
    assert_eq!(presented, before);
}

#[test]
fn shadow_advances_one_successful_band_at_a_time() {
    let mut presented = frame(4, 4);
    let mut pixels = presented.clone();
    pixels[(4 + 1) * 4] = 1;
    pixels[(12 + 2) * 4] = 2;
    let bands = changed_bands(&presented, &pixels, 4, 4, 8);
    assert_eq!(bands.len(), 2);

    assert!(advance_presented_damage(
        &mut presented,
        &pixels,
        4,
        bands[0],
    ));
    assert_eq!(changed_bands(&presented, &pixels, 4, 4, 8), vec![bands[1]]);
    assert!(advance_presented_damage(
        &mut presented,
        &pixels,
        4,
        bands[1],
    ));
    assert!(changed_bands(&presented, &pixels, 4, 4, 8).is_empty());
}

#[test]
fn bands_are_the_runs_of_changed_rows() {
    let previous = frame(6, 8);
    let mut current = previous.clone();
    for (x, y) in [(2usize, 1usize), (4, 2), (1, 2), (3, 5), (0, 7), (5, 7)] {
        current[(y * 6 + x) * 4 + 1] = 9;
    }
    let rect = |x: u32, y: u32, width: u32, height: u32| DamageRect { x, y, width, height };
    assert_eq!(
        changed_bands(&previous, &current, 6, 8, 3),
        vec![rect(1, 1, 4, 2), rect(3, 5, 1, 1), rect(0, 7, 6, 1)]
    );
    let around = changed_bounds(&previous, &current, 6, 8).unwrap();
    assert_eq!(around, rect(0, 1, 6, 7));
    for max_bands in [0, 1, 2] {
        assert_eq!(changed_bands(&previous, &current, 6, 8, max_bands), vec![around]);
    }
}
