use freetoken::q6k::{dequantize_row, row_bytes};

#[test]
fn row_sizes() {
    assert_eq!(row_bytes(256), 210);
    assert_eq!(row_bytes(2816), 2310);
}

#[test]
fn bits_land_on_their_weights() {
    let mut row = vec![0u8; 210];
    row[208] = 0xCD;
    row[209] = 0xAB;
    for g in 0..16 {
        row[192 + g] = (g as u8).wrapping_sub(8);
    }
    row[0] = 0x21; // low bits of weights 0 and 64
    row[32] = 0x43; // low bits of weights 32 and 96
    row[64] = 0x65; // low bits of weights 128 and 192
    row[128] = 0b11_10_01_00; // high bits of weights 0, 32, 64, 96
    row[160] = 0b00_01_10_11; // high bits of weights 128, 160, 192, 224
    let r = dequantize_row(&row, 256);
    assert_eq!(r.scales, vec![0xABCD]);
    assert_eq!(r.group_scales, (-8..8).collect::<Vec<i8>>());
    assert_eq!(r.levels[0], 1 - 32);
    assert_eq!(r.levels[32], 3 + 16 - 32);
    assert_eq!(r.levels[64], 2 + 32 - 32);
    assert_eq!(r.levels[96], 4 + 48 - 32);
    assert_eq!(r.levels[128], 5 + 48 - 32);
    assert_eq!(r.levels[160], 32 - 32);
    assert_eq!(r.levels[192], 6 + 16 - 32);
    assert_eq!(r.levels[224], -32);
    assert_eq!(r.levels[1], -32);
}

/// The same numbers by the shifts and masks of the format.
#[test]
fn levels_match_shifts_and_masks() {
    let row: Vec<u8> = (0..420u32).map(|i| (i.wrapping_mul(2654435761) >> 13) as u8).collect();
    let r = dequantize_row(&row, 512);
    for b in 0..2 {
        let blk = &row[b * 210..(b + 1) * 210];
        for half in 0..2 {
            let ql = &blk[half * 64..];
            let qh = &blk[128 + half * 32..];
            for i in 0..32 {
                let want = [
                    ((ql[i] & 0xF) | ((qh[i] & 3) << 4)) as i32 - 32,
                    ((ql[i + 32] & 0xF) | (((qh[i] >> 2) & 3) << 4)) as i32 - 32,
                    ((ql[i] >> 4) | (((qh[i] >> 4) & 3) << 4)) as i32 - 32,
                    ((ql[i + 32] >> 4) | (((qh[i] >> 6) & 3) << 4)) as i32 - 32,
                ];
                for q in 0..4 {
                    let at = b * 256 + half * 128 + q * 32 + i;
                    assert_eq!(r.levels[at], want[q]);
                    let scale = blk[192 + half * 8 + i / 16 + 2 * q] as i8;
                    assert_eq!(r.group_scales[at / 16], scale);
                }
            }
        }
    }
}
