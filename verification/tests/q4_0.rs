use freetoken::q4_0::{
    dequantize_row, dot_q4_q8, dot_q4r_q8, gemv_q8, gemv_q8_r, q4r_geom, q4r_row_bytes,
    q4r_scales_bytes, quantize_row, repack_q4r, repack_row_q4r, row_bytes, BlockDot, Q8Vec,
};
use half::f16;

fn pseudo_row(n: usize, seed: u32) -> Vec<f32> {
    let mut s = seed.wrapping_add(0x9E3779B9);
    (0..n)
        .map(|_| {
            s ^= s << 13;
            s ^= s >> 17;
            s ^= s << 5;
            (s as f32 / u32::MAX as f32) * 2.0 - 1.0
        })
        .collect()
}

/// Scales and codes of a row, by the value of greatest magnitude in each block.
fn quantize(row: &[f32], out: &mut [u8]) {
    let mut scales = Vec::new();
    let mut codes = Vec::new();
    for xb in row.chunks_exact(32) {
        let mut amax = 0.0f32;
        let mut maxv = 0.0f32;
        for &v in xb {
            if v.abs() > amax {
                amax = v.abs();
                maxv = v;
            }
        }
        let d = maxv / -8.0;
        let id = if d != 0.0 { 1.0 / d } else { 0.0 };
        scales.push(f16::from_f32(d).to_bits());
        for &v in xb {
            codes.push((v * id + 8.5) as i32);
        }
    }
    quantize_row(&scales, &codes, out);
}

fn dequantize(row: &[u8], n: usize) -> Vec<f32> {
    let r = dequantize_row(row, n);
    (0..n)
        .map(|i| r.levels[i] as f32 * f16::from_bits(r.scales[i / 32]).to_f32())
        .collect()
}

fn quantize_q8(x: &[f32]) -> Q8Vec {
    let mut d = Vec::new();
    let mut rounded = Vec::new();
    for xb in x.chunks_exact(32) {
        let amax = xb.iter().fold(0.0f32, |m, v| m.max(v.abs()));
        let s = if amax > 0.0 { amax / 127.0 } else { 0.0 };
        let inv = if s > 0.0 { 1.0 / s } else { 0.0 };
        d.push(s.to_bits());
        rounded.extend(xb.iter().map(|v| (v * inv).round() as i32));
    }
    Q8Vec::quantize(d, &rounded)
}

fn combine(dots: &[BlockDot], x8: &Q8Vec) -> f32 {
    let mut acc = 0.0f32;
    for (b, dot) in dots.iter().enumerate() {
        acc += f16::from_bits(dot.scale).to_f32() * f32::from_bits(x8.d[b]) * dot.sum as f32;
    }
    acc
}

#[test]
fn roundtrip_error_is_small() {
    let row = pseudo_row(256, 7);
    let mut q = vec![0u8; row_bytes(256)];
    quantize(&row, &mut q);
    let back = dequantize(&q, 256);
    for (a, b) in row.iter().zip(&back) {
        assert!((a - b).abs() < 0.15, "{a} vs {b}");
    }
}

#[test]
fn gemv_matches_f32_reference() {
    let k = 512;
    let n = 16;
    let x = pseudo_row(k, 1);
    let mut w = vec![0u8; row_bytes(k) * n];
    let mut wf = vec![0f32; k * n];
    for r in 0..n {
        let row = pseudo_row(k, 100 + r as u32);
        quantize(&row, &mut w[r * row_bytes(k)..(r + 1) * row_bytes(k)]);
        wf[r * k..(r + 1) * k]
            .copy_from_slice(&dequantize(&w[r * row_bytes(k)..(r + 1) * row_bytes(k)], k));
    }
    let x8 = quantize_q8(&x);
    let dots = gemv_q8(&w, &x8, n);
    let y: Vec<f32> = dots.chunks_exact(k / 32).map(|d| combine(d, &x8)).collect();
    assert_eq!(y.len(), n);
    for r in 0..n {
        let reference: f32 = (0..k).map(|i| wf[r * k + i] * x[i]).sum();
        assert!((y[r] - reference).abs() < 0.15, "row {r}: {} vs {reference}", y[r]);
    }
}

#[test]
fn avx2_matches_scalar() {
    let k = 4096;
    let row_f: Vec<f32> = pseudo_row(k, 42);
    let mut row = vec![0u8; row_bytes(k)];
    quantize(&row_f, &mut row);
    let x = pseudo_row(k, 7);
    let x8 = quantize_q8(&x);
    let mut dots = vec![BlockDot { scale: 0, sum: 0 }; k / 32];
    dot_q4_q8(&row, &x8, &mut dots);
    let a = combine(&dots, &x8);
    // the offset of 8 folded out of each block's sum
    let folded: Vec<BlockDot> = row
        .chunks_exact(18)
        .enumerate()
        .map(|(b, blk)| {
            let xs = &x8.qs[32 * b..32 * b + 32];
            let mut codes = 0i32;
            let mut entries = 0i32;
            for i in 0..16 {
                codes += (blk[2 + i] & 0xF) as i32 * xs[i] as i32;
                codes += (blk[2 + i] >> 4) as i32 * xs[i + 16] as i32;
                entries += xs[i] as i32 + xs[i + 16] as i32;
            }
            BlockDot { scale: u16::from_le_bytes([blk[0], blk[1]]), sum: codes - 8 * entries }
        })
        .collect();
    assert_eq!(dots, folded);
    let b = combine(&folded, &x8);
    assert!((a - b).abs() < 1e-2 * (1.0 + a.abs()), "{a} and {b}");
}

#[test]
fn q4r_matches_q4() {
    let k = 2816usize;
    let n = 8usize;
    let mut s = 0xC0DEu32;
    let mut rnd = move || {
        s ^= s << 13;
        s ^= s >> 17;
        s ^= s << 5;
        (s as f32 / u32::MAX as f32) * 2.0 - 1.0
    };
    let mut w = vec![0u8; row_bytes(k) * n];
    let mut wr = vec![0u8; q4r_row_bytes(k) * n];
    for r in 0..n {
        let row: Vec<f32> = (0..k).map(|_| rnd()).collect();
        quantize(&row, &mut w[r * row_bytes(k)..(r + 1) * row_bytes(k)]);
        repack_row_q4r(
            &w[r * row_bytes(k)..(r + 1) * row_bytes(k)],
            &mut wr[r * q4r_row_bytes(k)..(r + 1) * q4r_row_bytes(k)],
            k,
        );
    }
    let x: Vec<f32> = (0..k).map(|_| rnd()).collect();
    let x8 = quantize_q8(&x);
    let d1 = gemv_q8(&w, &x8, n);
    let d2 = gemv_q8_r(&wr, &x8, n);
    assert_eq!(d1, d2);
    let y1: Vec<f32> = d1.chunks_exact(k / 32).map(|d| combine(d, &x8)).collect();
    let y2: Vec<f32> = d2.chunks_exact(k / 32).map(|d| combine(d, &x8)).collect();
    for r in 0..n {
        assert!((y1[r] - y2[r]).abs() < 1e-3 * (1.0 + y1[r].abs()), "{r}: {} {}", y1[r], y2[r]);
    }
    assert_eq!(repack_q4r(&w, n, k), wr);
}

#[test]
fn codes_are_packed_in_halves() {
    let codes: Vec<i32> = (0..32).map(|i| if i < 16 { i } else { 31 - i }).collect();
    let mut out = vec![0u8; 18];
    quantize_row(&[0x1234], &codes, &mut out);
    assert_eq!(out[..4], [0x34, 0x12, 0xF0, 0xE1]);
    assert_eq!(out[17], 0x0F);
    let back = dequantize_row(&out, 32);
    assert_eq!(back.scales, vec![0x1234]);
    assert_eq!(back.levels, codes.iter().map(|c| c - 8).collect::<Vec<i32>>());
}

#[test]
fn codes_out_of_range_are_clamped() {
    let mut codes = vec![-3i32; 32];
    codes[16] = 99;
    let mut out = vec![7u8; 18];
    quantize_row(&[0], &codes, &mut out);
    assert_eq!(out[2], 0xF0);
    assert_eq!(out[3], 0);
    assert_eq!(dequantize_row(&out, 32).levels[16], 7);
    assert_eq!(dequantize_row(&out, 32).levels[0], -8);
}

#[test]
fn repacking_leaves_the_padding() {
    let mut src = vec![0u8; 18];
    for (i, b) in src.iter_mut().enumerate() {
        *b = i as u8 + 1;
    }
    let mut dst = vec![0xEEu8; 32];
    repack_row_q4r(&src, &mut dst, 32);
    assert_eq!(dst[..2], [1, 2]);
    assert_eq!(dst[2..16], [0xEE; 14]);
    assert_eq!(dst[16..], src[2..]);
    let all = repack_q4r(&[src.clone(), src.clone()].concat(), 2, 32);
    assert_eq!(all.len(), 64);
    assert_eq!(all[..3], [1, 2, 0]);
    assert_eq!(all[32..34], [1, 2]);
    assert_eq!(all[48..], src[2..]);
}

#[test]
fn sizes_of_rows() {
    assert_eq!(row_bytes(2816), 1584);
    assert_eq!(row_bytes(0), 0);
    assert_eq!(q4r_scales_bytes(32), 16);
    assert_eq!(q4r_scales_bytes(256), 16);
    assert_eq!(q4r_scales_bytes(288), 32);
    assert_eq!(q4r_row_bytes(2816), 176 + 1408);
    assert_eq!(q4r_geom(288), (32 + 144, 32));
}

#[test]
fn activations_are_clamped() {
    let mut rounded = vec![0i32; 32];
    rounded[0] = 200;
    rounded[1] = -200;
    rounded[2] = -5;
    let q = Q8Vec::quantize(vec![7], &rounded);
    assert_eq!(q.qs[..4], [127, -127, -5, 0]);
    assert_eq!(q.d, vec![7]);
}

#[test]
fn a_block_has_its_dot_product() {
    let mut row = vec![0u8; 18];
    row[0] = 0x34;
    row[1] = 0x12;
    row[2] = 0xF0; // codes 0 and 15 for entries 0 and 16
    for b in row[3..].iter_mut() {
        *b = 0x88; // levels of zero
    }
    let mut x8 = Q8Vec { d: vec![0], qs: vec![1; 32] };
    x8.qs[0] = 3;
    x8.qs[16] = -2;
    let mut out = [BlockDot { scale: 0, sum: 0 }];
    dot_q4_q8(&row, &x8, &mut out);
    assert_eq!(out[0], BlockDot { scale: 0x1234, sum: -8 * 3 + 7 * -2 });
    let mut rowr = vec![0u8; 32];
    repack_row_q4r(&row, &mut rowr, 32);
    let mut outr = [BlockDot { scale: 0, sum: 0 }];
    dot_q4r_q8(&rowr, &x8, &mut outr);
    assert_eq!(out, outr);
}

#[test]
fn extreme_dot_products_fit() {
    let row = vec![0u8; 18];
    let x8 = Q8Vec { d: vec![0], qs: vec![-128; 32] };
    let dots = gemv_q8(&row, &x8, 1);
    assert_eq!(dots, vec![BlockDot { scale: 0, sum: 32768 }]);
    assert!(gemv_q8(&[], &Q8Vec { d: vec![], qs: vec![] }, 5).is_empty());
}

#[test]
fn packing_and_unpacking_undo_each_other() {
    let row: Vec<u8> = (0..36u32).map(|i| (i.wrapping_mul(2654435761) >> 9) as u8).collect();
    let r = dequantize_row(&row, 64);
    let codes: Vec<i32> = r.levels.iter().map(|l| l + 8).collect();
    let mut again = vec![0u8; 36];
    quantize_row(&r.scales, &codes, &mut again);
    assert_eq!(again, row);
}

#[test]
fn a_banked_expert_has_the_dot_products_of_its_tensors() {
    let shape = freetoken::expert_bank::ExpertShape { rows_in: 2, k_in: 64, rows_out: 3, k_out: 32 };
    let (all, first) = shape.sizes().unwrap();
    let noise = |n: u32, s: u32| -> Vec<u8> {
        (0..n).map(|i| ((i + s).wrapping_mul(2654435761) >> 9) as u8).collect()
    };
    let gate_up = noise(2 * 2 * 36, 1);
    let down = noise(2 * 3 * 18, 2);
    let mut bank = vec![0u8; 2 * all];
    freetoken::expert_bank::fill_layer(&gate_up, &down, shape, 2, &mut bank);
    let x = Q8Vec { d: vec![0; 2], qs: (0..64).map(|i| i as i8 - 30).collect() };
    let y = Q8Vec { d: vec![0; 1], qs: (0..32).map(|i| 3 * i as i8 - 30).collect() };
    for e in 0..2 {
        let expert = &bank[e * all..(e + 1) * all];
        assert_eq!(gemv_q8_r(&expert[..first], &x, 2), gemv_q8(&gate_up[e * 72..(e + 1) * 72], &x, 2));
        assert_eq!(gemv_q8_r(&expert[first..], &y, 3), gemv_q8(&down[e * 54..(e + 1) * 54], &y, 3));
    }
}
