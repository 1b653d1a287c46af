use bitrag::nibble_hash::{hash_to_grid, nibble_hash_matrix, pack_nibble_id};

#[test]
fn test_uniformity_256() {
    let mut lo_count = [0u32; 256];
    let mut hi_count = [0u32; 256];

    for b in 0u8..=255 {
        let (hi, lo) = nibble_hash_matrix(&[b]);
        lo_count[lo as usize] += 1;
        hi_count[hi as usize] += 1;
    }

    let lo_covered = lo_count.iter().filter(|&&c| c > 0).count();
    let hi_covered = hi_count.iter().filter(|&&c| c > 0).count();

    assert!(
        lo_covered >= 150,
        "lo coverage too low: {}/256 distinct values",
        lo_covered
    );
    assert!(
        hi_covered >= 150,
        "hi coverage too low: {}/256 distinct values",
        hi_covered
    );

    let lo_max = *lo_count.iter().max().unwrap();
    let hi_max = *hi_count.iter().max().unwrap();
    assert!(lo_max <= 8, "lo has bucket with {} entries (max allowed 8)", lo_max);
    assert!(hi_max <= 8, "hi has bucket with {} entries (max allowed 8)", hi_max);
}

#[test]
fn test_uniformity_65536() {
    let mut joint = vec![0u32; 256 * 256];
    let mut lo_count = [0u32; 256];
    let mut hi_count = [0u32; 256];

    let mut hi_vals: Vec<f64> = Vec::with_capacity(65536);
    let mut lo_vals: Vec<f64> = Vec::with_capacity(65536);

    for a in 0u8..=255 {
        for b in 0u8..=255 {
            let (hi, lo) = nibble_hash_matrix(&[a, b]);
            joint[hi as usize * 256 + lo as usize] += 1;
            lo_count[lo as usize] += 1;
            hi_count[hi as usize] += 1;
            hi_vals.push(hi as f64);
            lo_vals.push(lo as f64);
        }
    }

    let lo_covered = lo_count.iter().filter(|&&c| c > 0).count();
    let hi_covered = hi_count.iter().filter(|&&c| c > 0).count();
    assert_eq!(lo_covered, 256, "lo does not cover all 256 values");
    assert_eq!(hi_covered, 256, "hi does not cover all 256 values");

    let lo_min = *lo_count.iter().min().unwrap();
    let lo_max = *lo_count.iter().max().unwrap();
    let hi_min = *hi_count.iter().min().unwrap();
    let hi_max = *hi_count.iter().max().unwrap();
    assert!(lo_min >= 154, "lo min count too low: {} (expected ≥154)", lo_min);
    assert!(lo_max <= 358, "lo max count too high: {} (expected ≤358)", lo_max);
    assert!(hi_min >= 154, "hi min count too low: {} (expected ≥154)", hi_min);
    assert!(hi_max <= 358, "hi max count too high: {} (expected ≤358)", hi_max);

    let distinct = joint.iter().filter(|&&c| c > 0).count();
    assert!(
        distinct >= 39321,
        "joint coverage too low: {} / 65536 distinct pairs",
        distinct
    );

    let n = 65536.0f64;
    let mean_hi: f64 = hi_vals.iter().sum::<f64>() / n;
    let mean_lo: f64 = lo_vals.iter().sum::<f64>() / n;
    let (mut sum_xy, mut sum_x2, mut sum_y2) = (0.0f64, 0.0f64, 0.0f64);
    for i in 0..65536 {
        let x = hi_vals[i] - mean_hi;
        let y = lo_vals[i] - mean_lo;
        sum_xy += x * y;
        sum_x2 += x * x;
        sum_y2 += y * y;
    }
    let pearson = if sum_x2 > 0.0 && sum_y2 > 0.0 {
        sum_xy / (sum_x2.sqrt() * sum_y2.sqrt())
    } else {
        1.0
    };
    assert!(
        pearson.abs() <= 0.05,
        "hi and lo are not independent: Pearson corr = {:.6} (expected |corr| ≤ 0.05)",
        pearson
    );
}

#[test]
fn test_hash_to_grid() {
    let (row, col) = hash_to_grid(0xAB, 0xCD);
    assert_eq!(row, 0xA);
    assert_eq!(col, 0xC);
}

#[test]
fn test_pack_nibble_id() {
    let id = pack_nibble_id(0xA0, 0xB0, 0x3, 0x5);
    assert_eq!(id, (0x5u16 << 12) | (0xA << 8) | (0xB << 4) | 0x3);
}

#[test]
fn hash_of_empty_input_is_fixed() {
    assert_eq!(nibble_hash_matrix(&[]), nibble_hash_matrix(&[]));
    assert_ne!(nibble_hash_matrix(&[1, 2, 3]), nibble_hash_matrix(&[3, 2, 1]));
}

#[test]
fn pack_nibble_id_masks_classes() {
    assert_eq!(pack_nibble_id(0xFF, 0xFF, 0xF3, 0xF5), 0x5FF3);
}
