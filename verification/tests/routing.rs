use freetoken::routing::{are_comparable, greatest, top_k};

fn bits(v: &[f32]) -> Vec<u32> {
    v.iter().map(|x| x.to_bits()).collect()
}

#[test]
fn the_highest_scores_come_first() {
    let s = bits(&[0.5, -1.0, 3.0, 0.25, f32::INFINITY, -f32::INFINITY]);
    assert_eq!(top_k(&s, 3), vec![4, 2, 0]);
    assert_eq!(top_k(&s, 6), vec![4, 2, 0, 3, 1, 5]);
    assert_eq!(top_k(&s, 0), Vec::<u32>::new());
}

#[test]
fn equal_scores_keep_their_order() {
    let s = bits(&[1.0, 2.0, 2.0, 1.0]);
    assert_eq!(top_k(&s, 4), vec![1, 2, 0, 3]);
    let zeros = bits(&[-0.0, 0.0, -0.0]);
    assert_eq!(top_k(&zeros, 3), vec![0, 1, 2]);
}

#[test]
fn order_matches_a_stable_sort() {
    let v: Vec<f32> = (0..64u32)
        .map(|i| ((i.wrapping_mul(2654435761) >> 20) as f32 - 2048.0) / 7.0)
        .collect();
    let mut order: Vec<usize> = (0..v.len()).collect();
    order.sort_by(|&a, &b| v[b].partial_cmp(&v[a]).unwrap());
    let got: Vec<usize> = top_k(&bits(&v), 64).iter().map(|&e| e as usize).collect();
    assert_eq!(got, order);
}

#[test]
fn not_a_number_cannot_be_compared() {
    assert!(!are_comparable(&bits(&[1.0, f32::NAN])));
    assert!(!are_comparable(&bits(&[-f32::NAN, 1.0])));
    assert!(are_comparable(&bits(&[f32::NAN])));
    assert!(are_comparable(&bits(&[f32::INFINITY, -f32::INFINITY])));
    assert!(are_comparable(&[]));
}

#[test]
fn the_last_of_the_greatest_wins() {
    assert_eq!(greatest(&bits(&[1.0, 3.0, 3.0, 2.0])), Some(2));
    assert_eq!(greatest(&bits(&[-1.0, -3.0])), Some(0));
    assert_eq!(greatest(&bits(&[0.0, -0.0])), Some(1));
    assert_eq!(greatest(&[]), None);
}
