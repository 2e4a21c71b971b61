use tvid::hash::{collect_bits, gradient_hash, mean_hash, HashParseError};

fn h(bytes: [u8; 8]) -> tvid::hash::Hash {
    tvid::hash::Hash(bytes)
}

#[test]
fn distance_counts_differing_bits() {
    assert_eq!(h([0; 8]).distance(&h([0; 8])), 0);
    assert_eq!(h([0; 8]).distance(&h([0xff, 0, 0, 0, 0, 0, 0, 0])), 8);
    assert_eq!(h([0; 8]).distance(&h([0xff; 8])), 64);
    assert_eq!(h([0b1010, 1, 0, 0, 0, 0, 0, 0x80]).distance(&h([0b0110, 0, 0, 0, 0, 0, 0, 0])), 4);
}

#[test]
fn distance_is_symmetric() {
    let a = h([1, 2, 3, 4, 5, 6, 7, 8]);
    let b = h([8, 7, 6, 5, 4, 3, 2, 1]);
    assert_eq!(a.distance(&b), b.distance(&a));
}

#[test]
fn mean_hash_marks_samples_above_mean() {
    assert_eq!(mean_hash(&[0, 10, 20, 30]), vec![false, false, true, true]);
    assert_eq!(mean_hash(&[7, 7, 7]), vec![false, false, false]);
    assert_eq!(mean_hash(&[0, 0, 1]), vec![false, false, true]);
    assert!(mean_hash(&[]).is_empty());
}

#[test]
fn gradient_hash_compares_neighbors_in_rows() {
    assert_eq!(gradient_hash(&[1, 2, 3, 3, 2, 1], 3), vec![true, true, false, false]);
    assert_eq!(gradient_hash(&[1, 2, 3, 4, 5], 2), vec![true, true]);
    assert_eq!(gradient_hash(&[5, 5], 2), vec![false]);
    assert!(gradient_hash(&[1, 2, 3], 1).is_empty());
}

#[test]
fn gradient_hash_of_nine_by_eight_has_sixty_four_bits() {
    let luma: Vec<u8> = (0..72u32).map(|i| (i * 7 % 251) as u8).collect();
    assert_eq!(gradient_hash(&luma, 9).len(), 64);
}

#[test]
fn collect_bits_packs_least_significant_first() {
    let mut out = [0xaau8; 8];
    collect_bits(&vec![true, false, true], &mut out);
    assert_eq!(out, [5, 0, 0, 0, 0, 0, 0, 0]);
    let mut bits = vec![false; 9];
    bits[8] = true;
    bits[7] = true;
    collect_bits(&bits, &mut out);
    assert_eq!(out, [0x80, 1, 0, 0, 0, 0, 0, 0]);
    collect_bits(&vec![true; 64], &mut out);
    assert_eq!(out, [0xff; 8]);
}

#[test]
fn base64_text_form() {
    assert_eq!(h([0; 8]).to_base64(), "AAAAAAAAAAA=");
    assert_eq!(h([0xff; 8]).to_base64(), "//////////8=");
    let a = h([1, 2, 3, 4, 5, 6, 7, 8]);
    assert_eq!(a.to_base64(), "AQIDBAUGBwg=");
    assert_eq!(tvid::hash::Hash::from_base64(&a.to_base64()), Ok(a));
}

#[test]
fn base64_parse_errors() {
    assert_eq!(tvid::hash::Hash::from_base64("!!!!"), Err(HashParseError::InvalidBase64));
    assert_eq!(tvid::hash::Hash::from_base64("AAAA"), Err(HashParseError::InvalidLength(3)));
    assert_eq!(
        tvid::hash::Hash::from_decoded(&vec![1, 2]),
        Err(HashParseError::InvalidLength(2))
    );
    assert_eq!(tvid::hash::Hash::from_decoded(&vec![9; 8]), Ok(h([9; 8])));
}

#[test]
fn hashes_order_by_bytes() {
    assert!(h([0, 0, 0, 0, 0, 0, 0, 1]) < h([0, 0, 0, 0, 0, 0, 1, 0]));
}
