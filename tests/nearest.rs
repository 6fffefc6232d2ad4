use pixel_colour::nearest::nearest_index;

#[test]
fn nearest_index_finds_smallest_key() {
    assert_eq!(nearest_index(&[9, 4, 7, 5]), 1);
    assert_eq!(nearest_index(&[3]), 0);
    assert_eq!(nearest_index(&[8, 6, 2]), 2);
}

#[test]
fn nearest_index_tie_goes_to_earlier() {
    assert_eq!(nearest_index(&[5, 2, 9, 2]), 1);
    assert_eq!(nearest_index(&[0, 0, 0]), 0);
    assert_eq!(nearest_index(&[u32::MAX, u32::MAX]), 0);
}

#[test]
fn nearest_index_on_float_distance_bits() {
    // Non-negative floats order like their bit patterns.
    let distances = [0.5f32, 0.0195, 2.25, 0.0195];
    let keys: Vec<u32> = distances.iter().map(|d| d.to_bits()).collect();
    assert_eq!(nearest_index(&keys), 1);
}
