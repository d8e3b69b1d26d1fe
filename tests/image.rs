use intcode::image::{digits_from_bytes, layer_checksum, render, split_layers, Pixel};

#[test]
fn visible_pixels_of_stacked_layers() {
    let digits = digits_from_bytes(&b"0222112222120000\n".to_vec());
    let layers = split_layers(&digits, 4);
    assert_eq!(layers.len(), 4);
    assert_eq!(
        render(&layers, 4),
        vec![Pixel::Black, Pixel::White, Pixel::White, Pixel::Black]
    );
}

#[test]
fn checksum_of_layer_with_fewest_zeros() {
    let digits = digits_from_bytes(&b"123456789012".to_vec());
    let layers = split_layers(&digits, 6);
    assert_eq!(layers, vec![vec![1, 2, 3, 4, 5, 6], vec![7, 8, 9, 0, 1, 2]]);
    assert_eq!(layer_checksum(&layers), Some(1));
    assert_eq!(layer_checksum(&vec![]), None);
}

#[test]
fn short_last_layer() {
    let layers = split_layers(&vec![1, 2, 3], 2);
    assert_eq!(layers, vec![vec![1, 2], vec![3]]);
}

#[test]
fn glyphs() {
    assert_eq!(Pixel::White.glyph(), '1');
    assert_eq!(Pixel::Black.glyph(), ' ');
    assert_eq!(Pixel::from_digit(2), Some(Pixel::Transparent));
    assert_eq!(Pixel::from_digit(3), None);
}
