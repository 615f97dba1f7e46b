use minesweeper::sprites::split_sprites;

fn by_chunks(pixels: &[u8], width: usize, height: usize, count: usize) -> Vec<Vec<u8>> {
    let mut sprites: Vec<Vec<u8>> = Vec::new();
    for band in pixels.chunks(width * height * count * 4) {
        let mut dealt: Vec<Vec<u8>> = vec![Vec::new(); count];
        for (i, strip) in band.chunks(width * count).enumerate() {
            dealt[i % count].extend_from_slice(strip);
        }
        sprites.extend(dealt);
    }
    sprites
}

#[test]
fn empty_sheet_has_no_sprites() {
    assert!(split_sprites(&Vec::new(), 8, 8, 4).is_empty());
}

#[test]
fn one_band_of_two_sprites() {
    let pixels: Vec<u8> = (0..16).collect();
    let sprites = split_sprites(&pixels, 1, 2, 2);
    assert_eq!(
        sprites,
        vec![vec![0, 1, 4, 5, 8, 9, 12, 13], vec![2, 3, 6, 7, 10, 11, 14, 15]]
    );
}

#[test]
fn two_bands_come_one_after_the_other() {
    let pixels: Vec<u8> = (0..32).collect();
    let sprites = split_sprites(&pixels, 1, 2, 2);
    assert_eq!(sprites.len(), 4);
    assert_eq!(sprites[0], vec![0, 1, 4, 5, 8, 9, 12, 13]);
    assert_eq!(sprites[1], vec![2, 3, 6, 7, 10, 11, 14, 15]);
    assert_eq!(sprites[2], vec![16, 17, 20, 21, 24, 25, 28, 29]);
    assert_eq!(sprites[3], vec![18, 19, 22, 23, 26, 27, 30, 31]);
}

#[test]
fn short_last_band_and_short_last_strip() {
    let pixels: Vec<u8> = (0..21).collect();
    let sprites = split_sprites(&pixels, 1, 2, 2);
    assert_eq!(sprites.len(), 4);
    assert_eq!(sprites[2], vec![16, 17, 20]);
    assert_eq!(sprites[3], vec![18, 19]);
    let one = split_sprites(&vec![9], 2, 2, 3);
    assert_eq!(one, vec![vec![9], vec![], vec![]]);
}

#[test]
fn sheet_of_four_sprites_in_a_row() {
    let width = 8;
    let height = 8;
    let count = 4;
    let rows = 4;
    let mut pixels: Vec<u8> = Vec::new();
    for band in 0..rows {
        for _line in 0..height {
            for sprite in 0..count {
                for _px in 0..width {
                    for _channel in 0..4 {
                        pixels.push((band * count + sprite) as u8);
                    }
                }
            }
        }
    }
    let sprites = split_sprites(&pixels, width, height, count);
    assert_eq!(sprites.len(), 16);
    for (k, sprite) in sprites.iter().enumerate() {
        assert_eq!(sprite.len(), width * height * 4);
        assert!(sprite.iter().all(|&b| b == k as u8));
    }
}

#[test]
fn splitting_agrees_with_chunking() {
    for &(len, width, height, count) in
        &[(0usize, 1usize, 1usize, 1usize), (1, 1, 1, 1), (100, 1, 1, 1), (257, 2, 3, 2), (1000, 3, 2, 5), (64, 8, 8, 4), (999, 4, 1, 3)]
    {
        let pixels: Vec<u8> = (0..len).map(|i| (i * 7 % 251) as u8).collect();
        assert_eq!(split_sprites(&pixels, width, height, count), by_chunks(&pixels, width, height, count));
    }
}
