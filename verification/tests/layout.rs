use kmeans_color_gpu::error::{Error, ErrorKind};
use kmeans_color_gpu::image::{copied_pixel, Image};
use kmeans_color_gpu::layout::{
    centroid_copy_size, centroid_records, check_centroid_header, empty_centroids,
    fixed_centroids, image_from_padded, index_uniform, records_are_finite, slice_copy,
    word_is_finite, words_are_finite, zero_words, OutputBufferLayout,
};
use kmeans_color_gpu::utils::{
    ceil_div, compute_work_group_count, grid_size, padded_bytes_per_row, tile_count,
};

#[test]
fn bytes_per_row_for_130_pixels() {
    assert_eq!(padded_bytes_per_row(520), 768);
}

#[test]
fn bytes_per_row_is_the_next_multiple_of_256() {
    assert_eq!(padded_bytes_per_row(0), 0);
    assert_eq!(padded_bytes_per_row(1), 256);
    assert_eq!(padded_bytes_per_row(255), 256);
    assert_eq!(padded_bytes_per_row(256), 256);
    assert_eq!(padded_bytes_per_row(257), 512);
    for width in 0u64..2000 {
        let padded = padded_bytes_per_row(width * 4);
        assert_eq!(padded % 256, 0);
        assert!(padded >= width * 4);
        assert!(padded - width * 4 < 256);
    }
    assert_eq!(padded_bytes_per_row(u64::MAX - 255), u64::MAX - 255);
}

#[test]
fn work_groups_cover_the_grid() {
    assert_eq!(compute_work_group_count((130, 16), (16, 16)), (9, 1));
    assert_eq!(compute_work_group_count((128, 17), (16, 16)), (8, 2));
    assert_eq!(compute_work_group_count((0, 1), (16, 16)), (0, 1));
    assert_eq!(compute_work_group_count((u32::MAX, 5), (1, 5)), (u32::MAX, 1));
    assert_eq!(compute_work_group_count((u32::MAX, u32::MAX), (2, u32::MAX)), (1 << 31, 1));
    assert_eq!(tile_count((256, 100)), (16, 7));
    assert_eq!(ceil_div(4097, 4096), 2);
    assert_eq!(grid_size((u32::MAX, u32::MAX)), u32::MAX as u64 * u32::MAX as u64);
}

fn native(word: u32) -> [u8; 4] {
    word.to_ne_bytes()
}

#[test]
fn empty_centroids_are_a_header_and_zeros() {
    let contents = empty_centroids(3);
    assert_eq!(contents.len(), 64);
    assert_eq!(contents[0..4], native(3));
    assert!(contents[4..].iter().all(|byte| *byte == 0));
    assert_eq!(centroid_copy_size(3), 64);
    assert_eq!(empty_centroids(0).len(), 16);
    assert_eq!(centroid_copy_size(u32::MAX), 16 * (1u64 << 32));
}

#[test]
fn fixed_centroids_put_the_records_behind_the_header() {
    let records: Vec<u8> = (0u8..32).collect();
    let contents = fixed_centroids(&records).unwrap();
    assert_eq!(contents.len(), 48);
    assert_eq!(contents[0..4], native(2));
    assert_eq!(contents[4..16], [0u8; 12]);
    assert_eq!(contents[16..], records[..]);
    assert_eq!(fixed_centroids(&records[..31]), Err(Error::LayoutMismatch));
    assert_eq!(fixed_centroids(&[]).unwrap().len(), 16);
}

#[test]
fn centroid_records_come_back_as_written() {
    let records: Vec<u8> = (100u8..148).collect();
    let contents = fixed_centroids(&records).unwrap();
    assert_eq!(centroid_records(&contents, 3), Ok(records));
    assert_eq!(centroid_records(&contents, 2), Err(Error::LayoutMismatch));
    assert_eq!(centroid_records(&contents[..47], 3), Err(Error::LayoutMismatch));
    assert_eq!(centroid_records(&[], 0), Err(Error::LayoutMismatch));
    let mut wrong = contents.clone();
    wrong[0] ^= 0x40;
    wrong[3] ^= 0x40;
    assert_eq!(centroid_records(&wrong, 3), Err(Error::LayoutMismatch));
    assert_eq!(Error::LayoutMismatch.kind(), ErrorKind::InternalInvariant);
}

#[test]
fn centroid_header_is_checked_against_k() {
    assert_eq!(check_centroid_header(64, 3, 3), Ok(()));
    assert_eq!(check_centroid_header(64, 2, 3), Err(Error::LayoutMismatch));
    assert_eq!(check_centroid_header(48, 3, 3), Err(Error::LayoutMismatch));
    assert_eq!(check_centroid_header(16, 0, 0), Ok(()));
}

#[test]
fn small_buffers_hold_words() {
    assert_eq!(index_uniform(7), native(7));
    assert_eq!(index_uniform(0x0102_0304), native(0x0102_0304));
    assert_eq!(zero_words(3), vec![0u8; 12]);
    assert_eq!(zero_words(0), Vec::<u8>::new());
    assert_eq!(slice_copy(&[1, 2, 3, 4, 5], 1, 4), vec![2, 3, 4]);
}

#[test]
fn output_buffer_layout_pads_rows() {
    let layout = OutputBufferLayout::new((130, 3)).unwrap();
    assert_eq!(layout.unpadded_bytes_per_row, 520);
    assert_eq!(layout.padded_bytes_per_row, 768);
    assert_eq!(layout.height, 3);
    assert_eq!(layout.size, 2304);
    let layout = OutputBufferLayout::new((64, 2)).unwrap();
    assert_eq!(layout.padded_bytes_per_row, 256);
    assert_eq!(layout.size, 512);
    assert_eq!(OutputBufferLayout::new((0, 9)).unwrap().size, 0);
    // 4 * 1073741761 = 2^32 - 252 bytes, which pad to 2^32
    assert_eq!(OutputBufferLayout::new((1_073_741_761, 1)), Err(Error::ImageTooLarge));
    assert!(OutputBufferLayout::new((1_073_741_760, 1)).is_ok());
    assert_eq!(Error::ImageTooLarge.kind(), ErrorKind::Resource);
}

#[test]
fn padding_is_stripped_row_by_row() {
    let layout = OutputBufferLayout::new((2, 3)).unwrap();
    let mut padded = vec![0xeeu8; 768];
    for row in 0..3usize {
        for column in 0..8usize {
            padded[row * 256 + column] = (row * 8 + column) as u8;
        }
    }
    let packed = layout.strip_padding(&padded).unwrap();
    assert_eq!(packed, (0u8..24).collect::<Vec<u8>>());
    assert_eq!(layout.strip_padding(&padded[..767]), Err(Error::LayoutMismatch));
}

#[test]
fn image_is_read_back_from_padded_rows() {
    let mut padded = vec![0u8; 512];
    padded[0..8].copy_from_slice(&[1, 2, 3, 4, 5, 6, 7, 8]);
    padded[256..264].copy_from_slice(&[9, 10, 11, 12, 13, 14, 15, 16]);
    let image = image_from_padded((2, 2), &padded).unwrap();
    assert_eq!(image.dimensions(), (2, 2));
    assert_eq!(*image.get_pixel(0, 0), [1, 2, 3, 4]);
    assert_eq!(*image.get_pixel(1, 0), [5, 6, 7, 8]);
    assert_eq!(*image.get_pixel(0, 1), [9, 10, 11, 12]);
    assert_eq!(*image.get_pixel(1, 1), [13, 14, 15, 16]);
    assert!(matches!(image_from_padded((2, 2), &padded[..256]), Err(Error::LayoutMismatch)));
}

#[test]
fn images_keep_their_pixels() {
    let raw: Vec<u8> = (0u8..24).collect();
    let image = Image::from_raw_pixels((3, 2), &raw);
    assert_eq!(image.dimensions(), (3, 2));
    assert_eq!(*image.get_pixel(2, 0), [8, 9, 10, 11]);
    assert_eq!(*image.get_pixel(0, 1), [12, 13, 14, 15]);
    assert_eq!(image.as_pixels().len(), 6);
    assert_eq!(image.into_raw_pixels(), raw);

    let copied = copied_pixel((2, 3), &raw);
    assert_eq!(*copied.get_pixel(1, 2), [20, 21, 22, 23]);

    let image = Image::new((1, 2), vec![[1, 2, 3, 4], [5, 6, 7, 8]]);
    assert_eq!(*image.get_pixel(0, 1), [5, 6, 7, 8]);
    assert_eq!(image.into_raw_pixels(), vec![1, 2, 3, 4, 5, 6, 7, 8]);
}

#[test]
fn finite_floats_are_told_by_their_bits() {
    for value in [0.0f32, -0.0, 1.0, -1.5, 100.0, f32::MAX, f32::MIN, f32::MIN_POSITIVE, 1e-45] {
        assert!(word_is_finite(value.to_bits()), "{}", value);
    }
    for value in [f32::INFINITY, f32::NEG_INFINITY, f32::NAN, -f32::NAN] {
        assert!(!word_is_finite(value.to_bits()), "{}", value);
    }
    for bits in (0..=u32::MAX).step_by(65_521) {
        assert_eq!(word_is_finite(bits), f32::from_bits(bits).is_finite());
    }
    assert!(words_are_finite(&vec![]));
    assert!(words_are_finite(&vec![1.0f32.to_bits(), 50.0f32.to_bits()]));
    assert!(!words_are_finite(&vec![1.0f32.to_bits(), f32::NAN.to_bits()]));

    let mut records = vec![];
    for value in [50.0f32, 2.5, -79.75, 1.0] {
        records.extend_from_slice(&value.to_ne_bytes());
    }
    assert_eq!(records_are_finite(&records), Ok(true));
    records[4..8].copy_from_slice(&f32::INFINITY.to_ne_bytes());
    assert_eq!(records_are_finite(&records), Ok(false));
    assert_eq!(records_are_finite(&records[..15]), Err(Error::LayoutMismatch));
}
