use rrtimelapse::preview::{
    extract_embedded_jpeg, find_eoi, jpeg_data_url, jpeg_markers, next_span, preview_if_decoded,
    preview_source, search_step, whole_file_preview, Preview, PreviewSource, SearchStep, SCAN_CAP,
};
use rrtimelapse::deflicker::window_bounds;

fn jpeg_bytes(w: u32, h: u32) -> Vec<u8> {
    let img = image::RgbImage::from_pixel(w, h, image::Rgb([200, 100, 50]));
    let mut buf = Vec::new();
    image::DynamicImage::ImageRgb8(img)
        .write_to(&mut std::io::Cursor::new(&mut buf), image::ImageFormat::Jpeg)
        .unwrap();
    buf
}

fn png_bytes() -> Vec<u8> {
    let img = image::RgbImage::from_pixel(3, 2, image::Rgb([1, 2, 3]));
    let mut buf = Vec::new();
    image::DynamicImage::ImageRgb8(img)
        .write_to(&mut std::io::Cursor::new(&mut buf), image::ImageFormat::Png)
        .unwrap();
    buf
}

#[test]
fn find_eoi_finds_the_end_marker() {
    assert_eq!(find_eoi(&[0x00, 0xFF, 0xD9, 0x01], 0), Some(3));
    assert_eq!(find_eoi(&[0xFF, 0xD9, 0xFF, 0xD9], 1), Some(4));
    assert_eq!(find_eoi(&[0xFF, 0xD8], 0), None);
    assert_eq!(find_eoi(&[], 5), None);
}

/// Every span from an `FF D8` to the end of a later `FF D9`, longest
/// first, earliest first among equally long ones; the first that decodes.
fn longest_decodable(region: &[u8]) -> Option<Vec<u8>> {
    let mut spans = Vec::new();
    for s in 0..region.len() {
        if s + 1 < region.len() && region[s] == 0xFF && region[s + 1] == 0xD8 {
            for e in s + 4..=region.len() {
                if region[e - 2] == 0xFF && region[e - 1] == 0xD9 {
                    spans.push((s, e));
                }
            }
        }
    }
    spans.sort_by_key(|&(s, e)| (std::cmp::Reverse(e - s), s));
    spans
        .into_iter()
        .find(|&(s, e)| image::load_from_memory(&region[s..e]).is_ok())
        .map(|(s, e)| region[s..e].to_vec())
}

#[test]
fn spans_are_tried_longest_first() {
    let region = [0xFF, 0xD8, 0x00, 0xFF, 0xD8, 0x00, 0xFF, 0xD9, 0x00, 0xFF, 0xD9];
    assert_eq!(next_span(&region, None), Some((0, 11)));
    assert_eq!(next_span(&region, Some((0, 11))), Some((0, 8)));
    assert_eq!(next_span(&region, Some((0, 8))), Some((3, 11)));
    assert_eq!(next_span(&region, Some((3, 11))), Some((3, 8)));
    assert_eq!(next_span(&region, Some((3, 8))), None);
    assert_eq!(next_span(&[0xFF, 0xD8, 0xFF, 0xD9], None), Some((0, 4)));
    // an end marker before the start marker does not count
    assert_eq!(next_span(&[0xFF, 0xD9, 0xFF, 0xD8], None), None);
}

#[test]
fn an_embedded_jpeg_is_extracted() {
    let jpeg = jpeg_bytes(16, 16);
    let mut region = vec![0x49, 0x49, 0x2A, 0x00];
    region.extend_from_slice(&jpeg);
    region.extend_from_slice(&[7, 7, 7]);
    assert_eq!(extract_embedded_jpeg(&region).unwrap().bytes, jpeg);
}

#[test]
fn the_longest_decodable_embedded_jpeg_is_extracted() {
    let small = jpeg_bytes(2, 2);
    let large = jpeg_bytes(16, 16);
    let mut region = vec![0x49, 0x49, 0x2A, 0x00];
    region.extend_from_slice(&[0xFF, 0xD8, 0x01, 0x02, 0xFF, 0xD9]);
    region.extend_from_slice(&small);
    region.extend_from_slice(&[7, 7, 7]);
    region.extend_from_slice(&large);
    region.extend_from_slice(&[0xFF, 0xD8, 0x00]);
    let expected = longest_decodable(&region).unwrap();
    assert!(expected.len() >= large.len());
    assert_eq!(extract_embedded_jpeg(&region).unwrap().bytes, expected);
}

#[test]
fn only_the_first_scan_cap_bytes_are_searched() {
    let jpeg = jpeg_bytes(4, 4);
    let mut data = vec![0u8; SCAN_CAP - 2];
    data.extend_from_slice(&jpeg);
    assert!(extract_embedded_jpeg(&data).is_none());
}

#[test]
fn no_embedded_jpeg_gives_none() {
    assert!(extract_embedded_jpeg(&[1, 2, 3, 0xFF, 0xD8, 0x00, 0xFF, 0xD9]).is_none());
    assert!(extract_embedded_jpeg(&[]).is_none());
}

#[test]
fn whole_jpeg_and_png_files_are_their_own_preview() {
    assert_eq!(preview_source(Some("JPG")), PreviewSource::WholeFile);
    assert_eq!(preview_source(Some("png")), PreviewSource::WholeFile);
    assert_eq!(preview_source(Some("nef")), PreviewSource::EmbeddedJpeg);
    assert_eq!(preview_source(None), PreviewSource::EmbeddedJpeg);
    let png = png_bytes();
    assert_eq!(whole_file_preview(png.clone()).unwrap().bytes, png);
    assert!(whole_file_preview(vec![1, 2, 3]).is_none());
    assert_eq!(preview_if_decoded(vec![4, 5], true).unwrap().bytes, vec![4, 5]);
    assert!(preview_if_decoded(vec![4, 5], false).is_none());
    assert_eq!(SCAN_CAP, 16 * 1024 * 1024);
}

#[test]
fn data_url_is_standard_base64_with_padding() {
    assert_eq!(jpeg_data_url(b"hello"), "data:image/jpeg;base64,aGVsbG8=");
    assert_eq!(jpeg_data_url(b""), "data:image/jpeg;base64,");
    assert_eq!(jpeg_data_url(&[0xFB, 0xFF]), "data:image/jpeg;base64,+/8=");
    assert_eq!(jpeg_data_url(b"abc"), "data:image/jpeg;base64,YWJj");
}

#[test]
fn deflicker_windows_are_clipped() {
    assert_eq!(window_bounds(0, 10, 5), (0, 2));
    assert_eq!(window_bounds(5, 10, 5), (3, 7));
    assert_eq!(window_bounds(9, 10, 5), (7, 9));
    assert_eq!(window_bounds(3, 10, 0), (3, 3));
    assert_eq!(window_bounds(3, 10, usize::MAX), (0, 9));
}

#[test]
fn the_search_keeps_the_first_span_that_decodes() {
    let region = [0xFF, 0xD8, 0x00, 0xFF, 0xD8, 0x00, 0xFF, 0xD9, 0x00, 0xFF, 0xD9];
    let markers = jpeg_markers(&region);
    assert_eq!(search_step(&region, &markers, None), SearchStep::Try(0, 11));
    assert_eq!(search_step(&region, &markers, Some((0, 11, false))), SearchStep::Try(0, 8));
    assert_eq!(
        search_step(&region, &markers, Some((0, 8, true))),
        SearchStep::Found(Preview { bytes: region[0..8].to_vec() })
    );
    assert_eq!(search_step(&region, &markers, Some((3, 8, false))), SearchStep::Exhausted);
    let none = [1u8, 2, 3];
    assert_eq!(search_step(&none, &jpeg_markers(&none), None), SearchStep::Exhausted);
}
