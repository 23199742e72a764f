use rrtimelapse::sequence::{
    is_image_file, natural_cmp, natural_compare, natural_sort_order, sidecar_path, take_digits,
};
use rrtimelapse::rrdata::{backup_path, default_version};
use std::cmp::Ordering;

#[test]
fn frame_9_sorts_before_frame_10() {
    assert_eq!(natural_cmp("frame_9", "frame_10"), Ordering::Less);
    assert_eq!(natural_cmp("frame_10", "frame_9"), Ordering::Greater);
    assert_eq!(natural_cmp("DSC_0100.NEF", "DSC_0099.NEF"), Ordering::Greater);
}

#[test]
fn natural_order_ignores_ascii_case_and_leading_zeros() {
    assert_eq!(natural_cmp("IMG_1.jpg", "img_1.JPG"), Ordering::Equal);
    assert_eq!(natural_cmp("a01", "a1"), Ordering::Equal);
    assert_eq!(natural_cmp("", ""), Ordering::Equal);
}

#[test]
fn natural_order_prefix_first_and_chars_by_code() {
    assert_eq!(natural_cmp("frame", "frame_1"), Ordering::Less);
    assert_eq!(natural_cmp("a_1", "a-1"), Ordering::Greater);
    assert_eq!(natural_cmp("a1", "a:"), Ordering::Less);
    assert_eq!(natural_cmp("a1", "a."), Ordering::Greater);
    assert_eq!(natural_compare("b", "a"), 1);
    assert_eq!(natural_compare("a", "b"), -1);
}

#[test]
fn overlong_digit_runs_read_as_zero() {
    assert_eq!(natural_cmp("x99999999999999999999", "x0"), Ordering::Equal);
    assert_eq!(natural_cmp("x18446744073709551615", "x18446744073709551614"), Ordering::Greater);
    assert_eq!(take_digits("ab123cd", 2), (123, 5));
    assert_eq!(take_digits("99999999999999999999", 0), (0, 20));
    assert_eq!(take_digits("abc", 1), (0, 1));
}

#[test]
fn natural_order_is_a_total_preorder_on_samples() {
    let names = ["a", "A1", "a2", "a10", "b", "_x", "a01", "~", "a1b", "a1a", ""];
    for x in names {
        assert_eq!(natural_compare(x, x), 0);
        for y in names {
            assert_eq!(natural_compare(x, y), -natural_compare(y, x));
            for z in names {
                if natural_compare(x, y) <= 0 && natural_compare(y, z) <= 0 {
                    assert!(natural_compare(x, z) <= 0);
                }
            }
        }
    }
}

#[test]
fn frames_sort_stably_in_natural_order() {
    let names: Vec<String> = ["frame_10.nef", "frame_9.nef", "FRAME_9.nef", "frame_1.nef"]
        .iter()
        .map(|s| s.to_string())
        .collect();
    assert_eq!(natural_sort_order(&names), vec![3, 1, 2, 0]);
    assert_eq!(natural_sort_order(&Vec::new()), Vec::<usize>::new());
}

#[test]
fn image_files_are_recognised_by_extension() {
    assert!(is_image_file(Some("NEF")));
    assert!(is_image_file(Some("jpeg")));
    assert!(is_image_file(Some("Cr3")));
    assert!(!is_image_file(Some("rrdata")));
    assert!(!is_image_file(Some("")));
    assert!(!is_image_file(None));
}

#[test]
fn sidecar_and_backup_paths_append_suffixes() {
    assert_eq!(sidecar_path(b"/shots/DSC_0001.NEF"), b"/shots/DSC_0001.NEF.rrdata".to_vec());
    assert_eq!(backup_path(b"/shots/DSC_0001.NEF.rrdata"), b"/shots/DSC_0001.NEF.rrdata.bak".to_vec());
    assert_eq!(default_version(), 1);
}
