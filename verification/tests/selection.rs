use ct_thumbnail::select::is_supported_slice;
use ct_thumbnail::select::natural_cmp;
use ct_thumbnail::select::pattern_names;
use ct_thumbnail::select::select_directory;
use ct_thumbnail::select::Cmp;

fn names(list: &[&str]) -> Vec<Vec<u8>> {
    list.iter().map(|s| s.as_bytes().to_vec()).collect()
}

#[test]
fn natural_order_puts_two_before_ten() {
    let a = b"img2.png".to_vec();
    let b = b"img10.png".to_vec();
    assert_eq!(natural_cmp(&a, &b), Cmp::Lt);
    assert_eq!(natural_cmp(&b, &a), Cmp::Gt);
    assert_eq!(natural_cmp(&a, &a), Cmp::Eq);
}

#[test]
fn natural_order_handles_leading_zeros() {
    // left-aligned matching: `015` < `12`
    assert_eq!(natural_cmp(&b"a015".to_vec(), &b"a12".to_vec()), Cmp::Lt);
    // right-aligned matching: `15` < `123`
    assert_eq!(natural_cmp(&b"a15".to_vec(), &b"a123".to_vec()), Cmp::Lt);
    assert_eq!(natural_cmp(&b"a1".to_vec(), &b"a01".to_vec()), Cmp::Gt);
}

#[test]
fn natural_order_agrees_with_natord() {
    let samples = [
        "a", "a0", "a1", "a1a", "a1b", "a2", "a10", "a20", "x2-g8", "x2-y7", "x2-y8", "x8-y8",
        "1.001", "1.002", "1.010", "1.02", "1.1", "1.3", "slice1.tif", "slice10.tif",
        "slice2.tif", "b20", "B3", "rfc1.txt", "rfc822.txt", "rfc2086.txt",
    ];
    for x in samples.iter() {
        for y in samples.iter() {
            let mine = natural_cmp(&x.as_bytes().to_vec(), &y.as_bytes().to_vec());
            let theirs = match natord::compare(x, y) {
                std::cmp::Ordering::Less => Cmp::Lt,
                std::cmp::Ordering::Equal => Cmp::Eq,
                std::cmp::Ordering::Greater => Cmp::Gt,
            };
            assert_eq!(mine, theirs, "disagree on {:?} vs {:?}", x, y);
        }
    }
}

#[test]
fn directory_selection_orders_naturally() {
    let input = names(&["img2.png", "img10.png", "img1.png"]);
    let out = select_directory(input).unwrap();
    assert_eq!(out, names(&["img1.png", "img2.png", "img10.png"]));
}

#[test]
fn directory_selection_filters_extensions() {
    let input = names(&[
        "b.TIFF", "a.tif", "notes.txt", "c.JPg", "noext", ".tif", "d.bmp", "e.jpeg", "f.png",
        "g.tar.gz",
    ]);
    let out = select_directory(input).unwrap();
    assert_eq!(out, names(&["a.tif", "b.TIFF", "c.JPg", "d.bmp", "e.jpeg", "f.png"]));
}

#[test]
fn empty_selection_is_reported() {
    let input = names(&["notes.txt", "data.bin"]);
    assert!(select_directory(input).is_err());
}

#[test]
fn extension_check_is_case_insensitive() {
    assert!(is_supported_slice(&b"scan.TIF".to_vec()));
    assert!(is_supported_slice(&b"scan.tiff".to_vec()));
    assert!(is_supported_slice(&b"scan.Png".to_vec()));
    assert!(!is_supported_slice(&b"scan.txt".to_vec()));
    assert!(!is_supported_slice(&b"scan".to_vec()));
    assert!(!is_supported_slice(&b".tif".to_vec()));
}

#[test]
fn pattern_names_cover_the_inclusive_range() {
    let got = pattern_names(&b"slice_".to_vec(), &b"bmp".to_vec(), 5, 8, 3);
    assert_eq!(
        got,
        names(&["slice_005.bmp", "slice_006.bmp", "slice_007.bmp", "slice_008.bmp"])
    );
    // indices wider than the pad keep all their digits
    let wide = pattern_names(&b"s".to_vec(), &b"png".to_vec(), 1234, 1234, 2);
    assert_eq!(wide, names(&["s1234.png"]));
    let empty = pattern_names(&b"s".to_vec(), &b"png".to_vec(), 9, 5, 3);
    assert!(empty.is_empty());
}

#[test]
fn pattern_selection_keeps_existing_in_ascending_order() {
    // of indices 5..=8 only 005 and 007 exist on disk: exactly those
    // two survive, still ascending
    let candidates = pattern_names(&b"img".to_vec(), &b"png".to_vec(), 5, 8, 3);
    let on_disk = names(&["img005.png", "img007.png"]);
    let kept: Vec<Vec<u8>> = candidates
        .into_iter()
        .filter(|c| on_disk.contains(c))
        .collect();
    assert_eq!(kept, names(&["img005.png", "img007.png"]));
}
