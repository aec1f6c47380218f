use usbtree::encode::base64;
use usbtree::rows::{rails, visible_rows};

#[test]
fn filter_keeps_ancestors_and_subtree() {
    // usb1(0) > 1-1(1), 1-2(1) > 1-2.1(2), 1-2.2(2)
    let rows = vec![(0, 0), (1, 1), (1, 2), (2, 3), (2, 4)];
    // match a leaf: keep it + its ancestor chain, nothing else
    let m = vec![false, false, false, true, false];
    assert_eq!(visible_rows(&rows, &m), vec![(0, 0), (1, 2), (2, 3)]);
    // match a hub: keep ancestor + whole subtree
    let m = vec![false, false, true, false, false];
    assert_eq!(visible_rows(&rows, &m), vec![(0, 0), (1, 2), (2, 3), (2, 4)]);
    // no match: empty
    assert!(visible_rows(&rows, &[false; 5]).is_empty());
}

#[test]
fn base64_matches_rfc_vectors() {
    assert_eq!(base64(b""), "");
    assert_eq!(base64(b"f"), "Zg==");
    assert_eq!(base64(b"fo"), "Zm8=");
    assert_eq!(base64(b"foo"), "Zm9v");
    assert_eq!(base64(b"foob"), "Zm9vYg==");
    assert_eq!(base64(b"fooba"), "Zm9vYmE=");
    assert_eq!(base64(b"foobar"), "Zm9vYmFy");
    assert_eq!(base64(b"046d:c52b"), "MDQ2ZDpjNTJi");
}

#[test]
fn rails_draw_branches_and_pipes() {
    let rows = vec![(0, 0), (1, 1), (1, 2), (2, 3), (2, 4), (0, 5)];
    let r = rails(&rows);
    assert_eq!(
        r,
        vec![
            "".to_string(),
            "\u{251c}\u{2500} ".to_string(),
            "\u{2514}\u{2500} ".to_string(),
            "   \u{251c}\u{2500} ".to_string(),
            "   \u{2514}\u{2500} ".to_string(),
            "".to_string(),
        ]
    );
}
