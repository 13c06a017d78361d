use ranker::listing::{image_files, is_image_file};

#[test]
fn images_are_known_by_their_endings() {
    assert!(is_image_file("/a/cat.png"));
    assert!(is_image_file("/a/CAT.JPG"));
    assert!(is_image_file("photo.JpEg"));
    assert!(is_image_file("x.webp"));
    assert!(is_image_file("notadotpng"));
    assert!(!is_image_file("notes.txt"));
    assert!(!is_image_file("png.gif"));
    assert!(!is_image_file("pn"));
    assert!(!is_image_file(""));
}

#[test]
fn only_images_are_kept() {
    let paths: Vec<String> = ["b.png", "a.txt", "c.JPEG", "d.webp", "e"]
        .iter()
        .map(|s| s.to_string())
        .collect();
    let mut images = image_files(paths);
    images.sort();
    assert_eq!(images, vec!["b.png".to_string(), "c.JPEG".to_string(), "d.webp".to_string()]);
}
