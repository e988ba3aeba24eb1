use mindmap::{derive_filename, slugify};

#[test]
fn test_derive_filename_from_title() {
    assert_eq!(
        derive_filename("My Great Article", "https://example.com/foo"),
        "my-great-article.txt"
    );
}

#[test]
fn test_derive_filename_empty_title_uses_url() {
    assert_eq!(
        derive_filename("", "https://example.com/some-article-path"),
        "some-article-path.txt"
    );
}

#[test]
fn test_derive_filename_special_characters() {
    let result = derive_filename("¿Qué vuelva la colimba?", "https://example.com");
    assert!(result.ends_with(".txt"));
    assert!(result.contains("vuelva"));
    assert!(result.contains("colimba"));
}

#[test]
fn test_derive_filename_truncation() {
    let long_title = "a".repeat(200);
    let result = derive_filename(&long_title, "https://example.com");
    assert!(result.len() <= 84); // 80 + ".txt"
}

#[test]
fn test_derive_filename_fallback() {
    assert_eq!(derive_filename("", "https://example.com/"), "example-com.txt");
}

#[test]
fn test_slugify() {
    assert_eq!(slugify("Hello World!"), "hello-world");
    assert_eq!(slugify("test--multiple---dashes"), "test-multiple-dashes");
}
