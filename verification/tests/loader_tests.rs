use lyrics_tui::loader::{normalize, split_artist_title};

#[test]
fn normalize_lowercases_and_keeps_letters_and_digits() {
    assert_eq!(normalize("Hello, World!"), "helloworld");
    assert_eq!(normalize("AC/DC"), "acdc");
    assert_eq!(normalize("  The Beatles  "), "thebeatles");
    assert_eq!(normalize("Blink-182"), "blink182");
    assert_eq!(normalize("ÉLAN Été"), "élanété");
}

#[test]
fn normalize_of_nothing_is_nothing() {
    assert_eq!(normalize(""), "");
    assert_eq!(normalize("!!!"), "");
    assert_eq!(normalize("   "), "");
}

#[test]
fn split_at_first_dash() {
    assert_eq!(split_artist_title("Artist - Title"), Some(("Artist", "Title")));
    assert_eq!(split_artist_title("A-B-C"), Some(("A", "B-C")));
    assert_eq!(split_artist_title("  Daft Punk -  One More Time "), Some(("Daft Punk", "One More Time")));
}

#[test]
fn split_needs_both_sides() {
    assert_eq!(split_artist_title("NoDash"), None);
    assert_eq!(split_artist_title(" - Title"), None);
    assert_eq!(split_artist_title("Artist -   "), None);
    assert_eq!(split_artist_title("-"), None);
}

#[test]
fn normalize_ignores_ascii_case() {
    let name = "Daft Punk - One More Time (Remix 2)";
    assert_eq!(normalize(name), normalize(&name.to_ascii_uppercase()));
    assert_eq!(normalize(name), normalize(&name.to_ascii_lowercase()));
}

#[test]
fn normalize_twice_is_normalize_once() {
    for name in ["Hello, World!", "  AC/DC ", "", "!!!", "Blink-182"] {
        let once = normalize(name);
        assert_eq!(normalize(&once), once);
    }
}

#[test]
fn normalize_keeps_exactly_the_lowercased_alphanumerics() {
    for name in ["Hello, World!", "ÀB\u{3000}c d", "Straße 2", "K\u{212A}"] {
        let expected: String = name
            .chars()
            .flat_map(|c| c.to_lowercase())
            .filter(|c| c.is_alphanumeric())
            .collect();
        let got = normalize(name);
        assert_eq!(got, expected);
        assert!(!got.chars().any(|c| c.is_ascii_uppercase() || c == ' '));
    }
}
