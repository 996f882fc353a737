use lrc::{IDTag, IDTagErrorKind, Lyrics, LyricsError, Metadata};
use unicase::UniCase;

fn labels(metadata: &Metadata) -> Vec<String> {
    (0..metadata.len()).map(|i| metadata.get(i).to_string()).collect()
}

#[test]
fn tags_are_written_trimmed() {
    let tag = IDTag::from_string("  ti ", "  Let's Twist Again  ").unwrap();
    assert_eq!(tag.to_string(), "[ti: Let's Twist Again]");
    let tag = IDTag::from_string("length", "").unwrap();
    assert_eq!(tag.to_string(), "[length: ]");
    let tag = IDTag::from_string("\tby\t", "2:23").unwrap();
    assert_eq!(tag.to_string(), "[by: 2:23]");
}

#[test]
fn label_is_checked_before_text() {
    assert_eq!(
        IDTag::from_string("", "text").unwrap_err(),
        LyricsError::IDTagError(IDTagErrorKind::Label)
    );
    assert_eq!(
        IDTag::from_string("   ", "text").unwrap_err(),
        LyricsError::IDTagError(IDTagErrorKind::Label)
    );
    assert_eq!(
        IDTag::from_string("a:b", "text").unwrap_err(),
        LyricsError::IDTagError(IDTagErrorKind::Label)
    );
    assert_eq!(
        IDTag::from_string("a[b", "text").unwrap_err(),
        LyricsError::IDTagError(IDTagErrorKind::Label)
    );
    assert_eq!(
        IDTag::from_string("a]b", "te[xt").unwrap_err(),
        LyricsError::IDTagError(IDTagErrorKind::Label)
    );
    assert_eq!(
        IDTag::from_string("a\u{7f}b", "text").unwrap_err(),
        LyricsError::IDTagError(IDTagErrorKind::Label)
    );
    assert_eq!(
        IDTag::from_string("ab", "te[xt").unwrap_err(),
        LyricsError::IDTagError(IDTagErrorKind::Text)
    );
    assert_eq!(
        IDTag::from_string("ab", "te]xt").unwrap_err(),
        LyricsError::IDTagError(IDTagErrorKind::Text)
    );
    assert_eq!(
        IDTag::from_string("ab", "te\nxt").unwrap_err(),
        LyricsError::IDTagError(IDTagErrorKind::Text)
    );
    assert_eq!(
        IDTag::from_string("ab", " text\n").unwrap_err(),
        LyricsError::IDTagError(IDTagErrorKind::Text)
    );
    assert!(IDTag::from_string("ab", "te:xt\t").is_ok());
    assert!(IDTag::from_string("\nab\r\n", "text").is_ok());
}

#[test]
fn error_messages() {
    assert_eq!(LyricsError::IDTagError(IDTagErrorKind::Label).to_string(), "Set a wrong label.");
    assert_eq!(LyricsError::IDTagError(IDTagErrorKind::Text).to_string(), "Set a wrong text.");
    assert_eq!(IDTagErrorKind::Label.to_string(), "label");
    assert_eq!(IDTagErrorKind::Text.to_string(), "text");
    assert_eq!(LyricsError::FormatError("Incorrect lyrics.").to_string(), "Incorrect lyrics.");
    assert_eq!(LyricsError::ParseError(String::from("no")).to_string(), "no");
}

#[test]
fn tags_stand_in_the_order_of_their_labels() {
    let mut metadata = Metadata::new();
    assert!(metadata.is_empty());
    for label in ["ti", "Length", "ar", "AL", "by", "au"] {
        assert!(metadata.insert(IDTag::from_string(label, label).unwrap()));
    }
    assert_eq!(metadata.len(), 6);
    assert_eq!(
        labels(&metadata),
        ["[AL: AL]", "[ar: ar]", "[au: au]", "[by: by]", "[Length: Length]", "[ti: ti]"]
    );
}

#[test]
fn the_first_tag_of_a_label_stays() {
    let mut metadata = Metadata::new();
    assert!(metadata.insert(IDTag::from_string("Ar", "first").unwrap()));
    assert!(!metadata.insert(IDTag::from_string("ar", "second").unwrap()));
    assert!(!metadata.insert(IDTag::from_string("AR", "third").unwrap()));
    assert!(!metadata.insert(IDTag::from_string("Ar", "first").unwrap()));
    assert_eq!(labels(&metadata), ["[Ar: first]"]);
}

#[test]
fn labels_are_folded_as_unicode_asks() {
    let mut metadata = Metadata::new();
    assert!(metadata.insert(IDTag::from_string("Maße", "first").unwrap()));
    assert!(!metadata.insert(IDTag::from_string("MASSE", "second").unwrap()));
    assert!(metadata.insert(IDTag::from_string("mase", "third").unwrap()));
    assert!(metadata.insert(IDTag::from_string("ÉTÉ", "fourth").unwrap()));
    assert!(!metadata.insert(IDTag::from_string("été", "fifth").unwrap()));
    assert_eq!(labels(&metadata), ["[mase: third]", "[Maße: first]", "[ÉTÉ: fourth]"]);
}

#[test]
fn a_label_is_kept_with_the_whitespace_around_it() {
    let mut metadata = Metadata::new();
    assert!(metadata.insert(IDTag::from_string("ar", "first").unwrap()));
    assert!(metadata.insert(IDTag::from_string(" ar", "second").unwrap()));
    assert_eq!(labels(&metadata), ["[ar: second]", "[ar: first]"]);
}

#[test]
fn insertion_order_does_not_matter() {
    let all = ["ti", "AR", "al", "Length", "by", "re", "ve", "au", "offset"];
    let mut forward = Metadata::new();
    for label in all {
        forward.insert(IDTag::from_string(label, "x").unwrap());
    }
    let mut backward = Metadata::new();
    for label in all.iter().rev() {
        backward.insert(IDTag::from_string(label, "x").unwrap());
    }
    assert_eq!(labels(&forward), labels(&backward));
    let mut sorted = labels(&forward);
    sorted.sort_by_key(|label| label.to_lowercase());
    assert_eq!(labels(&forward), sorted);
}

#[test]
fn tags_compare_as_their_labels_do() {
    let words = [
        "a", "A", "b", "B", "ab", "Ab", "aB", " a", "z", "Z", "é", "É", "e", "ß", "ss", "SS",
        "st", "ſt", "ﬅ", "straße", "STRASSE", "İ", "i", "ı", "I", "K", "k", "\u{212a}", "ǅ", "ǆ", "Ǆ",
        "ω", "Ω", "\u{2126}", "length", "Length", "LENGTH", "10", "9", "~", "_", "^", "a_", "A^",
    ];
    for a in words {
        for b in words {
            let x = IDTag::from_string(a, "").unwrap();
            let y = IDTag::from_string(b, "").unwrap();
            let expected = UniCase::new(a).cmp(&UniCase::new(b));
            assert_eq!(x.partial_cmp(&y), Some(expected), "{:?} {:?}", a, b);
            assert_eq!(x == y, UniCase::new(a) == UniCase::new(b), "{:?} {:?}", a, b);
            assert_eq!(x.comes_before(&y), expected == std::cmp::Ordering::Less);
            assert_eq!(x.same_label(&y), expected == std::cmp::Ordering::Equal);
        }
    }
}

#[test]
fn metadata_of_lyrics() {
    let mut lyrics = Lyrics::new();
    assert!(lyrics.insert_tag(IDTag::from_string("ti", "Title").unwrap()));
    assert!(lyrics.insert_tag(IDTag::from_string("al", "Album").unwrap()));
    assert!(!lyrics.insert_tag(IDTag::from_string("TI", "Other").unwrap()));
    assert_eq!(lyrics.to_string(), "[al: Album]\n[ti: Title]");
    assert_eq!(lyrics.metadata.len(), 2);
    assert_eq!(labels(lyrics.get_metadata()), ["[al: Album]", "[ti: Title]"]);
}
