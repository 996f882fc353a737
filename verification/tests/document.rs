use lrc::{check_line, IDTag, Lyrics, LyricsError, TimeTag};
use std::rc::Rc;

fn timed(lyrics: &Lyrics) -> Vec<(i64, String)> {
    lyrics
        .get_timed_lines()
        .iter()
        .map(|(tag, text)| (tag.get_timestamp(), text.as_ref().clone()))
        .collect()
}

fn at(time: i64, text: &str) -> (i64, String) {
    (time, String::from(text))
}

#[test]
fn empty_lyrics_are_written_as_nothing() {
    let lyrics = Lyrics::new();
    assert_eq!(lyrics.to_string(), "");
    assert!(lyrics.get_lines().is_empty());
    assert!(lyrics.get_timed_lines().is_empty());
    assert!(lyrics.metadata.is_empty());
    assert_eq!(Lyrics::default().to_string(), "");
}

#[test]
fn blocks_are_separated_by_one_empty_line() {
    let mut lyrics = Lyrics::new();
    lyrics.add_line("plain").unwrap();
    assert_eq!(lyrics.to_string(), "plain");
    lyrics.add_timed_line(TimeTag::new(1000), "timed").unwrap();
    assert_eq!(lyrics.to_string(), "[00:01.00]timed\n\nplain");
    lyrics.insert_tag(IDTag::from_string("ti", "Title").unwrap());
    assert_eq!(lyrics.to_string(), "[ti: Title]\n\n[00:01.00]timed\n\nplain");

    let mut lyrics = Lyrics::new();
    lyrics.insert_tag(IDTag::from_string("ti", "Title").unwrap());
    lyrics.add_line("plain").unwrap();
    assert_eq!(lyrics.to_string(), "[ti: Title]\n\nplain");

    let mut lyrics = Lyrics::new();
    lyrics.insert_tag(IDTag::from_string("ti", "Title").unwrap());
    lyrics.add_timed_line(TimeTag::new(-1000), "").unwrap();
    assert_eq!(lyrics.to_string(), "[ti: Title]\n\n[-00:01.00]");
}

#[test]
fn the_block_of_plain_lines_is_trimmed_as_a_whole() {
    let mut lyrics = Lyrics::new();
    lyrics.add_line("").unwrap();
    lyrics.add_line("  ").unwrap();
    assert_eq!(lyrics.to_string(), "");
    lyrics.add_line("  first  ").unwrap();
    lyrics.add_line("").unwrap();
    lyrics.add_line("  second  ").unwrap();
    lyrics.add_line("\t").unwrap();
    assert_eq!(lyrics.to_string(), "first  \n\n  second");
    lyrics.add_timed_line(TimeTag::new(0), "  timed  ").unwrap();
    assert_eq!(lyrics.to_string(), "[00:00.00]  timed  \n\nfirst  \n\n  second");

    let mut lyrics = Lyrics::new();
    lyrics.insert_tag(IDTag::from_string("ti", "Title").unwrap());
    lyrics.add_line(" ").unwrap();
    assert_eq!(lyrics.to_string(), "[ti: Title]");
}

#[test]
fn timed_lines_stand_in_the_order_of_their_times() {
    let mut lyrics = Lyrics::new();
    for (time, text) in [(3000, "c"), (1000, "a"), (2000, "b"), (-500, "z"), (2000, "b2"), (1000, "a2"), (9000, "e"), (2000, "b3")] {
        lyrics.add_timed_line(TimeTag::new(time), text).unwrap();
        let times: Vec<i64> = timed(&lyrics).iter().map(|line| line.0).collect();
        let mut sorted = times.clone();
        sorted.sort();
        assert_eq!(times, sorted);
    }
    assert_eq!(
        timed(&lyrics),
        [
            at(-500, "z"),
            at(1000, "a"),
            at(1000, "a2"),
            at(2000, "b"),
            at(2000, "b2"),
            at(2000, "b3"),
            at(3000, "c"),
            at(9000, "e")
        ]
    );
}

#[test]
fn the_latest_line_at_or_before_a_time_is_found() {
    let mut lyrics = Lyrics::new();
    assert_eq!(lyrics.find_timed_line_index(TimeTag::new(0)), None);
    for time in [12000, 15300, 15300, 20000] {
        lyrics.add_timed_line(TimeTag::new(time), "x").unwrap();
    }
    assert_eq!(lyrics.find_timed_line_index(TimeTag::new(0)), None);
    assert_eq!(lyrics.find_timed_line_index(TimeTag::new(11999)), None);
    assert_eq!(lyrics.find_timed_line_index(TimeTag::new(12000)), Some(0));
    assert_eq!(lyrics.find_timed_line_index(TimeTag::new(13000)), Some(0));
    assert_eq!(lyrics.find_timed_line_index(TimeTag::new(15300)), Some(2));
    assert_eq!(lyrics.find_timed_line_index(TimeTag::new(16300)), Some(2));
    assert_eq!(lyrics.find_timed_line_index(TimeTag::new(i64::MAX)), Some(3));
    assert_eq!(lyrics.find_timed_line_index(TimeTag::new(i64::MIN)), None);
}

#[test]
fn one_line_for_several_times_shares_its_text() {
    let mut lyrics = Lyrics::new();
    lyrics.add_timed_line(TimeTag::new(2000), "between").unwrap();
    let tags = [TimeTag::new(3000), TimeTag::new(1000), TimeTag::new(2000)];
    lyrics.add_line_with_multiple_time_tags(&tags, "refrain").unwrap();
    assert_eq!(
        timed(&lyrics),
        [at(1000, "refrain"), at(2000, "between"), at(2000, "refrain"), at(3000, "refrain")]
    );
    let lines = lyrics.get_timed_lines();
    assert!(Rc::ptr_eq(&lines[0].1, &lines[2].1));
    assert!(Rc::ptr_eq(&lines[0].1, &lines[3].1));
    assert!(!Rc::ptr_eq(&lines[0].1, &lines[1].1));
    assert!(lyrics.get_lines().is_empty());

    lyrics.add_line_with_multiple_time_tags(&[], "plain").unwrap();
    assert_eq!(lyrics.get_lines(), ["plain"]);
    assert_eq!(lyrics.get_timed_lines().len(), 4);
}

#[test]
fn a_refused_line_changes_nothing() {
    let mut lyrics = Lyrics::new();
    lyrics.add_line("first").unwrap();
    lyrics.add_timed_line(TimeTag::new(1000), "timed").unwrap();
    let before = lyrics.to_string();
    let tags = [TimeTag::new(3000), TimeTag::new(1000)];
    assert_eq!(
        lyrics.add_line("[00:15.30]text"),
        Err(LyricsError::FormatError("Lyrics contain tags."))
    );
    assert_eq!(
        lyrics.add_timed_line(TimeTag::new(0), "[00:15.30]text"),
        Err(LyricsError::FormatError("Lyrics contain tags."))
    );
    assert_eq!(
        lyrics.add_line_with_multiple_time_tags(&tags, "a [b:c] d"),
        Err(LyricsError::FormatError("Lyrics contain tags."))
    );
    assert_eq!(
        lyrics.add_line_with_multiple_time_tags(&[], "a\nb"),
        Err(LyricsError::FormatError("Incorrect lyrics."))
    );
    assert_eq!(
        lyrics.add_line("[a:b]\u{7f}"),
        Err(LyricsError::FormatError("Incorrect lyrics."))
    );
    assert_eq!(lyrics.to_string(), before);
    assert_eq!(lyrics.get_lines().len(), 1);
    assert_eq!(lyrics.get_timed_lines().len(), 1);
}

#[test]
fn what_a_lyric_line_may_hold() {
    assert_eq!(check_line(""), Ok(()));
    assert_eq!(check_line("a\tb"), Ok(()));
    assert_eq!(check_line("]:["), Ok(()));
    assert_eq!(check_line("[ab]:"), Ok(()));
    assert_eq!(check_line(":[]"), Ok(()));
    assert_eq!(check_line("[a]b:c]d["), Err(LyricsError::FormatError("Lyrics contain tags.")));
    assert_eq!(check_line("[:]"), Err(LyricsError::FormatError("Lyrics contain tags.")));
    assert_eq!(check_line("x[[::]]"), Err(LyricsError::FormatError("Lyrics contain tags.")));
    assert_eq!(check_line("a\rb"), Err(LyricsError::FormatError("Incorrect lyrics.")));
    assert_eq!(check_line("\0"), Err(LyricsError::FormatError("Incorrect lyrics.")));
    assert_eq!(check_line("a\u{8}"), Err(LyricsError::FormatError("Incorrect lyrics.")));
    assert_eq!(check_line("a\u{1f}"), Err(LyricsError::FormatError("Incorrect lyrics.")));
    assert_eq!(check_line("a\u{20}\u{80}\u{85}"), Ok(()));
}

#[test]
fn lines_are_removed_by_their_index() {
    let mut lyrics = Lyrics::new();
    for text in ["a", "b", "c"] {
        lyrics.add_line(text).unwrap();
    }
    for time in [1000, 2000, 3000] {
        lyrics.add_timed_line(TimeTag::new(time), "t").unwrap();
    }
    assert_eq!(lyrics.remove_line(1), "b");
    assert_eq!(lyrics.get_lines(), ["a", "c"]);
    let (tag, text) = lyrics.remove_timed_line(0);
    assert_eq!(tag, TimeTag::new(1000));
    assert_eq!(text.as_str(), "t");
    assert_eq!(timed(&lyrics), [at(2000, "t"), at(3000, "t")]);
    assert_eq!(lyrics.remove_line(1), "c");
    assert_eq!(lyrics.remove_line(0), "a");
    assert!(lyrics.get_lines().is_empty());
}

#[test]
fn time_tags_are_read_with_or_without_brackets() {
    assert_eq!(TimeTag::from_str("00:12.00").unwrap().get_timestamp(), 12000);
    assert_eq!(TimeTag::from_str("[00:12.00]").unwrap().get_timestamp(), 12000);
    assert_eq!(TimeTag::from_str("[  00:12.00\t]").unwrap().get_timestamp(), 12000);
    assert_eq!(TimeTag::from_str("[00:12.00").unwrap().get_timestamp(), 12000);
    assert_eq!(TimeTag::from_str("00:12.00 ]").unwrap().get_timestamp(), 12000);
    assert_eq!(TimeTag::from_str("[-01:00]").unwrap().get_timestamp(), -60000);
    assert!(TimeTag::from_str(" [00:12.00]").is_err());
    assert!(TimeTag::from_str("[00:12.00] ").is_err());
    assert!(TimeTag::from_str("[[00:12.00]]").is_err());
    assert!(TimeTag::from_str(" 00:12.00]").is_err());
    assert!(TimeTag::from_str("[]").is_err());
    assert!(TimeTag::from_str("").is_err());
    assert_eq!(TimeTag::new(754560).to_string(), "[12:34.56]");
    assert_eq!(TimeTag::new(-754567).to_string(), "[-12:34.57]");
    assert_eq!(i64::from(TimeTag::new(-5)), -5);
    assert_eq!(i64::from(lrc::Timestamp::new(77)), 77);
    assert!(TimeTag::new(1) < TimeTag::new(2));
    assert!(TimeTag::new(-1) <= TimeTag::new(-1));
    assert!(TimeTag::new(i64::MIN) < TimeTag::new(i64::MAX));
    assert!(lrc::Timestamp::new(3) > lrc::Timestamp::new(-3));
    assert_eq!(TimeTag::new(5).cmp(&TimeTag::new(4)), std::cmp::Ordering::Greater);
    assert_eq!(TimeTag::new(5).partial_cmp(&TimeTag::new(5)), Some(std::cmp::Ordering::Equal));
    assert_eq!(
        TimeTag::from_str("[00:60]"),
        Err(LyricsError::ParseError(String::from(
            "The format of the string is not incorrect. The number of seconds must be smaller than 60."
        )))
    );
}
