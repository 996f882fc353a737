use lrc::{IDTag, Lyrics, LyricsError, TimeTag};

fn timed(lyrics: &Lyrics) -> Vec<(i64, String)> {
    lyrics
        .get_timed_lines()
        .iter()
        .map(|(tag, text)| (tag.get_timestamp(), text.as_ref().clone()))
        .collect()
}

fn tags(lyrics: &Lyrics) -> Vec<String> {
    (0..lyrics.metadata.len()).map(|i| lyrics.metadata.get(i).to_string()).collect()
}

fn at(time: i64, text: &str) -> (i64, String) {
    (time, String::from(text))
}

#[test]
fn the_empty_text_is_one_empty_line() {
    let lyrics = Lyrics::from_str("").unwrap();
    assert_eq!(lyrics.get_lines(), [""]);
    let lyrics = Lyrics::from_str("\n\n").unwrap();
    assert_eq!(lyrics.get_lines(), ["", "", ""]);
    let lyrics = Lyrics::from_str("a\n").unwrap();
    assert_eq!(lyrics.get_lines(), ["a", ""]);
}

#[test]
fn lines_are_trimmed() {
    let lyrics = Lyrics::from_str("  first \r\n\t[00:01.00]  second \r\n [ti:  Title ] \r\n").unwrap();
    assert_eq!(lyrics.get_lines(), ["first", ""]);
    assert_eq!(timed(&lyrics), [at(1000, "second")]);
    assert_eq!(tags(&lyrics), ["[ti: Title]"]);
}

#[test]
fn a_comment_drops_the_rest_of_its_line() {
    let lyrics = Lyrics::from_str("[:] This is a comment.").unwrap();
    assert_eq!(lyrics.get_lines(), [""]);
    assert!(lyrics.get_timed_lines().is_empty());
    assert!(lyrics.metadata.is_empty());

    let lyrics = Lyrics::from_str("[: text] trailing [00:01.00] [ar: x]").unwrap();
    assert_eq!(lyrics.get_lines(), [""]);
    assert!(lyrics.get_timed_lines().is_empty());
    assert!(lyrics.metadata.is_empty());

    let lyrics = Lyrics::from_str("[ \t : text]a\u{7f}[b:c]").unwrap();
    assert_eq!(lyrics.get_lines(), [""]);

    let lyrics = Lyrics::from_str("[00:12.00][:]Naku Penda").unwrap();
    assert_eq!(timed(&lyrics), [at(12000, "")]);
    assert!(lyrics.get_lines().is_empty());

    let lyrics = Lyrics::from_str("[ar: x][:]Naku Penda").unwrap();
    assert_eq!(tags(&lyrics), ["[ar: x]"]);
    assert!(lyrics.get_lines().is_empty());
    assert!(lyrics.get_timed_lines().is_empty());
}

#[test]
fn a_line_of_id_tags_adds_no_lyric_line() {
    let lyrics = Lyrics::from_str("[ar: Artist]").unwrap();
    assert!(lyrics.get_lines().is_empty());
    assert!(lyrics.get_timed_lines().is_empty());
    assert_eq!(tags(&lyrics), ["[ar: Artist]"]);

    let lyrics = Lyrics::from_str("[ti:Title] [ar:Artist]  text behind the tags").unwrap();
    assert!(lyrics.get_lines().is_empty());
    assert!(lyrics.get_timed_lines().is_empty());
    assert_eq!(tags(&lyrics), ["[ar: Artist]", "[ti: Title]"]);

    let lyrics = Lyrics::from_str("[ti:Title] text [with:tag] \u{7f}").unwrap();
    assert!(lyrics.get_lines().is_empty());
    assert_eq!(tags(&lyrics), ["[ti: Title]"]);

    let lyrics = Lyrics::from_str("[ti:Title][00:01.00]text").unwrap();
    assert!(lyrics.get_lines().is_empty());
    assert_eq!(timed(&lyrics), [at(1000, "text")]);
    assert_eq!(tags(&lyrics), ["[ti: Title]"]);
}

#[test]
fn tags_are_read_at_the_start_of_a_line_only() {
    assert_eq!(
        Lyrics::from_str("text [ti:Title]").unwrap_err(),
        LyricsError::FormatError("Lyrics contain tags.")
    );
    assert_eq!(
        Lyrics::from_str("fine\n[00:01.00]text [00:02.00]\nnot read").unwrap_err(),
        LyricsError::FormatError("Lyrics contain tags.")
    );
    assert_eq!(
        Lyrics::from_str("fine\na\u{1}b\n[x:y] [z").unwrap_err(),
        LyricsError::FormatError("Incorrect lyrics.")
    );
    assert_eq!(
        Lyrics::from_str("[a\u{1}:b]").unwrap_err(),
        LyricsError::FormatError("Incorrect lyrics.")
    );
    assert_eq!(
        Lyrics::from_str("[a:b[c]").unwrap_err(),
        LyricsError::FormatError("Lyrics contain tags.")
    );
    let lyrics = Lyrics::from_str("[no tag] [neither").unwrap();
    assert_eq!(lyrics.get_lines(), ["[no tag] [neither"]);
}

#[test]
fn a_tag_that_is_no_time_is_an_id_tag() {
    let lyrics = Lyrics::from_str("[00:60.00]text\n[12:34:56]\n[01:00.100]x\n[ 1:2 ]y").unwrap();
    assert_eq!(tags(&lyrics), ["[00: 60.00]", "[01: 00.100]", "[12: 34:56]"]);
    assert_eq!(timed(&lyrics), [at(62000, "y")]);
    assert!(lyrics.get_lines().is_empty());
}

#[test]
fn the_first_tag_of_a_label_is_kept() {
    let lyrics = Lyrics::from_str("[TI: first]\n[ti: second]\n[Ti: third]").unwrap();
    assert_eq!(tags(&lyrics), ["[TI: first]"]);
}

#[test]
fn several_time_tags_give_several_lines() {
    let lyrics = Lyrics::from_str("[00:03.00] [00:01.00]\t[00:02.00] refrain\n[00:02.00]verse").unwrap();
    assert_eq!(
        timed(&lyrics),
        [at(1000, "refrain"), at(2000, "refrain"), at(2000, "verse"), at(3000, "refrain")]
    );
}

#[test]
fn written_lyrics_read_back() {
    let text = "[al: Album]\n[ar: Artist]\n[length: ]\n\n[-02:00.00]before\n[00:12.00]\n[00:12.00]same time\n[9999999999:59.99]last\n\nfirst\n\n[no tag\nlast";
    let lyrics = Lyrics::from_str(text).unwrap();
    assert_eq!(lyrics.to_string(), text);
    assert_eq!(tags(&lyrics), ["[al: Album]", "[ar: Artist]", "[length: ]"]);
    assert_eq!(
        timed(&lyrics),
        [
            at(-120000, "before"),
            at(12000, ""),
            at(12000, "same time"),
            at(599999999999990, "last")
        ]
    );
    assert_eq!(lyrics.get_lines(), ["", "", "first", "", "[no tag", "last"]);

    let again = Lyrics::from_str(&lyrics.to_string()).unwrap();
    assert_eq!(tags(&again), tags(&lyrics));
    assert_eq!(timed(&again), timed(&lyrics));
    assert_eq!(again.get_lines(), lyrics.get_lines());

    for text in ["", "[ti: Title]", "[00:01.00]x", "x", "[ti: Title]\n\n[00:01.00]x", "[ti: Title]\n\nx", "[00:01.00]x\n\nx"] {
        let lyrics = Lyrics::from_str(text).unwrap();
        assert_eq!(lyrics.to_string(), text);
        let again = Lyrics::from_str(&lyrics.to_string()).unwrap();
        assert_eq!(tags(&again), tags(&lyrics));
        assert_eq!(timed(&again), timed(&lyrics));
        assert_eq!(again.get_lines(), lyrics.get_lines());
    }
}

#[test]
fn a_negative_time_of_less_than_a_minute_reads_back_positive() {
    let lyrics = Lyrics::from_str("[00:-12.34]text").unwrap();
    assert_eq!(timed(&lyrics), [at(-12340, "text")]);
    assert_eq!(lyrics.to_string(), "[-00:12.34]text");
    let again = Lyrics::from_str(&lyrics.to_string()).unwrap();
    assert_eq!(timed(&again), [at(12340, "text")]);
}

#[test]
fn empty_lines_of_the_text_are_read_as_plain_lines() {
    let mut lyrics = Lyrics::new();
    lyrics.insert_tag(IDTag::from_string("ti", "Title").unwrap());
    lyrics.add_timed_line(TimeTag::new(1000), "timed").unwrap();
    for line in ["", "first", "", "last", "", ""] {
        lyrics.add_line(line).unwrap();
    }
    let text = lyrics.to_string();
    assert_eq!(text, "[ti: Title]\n\n[00:01.00]timed\n\nfirst\n\nlast");
    let read = Lyrics::from_str(&text).unwrap();
    assert_eq!(tags(&read), tags(&lyrics));
    assert_eq!(timed(&read), timed(&lyrics));
    assert_eq!(read.get_lines(), ["", "", "first", "", "last"]);
    assert_eq!(read.to_string(), text);

    let mut lyrics = Lyrics::new();
    lyrics.insert_tag(IDTag::from_string("ti", "Title").unwrap());
    lyrics.add_timed_line(TimeTag::new(1000), "timed").unwrap();
    let read = Lyrics::from_str(&lyrics.to_string()).unwrap();
    assert_eq!(read.get_lines(), [""]);
    assert_eq!(read.to_string(), lyrics.to_string());
    let again = Lyrics::from_str(&read.to_string()).unwrap();
    assert_eq!(again.get_lines(), read.get_lines());

    let read = Lyrics::from_str(&Lyrics::new().to_string()).unwrap();
    assert_eq!(read.get_lines(), [""]);
}

#[test]
fn whitespace_around_the_text_of_a_tag_is_not_written() {
    let mut lyrics = Lyrics::new();
    assert!(lyrics.insert_tag(IDTag::from_string("ti", "  Title\t").unwrap()));
    assert!(lyrics.insert_tag(IDTag::from_string("AR", " ").unwrap()));
    lyrics.add_timed_line(TimeTag::new(1000), "timed").unwrap();
    let text = lyrics.to_string();
    assert_eq!(text, "[AR: ]\n[ti: Title]\n\n[00:01.00]timed");
    let read = Lyrics::from_str(&text).unwrap();
    assert_eq!(tags(&read), tags(&lyrics));
    assert_eq!(read.metadata.len(), 2);
    assert!(read.metadata.get(0).same_label(lyrics.metadata.get(0)));
    assert!(read.metadata.get(1).same_label(lyrics.metadata.get(1)));
    assert_eq!(timed(&read), timed(&lyrics));
    assert_eq!(read.to_string(), text);
}

#[test]
fn lines_of_one_time_keep_the_order_of_the_text() {
    let lyrics = Lyrics::from_str(
        "[00:02.00]a\n[00:01.00][00:02.00][00:01.00]b\n[ti: x][00:02.00]c\nplain\n[00:01.00]d\n[00:03.00][:]e",
    )
    .unwrap();
    assert_eq!(
        timed(&lyrics),
        [
            at(1000, "b"),
            at(1000, "b"),
            at(1000, "d"),
            at(2000, "a"),
            at(2000, "b"),
            at(2000, "c"),
            at(3000, "")
        ]
    );
    assert_eq!(lyrics.get_lines(), ["plain"]);
}
