use lrc::text::{is_white_space, to_chars, to_string, trim, trim_end, trim_start};
use lrc::{check_line, IDTag, IDTagErrorKind, Lyrics, LyricsError, TimeTag, Timestamp};
use regex::Regex;

/// Every text of at most `longest` characters of `alphabet`.
fn words(alphabet: &[char], longest: usize) -> Vec<String> {
    let mut all = vec![String::new()];
    let mut last = vec![String::new()];
    for _ in 0..longest {
        let mut next = Vec::new();
        for word in &last {
            for c in alphabet {
                let mut longer = word.clone();
                longer.push(*c);
                next.push(longer);
            }
        }
        all.extend(next.iter().cloned());
        last = next;
    }
    all
}

#[test]
fn white_space_is_what_the_standard_library_trims() {
    for code in 0..=0x10FFFFu32 {
        if let Some(c) = char::from_u32(code) {
            assert_eq!(is_white_space(c), c.is_whitespace(), "{:x}", code);
        }
    }
}

#[test]
fn trimming_agrees_with_the_standard_library() {
    for word in words(&[' ', '\n', 'a', '\u{3000}', '\u{85}', '\u{200b}', 'é'], 5) {
        let chars = to_chars(&word);
        assert_eq!(chars, word.chars().collect::<Vec<char>>());
        assert_eq!(to_string(&chars), word);
        assert_eq!(to_string(trim(&chars)), word.trim());
        assert_eq!(to_string(trim_start(&chars)), word.trim_start());
        assert_eq!(to_string(trim_end(&chars)), word.trim_end());
    }
}

#[test]
fn timestamps_are_the_texts_of_the_pattern() {
    let pattern = Regex::new(r"^(-)?([0-9]{1,10}):(-)?([0-9]{1,2})(\.(-)?([0-9]{1,2}))?$").unwrap();
    let mut texts = words(&['-', '0', '7', ':', '.', ' '], 6);
    for text in [
        "12:34", "12:34.56", "-12:34.56", "00:-12.34", "00:00.-12", "1234567890:00",
        "12345678901:00", "00:000", "00:00.000", "00:00.", "00:00.00\n", "\n00:00.00",
        "00:00.00 ", "-:00", "0-:00", "00::00", "00:00..00", "٠٠:٠٠", "00:00.0a", "+00:00",
        "9999999999:59.99", "-9999999999:-59.-99", "0:0.0", "-0:-0.-0",
    ] {
        texts.push(String::from(text));
    }
    for text in texts {
        let malformed = matches!(
            Timestamp::from_str(&text),
            Err(LyricsError::ParseError(message))
                if message == "The format of the string is not incorrect. Is it mm:ss.xx?"
        );
        assert_eq!(!malformed, pattern.is_match(&text), "{:?}", text);
    }
}

#[test]
fn lyric_lines_are_the_texts_of_the_patterns() {
    let allowed = Regex::new("^[^\x00-\x08\x0A-\x1F\x7F]*$").unwrap();
    let tag = Regex::new(r"\[.*:.*\]").unwrap();
    for line in words(&['[', ']', ':', 'a', '\t', '\n', '\u{7f}', '\u{8}'], 5) {
        let expected = if !allowed.is_match(&line) {
            Err(LyricsError::FormatError("Incorrect lyrics."))
        } else if tag.is_match(&line) {
            Err(LyricsError::FormatError("Lyrics contain tags."))
        } else {
            Ok(())
        };
        assert_eq!(check_line(&line), expected, "{:?}", line);
    }
}

#[test]
fn labels_and_texts_are_the_texts_of_the_patterns() {
    let label_pattern = Regex::new("^[^\x00-\x08\x0A-\x1F\x7F\\[\\]:]+$").unwrap();
    let text_pattern = Regex::new("^[^\x00-\x08\x0A-\x1F\x7F\\[\\]]*$").unwrap();
    let all = words(&['[', ']', ':', 'a', ' ', '\n', '\u{1f}', '\t'], 3);
    for label in &all {
        for text in &all {
            let expected = if !label_pattern.is_match(label.trim()) {
                Some(IDTagErrorKind::Label)
            } else if !text_pattern.is_match(text) {
                Some(IDTagErrorKind::Text)
            } else {
                None
            };
            match IDTag::from_string(label, text) {
                Ok(tag) => {
                    assert_eq!(expected, None, "{:?} {:?}", label, text);
                    assert_eq!(tag.to_string(), format!("[{}: {}]", label.trim(), text.trim()));
                },
                Err(e) => {
                    assert_eq!(Some(e), expected.map(LyricsError::IDTagError), "{:?} {:?}", label, text)
                },
            }
        }
    }
}

/// Reads lyrics with the tags at the start of a line found by a pattern.
fn read_by_pattern(tag: &Regex, text: &str) -> Result<Lyrics, LyricsError> {
    let mut lyrics = Lyrics::new();
    for source in text.split('\n') {
        let mut rest = source.trim();
        let mut times = Vec::new();
        let mut tagged = false;
        while let Some(found) = tag.captures(rest) {
            let whole = found.get(0).unwrap().as_str();
            if let Ok(time) = TimeTag::from_str(whole) {
                times.push(time);
            } else {
                let label = found.get(1).unwrap().as_str().trim();
                if label.is_empty() {
                    rest = "";
                    break;
                }
                let text = found.get(2).unwrap().as_str().trim();
                lyrics.metadata.insert(IDTag::from_string(label, text).unwrap());
                tagged = true;
            }
            rest = rest[whole.len()..].trim_start();
        }
        if !times.is_empty() || !tagged {
            lyrics.add_line_with_multiple_time_tags(&times, rest)?;
        }
    }
    Ok(lyrics)
}

fn contents(lyrics: &Lyrics) -> (Vec<String>, Vec<(i64, String)>, Vec<String>) {
    (
        (0..lyrics.metadata.len()).map(|i| lyrics.metadata.get(i).to_string()).collect(),
        lyrics
            .get_timed_lines()
            .iter()
            .map(|(tag, text)| (tag.get_timestamp(), text.as_ref().clone()))
            .collect(),
        lyrics.get_lines().to_vec(),
    )
}

#[test]
fn tags_at_the_start_of_a_line_are_the_texts_of_the_pattern() {
    let tag = Regex::new(
        "^\\[([^\x00-\x08\x0A-\x1F\x7F\\[\\]:]*):([^\x00-\x08\x0A-\x1F\x7F\\[\\]]*)\\]",
    )
    .unwrap();
    let mut texts = words(&['[', ']', ':', 'a', '1', ' ', '\n'], 6);
    let pieces = ["[1:2]", "[a:b]", "[:]", "[ : c]", "x", " ", "\n", "[", "]", "\r", "[A: d]", "[0:-1.5]", "\u{7f}"];
    for a in pieces {
        for b in pieces {
            for c in pieces {
                for d in pieces {
                    texts.push([a, b, c, d].concat());
                }
            }
        }
    }
    for text in texts {
        let expected = read_by_pattern(&tag, &text);
        match Lyrics::from_str(&text) {
            Ok(lyrics) => {
                assert_eq!(contents(&lyrics), contents(&expected.unwrap()), "{:?}", text);
            },
            Err(e) => assert_eq!(Some(e), expected.err(), "{:?}", text),
        }
    }
}
