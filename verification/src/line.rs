//! What a lyric line may hold: no forbidden control character and nothing
//! that reads as a tag.
use vstd::prelude::*;
use crate::error::LyricsError;
use crate::text::{has_control, is_control, to_chars};

verus! {

/// Somewhere in `line` a `[` is followed by a `:` and that by a `]`, so that
/// part of the line reads as a tag.
pub open spec fn holds_tag(line: Seq<char>) -> bool {
    exists|i: int, j: int, k: int|
        0 <= i < j < k < line.len() && #[trigger] line[i] == '[' && #[trigger] line[j] == ':'
            && #[trigger] line[k] == ']'
}

/// Why `line` is refused as a lyric line, if it is: a forbidden control
/// character counts before a tag.
pub open spec fn refusal(line: Seq<char>) -> Option<Seq<char>> {
    if has_control(line) {
        Some("Incorrect lyrics."@)
    } else if holds_tag(line) {
        Some("Lyrics contain tags."@)
    } else {
        None
    }
}

/// `line` may stand as a lyric line.
pub open spec fn acceptable(line: Seq<char>) -> bool {
    !has_control(line) && !holds_tag(line)
}

/// The first position at or after `from` that holds `c`, or the length of
/// `line` where none does.
fn find_char(line: &[char], from: usize, c: char) -> (at: usize)
    requires
        from <= line.len(),
    ensures
        from <= at <= line.len(),
        at < line.len() ==> line@[at as int] == c,
        forall|i: int| from <= i < at ==> line@[i] != c,
{
    let mut at: usize = from;
    while at < line.len() && line[at] != c
        invariant
            from <= at <= line.len(),
            forall|i: int| from <= i < at ==> line@[i] != c,
        decreases line.len() - at,
    {
        at += 1;
    }
    at
}

/// Whether some character of `line` is a forbidden control character.
pub fn find_control(line: &[char]) -> (r: bool)
    ensures
        r == has_control(line@),
{
    let mut i: usize = 0;
    while i < line.len()
        invariant
            i <= line.len(),
            forall|j: int| 0 <= j < i ==> !is_control(#[trigger] line@[j]),
        decreases line.len() - i,
    {
        if is_control(line[i]) {
            return true;
        }
        i += 1;
    }
    false
}

/// Whether part of `line` reads as a tag.
pub fn find_tag(line: &[char]) -> (r: bool)
    ensures
        r == holds_tag(line@),
{
    let len = line.len();
    let open = find_char(line, 0, '[');
    if open >= len {
        return false;
    }
    let colon = find_char(line, open + 1, ':');
    if colon >= len {
        return false;
    }
    let close = find_char(line, colon + 1, ']');
    close < len
}

/// Checks the characters of a lyric line.
pub fn check_chars(line: &[char]) -> (r: Result<(), LyricsError>)
    ensures
        match r {
            Ok(_) => refusal(line@) is None,
            Err(LyricsError::FormatError(message)) => refusal(line@) == Some(message@),
            Err(_) => false,
        },
{
    if find_control(line) {
        return Err(LyricsError::FormatError("Incorrect lyrics."));
    }
    if find_tag(line) {
        return Err(LyricsError::FormatError("Lyrics contain tags."));
    }
    Ok(())
}

/// Checks a lyric line: it is refused where it holds a forbidden control
/// character, and else where part of it reads as a tag.
pub fn check_line(line: &str) -> (r: Result<(), LyricsError>)
    ensures
        match r {
            Ok(_) => refusal(line@) is None,
            Err(LyricsError::FormatError(message)) => refusal(line@) == Some(message@),
            Err(_) => false,
        },
{
    let chars = to_chars(line);
    check_chars(chars.as_slice())
}

} // verus!
