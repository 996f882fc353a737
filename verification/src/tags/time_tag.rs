//! Time tags: the timestamp in square brackets before a lyric line.
use std::cmp::Ordering;
use vstd::prelude::*;
use crate::error::LyricsError;
use crate::text::{
    lemma_trimmed_start, lemma_trimmed_start_skips, to_chars, to_string, trim_end, trim_start,
    trimmed, trimmed_end, trimmed_start,
};
use crate::timestamp::{parse, parsed, rendered, ParseFailure, Timestamp};

verus! {

/// A tag in the format `[mm:ss.xx]` or `[mm:ss]`: when a lyric line is sung.
#[derive(Debug, PartialEq, Ord, Eq, Hash, Clone, Copy, Structural)]
pub struct TimeTag(Timestamp);

/// What stands between the brackets of `s`: `s` without a `[` at its start and
/// the whitespace behind it, and without a `]` at its end and the whitespace
/// before it. Either bracket may be missing.
pub open spec fn unwrapped(s: Seq<char>) -> Seq<char> {
    let opened = if s.len() > 0 && s[0] == '[' {
        trimmed_start(s.drop_first())
    } else {
        s
    };
    if opened.len() > 0 && opened.last() == ']' {
        trimmed_end(opened.drop_last())
    } else {
        opened
    }
}

/// What the text `s` means as a time tag: its value in milliseconds, or the
/// rule that it breaks.
pub open spec fn parsed_tag(s: Seq<char>) -> Result<int, ParseFailure> {
    parsed(unwrapped(s))
}

/// The text of the time tag of `millisecond` milliseconds.
pub open spec fn rendered_tag(millisecond: int) -> Seq<char> {
    seq!['['] + rendered(millisecond) + seq![']']
}

/// The times of time tags, in milliseconds.
pub open spec fn times_of(time_tags: Seq<TimeTag>) -> Seq<int> {
    time_tags.map_values(|tag: TimeTag| tag@)
}

impl View for TimeTag {
    type V = int;

    /// The time in milliseconds.
    closed spec fn view(&self) -> int {
        self.0@
    }
}

impl PartialOrd for TimeTag {
    /// Time tags are ordered as their times are.
    fn partial_cmp(&self, other: &TimeTag) -> (r: Option<Ordering>) {
        let time = self.0.get_timestamp();
        let other_time = other.0.get_timestamp();
        if time < other_time {
            Some(Ordering::Less)
        } else if time > other_time {
            Some(Ordering::Greater)
        } else {
            Some(Ordering::Equal)
        }
    }
}

impl vstd::std_specs::cmp::PartialOrdSpecImpl for TimeTag {
    open spec fn obeys_partial_cmp_spec() -> bool {
        true
    }

    open spec fn partial_cmp_spec(&self, other: &TimeTag) -> Option<Ordering> {
        if self@ < other@ {
            Some(Ordering::Less)
        } else if self@ > other@ {
            Some(Ordering::Greater)
        } else {
            Some(Ordering::Equal)
        }
    }
}

impl From<TimeTag> for i64 {
    /// The time in milliseconds.
    fn from(t: TimeTag) -> (r: i64) {
        t.0.get_timestamp()
    }
}

impl vstd::std_specs::convert::FromSpecImpl<TimeTag> for i64 {
    open spec fn obeys_from_spec() -> bool {
        true
    }

    open spec fn from_spec(t: TimeTag) -> i64 {
        t@ as i64
    }
}

impl TimeTag {
    /// The time tag of `timestamp` milliseconds.
    pub fn new(timestamp: i64) -> (r: TimeTag)
        ensures
            r@ == timestamp,
    {
        TimeTag(Timestamp::new(timestamp))
    }

    /// The time tag that the characters `s` write, with or without brackets.
    pub fn parse(s: &[char]) -> (r: Result<TimeTag, ParseFailure>)
        ensures
            match r {
                Ok(t) => parsed_tag(s@) == Ok::<int, ParseFailure>(t@),
                Err(e) => parsed_tag(s@) == Err::<int, ParseFailure>(e),
            },
    {
        let opened = if s.len() > 0 && s[0] == '[' {
            let rest = &s[1..s.len()];
            assert(rest@ == s@.drop_first());
            trim_start(rest)
        } else {
            s
        };
        let inner = if opened.len() > 0 && opened[opened.len() - 1] == ']' {
            let rest = &opened[0..opened.len() - 1];
            assert(rest@ == opened@.drop_last());
            trim_end(rest)
        } else {
            opened
        };
        match parse(inner) {
            Ok(t) => Ok(TimeTag(t)),
            Err(e) => Err(e),
        }
    }

    /// The time tag that `timestamp` writes: `mm:ss` or `mm:ss.xx`, with or
    /// without brackets.
    pub fn from_str(timestamp: &str) -> (r: Result<TimeTag, LyricsError>)
        ensures
            match r {
                Ok(t) => parsed_tag(timestamp@) == Ok::<int, ParseFailure>(t@),
                Err(LyricsError::ParseError(message)) => parsed_tag(timestamp@) is Err && message@
                    == parsed_tag(timestamp@)->Err_0.message(),
                Err(_) => false,
            },
    {
        let chars = to_chars(timestamp);
        match TimeTag::parse(chars.as_slice()) {
            Ok(t) => Ok(t),
            Err(e) => Err(LyricsError::ParseError(e.to_string())),
        }
    }

    /// The time in milliseconds.
    pub fn get_timestamp(self) -> (r: i64)
        ensures
            r == self@,
    {
        self.0.get_timestamp()
    }

    /// Appends the text of the tag to `buffer`.
    pub fn write(&self, buffer: &mut Vec<char>)
        ensures
            final(buffer)@ == old(buffer)@ + rendered_tag(self@),
    {
        buffer.push('[');
        self.0.write(buffer);
        buffer.push(']');
        assert(buffer@ == old(buffer)@ + rendered_tag(self@));
    }

    /// The text of the tag, as `[mm:ss.xx]`.
    pub fn to_string(&self) -> (r: String)
        ensures
            r@ == rendered_tag(self@),
    {
        let mut buffer: Vec<char> = Vec::new();
        self.write(&mut buffer);
        to_string(buffer.as_slice())
    }
}

/// What stands between the brackets of `[...]` is what they hold, trimmed.
pub proof fn lemma_unwrapped(content: Seq<char>)
    ensures
        unwrapped(seq!['['] + content + seq![']']) == trimmed(content),
{
    let s = seq!['['] + content + seq![']'];
    let behind = content + seq![']'];
    assert(s[0] == '[');
    assert(s.drop_first() == behind);
    lemma_trimmed_start(content);
    let blank = content.take(content.len() - trimmed_start(content).len());
    let rest = trimmed_start(content) + seq![']'];
    assert(behind == blank + rest);
    assert(rest[0] == if trimmed_start(content).len() > 0 {
        trimmed_start(content)[0]
    } else {
        ']'
    });
    lemma_trimmed_start_skips(blank, rest);
    assert(trimmed_start(rest) == rest);
    assert(rest.last() == ']');
    assert(rest.drop_last() == trimmed_start(content));
}

} // verus!
