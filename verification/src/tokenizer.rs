//! Reading lyrics from text, line by line: the tags at the start of a line,
//! then the lyric line behind them.
use vstd::prelude::*;
use crate::error::LyricsError;
use crate::line::{holds_tag, refusal};
use crate::lyrics::{
    law_inserted_lines_keep_their_order, law_timed_lines_stay_ordered, lemma_texts_at_add,
    lines_at, non_decreasing, texts_at, with_timed_lines, Lyrics, LyricsView,
};
use crate::metadata::with_tag;
use crate::tags::id_tag::{valid_text, IDTag, IDTagView};
use crate::tags::time_tag::{lemma_unwrapped, parsed_tag, times_of, TimeTag};
use crate::text::{
    has_control, holds, is_blank, is_label_char, is_text_char, lemma_trimmed, lemma_trimmed_blank,
    lemma_trimmed_end_keeps_start, lemma_trimmed_fixed, lemma_trimmed_start,
    lemma_trimmed_start_skips, to_chars, trim, trim_start, trimmed, trimmed_start,
};
use crate::timestamp::{lemma_scan_start, scan};

verus! {

/// A tag as it is found at the start of a line: what stands between `[` and
/// the first `:`, and between that and `]`.
pub struct LeadingTag {
    pub label: Seq<char>,
    pub text: Seq<char>,
}

impl LeadingTag {
    /// The number of characters of the tag, brackets and colon included.
    pub open spec fn len(self) -> int {
        (self.label.len() + self.text.len() + 3) as int
    }
}

/// The position behind the label characters that start at `from`.
pub open spec fn label_end(s: Seq<char>, from: int) -> int
    decreases s.len() - from,
{
    if 0 <= from < s.len() && is_label_char(s[from]) {
        label_end(s, from + 1)
    } else {
        from
    }
}

/// The position behind the text characters that start at `from`.
pub open spec fn text_end(s: Seq<char>, from: int) -> int
    decreases s.len() - from,
{
    if 0 <= from < s.len() && is_text_char(s[from]) {
        text_end(s, from + 1)
    } else {
        from
    }
}

/// The tag that `line` starts with, if it starts with one: `[`, characters
/// that may stand in a label, `:`, characters that may stand in a text, `]`.
pub open spec fn leading_tag(line: Seq<char>) -> Option<LeadingTag> {
    let colon = label_end(line, 1);
    let close = text_end(line, colon + 1);
    if holds(line, 0, '[') && holds(line, colon, ':') && holds(line, close, ']') {
        Some(LeadingTag { label: line.subrange(1, colon), text: line.subrange(colon + 1, close) })
    } else {
        None
    }
}

/// What has been read of a line: the metadata with the ID tags of the line,
/// the times of its time tags, whether it had an ID tag, and what is left of
/// it.
pub struct LineState {
    pub metadata: Seq<IDTagView>,
    pub times: Seq<int>,
    pub tagged: bool,
    pub rest: Seq<char>,
}

/// The state once every tag at the start of the rest is read.
///
/// A tag that writes a time adds that time. Any other tag is an ID tag, which
/// goes into the metadata with its label and text trimmed, unless its label
/// is blank: that is a comment, and the rest of the line is dropped. Behind a
/// tag the whitespace is skipped.
pub open spec fn absorbed(state: LineState) -> LineState
    decreases state.rest.len(),
{
    match leading_tag(state.rest) {
        None => state,
        Some(tag) => {
            let behind = trimmed_start(state.rest.skip(tag.len()));
            proof {
                lemma_leading_tag(state.rest);
                lemma_trimmed_start(state.rest.skip(tag.len()));
            }
            match parsed_tag(state.rest.take(tag.len())) {
                Ok(time) => absorbed(
                    LineState { times: state.times.push(time), rest: behind, ..state },
                ),
                Err(_) => if trimmed(tag.label).len() == 0 {
                    LineState { rest: Seq::empty(), ..state }
                } else {
                    absorbed(
                        LineState {
                            metadata: with_tag(
                                state.metadata,
                                IDTagView { label: trimmed(tag.label), text: trimmed(tag.text) },
                            ),
                            tagged: true,
                            rest: behind,
                            ..state
                        },
                    )
                },
            }
        },
    }
}

/// The lyrics once the line `line` of a text is read, or the message of the
/// refusal.
///
/// The line is trimmed and its tags are read. A line with ID tags and no time
/// tag adds no lyric line. Any other adds what is left of it: once for each
/// time tag, or as a plain line where there is none.
pub open spec fn with_source_line(lyrics: LyricsView, line: Seq<char>) -> Result<
    LyricsView,
    Seq<char>,
> {
    let state = absorbed(
        LineState {
            metadata: lyrics.metadata,
            times: Seq::empty(),
            tagged: false,
            rest: trimmed(line),
        },
    );
    let tagged = LyricsView { metadata: state.metadata, ..lyrics };
    if state.tagged && state.times.len() == 0 {
        Ok(tagged)
    } else {
        match refusal(state.rest) {
            Some(message) => Err(message),
            None => Ok(tagged.with_lines(state.times, state.rest)),
        }
    }
}

/// The lyrics once the lines `lines` are read one after the other, or the
/// message of the first refusal.
pub open spec fn with_source_lines(lyrics: LyricsView, lines: Seq<Seq<char>>) -> Result<
    LyricsView,
    Seq<char>,
>
    decreases lines.len(),
{
    if lines.len() == 0 {
        Ok(lyrics)
    } else {
        match with_source_lines(lyrics, lines.drop_last()) {
            Ok(read) => with_source_line(read, lines.last()),
            Err(message) => Err(message),
        }
    }
}

/// What the tags at the start of the line `line` give, the metadata apart:
/// the times of its time tags, whether it had an ID tag, and what is left of
/// it.
pub open spec fn line_read(line: Seq<char>) -> LineState {
    absorbed(
        LineState {
            metadata: Seq::empty(),
            times: Seq::empty(),
            tagged: false,
            rest: trimmed(line),
        },
    )
}

/// The timed lines that the line `line` of a text writes: what is left of it
/// behind its tags, once for each of its time tags, in their order.
pub open spec fn timed_lines_of(line: Seq<char>) -> Seq<(int, Seq<char>)> {
    lines_at(line_read(line).times, line_read(line).rest)
}

/// The timed lines that the lines `lines` of a text write, in the order of
/// the lines and, within a line, of its time tags.
pub open spec fn timed_lines_in(lines: Seq<Seq<char>>) -> Seq<(int, Seq<char>)>
    decreases lines.len(),
{
    if lines.len() == 0 {
        Seq::empty()
    } else {
        timed_lines_in(lines.drop_last()) + timed_lines_of(lines.last())
    }
}

/// The position of the first line feed at or behind `from`, or the length of
/// `s` where there is none.
pub open spec fn line_end(s: Seq<char>, from: int) -> int
    decreases s.len() - from,
{
    if 0 <= from < s.len() && s[from] != '\n' {
        line_end(s, from + 1)
    } else {
        from
    }
}

/// The lines of `s`: what stands between its line feeds. A text without a line
/// feed is one line, the empty text too.
pub open spec fn lines_of(s: Seq<char>) -> Seq<Seq<char>>
    decreases s.len(),
{
    let end = line_end(s, 0);
    if 0 <= end < s.len() {
        seq![s.take(end)] + lines_of(s.skip(end + 1))
    } else {
        seq![s]
    }
}

/// Lyrics that hold nothing.
pub open spec fn empty_lyrics() -> LyricsView {
    LyricsView { metadata: Seq::empty(), timed_lines: Seq::empty(), lines: Seq::empty() }
}

/// What the text `s` means as lyrics, or the message of the first refusal.
pub open spec fn parsed_lyrics(s: Seq<char>) -> Result<LyricsView, Seq<char>> {
    with_source_lines(empty_lyrics(), lines_of(s))
}

impl Lyrics {
    /// The lyrics that the text `s` writes.
    ///
    /// The text is read line by line. The first line that is refused as a
    /// lyric line ends the reading with its error.
    pub fn from_str(s: &str) -> (r: Result<Lyrics, LyricsError>)
        ensures
            match r {
                Ok(lyrics) => lyrics.wf() && parsed_lyrics(s@) == Ok::<LyricsView, Seq<char>>(
                    lyrics@,
                ),
                Err(LyricsError::FormatError(message)) => parsed_lyrics(s@) == Err::<
                    LyricsView,
                    Seq<char>,
                >(message@),
                Err(_) => false,
            },
    {
        let chars = to_chars(s);
        let text = chars.as_slice();
        let len = text.len();
        let mut lyrics = Lyrics::new();
        let mut start: usize = 0;
        let mut finished = false;
        let ghost mut read: Seq<Seq<char>> = Seq::empty();
        assert(text@.skip(0) == text@);
        while !finished
            invariant
                text@ == s@,
                len == text.len(),
                start <= len,
                lyrics.wf(),
                with_source_lines(empty_lyrics(), read) == Ok::<LyricsView, Seq<char>>(lyrics@),
                lines_of(text@) == if finished {
                    read
                } else {
                    read + lines_of(text@.skip(start as int))
                },
            decreases len - start + if finished { 0int } else { 1int },
        {
            let mut end: usize = start;
            while end < len && text[end] != '\n'
                invariant
                    start <= end <= len,
                    len == text.len(),
                    line_end(text@.skip(start as int), end - start) == line_end(
                        text@.skip(start as int),
                        0,
                    ),
                decreases len - end,
            {
                end += 1;
            }
            let line = &text[start..end];
            proof {
                let tail = text@.skip(start as int);
                assert(line@ == tail.take(end - start));
                assert(read.push(line@).drop_last() == read);
                if end < len {
                    assert(tail.skip(end - start + 1) == text@.skip(end + 1));
                    assert(read + (seq![line@] + lines_of(text@.skip(end + 1))) == read.push(line@)
                        + lines_of(text@.skip(end + 1)));
                } else {
                    assert(line@ == tail);
                    assert(read + seq![line@] == read.push(line@));
                }
            }
            match read_line(&mut lyrics, line) {
                Ok(_) => {},
                Err(e) => {
                    proof {
                        let failed = read.push(line@);
                        assert(lines_of(text@).take(failed.len() as int) =~= failed);
                        lemma_refusal_lasts(empty_lyrics(), failed, lines_of(text@));
                    }
                    return Err(e);
                },
            }
            proof {
                read = read.push(line@);
            }
            if end < len {
                start = end + 1;
            } else {
                finished = true;
            }
        }
        Ok(lyrics)
    }
}

/// Reads one line of a text into `lyrics`. Where the line is refused, ID tags
/// of the line may have been inserted already.
fn read_line(lyrics: &mut Lyrics, line: &[char]) -> (r: Result<(), LyricsError>)
    requires
        old(lyrics).wf(),
    ensures
        final(lyrics).wf(),
        match r {
            Ok(_) => with_source_line(old(lyrics)@, line@) == Ok::<LyricsView, Seq<char>>(
                final(lyrics)@,
            ),
            Err(LyricsError::FormatError(message)) => with_source_line(old(lyrics)@, line@) == Err::<
                LyricsView,
                Seq<char>,
            >(message@),
            Err(_) => false,
        },
{
    let mut time_tags: Vec<TimeTag> = Vec::new();
    let mut tagged = false;
    let mut rest: &[char] = trim(line);
    let mut done = false;
    let ghost start = LineState {
        metadata: lyrics@.metadata,
        times: Seq::empty(),
        tagged: false,
        rest: trimmed(line@),
    };
    assert(times_of(time_tags@) =~= Seq::empty());
    while !done
        invariant
            lyrics.wf(),
            lyrics@.timed_lines == old(lyrics)@.timed_lines,
            lyrics@.lines == old(lyrics)@.lines,
            absorbed(start) == if done {
                LineState {
                    metadata: lyrics@.metadata,
                    times: times_of(time_tags@),
                    tagged,
                    rest: rest@,
                }
            } else {
                absorbed(
                    LineState {
                        metadata: lyrics@.metadata,
                        times: times_of(time_tags@),
                        tagged,
                        rest: rest@,
                    },
                )
            },
        decreases rest@.len() + if done { 0int } else { 1int },
    {
        let ghost state = LineState {
            metadata: lyrics@.metadata,
            times: times_of(time_tags@),
            tagged,
            rest: rest@,
        };
        match find_leading_tag(rest) {
            None => {
                done = true;
            },
            Some((colon, close)) => {
                proof {
                    lemma_leading_tag(rest@);
                    lemma_trimmed_start(rest@.skip(close + 1));
                }
                let whole = &rest[0..close + 1];
                assert(whole@ == rest@.take(close + 1));
                let behind = &rest[close + 1..rest.len()];
                assert(behind@ == rest@.skip(close + 1));
                match TimeTag::parse(whole) {
                    Ok(time_tag) => {
                        time_tags.push(time_tag);
                        assert(times_of(time_tags@) =~= state.times.push(time_tag@));
                        rest = trim_start(behind);
                    },
                    Err(_) => {
                        let label = trim(&rest[1..colon]);
                        if label.len() == 0 {
                            rest = &rest[0..0];
                            assert(rest@ =~= Seq::empty());
                            done = true;
                        } else {
                            let text = trim(&rest[colon + 1..close]);
                            proof {
                                let found = leading_tag(state.rest)->0;
                                lemma_trimmed(found.label);
                                lemma_trimmed(found.text);
                                lemma_trimmed_fixed(label@);
                            }
                            tagged = true;
                            lyrics.insert_tag(IDTag::from_chars_unchecked(label, text));
                            rest = trim_start(behind);
                        }
                    },
                }
            },
        }
    }
    if tagged && time_tags.len() == 0 {
        Ok(())
    } else {
        lyrics.add_chars_with_time_tags(time_tags.as_slice(), rest)
    }
}

/// The positions of the colon and of the closing bracket of the tag that
/// `line` starts with, if it starts with one.
fn find_leading_tag(line: &[char]) -> (r: Option<(usize, usize)>)
    ensures
        match r {
            Some((colon, close)) => leading_tag(line@) is Some && colon == label_end(line@, 1)
                && close == text_end(line@, colon + 1) && 1 <= colon < close < line.len(),
            None => leading_tag(line@) is None,
        },
{
    let len = line.len();
    if len == 0 || line[0] != '[' {
        return None;
    }
    let mut colon: usize = 1;
    while colon < len && is_label_char(line[colon])
        invariant
            1 <= colon <= len,
            len == line.len(),
            label_end(line@, colon as int) == label_end(line@, 1),
        decreases len - colon,
    {
        colon += 1;
    }
    if colon >= len || line[colon] != ':' {
        return None;
    }
    let mut close: usize = colon + 1;
    while close < len && is_text_char(line[close])
        invariant
            colon < close <= len,
            len == line.len(),
            text_end(line@, close as int) == text_end(line@, colon + 1),
        decreases len - close,
    {
        close += 1;
    }
    if close >= len || line[close] != ']' {
        return None;
    }
    Some((colon, close))
}

/// Between `from` and `label_end(s, from)` stand label characters, and what
/// follows them is none.
pub proof fn lemma_label_end(s: Seq<char>, from: int)
    requires
        0 <= from <= s.len(),
    ensures
        from <= label_end(s, from) <= s.len(),
        forall|i: int| from <= i < label_end(s, from) ==> is_label_char(#[trigger] s[i]),
        label_end(s, from) < s.len() ==> !is_label_char(s[label_end(s, from)]),
    decreases s.len() - from,
{
    if from < s.len() && is_label_char(s[from]) {
        lemma_label_end(s, from + 1);
    }
}

/// Between `from` and `text_end(s, from)` stand text characters, and what
/// follows them is none.
pub proof fn lemma_text_end(s: Seq<char>, from: int)
    requires
        0 <= from <= s.len(),
    ensures
        from <= text_end(s, from) <= s.len(),
        forall|i: int| from <= i < text_end(s, from) ==> is_text_char(#[trigger] s[i]),
        text_end(s, from) < s.len() ==> !is_text_char(s[text_end(s, from)]),
    decreases s.len() - from,
{
    if from < s.len() && is_text_char(s[from]) {
        lemma_text_end(s, from + 1);
    }
}

/// Label characters that end at `to` are the label characters that start at
/// `from`.
pub proof fn lemma_label_end_is(s: Seq<char>, from: int, to: int)
    requires
        0 <= from <= to <= s.len(),
        forall|i: int| from <= i < to ==> is_label_char(#[trigger] s[i]),
        to < s.len() ==> !is_label_char(s[to]),
    ensures
        label_end(s, from) == to,
    decreases to - from,
{
    if from < to {
        lemma_label_end_is(s, from + 1, to);
    }
}

/// Text characters that end at `to` are the text characters that start at
/// `from`.
pub proof fn lemma_text_end_is(s: Seq<char>, from: int, to: int)
    requires
        0 <= from <= to <= s.len(),
        forall|i: int| from <= i < to ==> is_text_char(#[trigger] s[i]),
        to < s.len() ==> !is_text_char(s[to]),
    ensures
        text_end(s, from) == to,
    decreases to - from,
{
    if from < to {
        lemma_text_end_is(s, from + 1, to);
    }
}

/// A tag at the start of a line lies within the line, and its label and text
/// hold the characters that they may.
pub proof fn lemma_leading_tag(line: Seq<char>)
    requires
        leading_tag(line) is Some,
    ensures
        3 <= leading_tag(line)->0.len() <= line.len(),
        leading_tag(line)->0.label.len() == label_end(line, 1) - 1,
        label_end(line, 1) + 1 + leading_tag(line)->0.text.len() == text_end(
            line,
            label_end(line, 1) + 1,
        ),
        forall|i: int|
            0 <= i < leading_tag(line)->0.label.len() ==> is_label_char(
                #[trigger] leading_tag(line)->0.label[i],
            ),
        valid_text(leading_tag(line)->0.text),
{
    lemma_label_end(line, 1);
    lemma_text_end(line, label_end(line, 1) + 1);
}

/// A line that starts with `[`, label characters up to a colon at `colon`,
/// and text characters up to a `]` at `close` starts with that tag.
pub proof fn lemma_leading_tag_is(line: Seq<char>, colon: int, close: int)
    requires
        holds(line, 0, '['),
        1 <= colon < close,
        holds(line, colon, ':'),
        holds(line, close, ']'),
        forall|i: int| 1 <= i < colon ==> is_label_char(#[trigger] line[i]),
        forall|i: int| colon < i < close ==> is_text_char(#[trigger] line[i]),
    ensures
        leading_tag(line) == Some(
            LeadingTag { label: line.subrange(1, colon), text: line.subrange(colon + 1, close) },
        ),
{
    lemma_label_end_is(line, 1, colon);
    lemma_text_end_is(line, colon + 1, close);
}

/// A line that starts with a tag holds a tag.
pub proof fn lemma_leading_tag_holds(line: Seq<char>)
    requires
        leading_tag(line) is Some,
    ensures
        holds_tag(line),
{
    lemma_leading_tag(line);
    let colon = label_end(line, 1);
    let close = text_end(line, colon + 1);
    assert(line[0] == '[' && line[colon] == ':' && line[close] == ']');
}

/// A tag at the start of a line is made of a bracket, its label, a colon, its
/// text and a bracket.
pub proof fn lemma_leading_tag_text(line: Seq<char>)
    requires
        leading_tag(line) is Some,
    ensures
        line.take(leading_tag(line)->0.len()) == seq!['['] + (leading_tag(line)->0.label + seq![
            ':',
        ] + leading_tag(line)->0.text) + seq![']'],
{
    lemma_leading_tag(line);
    let tag = leading_tag(line)->0;
    assert(line.take(tag.len()) =~= seq!['['] + (tag.label + seq![':'] + tag.text) + seq![']']);
}

/// A tag with a blank label writes no time.
pub proof fn lemma_blank_label_is_no_time(label: Seq<char>, text: Seq<char>)
    requires
        is_blank(label),
    ensures
        parsed_tag(seq!['['] + (label + seq![':'] + text) + seq![']']) is Err,
{
    let content = label + seq![':'] + text;
    lemma_unwrapped(content);
    let behind = seq![':'] + text;
    assert(content == label + behind);
    lemma_trimmed_start_skips(label, behind);
    assert(behind[0] == ':');
    assert(trimmed_start(behind) == behind);
    lemma_trimmed_end_keeps_start(behind);
    if scan(trimmed(content)) is Some {
        lemma_scan_start(trimmed(content));
    }
}

/// Once a line is refused, the lines behind it change nothing.
pub proof fn lemma_refusal_lasts(lyrics: LyricsView, read: Seq<Seq<char>>, lines: Seq<Seq<char>>)
    requires
        with_source_lines(lyrics, read) is Err,
        read.len() <= lines.len(),
        lines.take(read.len() as int) == read,
    ensures
        with_source_lines(lyrics, lines) == with_source_lines(lyrics, read),
    decreases lines.len(),
{
    if read.len() < lines.len() {
        assert(lines.drop_last().take(read.len() as int) == read);
        lemma_refusal_lasts(lyrics, read, lines.drop_last());
    } else {
        assert(lines.take(lines.len() as int) == lines);
    }
}

/// A comment drops the rest of its line: a tag with a blank label ends the
/// reading of the line's tags, and nothing is left of the line, whatever
/// stands behind the tag.
pub proof fn law_comment_drops_rest(state: LineState)
    requires
        leading_tag(state.rest) is Some,
        is_blank(leading_tag(state.rest)->0.label),
    ensures
        absorbed(state) == (LineState { rest: Seq::empty(), ..state }),
{
    let tag = leading_tag(state.rest)->0;
    lemma_leading_tag_text(state.rest);
    lemma_blank_label_is_no_time(tag.label, tag.text);
    lemma_trimmed_blank(tag.label);
}

/// A line that starts with a comment adds an empty plain line and nothing
/// else, whatever stands behind the comment.
pub proof fn law_comment_line(lyrics: LyricsView, line: Seq<char>)
    requires
        leading_tag(trimmed(line)) is Some,
        is_blank(leading_tag(trimmed(line))->0.label),
    ensures
        with_source_line(lyrics, line) == Ok::<LyricsView, Seq<char>>(
            lyrics.with_line(Seq::empty()),
        ),
{
    let start = LineState {
        metadata: lyrics.metadata,
        times: Seq::empty(),
        tagged: false,
        rest: trimmed(line),
    };
    law_comment_drops_rest(start);
    let none = Seq::<char>::empty();
    assert(!has_control(none));
    assert(!holds_tag(none));
    assert(LyricsView { metadata: lyrics.metadata, ..lyrics } == lyrics);
}

/// A line with ID tags and without a time tag adds no lyric line: only the
/// metadata changes, and what is left of the line is dropped unseen.
pub proof fn law_tag_line_adds_no_line(lyrics: LyricsView, line: Seq<char>)
    requires
        absorbed(
            LineState {
                metadata: lyrics.metadata,
                times: Seq::empty(),
                tagged: false,
                rest: trimmed(line),
            },
        ).tagged,
        absorbed(
            LineState {
                metadata: lyrics.metadata,
                times: Seq::empty(),
                tagged: false,
                rest: trimmed(line),
            },
        ).times.len() == 0,
    ensures
        with_source_line(lyrics, line) is Ok,
        with_source_line(lyrics, line)->Ok_0.timed_lines == lyrics.timed_lines,
        with_source_line(lyrics, line)->Ok_0.lines == lyrics.lines,
{
}

/// The metadata has no part in what else the tags of a line give: the times,
/// whether there was an ID tag, and what is left of the line.
pub proof fn lemma_absorbed_apart_from_metadata(state: LineState, metadata: Seq<IDTagView>)
    ensures
        absorbed(LineState { metadata, ..state }).times == absorbed(state).times,
        absorbed(LineState { metadata, ..state }).tagged == absorbed(state).tagged,
        absorbed(LineState { metadata, ..state }).rest == absorbed(state).rest,
    decreases state.rest.len(),
{
    let other = LineState { metadata, ..state };
    match leading_tag(state.rest) {
        None => {},
        Some(tag) => {
            lemma_leading_tag(state.rest);
            lemma_trimmed_start(state.rest.skip(tag.len()));
            let behind = trimmed_start(state.rest.skip(tag.len()));
            match parsed_tag(state.rest.take(tag.len())) {
                Ok(time) => {
                    let next = LineState { times: state.times.push(time), rest: behind, ..state };
                    assert(absorbed(state) == absorbed(next));
                    assert(absorbed(other) == absorbed(LineState { metadata, ..next }));
                    lemma_absorbed_apart_from_metadata(next, metadata);
                },
                Err(_) => {
                    if trimmed(tag.label).len() != 0 {
                        let read = IDTagView {
                            label: trimmed(tag.label),
                            text: trimmed(tag.text),
                        };
                        let next = LineState {
                            metadata: with_tag(state.metadata, read),
                            tagged: true,
                            rest: behind,
                            ..state
                        };
                        assert(absorbed(state) == absorbed(next));
                        assert(absorbed(other) == absorbed(
                            LineState { metadata: with_tag(metadata, read), ..next },
                        ));
                        lemma_absorbed_apart_from_metadata(next, with_tag(metadata, read));
                    }
                },
            }
        },
    }
}

/// A line that is read adds the timed lines that it writes, one after the
/// other, and no others.
pub proof fn lemma_line_adds_its_timed_lines(lyrics: LyricsView, line: Seq<char>)
    requires
        with_source_line(lyrics, line) is Ok,
    ensures
        with_source_line(lyrics, line)->Ok_0.timed_lines == with_timed_lines(
            lyrics.timed_lines,
            line_read(line).times,
            line_read(line).rest,
        ),
{
    let start = LineState {
        metadata: Seq::empty(),
        times: Seq::empty(),
        tagged: false,
        rest: trimmed(line),
    };
    lemma_absorbed_apart_from_metadata(start, lyrics.metadata);
    let state = absorbed(LineState { metadata: lyrics.metadata, ..start });
    assert(state.times == line_read(line).times);
    assert(state.rest == line_read(line).rest);
    assert(state.tagged == line_read(line).tagged);
}

/// The timed lines are read in their order: reading lines adds the timed
/// lines that they write and no others, and at every time they stand behind
/// the lines that were there, in the order in which they are written, first
/// by line and then by time tag. The times do not decrease.
pub proof fn law_timed_lines_are_read_in_order(
    lyrics: LyricsView,
    lines: Seq<Seq<char>>,
    at: int,
)
    requires
        with_source_lines(lyrics, lines) is Ok,
    ensures
        texts_at(with_source_lines(lyrics, lines)->Ok_0.timed_lines, at) == texts_at(
            lyrics.timed_lines,
            at,
        ) + texts_at(timed_lines_in(lines), at),
        with_source_lines(lyrics, lines)->Ok_0.timed_lines.len() == lyrics.timed_lines.len()
            + timed_lines_in(lines).len(),
        non_decreasing(lyrics.timed_lines) ==> non_decreasing(
            with_source_lines(lyrics, lines)->Ok_0.timed_lines,
        ),
    decreases lines.len(),
{
    if lines.len() == 0 {
        assert(texts_at(lyrics.timed_lines, at) + texts_at(timed_lines_in(lines), at) == texts_at(
            lyrics.timed_lines,
            at,
        ));
    } else {
        let front = lines.drop_last();
        let line = lines.last();
        let before = with_source_lines(lyrics, front)->Ok_0;
        let after = with_source_line(before, line)->Ok_0;
        let read = line_read(line);
        assert(with_source_lines(lyrics, front) is Ok);
        assert(with_source_lines(lyrics, lines) == with_source_line(before, line));
        law_timed_lines_are_read_in_order(lyrics, front, at);
        lemma_line_adds_its_timed_lines(before, line);
        law_inserted_lines_keep_their_order(before.timed_lines, read.times, read.rest, at);
        lemma_texts_at_add(timed_lines_in(front), timed_lines_of(line), at);
        assert(texts_at(lyrics.timed_lines, at) + texts_at(timed_lines_in(front), at) + texts_at(
            timed_lines_of(line),
            at,
        ) == texts_at(lyrics.timed_lines, at) + (texts_at(timed_lines_in(front), at) + texts_at(
            timed_lines_of(line),
            at,
        )));
        if non_decreasing(lyrics.timed_lines) {
            law_timed_lines_stay_ordered(before.timed_lines, read.times, read.rest);
        }
    }
}

/// The timed lines of lyrics that were read from a text are the timed lines
/// that the text writes, as many as there are time tags before lines of the
/// text, in the order of their times and, at one time, in the order in which
/// the text writes them.
pub proof fn law_text_is_read_in_order(s: Seq<char>, at: int)
    requires
        parsed_lyrics(s) is Ok,
    ensures
        non_decreasing(parsed_lyrics(s)->Ok_0.timed_lines),
        parsed_lyrics(s)->Ok_0.timed_lines.len() == timed_lines_in(lines_of(s)).len(),
        texts_at(parsed_lyrics(s)->Ok_0.timed_lines, at) == texts_at(
            timed_lines_in(lines_of(s)),
            at,
        ),
{
    law_timed_lines_are_read_in_order(empty_lyrics(), lines_of(s), at);
    assert(texts_at(empty_lyrics().timed_lines, at) == Seq::<Seq<char>>::empty());
    assert(Seq::<Seq<char>>::empty() + texts_at(timed_lines_in(lines_of(s)), at) == texts_at(
        timed_lines_in(lines_of(s)),
        at,
    ));
}

} // verus!
