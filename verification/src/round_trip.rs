//! Reading what was written: the text of lyrics reads back as those lyrics.
use vstd::prelude::*;
use crate::line::{acceptable, holds_tag};
use crate::lyrics::{
    joined, lemma_latest_comes_last, non_decreasing, rendered_timed_line, separated,
    with_timed_line, with_timed_lines, LyricsView,
};
use crate::metadata::{all_valid, ascending, lemma_rank, with_tag};
use crate::tags::id_tag::{valid_label, IDTagView};
use crate::tags::time_tag::{lemma_unwrapped, parsed_tag, rendered_tag};
use crate::text::{
    has_control, holds, is_blank, is_control, is_digit, is_label_char, is_text_char, is_trimmed,
    lemma_precedes_irreflexive, lemma_trimmed, lemma_trimmed_fixed, lemma_trimmed_start_skips,
    precedes, trimmed, trimmed_end, trimmed_start,
};
use crate::timestamp::{
    law_rendered_parses_back, lemma_rendered_shape, lemma_scan_colon, rendered, scan, ParseFailure,
};
use crate::tokenizer::{
    absorbed, empty_lyrics, leading_tag, lemma_leading_tag_holds, lemma_leading_tag_is, line_end,
    lines_of, parsed_lyrics, with_source_line, with_source_lines, LeadingTag, LineState,
};

verus! {

/// A timestamp that a text can write and that reads back as it is: whole
/// hundredths of a second, minutes of at most ten digits, and not negative by
/// less than a minute.
pub open spec fn writable(time: int) -> bool {
    &&& time % 10 == 0
    &&& -600_000_000_000_000 < time < 600_000_000_000_000
    &&& (time >= 0 || time <= -60000)
}

/// The lyrics hold their labels and lines as they are written, and times
/// that read back: no label and no line starts or ends with whitespace. The
/// text of an ID tag may; it is written without.
pub open spec fn tidy(lyrics: LyricsView) -> bool {
    &&& forall|i: int|
        0 <= i < lyrics.metadata.len() ==> is_trimmed((#[trigger] lyrics.metadata[i]).label)
    &&& forall|i: int|
        0 <= i < lyrics.timed_lines.len() ==> writable((#[trigger] lyrics.timed_lines[i]).0)
            && is_trimmed(lyrics.timed_lines[i].1)
    &&& forall|i: int| 0 <= i < lyrics.lines.len() ==> is_trimmed(#[trigger] lyrics.lines[i])
}

/// No text of an ID tag starts or ends with whitespace.
pub open spec fn texts_trimmed(tags: Seq<IDTagView>) -> bool {
    forall|i: int| 0 <= i < tags.len() ==> is_trimmed((#[trigger] tags[i]).text)
}

/// The ID tags as their text shows them: each with its label and text
/// trimmed.
pub open spec fn tags_read_back(tags: Seq<IDTagView>) -> Seq<IDTagView> {
    tags.map_values(|tag: IDTagView| tag.written())
}

/// Every line is trimmed.
pub open spec fn all_trimmed(lines: Seq<Seq<char>>) -> bool {
    forall|i: int| 0 <= i < lines.len() ==> is_trimmed(#[trigger] lines[i])
}

/// No character of `s` is a line feed.
pub open spec fn one_line(s: Seq<char>) -> bool {
    forall|i: int| 0 <= i < s.len() ==> #[trigger] s[i] != '\n'
}

/// The ID tags as they are written, each a line.
pub open spec fn tag_lines(tags: Seq<IDTagView>) -> Seq<Seq<char>> {
    tags.map_values(|tag: IDTagView| tag.rendered())
}

/// The timed lines as they are written.
pub open spec fn timed_source_lines(timed_lines: Seq<(int, Seq<char>)>) -> Seq<Seq<char>> {
    timed_lines.map_values(|line: (int, Seq<char>)| rendered_timed_line(line))
}

/// `n` empty lines.
pub open spec fn empty_lines(n: nat) -> Seq<Seq<char>> {
    Seq::new(n, |i: int| Seq::<char>::empty())
}

/// The lines without the empty lines that they start with.
pub open spec fn without_leading_empty(lines: Seq<Seq<char>>) -> Seq<Seq<char>>
    decreases lines.len(),
{
    if lines.len() > 0 && lines[0].len() == 0 {
        without_leading_empty(lines.drop_first())
    } else {
        lines
    }
}

/// The lines without the empty lines that they end with.
pub open spec fn without_trailing_empty(lines: Seq<Seq<char>>) -> Seq<Seq<char>>
    decreases lines.len(),
{
    if lines.len() > 0 && lines.last().len() == 0 {
        without_trailing_empty(lines.drop_last())
    } else {
        lines
    }
}

/// The lines without the empty lines that they start and end with.
pub open spec fn without_empty_ends(lines: Seq<Seq<char>>) -> Seq<Seq<char>> {
    without_trailing_empty(without_leading_empty(lines))
}

/// The number of empty lines in the text of the lyrics: one between two
/// blocks, and one where the whole text is empty.
pub open spec fn gaps(lyrics: LyricsView) -> nat {
    let tagged = lyrics.metadata.len() > 0;
    let timed = lyrics.timed_lines.len() > 0;
    let plain = lyrics.plain_block().len() > 0;
    if !tagged && !timed && !plain {
        1
    } else {
        (if tagged && timed {
            1nat
        } else {
            0nat
        }) + (if plain && (tagged || timed) {
            1nat
        } else {
            0nat
        })
    }
}

/// The plain lines that the text of the lyrics reads as: an empty line for
/// each empty line of the text, then the plain lines without the empty ones
/// at their start and end, which are not written.
pub open spec fn lines_read_back(lyrics: LyricsView) -> Seq<Seq<char>> {
    empty_lines(gaps(lyrics)) + without_empty_ends(lyrics.lines)
}

/// Between `from` and `line_end(s, from)` stands no line feed, and one stands
/// behind unless the text ends there.
pub proof fn lemma_line_end(s: Seq<char>, from: int)
    requires
        0 <= from <= s.len(),
    ensures
        from <= line_end(s, from) <= s.len(),
        forall|i: int| from <= i < line_end(s, from) ==> #[trigger] s[i] != '\n',
        line_end(s, from) < s.len() ==> s[line_end(s, from)] == '\n',
    decreases s.len() - from,
{
    if from < s.len() && s[from] != '\n' {
        lemma_line_end(s, from + 1);
    }
}

/// The line that starts at `from` ends at `to` where a line feed stands
/// there, or the text ends, and none stands before.
pub proof fn lemma_line_end_is(s: Seq<char>, from: int, to: int)
    requires
        0 <= from <= to <= s.len(),
        forall|i: int| from <= i < to ==> #[trigger] s[i] != '\n',
        to < s.len() ==> s[to] == '\n',
    ensures
        line_end(s, from) == to,
    decreases to - from,
{
    if from < to {
        assert(s[from] != '\n');
        lemma_line_end_is(s, from + 1, to);
    }
}

/// A text without a line feed is one line.
pub proof fn lemma_lines_of_one_line(s: Seq<char>)
    requires
        one_line(s),
    ensures
        lines_of(s) == seq![s],
{
    lemma_line_end_is(s, 0, s.len() as int);
}

/// The lines of two texts with a line feed between them are the lines of the
/// first and then those of the second.
pub proof fn lemma_lines_of_two(a: Seq<char>, b: Seq<char>)
    ensures
        lines_of(a + seq!['\n'] + b) == lines_of(a) + lines_of(b),
    decreases a.len(),
{
    let s = a + seq!['\n'] + b;
    let end = line_end(a, 0);
    lemma_line_end(a, 0);
    assert(line_end(s, 0) == end) by {
        assert forall|i: int| 0 <= i < end implies #[trigger] s[i] != '\n' by {
            assert(s[i] == a[i]);
        }
        if end < a.len() {
            assert(s[end] == a[end]);
        } else {
            assert(s[end] == '\n');
        }
        lemma_line_end_is(s, 0, end);
    }
    if end < a.len() {
        let rest = a.skip(end + 1);
        assert(s.skip(end + 1) == rest + seq!['\n'] + b);
        assert(s.take(end) == a.take(end));
        lemma_lines_of_two(rest, b);
        assert(seq![a.take(end)] + (lines_of(rest) + lines_of(b)) == seq![a.take(end)] + lines_of(
            rest,
        ) + lines_of(b));
    } else {
        assert(s.take(end) == a);
        assert(s.skip(end + 1) == b);
    }
}

/// The lines of texts that were joined are those texts, where there is one
/// at least and none holds a line feed.
pub proof fn lemma_lines_of_joined(parts: Seq<Seq<char>>)
    requires
        parts.len() > 0,
        forall|i: int| 0 <= i < parts.len() ==> one_line(#[trigger] parts[i]),
    ensures
        lines_of(joined(parts)) == parts,
    decreases parts.len(),
{
    if parts.len() == 1 {
        lemma_lines_of_one_line(parts[0]);
        assert(parts =~= seq![parts[0]]);
    } else {
        let front = parts.drop_last();
        assert forall|i: int| 0 <= i < front.len() implies one_line(#[trigger] front[i]) by {
            assert(front[i] == parts[i]);
        }
        lemma_lines_of_joined(front);
        lemma_lines_of_two(joined(front), parts.last());
        lemma_lines_of_one_line(parts.last());
        assert(parts =~= front + seq![parts.last()]);
    }
}

/// The lines of two blocks with an empty line between them are the lines of
/// the first, an empty line and the lines of the second.
pub proof fn lemma_lines_of_separated(a: Seq<char>, b: Seq<char>)
    requires
        a.len() > 0,
        b.len() > 0,
    ensures
        lines_of(separated(a, b)) == lines_of(a) + seq![Seq::<char>::empty()] + lines_of(b),
{
    let none = Seq::<char>::empty();
    let tail = none + seq!['\n'] + b;
    assert(separated(a, b) =~= a + seq!['\n'] + tail);
    lemma_lines_of_two(a, tail);
    lemma_lines_of_two(none, b);
    lemma_lines_of_one_line(none);
    assert(lines_of(a) + (seq![none] + lines_of(b)) == lines_of(a) + seq![none] + lines_of(b));
}

/// A text before others that were joined stands on a line of its own before
/// them.
pub proof fn lemma_joined_first(first: Seq<char>, rest: Seq<Seq<char>>)
    ensures
        joined(seq![first] + rest) == if rest.len() == 0 {
            first
        } else {
            first + seq!['\n'] + joined(rest)
        },
    decreases rest.len(),
{
    let all = seq![first] + rest;
    if rest.len() == 0 {
        assert(all == seq![first]);
    } else {
        assert(all.drop_last() == seq![first] + rest.drop_last());
        assert(all.last() == rest.last());
        lemma_joined_first(first, rest.drop_last());
        if rest.len() == 1 {
            assert(rest.drop_last() == Seq::<Seq<char>>::empty());
            assert(first + seq!['\n'] + rest.last() == first + seq!['\n'] + joined(rest));
        } else {
            assert(first + seq!['\n'] + joined(rest.drop_last()) + seq!['\n'] + rest.last()
                == first + seq!['\n'] + (joined(rest.drop_last()) + seq!['\n'] + rest.last()));
        }
    }
}

/// Trimmed lines that were joined start with the first character of the
/// first line that is not empty, and end with the last of the last.
pub proof fn lemma_joined_ends(lines: Seq<Seq<char>>)
    requires
        lines.len() > 0,
    ensures
        lines[0].len() > 0 ==> joined(lines).len() > 0 && joined(lines)[0] == lines[0][0],
        lines.last().len() > 0 ==> joined(lines).len() > 0 && joined(lines).last()
            == lines.last().last(),
        lines.len() > 1 ==> joined(lines).len() > 0,
    decreases lines.len(),
{
    if lines.len() > 1 {
        lemma_joined_ends(lines.drop_last());
        let front = joined(lines.drop_last());
        assert(lines.drop_last()[0] == lines[0]);
        if lines.last().len() == 0 {
            assert(joined(lines) == front + seq!['\n']);
        }
    }
}

/// What is left of lines without the empty lines at their start are the
/// lines behind those, and the first of them is not empty.
pub proof fn lemma_without_leading_empty(lines: Seq<Seq<char>>)
    ensures
        without_leading_empty(lines).len() <= lines.len(),
        without_leading_empty(lines) == lines.skip(
            lines.len() - without_leading_empty(lines).len(),
        ),
        without_leading_empty(lines).len() > 0 ==> without_leading_empty(lines)[0].len() > 0,
    decreases lines.len(),
{
    if lines.len() > 0 && lines[0].len() == 0 {
        let rest = lines.drop_first();
        lemma_without_leading_empty(rest);
        let k = rest.len() - without_leading_empty(rest).len();
        assert(rest.skip(k) == lines.skip(k + 1));
    } else {
        assert(lines.skip(0) == lines);
    }
}

/// What is left of lines without the empty lines at their end are the
/// lines before those, and the last of them is not empty.
pub proof fn lemma_without_trailing_empty(lines: Seq<Seq<char>>)
    ensures
        without_trailing_empty(lines).len() <= lines.len(),
        without_trailing_empty(lines) == lines.take(without_trailing_empty(lines).len() as int),
        without_trailing_empty(lines).len() > 0 ==> without_trailing_empty(lines).last().len() > 0,
    decreases lines.len(),
{
    if lines.len() > 0 && lines.last().len() == 0 {
        let front = lines.drop_last();
        lemma_without_trailing_empty(front);
        let k = without_trailing_empty(front).len() as int;
        assert(front.take(k) == lines.take(k));
    } else {
        assert(lines.take(lines.len() as int) == lines);
    }
}

/// What is left of lines without their empty ends are lines of theirs, and
/// the first and the last of them are not empty.
pub proof fn lemma_without_empty_ends(lines: Seq<Seq<char>>)
    ensures
        without_leading_empty(lines).len() <= lines.len(),
        without_leading_empty(lines) == lines.skip(
            lines.len() - without_leading_empty(lines).len(),
        ),
        without_empty_ends(lines).len() <= without_leading_empty(lines).len(),
        without_empty_ends(lines) == without_leading_empty(lines).take(
            without_empty_ends(lines).len() as int,
        ),
        without_empty_ends(lines).len() > 0 ==> without_empty_ends(lines)[0].len() > 0
            && without_empty_ends(lines).last().len() > 0,
{
    lemma_without_leading_empty(lines);
    lemma_without_trailing_empty(without_leading_empty(lines));
    let middle = without_leading_empty(lines);
    let body = without_empty_ends(lines);
    if body.len() > 0 {
        assert(body[0] == middle[0]);
    }
}

/// Behind empty lines, lines that neither start nor end with an empty line
/// are what is left without the empty ends.
pub proof fn lemma_without_empty_ends_of(n: nat, body: Seq<Seq<char>>)
    requires
        body.len() > 0 ==> body[0].len() > 0 && body.last().len() > 0,
    ensures
        without_empty_ends(empty_lines(n) + body) == body,
    decreases n,
{
    let lines = empty_lines(n) + body;
    if n > 0 {
        assert(lines[0] == empty_lines(n)[0]);
        assert(lines.drop_first() == empty_lines((n - 1) as nat) + body);
        lemma_without_empty_ends_of((n - 1) as nat, body);
    } else {
        assert(lines == body);
    }
}

/// Trimming the start of trimmed lines that were joined drops the empty
/// lines that they start with.
pub proof fn lemma_trimmed_start_of_joined(lines: Seq<Seq<char>>)
    requires
        all_trimmed(lines),
    ensures
        trimmed_start(joined(lines)) == joined(without_leading_empty(lines)),
    decreases lines.len(),
{
    if lines.len() > 0 {
        let rest = lines.drop_first();
        assert(lines == seq![lines[0]] + rest);
        lemma_joined_first(lines[0], rest);
        if lines[0].len() == 0 {
            assert forall|i: int| 0 <= i < rest.len() implies is_trimmed(#[trigger] rest[i]) by {
                assert(rest[i] == lines[i + 1]);
            }
            lemma_trimmed_start_of_joined(rest);
            if rest.len() > 0 {
                let feed = seq!['\n'];
                assert(joined(lines) == feed + joined(rest));
                assert(is_blank(feed));
                lemma_trimmed_start_skips(feed, joined(rest));
            }
        } else {
            lemma_joined_ends(lines);
            assert(is_trimmed(lines[0]));
        }
    }
}

/// Trimming the end of trimmed lines that were joined drops the empty lines
/// that they end with.
pub proof fn lemma_trimmed_end_of_joined(lines: Seq<Seq<char>>)
    requires
        all_trimmed(lines),
    ensures
        trimmed_end(joined(lines)) == joined(without_trailing_empty(lines)),
    decreases lines.len(),
{
    if lines.len() > 0 {
        let front = lines.drop_last();
        if lines.last().len() == 0 {
            assert forall|i: int| 0 <= i < front.len() implies is_trimmed(#[trigger] front[i]) by {
                assert(front[i] == lines[i]);
            }
            lemma_trimmed_end_of_joined(front);
            if front.len() > 0 {
                let whole = joined(front) + seq!['\n'];
                assert(joined(lines) == whole);
                assert(whole.last() == '\n');
                assert(whole.drop_last() == joined(front));
            }
        } else {
            lemma_joined_ends(lines);
            assert(is_trimmed(lines.last()));
        }
    }
}

/// The block of trimmed plain lines holds them without the empty lines at
/// their start and end.
pub proof fn lemma_plain_block(lines: Seq<Seq<char>>)
    requires
        all_trimmed(lines),
    ensures
        trimmed(joined(lines)) == joined(without_empty_ends(lines)),
        trimmed(joined(lines)).len() > 0 <==> without_empty_ends(lines).len() > 0,
{
    let middle = without_leading_empty(lines);
    let body = without_empty_ends(lines);
    lemma_without_empty_ends(lines);
    lemma_trimmed_start_of_joined(lines);
    assert forall|i: int| 0 <= i < middle.len() implies is_trimmed(#[trigger] middle[i]) by {
        assert(middle[i] == lines[lines.len() - middle.len() + i]);
    }
    lemma_trimmed_end_of_joined(middle);
    if body.len() > 0 {
        lemma_joined_ends(body);
    }
}

/// Reading lines and then more lines is reading them all, as far as none is
/// refused.
pub proof fn lemma_with_source_lines_add(
    lyrics: LyricsView,
    first: Seq<Seq<char>>,
    second: Seq<Seq<char>>,
)
    ensures
        with_source_lines(lyrics, first + second) == match with_source_lines(lyrics, first) {
            Ok(read) => with_source_lines(read, second),
            Err(message) => Err(message),
        },
    decreases second.len(),
{
    if second.len() == 0 {
        assert(first + second == first);
    } else {
        assert((first + second).drop_last() == first + second.drop_last());
        lemma_with_source_lines_add(lyrics, first, second.drop_last());
    }
}

/// A trimmed line that may stand as a lyric line is read as a plain line.
pub proof fn lemma_reads_plain_line(lyrics: LyricsView, line: Seq<char>)
    requires
        is_trimmed(line),
        acceptable(line),
    ensures
        with_source_line(lyrics, line) == Ok::<LyricsView, Seq<char>>(lyrics.with_line(line)),
{
    lemma_trimmed_fixed(line);
    if leading_tag(line) is Some {
        lemma_leading_tag_holds(line);
    }
    assert(LyricsView { metadata: lyrics.metadata, ..lyrics } == lyrics);
}

/// A timed line as it is written is read as that timed line.
pub proof fn lemma_reads_timed_line(lyrics: LyricsView, time: int, text: Seq<char>)
    requires
        writable(time),
        is_trimmed(text),
        acceptable(text),
    ensures
        with_source_line(lyrics, rendered_timed_line((time, text))) == Ok::<
            LyricsView,
            Seq<char>,
        >(LyricsView { timed_lines: with_timed_line(lyrics.timed_lines, time, text), ..lyrics }),
{
    let stamp = rendered(time);
    let tag = rendered_tag(time);
    let line = rendered_timed_line((time, text));
    let colon = lemma_rendered_shape(time) + 1;
    let close = stamp.len() + 1;
    assert(line == seq!['['] + stamp + seq![']'] + text);
    assert(is_trimmed(line)) by {
        assert(line[0] == '[');
        if text.len() > 0 {
            assert(line.last() == text.last());
        } else {
            assert(line.last() == ']');
        }
    }
    lemma_trimmed_fixed(line);
    assert(leading_tag(line) == Some(
        LeadingTag { label: line.subrange(1, colon), text: line.subrange(colon + 1, close as int) },
    )) by {
        assert(line[0] == '[');
        assert(line[close as int] == ']');
        assert(line[colon] == stamp[colon - 1]);
        assert forall|i: int| 1 <= i < colon implies is_label_char(#[trigger] line[i]) by {
            assert(line[i] == stamp[i - 1]);
        }
        assert forall|i: int| colon < i < close implies is_text_char(#[trigger] line[i]) by {
            assert(line[i] == stamp[i - 1]);
        }
        lemma_leading_tag_is(line, colon, close as int);
    }
    let found = leading_tag(line)->0;
    assert(found.len() == stamp.len() + 2);
    assert(line.take(found.len()) == seq!['['] + stamp + seq![']']);
    assert(line.skip(found.len()) == text);
    assert(parsed_tag(seq!['['] + stamp + seq![']']) == Ok::<int, ParseFailure>(time)) by {
        lemma_unwrapped(stamp);
        assert(is_trimmed(stamp)) by {
            assert(is_digit(stamp[0]) || stamp[0] == '-');
        }
        lemma_trimmed_fixed(stamp);
        law_rendered_parses_back(time);
    }
    lemma_trimmed_fixed(text);
    if leading_tag(text) is Some {
        lemma_leading_tag_holds(text);
    }
    let start = LineState {
        metadata: lyrics.metadata,
        times: Seq::empty(),
        tagged: false,
        rest: line,
    };
    let next = LineState { times: start.times.push(time), rest: text, ..start };
    assert(absorbed(next) == next);
    assert(absorbed(start) == next);
    let times = seq![time];
    assert(next.times == times);
    assert(times.drop_last() == Seq::<int>::empty());
    assert(with_timed_lines(lyrics.timed_lines, times, text) == with_timed_line(
        with_timed_lines(lyrics.timed_lines, times.drop_last(), text),
        times.last(),
        text,
    ));
    assert(LyricsView { metadata: lyrics.metadata, ..lyrics } == lyrics);
}

/// The text between the brackets of an ID tag as it is written is no
/// timestamp: behind its first colon stands a space, or nothing.
pub proof fn lemma_tag_is_no_time(label: Seq<char>, text: Seq<char>)
    requires
        valid_label(label),
        is_trimmed(label),
        is_trimmed(text),
    ensures
        parsed_tag(seq!['['] + (label + seq![':', ' '] + text) + seq![']']) is Err,
{
    let content = label + seq![':', ' '] + text;
    let colon = label.len() as int;
    lemma_unwrapped(content);
    assert(content[0] == label[0]);
    assert(trimmed_start(content) == content);
    let inner = trimmed(content);
    assert(inner.len() > colon && inner.take(colon + 1) == content.take(colon + 1) && (inner.len()
        > colon + 1 ==> inner[colon + 1] == ' ')) by {
        if text.len() > 0 {
            assert(content.last() == text.last());
            assert(trimmed_end(content) == content);
        } else {
            let short = label + seq![':'];
            assert(content.last() == ' ');
            assert(content.drop_last() == short);
            assert(short.last() == ':');
            assert(trimmed_end(short) == short);
        }
    }
    if scan(inner) is Some {
        assert(inner[colon] == content.take(colon + 1)[colon]);
        assert forall|i: int| 0 <= i < colon implies inner[i] != ':' by {
            assert(inner[i] == content.take(colon + 1)[i]);
            assert(is_label_char(label[i]));
        }
        lemma_scan_colon(inner, colon);
    }
}

/// An ID tag as it is written is read as that tag, and adds no lyric line.
pub proof fn lemma_reads_tag_line(lyrics: LyricsView, tag: IDTagView)
    requires
        tag.wf(),
        is_trimmed(tag.label),
        is_trimmed(tag.text),
    ensures
        with_source_line(lyrics, tag.rendered()) == Ok::<LyricsView, Seq<char>>(
            LyricsView { metadata: with_tag(lyrics.metadata, tag), ..lyrics },
        ),
{
    let line = tag.rendered();
    let label = tag.label;
    let spaced = seq![' '] + tag.text;
    let colon = label.len() as int + 1;
    let close = line.len() as int - 1;
    lemma_trimmed_fixed(label);
    lemma_trimmed_fixed(tag.text);
    assert(line == seq!['['] + label + seq![':', ' '] + tag.text + seq![']']);
    assert(is_trimmed(line)) by {
        assert(line[0] == '[');
        assert(line.last() == ']');
    }
    lemma_trimmed_fixed(line);
    assert(leading_tag(line) == Some(LeadingTag { label, text: spaced })) by {
        assert(line[0] == '[');
        assert(line[colon] == ':');
        assert(line[close] == ']');
        assert forall|i: int| 1 <= i < colon implies is_label_char(#[trigger] line[i]) by {
            assert(line[i] == label[i - 1]);
        }
        assert forall|i: int| colon < i < close implies is_text_char(#[trigger] line[i]) by {
            if i > colon + 1 {
                assert(line[i] == tag.text[i - colon - 2]);
            } else {
                assert(line[i] == ' ');
            }
        }
        lemma_leading_tag_is(line, colon, close);
        assert(line.subrange(1, colon) == label);
        assert(line.subrange(colon + 1, close) == spaced);
    }
    let found = leading_tag(line)->0;
    assert(found.len() == line.len());
    assert(line.take(found.len()) == seq!['['] + (label + seq![':', ' '] + tag.text) + seq![']']);
    assert(line.skip(found.len()) == Seq::<char>::empty());
    lemma_tag_is_no_time(label, tag.text);
    assert(trimmed(spaced) == tag.text) by {
        assert(is_blank(seq![' ']));
        lemma_trimmed_start_skips(seq![' '], tag.text);
    }
    let start = LineState {
        metadata: lyrics.metadata,
        times: Seq::empty(),
        tagged: false,
        rest: line,
    };
    let next = LineState {
        metadata: with_tag(lyrics.metadata, tag),
        tagged: true,
        rest: Seq::empty(),
        ..start
    };
    assert(absorbed(next) == next);
    assert(IDTagView { label: trimmed(found.label), text: trimmed(found.text) } == tag);
    assert(absorbed(start) == next);
}

/// A tag whose key comes behind the keys of all tags is inserted behind them.
pub proof fn lemma_greatest_comes_last(tags: Seq<IDTagView>, tag: IDTagView)
    requires
        forall|i: int| 0 <= i < tags.len() ==> precedes((#[trigger] tags[i]).key(), tag.key()),
    ensures
        with_tag(tags, tag) == tags.push(tag),
{
    lemma_precedes_irreflexive(tag.key());
    lemma_rank(tags, tag.key(), tags.len() as int);
    assert(tags.insert(tags.len() as int, tag) =~= tags.push(tag));
}

/// Ascending ID tags as they are written, read one after the other, are
/// those tags.
pub proof fn lemma_reads_tags(base: LyricsView, tags: Seq<IDTagView>, n: nat)
    requires
        base.metadata.len() == 0,
        ascending(tags),
        all_valid(tags),
        forall|i: int|
            0 <= i < tags.len() ==> is_trimmed((#[trigger] tags[i]).label) && is_trimmed(
                tags[i].text,
            ),
        n <= tags.len(),
    ensures
        with_source_lines(base, tag_lines(tags).take(n as int)) == Ok::<LyricsView, Seq<char>>(
            LyricsView { metadata: tags.take(n as int), ..base },
        ),
    decreases n,
{
    let lines = tag_lines(tags).take(n as int);
    if n == 0 {
        assert(tags.take(0) =~= base.metadata);
        assert(LyricsView { metadata: tags.take(0), ..base } == base);
    } else {
        let tag = tags[n - 1];
        let before = LyricsView { metadata: tags.take(n - 1), ..base };
        lemma_reads_tags(base, tags, (n - 1) as nat);
        assert(lines.drop_last() == tag_lines(tags).take(n - 1));
        assert(lines.last() == tag.rendered());
        lemma_reads_tag_line(before, tag);
        assert forall|i: int| 0 <= i < n - 1 implies precedes(
            (#[trigger] tags.take(n - 1)[i]).key(),
            tag.key(),
        ) by {
            assert(precedes(tags[i].key(), tags[n - 1].key()));
        }
        lemma_greatest_comes_last(tags.take(n - 1), tag);
        assert(tags.take(n - 1).push(tag) == tags.take(n as int));
    }
}

/// Timed lines as they are written, read one after the other, are those
/// timed lines, where their times do not decrease.
pub proof fn lemma_reads_timed_lines(base: LyricsView, timed_lines: Seq<(int, Seq<char>)>, n: nat)
    requires
        base.timed_lines.len() == 0,
        non_decreasing(timed_lines),
        forall|i: int|
            0 <= i < timed_lines.len() ==> writable((#[trigger] timed_lines[i]).0) && is_trimmed(
                timed_lines[i].1,
            ) && acceptable(timed_lines[i].1),
        n <= timed_lines.len(),
    ensures
        with_source_lines(base, timed_source_lines(timed_lines).take(n as int)) == Ok::<
            LyricsView,
            Seq<char>,
        >(LyricsView { timed_lines: timed_lines.take(n as int), ..base }),
    decreases n,
{
    let lines = timed_source_lines(timed_lines).take(n as int);
    if n == 0 {
        assert(timed_lines.take(0) =~= base.timed_lines);
        assert(LyricsView { timed_lines: timed_lines.take(0), ..base } == base);
    } else {
        let line = timed_lines[n - 1];
        let before = LyricsView { timed_lines: timed_lines.take(n - 1), ..base };
        lemma_reads_timed_lines(base, timed_lines, (n - 1) as nat);
        assert(lines.drop_last() == timed_source_lines(timed_lines).take(n - 1));
        assert(lines.last() == rendered_timed_line(line));
        lemma_reads_timed_line(before, line.0, line.1);
        if n > 1 {
            assert(timed_lines.take(n - 1).last() == timed_lines[n - 2]);
            assert(timed_lines[n - 2].0 <= timed_lines[n - 1].0);
        }
        lemma_latest_comes_last(timed_lines.take(n - 1), line.0, line.1);
        assert(timed_lines.take(n - 1).push(line) == timed_lines.take(n as int));
    }
}

/// Trimmed lines that may stand as lyric lines, read one after the other,
/// are added as plain lines.
pub proof fn lemma_reads_plain_lines(base: LyricsView, lines: Seq<Seq<char>>, n: nat)
    requires
        forall|i: int|
            0 <= i < lines.len() ==> is_trimmed(#[trigger] lines[i]) && acceptable(lines[i]),
        n <= lines.len(),
    ensures
        with_source_lines(base, lines.take(n as int)) == Ok::<LyricsView, Seq<char>>(
            LyricsView { lines: base.lines + lines.take(n as int), ..base },
        ),
    decreases n,
{
    if n == 0 {
        assert(base.lines + lines.take(0) =~= base.lines);
        assert(LyricsView { lines: base.lines + lines.take(0), ..base } == base);
    } else {
        let before = LyricsView { lines: base.lines + lines.take(n - 1), ..base };
        lemma_reads_plain_lines(base, lines, (n - 1) as nat);
        assert(lines.take(n as int).drop_last() == lines.take(n - 1));
        lemma_reads_plain_line(before, lines[n - 1]);
        assert((base.lines + lines.take(n - 1)).push(lines[n - 1]) == base.lines + lines.take(
            n as int,
        ));
    }
}

/// A timed line as it is written is one line, and not empty.
pub proof fn lemma_timed_line_is_one_line(time: int, text: Seq<char>)
    requires
        acceptable(text),
    ensures
        one_line(rendered_timed_line((time, text))),
        rendered_timed_line((time, text)).len() > 0,
{
    let stamp = rendered(time);
    let line = rendered_timed_line((time, text));
    let colon = lemma_rendered_shape(time);
    assert(line == seq!['['] + stamp + seq![']'] + text);
    assert forall|i: int| 0 <= i < line.len() implies #[trigger] line[i] != '\n' by {
        if 1 <= i < stamp.len() + 1 {
            assert(line[i] == stamp[i - 1]);
            if i - 1 < colon {
                assert(is_digit(stamp[i - 1]) || stamp[i - 1] == '-');
            } else if i - 1 > colon {
                assert(is_digit(stamp[i - 1]) || stamp[i - 1] == '.');
            }
        } else if i > stamp.len() + 1 {
            assert(line[i] == text[i - stamp.len() - 2]);
            assert(!is_control(text[i - stamp.len() - 2]));
        }
    }
}

/// Texts that were joined are not empty where one of them is not.
pub proof fn lemma_joined_len(parts: Seq<Seq<char>>)
    requires
        parts.len() > 0,
        forall|i: int| 0 <= i < parts.len() ==> (#[trigger] parts[i]).len() > 0,
    ensures
        joined(parts).len() > 0,
    decreases parts.len(),
{
}

/// An ID tag as it is written is one line, and not empty.
pub proof fn lemma_tag_is_one_line(tag: IDTagView)
    requires
        tag.wf(),
        is_trimmed(tag.label),
        is_trimmed(tag.text),
    ensures
        one_line(tag.rendered()),
        tag.rendered().len() > 0,
{
    let line = tag.rendered();
    lemma_trimmed_fixed(tag.label);
    lemma_trimmed_fixed(tag.text);
    assert(line == seq!['['] + tag.label + seq![':', ' '] + tag.text + seq![']']);
    let colon = tag.label.len() + 1;
    assert forall|i: int| 0 <= i < line.len() implies #[trigger] line[i] != '\n' by {
        if 1 <= i < colon {
            assert(line[i] == tag.label[i - 1]);
            assert(is_label_char(tag.label[i - 1]));
        } else if colon + 1 < i < line.len() - 1 {
            assert(line[i] == tag.text[i - colon - 2]);
            assert(is_text_char(tag.text[i - colon - 2]));
        }
    }
}

/// A valid tag with a trimmed label is written as the tag that its text
/// shows: that tag is valid and trimmed, and it has the same label, and so
/// the same key.
pub proof fn lemma_written_tag(tag: IDTagView)
    requires
        tag.wf(),
        is_trimmed(tag.label),
    ensures
        tag.written().wf(),
        tag.written().label == tag.label,
        tag.written().key() == tag.key(),
        is_trimmed(tag.written().label),
        is_trimmed(tag.written().text),
        tag.written().rendered() == tag.rendered(),
        is_trimmed(tag.text) ==> tag.written() == tag,
{
    let read = tag.written();
    lemma_trimmed_fixed(tag.label);
    lemma_trimmed(tag.text);
    lemma_trimmed_fixed(read.label);
    lemma_trimmed_fixed(read.text);
    assert(trimmed(read.label) == trimmed(tag.label));
    assert(trimmed(read.text) == trimmed(tag.text));
    assert forall|i: int| 0 <= i < read.text.len() implies is_text_char(#[trigger] read.text[i]) by {
        let from = tag.text.len() - trimmed_start(tag.text).len();
        assert(read.text[i] == tag.text[from + i]);
    }
    if is_trimmed(tag.text) {
        lemma_trimmed_fixed(tag.text);
    }
}

/// Valid ascending tags with trimmed labels are written as the tags that
/// their text shows, and these are valid, trimmed and ascending with the same
/// keys.
pub proof fn lemma_tags_read_back(tags: Seq<IDTagView>)
    requires
        ascending(tags),
        all_valid(tags),
        forall|i: int| 0 <= i < tags.len() ==> is_trimmed((#[trigger] tags[i]).label),
    ensures
        tags_read_back(tags).len() == tags.len(),
        ascending(tags_read_back(tags)),
        all_valid(tags_read_back(tags)),
        forall|i: int|
            0 <= i < tags.len() ==> is_trimmed((#[trigger] tags_read_back(tags)[i]).label)
                && is_trimmed(tags_read_back(tags)[i].text),
        forall|i: int|
            0 <= i < tags.len() ==> (#[trigger] tags_read_back(tags)[i]).key() == tags[i].key()
                && tags_read_back(tags)[i].label == tags[i].label,
        tag_lines(tags_read_back(tags)) == tag_lines(tags),
        texts_trimmed(tags) ==> tags_read_back(tags) == tags,
{
    let read = tags_read_back(tags);
    assert forall|i: int| 0 <= i < tags.len() implies (#[trigger] read[i]).wf() && is_trimmed(
        read[i].label,
    ) && is_trimmed(read[i].text) && read[i].key() == tags[i].key() && read[i].label
        == tags[i].label && read[i].rendered() == tags[i].rendered() by {
        assert(read[i] == tags[i].written());
        lemma_written_tag(tags[i]);
    }
    assert forall|i: int, j: int| 0 <= i < j < read.len() implies precedes(
        #[trigger] read[i].key(),
        #[trigger] read[j].key(),
    ) by {
        assert(precedes(tags[i].key(), tags[j].key()));
    }
    assert(tag_lines(read) =~= tag_lines(tags));
    if texts_trimmed(tags) {
        assert forall|i: int| 0 <= i < tags.len() implies read[i] == tags[i] by {
            lemma_written_tag(tags[i]);
        }
        assert(read =~= tags);
    }
}

/// The blocks of ID tags and of timed lines, as they are written, read as
/// those tags and lines, with an empty plain line where both are there.
proof fn lemma_reads_head(lyrics: LyricsView)
    requires
        lyrics.wf(),
        tidy(lyrics),
        lyrics.metadata.len() > 0 || lyrics.timed_lines.len() > 0,
    ensures
        separated(lyrics.metadata_block(), lyrics.timed_block()).len() > 0,
        with_source_lines(
            empty_lyrics(),
            lines_of(separated(lyrics.metadata_block(), lyrics.timed_block())),
        ) == Ok::<LyricsView, Seq<char>>(
            LyricsView {
                metadata: tags_read_back(lyrics.metadata),
                timed_lines: lyrics.timed_lines,
                lines: empty_lines(
                    if lyrics.metadata.len() > 0 && lyrics.timed_lines.len() > 0 {
                        1
                    } else {
                        0
                    },
                ),
            },
        ),
{
    let tags = tags_read_back(lyrics.metadata);
    let timed = lyrics.timed_lines;
    let m = tag_lines(tags);
    lemma_tags_read_back(lyrics.metadata);
    assert(lyrics.metadata_block() == joined(m));
    let t = timed_source_lines(timed);
    let none = Seq::<char>::empty();
    let start = empty_lyrics();
    assert(tags.take(tags.len() as int) == tags);
    assert(timed.take(timed.len() as int) == timed);
    assert(m.take(m.len() as int) == m);
    assert(t.take(t.len() as int) == t);
    assert(empty_lines(0) =~= Seq::empty());
    assert(empty_lines(1) =~= seq![none]);
    if tags.len() > 0 {
        assert forall|i: int| 0 <= i < m.len() implies one_line(#[trigger] m[i]) && m[i].len()
            > 0 by {
            lemma_tag_is_one_line(tags[i]);
        }
        lemma_joined_len(m);
        lemma_lines_of_joined(m);
        lemma_reads_tags(start, tags, tags.len());
    }
    if timed.len() > 0 {
        assert forall|i: int| 0 <= i < t.len() implies one_line(#[trigger] t[i]) && t[i].len()
            > 0 by {
            lemma_timed_line_is_one_line(timed[i].0, timed[i].1);
        }
        lemma_joined_len(t);
        lemma_lines_of_joined(t);
    }
    let head = separated(lyrics.metadata_block(), lyrics.timed_block());
    if tags.len() > 0 && timed.len() > 0 {
        let tagged = LyricsView { metadata: tags, ..start };
        let gapped = LyricsView { lines: seq![none], ..tagged };
        let read = LyricsView { timed_lines: timed, ..gapped };
        lemma_lines_of_separated(joined(m), joined(t));
        assert(lines_of(head) == m + seq![none] + t);
        lemma_with_source_lines_add(start, m + seq![none], t);
        lemma_with_source_lines_add(start, m, seq![none]);
        assert(with_source_lines(start, m) == Ok::<LyricsView, Seq<char>>(tagged));
        assert(is_trimmed(none) && acceptable(none)) by {
            assert(!has_control(none));
            assert(!holds_tag(none));
        }
        assert(with_source_lines(tagged, seq![none]) == Ok::<LyricsView, Seq<char>>(gapped)) by {
            lemma_reads_plain_lines(tagged, seq![none], 1);
            assert(seq![none].take(1) == seq![none]);
            assert(tagged.lines + seq![none] == seq![none]);
        }
        assert(with_source_lines(gapped, t) == Ok::<LyricsView, Seq<char>>(read)) by {
            lemma_reads_timed_lines(gapped, timed, timed.len());
        }
        assert(with_source_lines(start, lines_of(head)) == Ok::<LyricsView, Seq<char>>(read));
    } else if tags.len() > 0 {
        let read = LyricsView { metadata: tags, ..start };
        assert(timed =~= start.timed_lines);
        assert(joined(t) == none);
        assert(head == joined(m));
        assert(with_source_lines(start, lines_of(head)) == Ok::<LyricsView, Seq<char>>(read));
    } else {
        let read = LyricsView { timed_lines: timed, ..start };
        assert(tags =~= start.metadata);
        assert(joined(m) == none);
        assert(head == joined(t));
        lemma_reads_timed_lines(start, timed, timed.len());
        assert(with_source_lines(start, lines_of(head)) == Ok::<LyricsView, Seq<char>>(read));
    }
}

/// The text of lyrics reads back as those lyrics, but for the whitespace
/// around the texts of ID tags and for empty plain lines.
///
/// This holds of valid lyrics that hold their labels, lines and times as they
/// are written: the labels and lines trimmed, the times such as read back.
/// The ID tags read back with the same labels in the same order, and with
/// their texts trimmed. The timed lines read back as they are. The plain
/// lines read back without the empty lines at their start and end, which are
/// not written, and behind an empty line for every empty line of the text:
/// one between two blocks, and one where the text is empty.
pub proof fn law_text_reads_back(lyrics: LyricsView)
    requires
        lyrics.wf(),
        tidy(lyrics),
    ensures
        parsed_lyrics(lyrics.rendered()) == Ok::<LyricsView, Seq<char>>(
            LyricsView {
                metadata: tags_read_back(lyrics.metadata),
                lines: lines_read_back(lyrics),
                ..lyrics
            },
        ),
{
    lemma_tags_read_back(lyrics.metadata);
    let none = Seq::<char>::empty();
    let start = empty_lyrics();
    let head = separated(lyrics.metadata_block(), lyrics.timed_block());
    let plain = lyrics.plain_block();
    let tail = without_empty_ends(lyrics.lines);
    let back = lines_read_back(lyrics);
    assert(is_trimmed(none) && acceptable(none)) by {
        assert(!has_control(none));
        assert(!holds_tag(none));
    }
    assert(empty_lines(0) =~= Seq::empty());
    assert(empty_lines(1) =~= seq![none]);
    assert(empty_lines(2) =~= seq![none, none]);
    lemma_plain_block(lyrics.lines);
    lemma_without_empty_ends(lyrics.lines);
    assert forall|i: int| 0 <= i < tail.len() implies is_trimmed(#[trigger] tail[i])
        && acceptable(tail[i]) && one_line(tail[i]) by {
        let middle = without_leading_empty(lyrics.lines);
        let k = lyrics.lines.len() - middle.len();
        assert(tail[i] == middle[i]);
        assert(middle[i] == lyrics.lines[k + i]);
        assert forall|j: int| 0 <= j < tail[i].len() implies #[trigger] tail[i][j] != '\n' by {
            assert(!is_control(tail[i][j]));
        }
    }
    assert(tail.take(tail.len() as int) == tail);
    if plain.len() > 0 {
        lemma_lines_of_joined(tail);
    }
    if lyrics.metadata.len() > 0 || lyrics.timed_lines.len() > 0 {
        lemma_reads_head(lyrics);
        let read = with_source_lines(start, lines_of(head))->Ok_0;
        if plain.len() > 0 {
            let gapped = LyricsView { lines: read.lines.push(none), ..read };
            lemma_lines_of_separated(head, plain);
            lemma_with_source_lines_add(start, lines_of(head) + seq![none], tail);
            lemma_with_source_lines_add(start, lines_of(head), seq![none]);
            assert(with_source_lines(read, seq![none]) == Ok::<LyricsView, Seq<char>>(gapped)) by {
                lemma_reads_plain_lines(read, seq![none], 1);
                assert(seq![none].take(1) == seq![none]);
                assert(read.lines + seq![none] == read.lines.push(none));
            }
            lemma_reads_plain_lines(gapped, tail, tail.len());
            assert(gapped.lines + tail =~= back);
        } else {
            assert(back =~= read.lines);
        }
    } else {
        assert(lyrics.metadata =~= start.metadata);
        assert(lyrics.timed_lines =~= start.timed_lines);
        assert(joined(tag_lines(lyrics.metadata)) == none);
        assert(joined(timed_source_lines(lyrics.timed_lines)) == none);
        assert(head == none);
        if plain.len() > 0 {
            lemma_reads_plain_lines(start, tail, tail.len());
            assert(start.lines + tail =~= back);
        } else {
            lemma_lines_of_one_line(none);
            lemma_reads_plain_lines(start, seq![none], 1);
            assert(seq![none].take(1) == seq![none]);
            assert(start.lines + seq![none] =~= back);
        }
    }
}

/// The metadata reads back by its labels: the text of lyrics reads as lyrics
/// whose ID tags have the same labels, and so the same keys, in the same
/// order, whatever whitespace stands around the texts of the tags. The timed
/// lines read back as they are.
pub proof fn law_metadata_reads_back_by_label(lyrics: LyricsView)
    requires
        lyrics.wf(),
        tidy(lyrics),
    ensures
        parsed_lyrics(lyrics.rendered()) is Ok,
        parsed_lyrics(lyrics.rendered())->Ok_0.metadata.len() == lyrics.metadata.len(),
        forall|i: int|
            0 <= i < lyrics.metadata.len() ==> (#[trigger] parsed_lyrics(
                lyrics.rendered(),
            )->Ok_0.metadata[i]).key() == lyrics.metadata[i].key() && parsed_lyrics(
                lyrics.rendered(),
            )->Ok_0.metadata[i].label == lyrics.metadata[i].label && parsed_lyrics(
                lyrics.rendered(),
            )->Ok_0.metadata[i].text == trimmed(lyrics.metadata[i].text),
        parsed_lyrics(lyrics.rendered())->Ok_0.timed_lines == lyrics.timed_lines,
        parsed_lyrics(lyrics.rendered())->Ok_0.lines == lines_read_back(lyrics),
{
    law_text_reads_back(lyrics);
    lemma_tags_read_back(lyrics.metadata);
    let read = parsed_lyrics(lyrics.rendered())->Ok_0;
    assert(read.metadata == tags_read_back(lyrics.metadata));
    assert forall|i: int| 0 <= i < lyrics.metadata.len() implies (#[trigger] read.metadata[i]).key()
        == lyrics.metadata[i].key() && read.metadata[i].label == lyrics.metadata[i].label
        && read.metadata[i].text == trimmed(lyrics.metadata[i].text) by {
        assert(read.metadata[i] == lyrics.metadata[i].written());
    }
}

/// The text of lyrics reads back as equal lyrics: the same metadata, the
/// same timed lines and the same plain lines.
///
/// This holds of valid lyrics that hold their texts and times as they are
/// written, the texts of their ID tags too, and their plain lines as they are
/// read: behind one empty plain line for every empty line of the text, and
/// without an empty one at the start or end of the others. Lyrics with ID
/// tags, timed lines and no plain line, for one, do not read back equal: the
/// empty line between the two blocks of their text is read as an empty plain
/// line.
pub proof fn law_text_reads_back_equal(lyrics: LyricsView)
    requires
        lyrics.wf(),
        tidy(lyrics),
        texts_trimmed(lyrics.metadata),
        lyrics.lines == lines_read_back(lyrics),
    ensures
        parsed_lyrics(lyrics.rendered()) == Ok::<LyricsView, Seq<char>>(lyrics),
{
    law_text_reads_back(lyrics);
    lemma_tags_read_back(lyrics.metadata);
}

/// What the text of lyrics reads as is written as that text again, and
/// reads back equal from then on.
pub proof fn law_reading_is_stable(lyrics: LyricsView)
    requires
        lyrics.wf(),
        tidy(lyrics),
    ensures
        parsed_lyrics(lyrics.rendered()) is Ok,
        parsed_lyrics(lyrics.rendered())->Ok_0.rendered() == lyrics.rendered(),
        parsed_lyrics(lyrics.rendered())->Ok_0.wf(),
        tidy(parsed_lyrics(lyrics.rendered())->Ok_0),
        texts_trimmed(parsed_lyrics(lyrics.rendered())->Ok_0.metadata),
        parsed_lyrics(lyrics.rendered())->Ok_0.lines == lines_read_back(
            parsed_lyrics(lyrics.rendered())->Ok_0,
        ),
        parsed_lyrics(parsed_lyrics(lyrics.rendered())->Ok_0.rendered()) == parsed_lyrics(
            lyrics.rendered(),
        ),
{
    law_text_reads_back(lyrics);
    lemma_tags_read_back(lyrics.metadata);
    let read = LyricsView {
        metadata: tags_read_back(lyrics.metadata),
        lines: lines_read_back(lyrics),
        ..lyrics
    };
    let body = without_empty_ends(lyrics.lines);
    lemma_without_empty_ends(lyrics.lines);
    lemma_plain_block(lyrics.lines);
    lemma_without_empty_ends_of(gaps(lyrics), body);
    assert forall|i: int| 0 <= i < read.lines.len() implies is_trimmed(#[trigger] read.lines[i])
        && acceptable(read.lines[i]) by {
        if i >= gaps(lyrics) {
            let middle = without_leading_empty(lyrics.lines);
            let k = lyrics.lines.len() - middle.len();
            assert(read.lines[i] == body[i - gaps(lyrics)]);
            assert(body[i - gaps(lyrics)] == middle[i - gaps(lyrics)]);
            assert(middle[i - gaps(lyrics)] == lyrics.lines[k + i - gaps(lyrics)]);
        } else {
            let none = Seq::<char>::empty();
            assert(read.lines[i] == none);
            assert(!has_control(none));
            assert(!holds_tag(none));
        }
    }
    assert(all_trimmed(read.lines));
    lemma_plain_block(read.lines);
    assert(read.metadata_block() == lyrics.metadata_block());
    assert(read.plain_block() == lyrics.plain_block());
    assert(read.rendered() == lyrics.rendered());
    assert(gaps(read) == gaps(lyrics));
    assert(read.lines == lines_read_back(read));
}

} // verus!
