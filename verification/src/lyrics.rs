//! Lyrics: metadata, timed lines in the order of their times, and plain lines
//! in the order in which they were added.
use std::rc::Rc;
use vstd::prelude::*;
use crate::error::LyricsError;
use crate::line::{acceptable, check_chars, refusal};
use crate::metadata::{all_valid, ascending, has_key, with_tag, Metadata};
use crate::tags::id_tag::{IDTag, IDTagView};
use crate::tags::time_tag::{rendered_tag, times_of, TimeTag};
use crate::text::{push_all, to_chars, to_string, trim, trimmed};

verus! {

/// What lyrics hold.
pub struct LyricsView {
    /// The ID tags, in the order of their labels.
    pub metadata: Seq<IDTagView>,
    /// The timed lines, each with its time in milliseconds, in the order of
    /// their times.
    pub timed_lines: Seq<(int, Seq<char>)>,
    /// The plain lines, in the order in which they were added.
    pub lines: Seq<Seq<char>>,
}

/// The times of the lines do not decrease.
pub open spec fn non_decreasing(timed_lines: Seq<(int, Seq<char>)>) -> bool {
    forall|i: int, j: int|
        0 <= i < j < timed_lines.len() ==> (#[trigger] timed_lines[i]).0 <= (
        #[trigger] timed_lines[j]).0
}

/// Where a line of time `time` is inserted: behind the last line whose time is
/// no later, found from the end, or at the start where there is none.
pub open spec fn insertion_index(timed_lines: Seq<(int, Seq<char>)>, time: int) -> nat
    decreases timed_lines.len(),
{
    if timed_lines.len() == 0 {
        0
    } else if timed_lines.last().0 <= time {
        timed_lines.len()
    } else {
        insertion_index(timed_lines.drop_last(), time)
    }
}

/// The timed lines once the line `text` of time `time` is inserted. Among
/// lines of one time the new one comes last.
pub open spec fn with_timed_line(timed_lines: Seq<(int, Seq<char>)>, time: int, text: Seq<char>) -> Seq<
    (int, Seq<char>),
> {
    timed_lines.insert(insertion_index(timed_lines, time) as int, (time, text))
}

/// The timed lines once the line `text` is inserted for each of `times`, one
/// after the other.
pub open spec fn with_timed_lines(
    timed_lines: Seq<(int, Seq<char>)>,
    times: Seq<int>,
    text: Seq<char>,
) -> Seq<(int, Seq<char>)>
    decreases times.len(),
{
    if times.len() == 0 {
        timed_lines
    } else {
        with_timed_line(with_timed_lines(timed_lines, times.drop_last(), text), times.last(), text)
    }
}

/// The texts of the lines of time `time`, in their order.
pub open spec fn texts_at(timed_lines: Seq<(int, Seq<char>)>, time: int) -> Seq<Seq<char>>
    decreases timed_lines.len(),
{
    if timed_lines.len() == 0 {
        Seq::empty()
    } else if timed_lines.last().0 == time {
        texts_at(timed_lines.drop_last(), time).push(timed_lines.last().1)
    } else {
        texts_at(timed_lines.drop_last(), time)
    }
}

/// The line `text` once for each of `times`, in their order.
pub open spec fn lines_at(times: Seq<int>, text: Seq<char>) -> Seq<(int, Seq<char>)> {
    times.map_values(|time: int| (time, text))
}

/// The texts `parts`, each on a line of its own.
pub open spec fn joined(parts: Seq<Seq<char>>) -> Seq<char>
    decreases parts.len(),
{
    if parts.len() == 0 {
        Seq::empty()
    } else if parts.len() == 1 {
        parts[0]
    } else {
        joined(parts.drop_last()) + seq!['\n'] + parts.last()
    }
}

/// Two blocks of text with an empty line between them. An empty block leaves
/// no trace.
pub open spec fn separated(first: Seq<char>, second: Seq<char>) -> Seq<char> {
    if first.len() == 0 {
        second
    } else if second.len() == 0 {
        first
    } else {
        first + seq!['\n', '\n'] + second
    }
}

/// A timed line as it is written: the time tag and, right behind it, the
/// text.
pub open spec fn rendered_timed_line(line: (int, Seq<char>)) -> Seq<char> {
    rendered_tag(line.0) + line.1
}

impl LyricsView {
    /// The metadata is valid and ascends, the times of the timed lines do not
    /// decrease, and every line may stand as a lyric line.
    pub open spec fn wf(self) -> bool {
        &&& ascending(self.metadata)
        &&& all_valid(self.metadata)
        &&& non_decreasing(self.timed_lines)
        &&& forall|i: int| 0 <= i < self.timed_lines.len() ==> acceptable((#[trigger] self.timed_lines[i]).1)
        &&& forall|i: int| 0 <= i < self.lines.len() ==> acceptable(#[trigger] self.lines[i])
    }

    /// The ID tags as they are written, one on each line.
    pub open spec fn metadata_block(self) -> Seq<char> {
        joined(self.metadata.map_values(|tag: IDTagView| tag.rendered()))
    }

    /// The timed lines as they are written, one on each line.
    pub open spec fn timed_block(self) -> Seq<char> {
        joined(self.timed_lines.map_values(|line: (int, Seq<char>)| rendered_timed_line(line)))
    }

    /// The plain lines, one on each line, without the whitespace around the
    /// whole.
    pub open spec fn plain_block(self) -> Seq<char> {
        trimmed(joined(self.lines))
    }

    /// The lyrics as they are written: the metadata, the timed lines and the
    /// plain lines, with an empty line between those that are not empty.
    pub open spec fn rendered(self) -> Seq<char> {
        separated(separated(self.metadata_block(), self.timed_block()), self.plain_block())
    }

    /// The lyrics with one more plain line.
    pub open spec fn with_line(self, text: Seq<char>) -> LyricsView {
        LyricsView { lines: self.lines.push(text), ..self }
    }

    /// The lyrics with the line `text` inserted for each of `times`, or as a
    /// plain line where there is no time.
    pub open spec fn with_lines(self, times: Seq<int>, text: Seq<char>) -> LyricsView {
        if times.len() == 0 {
            self.with_line(text)
        } else {
            LyricsView { timed_lines: with_timed_lines(self.timed_lines, times, text), ..self }
        }
    }
}

/// Lyrics: ID tags, timed lines and plain lines.
#[derive(Debug, Clone)]
pub struct Lyrics {
    /// The ID tags of the lyrics.
    pub metadata: Metadata,
    timed_lines: Vec<(TimeTag, Rc<String>)>,
    lines: Vec<String>,
}

impl View for Lyrics {
    type V = LyricsView;

    closed spec fn view(&self) -> LyricsView {
        LyricsView {
            metadata: self.metadata@,
            timed_lines: self.timed_lines@.map_values(|line: (TimeTag, Rc<String>)| (line.0@, line.1@)),
            lines: self.lines@.map_values(|line: String| line@),
        }
    }
}

impl Default for Lyrics {
    /// Lyrics without any tag or line.
    fn default() -> (r: Lyrics)
        ensures
            r.wf(),
            r@ == (LyricsView {
                metadata: Seq::empty(),
                timed_lines: Seq::empty(),
                lines: Seq::empty(),
            }),
    {
        Lyrics::new()
    }
}

impl Lyrics {
    /// The lyrics are valid: so is their metadata, the times of the timed lines
    /// do not decrease, and every line may stand as a lyric line.
    pub closed spec fn wf(&self) -> bool {
        self.metadata.wf() && self@.wf()
    }

    /// What valid lyrics hold is valid.
    pub proof fn lemma_wf(&self)
        requires
            self.wf(),
        ensures
            self@.wf(),
    {
    }

    /// Lyrics without any tag or line.
    pub fn new() -> (r: Lyrics)
        ensures
            r.wf(),
            r@ == (LyricsView {
                metadata: Seq::empty(),
                timed_lines: Seq::empty(),
                lines: Seq::empty(),
            }),
    {
        let r = Lyrics { metadata: Metadata::new(), timed_lines: Vec::new(), lines: Vec::new() };
        assert(r@.timed_lines =~= Seq::empty());
        assert(r@.lines =~= Seq::empty());
        r
    }

    /// Inserts `tag` into the metadata unless a tag with its label is there
    /// already. Returns whether it was inserted.
    pub fn insert_tag(&mut self, tag: IDTag) -> (r: bool)
        requires
            old(self).wf(),
            tag.wf(),
        ensures
            final(self).wf(),
            final(self)@ == (LyricsView {
                metadata: with_tag(old(self)@.metadata, tag@),
                ..old(self)@
            }),
            r == !has_key(old(self)@.metadata, tag@.key()),
    {
        let r = self.metadata.insert(tag);
        proof {
            self.metadata.lemma_wf();
        }
        r
    }

    /// Adds a plain line behind the others, unless it is refused as a lyric
    /// line; then nothing changes.
    pub fn add_line(&mut self, line: &str) -> (r: Result<(), LyricsError>)
        requires
            old(self).wf(),
        ensures
            final(self).wf(),
            match r {
                Ok(_) => refusal(line@) is None && final(self)@ == old(self)@.with_line(line@),
                Err(LyricsError::FormatError(message)) => refusal(line@) == Some(message@)
                    && *final(self) == *old(self),
                Err(_) => false,
            },
    {
        let chars = to_chars(line);
        match check_chars(chars.as_slice()) {
            Ok(_) => {},
            Err(e) => {
                return Err(e);
            },
        }
        self.lines.push(String::from_str(line));
        assert(self@.lines =~= old(self)@.lines.push(line@));
        Ok(())
    }

    /// Adds the line `line` at the time of `time_tag`, behind the lines that
    /// are no later, unless it is refused as a lyric line; then nothing
    /// changes.
    pub fn add_timed_line(&mut self, time_tag: TimeTag, line: &str) -> (r: Result<(), LyricsError>)
        requires
            old(self).wf(),
        ensures
            final(self).wf(),
            match r {
                Ok(_) => refusal(line@) is None && final(self)@ == (LyricsView {
                    timed_lines: with_timed_line(old(self)@.timed_lines, time_tag@, line@),
                    ..old(self)@
                }),
                Err(LyricsError::FormatError(message)) => refusal(line@) == Some(message@)
                    && *final(self) == *old(self),
                Err(_) => false,
            },
    {
        let chars = to_chars(line);
        match check_chars(chars.as_slice()) {
            Ok(_) => {},
            Err(e) => {
                return Err(e);
            },
        }
        self.add_timed_line_unchecked(time_tag, Rc::new(String::from_str(line)));
        Ok(())
    }

    /// Adds the line `line` once for each of `time_tags`, all sharing one text,
    /// or as a plain line where there is no time tag, unless it is refused as
    /// a lyric line; then nothing changes.
    pub fn add_line_with_multiple_time_tags(&mut self, time_tags: &[TimeTag], line: &str) -> (r:
        Result<(), LyricsError>)
        requires
            old(self).wf(),
        ensures
            final(self).wf(),
            match r {
                Ok(_) => refusal(line@) is None && final(self)@ == old(self)@.with_lines(
                    times_of(time_tags@),
                    line@,
                ),
                Err(LyricsError::FormatError(message)) => refusal(line@) == Some(message@)
                    && *final(self) == *old(self),
                Err(_) => false,
            },
    {
        let chars = to_chars(line);
        self.add_chars_with_time_tags(time_tags, chars.as_slice())
    }

    /// Adds the line of the characters `line` once for each of `time_tags`, or
    /// as a plain line where there is no time tag, unless it is refused as a
    /// lyric line; then nothing changes.
    pub(crate) fn add_chars_with_time_tags(&mut self, time_tags: &[TimeTag], line: &[char]) -> (r: Result<
        (),
        LyricsError,
    >)
        requires
            old(self).wf(),
        ensures
            final(self).wf(),
            match r {
                Ok(_) => refusal(line@) is None && final(self)@ == old(self)@.with_lines(
                    times_of(time_tags@),
                    line@,
                ),
                Err(LyricsError::FormatError(message)) => refusal(line@) == Some(message@)
                    && *final(self) == *old(self),
                Err(_) => false,
            },
    {
        match check_chars(line) {
            Ok(_) => {},
            Err(e) => {
                return Err(e);
            },
        }
        let ghost times = times_of(time_tags@);
        let len = time_tags.len();
        if len == 0 {
            self.lines.push(to_string(line));
            assert(self@.lines =~= old(self)@.lines.push(line@));
        } else {
            let shared = Rc::new(to_string(line));
            let mut i: usize = 0;
            while i < len
                invariant
                    i <= len,
                    len == time_tags.len(),
                    times == times_of(time_tags@),
                    self.wf(),
                    shared@ == line@,
                    acceptable(line@),
                    self@ == (LyricsView {
                        timed_lines: with_timed_lines(
                            old(self)@.timed_lines,
                            times.take(i as int),
                            line@,
                        ),
                        ..old(self)@
                    }),
                decreases len - i,
            {
                assert(times.take(i as int + 1).drop_last() == times.take(i as int));
                assert(times.take(i as int + 1).last() == time_tags[i as int]@);
                self.add_timed_line_unchecked(time_tags[i], shared.clone());
                i += 1;
            }
            assert(times.take(len as int) == times);
        }
        Ok(())
    }

    /// Inserts a line that the caller has checked.
    fn add_timed_line_unchecked(&mut self, time_tag: TimeTag, line: Rc<String>)
        requires
            old(self).wf(),
            acceptable(line@),
        ensures
            final(self).wf(),
            final(self)@ == (LyricsView {
                timed_lines: with_timed_line(old(self)@.timed_lines, time_tag@, line@),
                ..old(self)@
            }),
    {
        let ghost before = self@.timed_lines;
        let time = time_tag.get_timestamp();
        let mut insert_index: usize = self.timed_lines.len();
        assert(before.take(before.len() as int) == before);
        while insert_index > 0 && self.timed_lines[insert_index - 1].0.get_timestamp() > time
            invariant
                insert_index <= self.timed_lines.len(),
                *self == *old(self),
                before == self@.timed_lines,
                time == time_tag@,
                insertion_index(before, time as int) == insertion_index(
                    before.take(insert_index as int),
                    time as int,
                ),
            decreases insert_index,
        {
            assert(before.take(insert_index as int).drop_last() == before.take(
                insert_index as int - 1,
            ));
            insert_index -= 1;
        }
        assert(insertion_index(before, time as int) == insert_index);
        self.timed_lines.insert(insert_index, (time_tag, line));
        proof {
            assert(self@.timed_lines =~= with_timed_line(before, time_tag@, line@));
            lemma_with_timed_line(before, time_tag@, line@);
            let after = self@.timed_lines;
            assert forall|i: int| 0 <= i < after.len() implies acceptable((#[trigger] after[i]).1) by {
                if i < insert_index {
                    assert(after[i] == before[i]);
                } else if i > insert_index {
                    assert(after[i] == before[i - 1]);
                }
            }
        }
    }

    /// The ID tags, in the order of their labels.
    pub fn get_metadata(&self) -> (r: &Metadata)
        ensures
            r@ == self@.metadata,
            self.wf() ==> r.wf(),
    {
        &self.metadata
    }

    /// The plain lines, in the order in which they were added.
    pub fn get_lines(&self) -> (r: &[String])
        ensures
            r@.map_values(|line: String| line@) == self@.lines,
    {
        self.lines.as_slice()
    }

    /// The timed lines, in the order of their times.
    pub fn get_timed_lines(&self) -> (r: &[(TimeTag, Rc<String>)])
        ensures
            r@.map_values(|line: (TimeTag, Rc<String>)| (line.0@, line.1@)) == self@.timed_lines,
    {
        self.timed_lines.as_slice()
    }

    /// Removes the plain line at `index` and returns it.
    pub fn remove_line(&mut self, index: usize) -> (r: String)
        requires
            old(self).wf(),
            index < old(self)@.lines.len(),
        ensures
            final(self).wf(),
            r@ == old(self)@.lines[index as int],
            final(self)@ == (LyricsView {
                lines: old(self)@.lines.remove(index as int),
                ..old(self)@
            }),
    {
        let r = self.lines.remove(index);
        proof {
            let before = old(self)@.lines;
            let after = self@.lines;
            assert(after =~= before.remove(index as int));
            assert forall|i: int| 0 <= i < after.len() implies acceptable(#[trigger] after[i]) by {
                if i < index {
                    assert(after[i] == before[i]);
                } else {
                    assert(after[i] == before[i + 1]);
                }
            }
        }
        r
    }

    /// Removes the timed line at `index` and returns it.
    pub fn remove_timed_line(&mut self, index: usize) -> (r: (TimeTag, Rc<String>))
        requires
            old(self).wf(),
            index < old(self)@.timed_lines.len(),
        ensures
            final(self).wf(),
            (r.0@, r.1@) == old(self)@.timed_lines[index as int],
            final(self)@ == (LyricsView {
                timed_lines: old(self)@.timed_lines.remove(index as int),
                ..old(self)@
            }),
    {
        let r = self.timed_lines.remove(index);
        proof {
            let before = old(self)@.timed_lines;
            let after = self@.timed_lines;
            assert(after =~= before.remove(index as int));
            assert forall|i: int| 0 <= i < after.len() implies acceptable((#[trigger] after[i]).1) by {
                if i < index {
                    assert(after[i] == before[i]);
                } else {
                    assert(after[i] == before[i + 1]);
                }
            }
            assert forall|i: int, j: int| 0 <= i < j < after.len() implies (#[trigger] after[i]).0
                <= (#[trigger] after[j]).0 by {
                let a = if i < index { i } else { i + 1 };
                let b = if j < index { j } else { j + 1 };
                assert(after[i] == before[a] && after[j] == before[b]);
            }
        }
        r
    }

    /// The lyrics as they are written: the ID tags in the order of their
    /// labels, the timed lines in the order of their times and the plain lines
    /// in the order in which they were added, one on each line, with an empty
    /// line between the three blocks that are not empty.
    pub fn to_string(&self) -> (r: String)
        ensures
            r@ == self@.rendered(),
    {
        let ghost tags = self@.metadata.map_values(|tag: IDTagView| tag.rendered());
        let mut metadata: Vec<char> = Vec::new();
        let mut i: usize = 0;
        while i < self.metadata.len()
            invariant
                i <= self.metadata@.len(),
                tags == self@.metadata.map_values(|tag: IDTagView| tag.rendered()),
                self@.metadata == self.metadata@,
                metadata@ == joined(tags.take(i as int)),
            decreases self.metadata@.len() - i,
        {
            proof {
                lemma_joined_push(tags.take(i as int), tags[i as int]);
                assert(tags.take(i as int + 1) == tags.take(i as int).push(tags[i as int]));
            }
            if i > 0 {
                metadata.push('\n');
            }
            self.metadata.get(i).write(&mut metadata);
            i += 1;
        }
        assert(tags.take(tags.len() as int) == tags);

        let ghost timed = self@.timed_lines.map_values(
            |line: (int, Seq<char>)| rendered_timed_line(line),
        );
        let mut timed_lines: Vec<char> = Vec::new();
        let mut i: usize = 0;
        while i < self.timed_lines.len()
            invariant
                i <= self.timed_lines.len(),
                timed == self@.timed_lines.map_values(
                    |line: (int, Seq<char>)| rendered_timed_line(line),
                ),
                timed_lines@ == joined(timed.take(i as int)),
            decreases self.timed_lines.len() - i,
        {
            proof {
                lemma_joined_push(timed.take(i as int), timed[i as int]);
                assert(timed.take(i as int + 1) == timed.take(i as int).push(timed[i as int]));
            }
            if i > 0 {
                timed_lines.push('\n');
            }
            self.timed_lines[i].0.write(&mut timed_lines);
            let text = to_chars(self.timed_lines[i].1.as_str());
            push_all(&mut timed_lines, text.as_slice());
            i += 1;
        }
        assert(timed.take(timed.len() as int) == timed);

        let ghost plain = self@.lines;
        let mut lines: Vec<char> = Vec::new();
        let mut i: usize = 0;
        while i < self.lines.len()
            invariant
                i <= self.lines.len(),
                plain == self@.lines,
                lines@ == joined(plain.take(i as int)),
            decreases self.lines.len() - i,
        {
            proof {
                lemma_joined_push(plain.take(i as int), plain[i as int]);
                assert(plain.take(i as int + 1) == plain.take(i as int).push(plain[i as int]));
            }
            if i > 0 {
                lines.push('\n');
            }
            let text = to_chars(self.lines[i].as_str());
            push_all(&mut lines, text.as_slice());
            i += 1;
        }
        assert(plain.take(plain.len() as int) == plain);

        let mut buffer: Vec<char> = Vec::new();
        push_all(&mut buffer, metadata.as_slice());
        push_block(&mut buffer, timed_lines.as_slice());
        push_block(&mut buffer, trim(lines.as_slice()));
        to_string(buffer.as_slice())
    }

    /// The index of the last timed line whose time is no later than that of
    /// `timestamp`, or `None` where every line is later.
    pub fn find_timed_line_index(&self, timestamp: TimeTag) -> (r: Option<usize>)
        ensures
            match r {
                Some(index) => index < self@.timed_lines.len() && self@.timed_lines[index as int].0
                    <= timestamp@ && forall|i: int|
                    index < i < self@.timed_lines.len() ==> (#[trigger] self@.timed_lines[i]).0
                        > timestamp@,
                None => forall|i: int|
                    0 <= i < self@.timed_lines.len() ==> (#[trigger] self@.timed_lines[i]).0
                        > timestamp@,
            },
    {
        let ghost lines = self@.timed_lines;
        let time = timestamp.get_timestamp();
        let mut i: usize = self.timed_lines.len();
        while i > 0
            invariant
                i <= self.timed_lines.len(),
                lines == self@.timed_lines,
                time == timestamp@,
                forall|j: int| i <= j < lines.len() ==> (#[trigger] lines[j]).0 > time,
            decreases i,
        {
            i -= 1;
            if time >= self.timed_lines[i].0.get_timestamp() {
                return Some(i);
            }
        }
        None
    }
}

/// Appends `block` to `buffer`, behind an empty line where neither is empty.
fn push_block(buffer: &mut Vec<char>, block: &[char])
    ensures
        final(buffer)@ == separated(old(buffer)@, block@),
{
    if block.len() > 0 {
        if buffer.len() > 0 {
            buffer.push('\n');
            buffer.push('\n');
        }
        push_all(buffer, block);
    }
}

/// One more text goes on a line of its own behind the others.
pub proof fn lemma_joined_push(parts: Seq<Seq<char>>, part: Seq<char>)
    ensures
        joined(parts.push(part)) == if parts.len() == 0 {
            part
        } else {
            joined(parts) + seq!['\n'] + part
        },
{
    assert(parts.push(part).drop_last() == parts);
}

/// The position behind the last line whose time is no later than `time` is
/// the insertion index, and the lines before it are no later, those from it on
/// later, where the times do not decrease.
pub proof fn lemma_insertion_index(timed_lines: Seq<(int, Seq<char>)>, time: int)
    ensures
        insertion_index(timed_lines, time) <= timed_lines.len(),
        forall|i: int|
            insertion_index(timed_lines, time) <= i < timed_lines.len() ==> (
            #[trigger] timed_lines[i]).0 > time,
        insertion_index(timed_lines, time) > 0 ==> timed_lines[insertion_index(timed_lines, time)
            - 1].0 <= time,
        non_decreasing(timed_lines) ==> forall|i: int|
            0 <= i < insertion_index(timed_lines, time) ==> (#[trigger] timed_lines[i]).0 <= time,
    decreases timed_lines.len(),
{
    if timed_lines.len() > 0 && timed_lines.last().0 > time {
        let front = timed_lines.drop_last();
        lemma_insertion_index(front, time);
        let at = insertion_index(front, time) as int;
        assert forall|i: int| at <= i < timed_lines.len() implies (#[trigger] timed_lines[i]).0
            > time by {
            if i < front.len() {
                assert(front[i] == timed_lines[i]);
            }
        }
        if at > 0 {
            assert(front[at - 1] == timed_lines[at - 1]);
        }
        if non_decreasing(timed_lines) {
            assert forall|i: int| 0 <= i < at implies (#[trigger] timed_lines[i]).0 <= time by {
                assert(timed_lines[i].0 <= timed_lines[at - 1].0);
            }
        }
    } else if timed_lines.len() > 0 {
        if non_decreasing(timed_lines) {
            assert forall|i: int| 0 <= i < timed_lines.len() implies (#[trigger] timed_lines[i]).0
                <= time by {
                if i < timed_lines.len() - 1 {
                    assert(timed_lines[i].0 <= timed_lines[timed_lines.len() - 1].0);
                }
            }
        }
    }
}

/// Inserting a line keeps the times from decreasing.
pub proof fn lemma_with_timed_line(timed_lines: Seq<(int, Seq<char>)>, time: int, text: Seq<char>)
    requires
        non_decreasing(timed_lines),
    ensures
        non_decreasing(with_timed_line(timed_lines, time, text)),
        with_timed_line(timed_lines, time, text).len() == timed_lines.len() + 1,
{
    lemma_insertion_index(timed_lines, time);
    let at = insertion_index(timed_lines, time) as int;
    let after = with_timed_line(timed_lines, time, text);
    assert forall|i: int, j: int| 0 <= i < j < after.len() implies (#[trigger] after[i]).0 <= (
    #[trigger] after[j]).0 by {
        if j < at {
            assert(after[i] == timed_lines[i] && after[j] == timed_lines[j]);
        } else if j == at {
            assert(after[i] == timed_lines[i]);
        } else if i == at {
            assert(after[j] == timed_lines[j - 1]);
        } else if i < at {
            assert(after[i] == timed_lines[i] && after[j] == timed_lines[j - 1]);
        } else {
            assert(after[i] == timed_lines[i - 1] && after[j] == timed_lines[j - 1]);
        }
    }
}

/// A line that is later than no line before it comes last.
pub proof fn lemma_latest_comes_last(timed_lines: Seq<(int, Seq<char>)>, time: int, text: Seq<char>)
    requires
        timed_lines.len() > 0 ==> timed_lines.last().0 <= time,
    ensures
        with_timed_line(timed_lines, time, text) == timed_lines.push((time, text)),
{
    assert(timed_lines.insert(timed_lines.len() as int, (time, text)) =~= timed_lines.push(
        (time, text),
    ));
}

/// However many lines are inserted, and for whatever times, the times of the
/// timed lines do not decrease.
pub proof fn law_timed_lines_stay_ordered(
    timed_lines: Seq<(int, Seq<char>)>,
    times: Seq<int>,
    text: Seq<char>,
)
    requires
        non_decreasing(timed_lines),
    ensures
        non_decreasing(with_timed_lines(timed_lines, times, text)),
        with_timed_lines(timed_lines, times, text).len() == timed_lines.len() + times.len(),
    decreases times.len(),
{
    if times.len() > 0 {
        law_timed_lines_stay_ordered(timed_lines, times.drop_last(), text);
        lemma_with_timed_line(
            with_timed_lines(timed_lines, times.drop_last(), text),
            times.last(),
            text,
        );
    }
}

/// The texts at a time in lines and more lines are those in the first and
/// then those in the second.
pub proof fn lemma_texts_at_add(
    first: Seq<(int, Seq<char>)>,
    second: Seq<(int, Seq<char>)>,
    time: int,
)
    ensures
        texts_at(first + second, time) == texts_at(first, time) + texts_at(second, time),
    decreases second.len(),
{
    if second.len() == 0 {
        assert(first + second == first);
        assert(texts_at(first, time) + texts_at(second, time) == texts_at(first, time));
    } else {
        let all = first + second;
        assert(all.drop_last() == first + second.drop_last());
        assert(all.last() == second.last());
        lemma_texts_at_add(first, second.drop_last(), time);
        if second.last().0 == time {
            assert((texts_at(first, time) + texts_at(second.drop_last(), time)).push(
                second.last().1,
            ) == texts_at(first, time) + texts_at(second.drop_last(), time).push(
                second.last().1,
            ));
        }
    }
}

/// No text is at a time that no line has.
pub proof fn lemma_texts_at_none(timed_lines: Seq<(int, Seq<char>)>, time: int)
    requires
        forall|i: int| 0 <= i < timed_lines.len() ==> (#[trigger] timed_lines[i]).0 != time,
    ensures
        texts_at(timed_lines, time).len() == 0,
    decreases timed_lines.len(),
{
    if timed_lines.len() > 0 {
        let front = timed_lines.drop_last();
        assert forall|i: int| 0 <= i < front.len() implies (#[trigger] front[i]).0 != time by {
            assert(front[i] == timed_lines[i]);
        }
        lemma_texts_at_none(front, time);
        assert(timed_lines[timed_lines.len() - 1].0 != time);
    }
}

/// An inserted line comes behind the lines of its own time, and leaves the
/// lines of every time in their order.
pub proof fn lemma_with_timed_line_keeps_order(
    timed_lines: Seq<(int, Seq<char>)>,
    time: int,
    text: Seq<char>,
    at: int,
)
    ensures
        texts_at(with_timed_line(timed_lines, time, text), at) == if at == time {
            texts_at(timed_lines, at).push(text)
        } else {
            texts_at(timed_lines, at)
        },
{
    lemma_insertion_index(timed_lines, time);
    let index = insertion_index(timed_lines, time) as int;
    let before = timed_lines.take(index);
    let behind = timed_lines.skip(index);
    let line = seq![(time, text)];
    assert(timed_lines == before + behind);
    assert(with_timed_line(timed_lines, time, text) =~= before + line + behind);
    lemma_texts_at_add(before, behind, at);
    lemma_texts_at_add(before + line, behind, at);
    lemma_texts_at_add(before, line, at);
    assert(line.drop_last() == Seq::<(int, Seq<char>)>::empty());
    assert(texts_at(line, at) == if at == time {
        seq![text]
    } else {
        Seq::<Seq<char>>::empty()
    }) by {
        assert(texts_at(line.drop_last(), at) == Seq::<Seq<char>>::empty());
        assert(line.last() == (time, text));
        if at == time {
            assert(Seq::<Seq<char>>::empty().push(text) == seq![text]);
        }
    }
    if at == time {
        assert forall|i: int| 0 <= i < behind.len() implies (#[trigger] behind[i]).0 != at by {
            assert(behind[i] == timed_lines[index + i]);
        }
        lemma_texts_at_none(behind, at);
        assert(texts_at(behind, at) == Seq::<Seq<char>>::empty());
        assert(texts_at(before, at) + seq![text] + Seq::<Seq<char>>::empty() == texts_at(
            before,
            at,
        ).push(text));
        assert(texts_at(before, at) + Seq::<Seq<char>>::empty() == texts_at(before, at));
    } else {
        assert(texts_at(before, at) + Seq::<Seq<char>>::empty() == texts_at(before, at));
    }
}

/// Lines inserted one after the other come, each at its time, behind the
/// lines that were there and in the order in which they were inserted.
pub proof fn law_inserted_lines_keep_their_order(
    timed_lines: Seq<(int, Seq<char>)>,
    times: Seq<int>,
    text: Seq<char>,
    at: int,
)
    ensures
        texts_at(with_timed_lines(timed_lines, times, text), at) == texts_at(timed_lines, at)
            + texts_at(lines_at(times, text), at),
        with_timed_lines(timed_lines, times, text).len() == timed_lines.len() + times.len(),
    decreases times.len(),
{
    let added = lines_at(times, text);
    if times.len() == 0 {
        assert(texts_at(timed_lines, at) + texts_at(added, at) == texts_at(timed_lines, at));
    } else {
        let front = times.drop_last();
        let before = with_timed_lines(timed_lines, front, text);
        law_inserted_lines_keep_their_order(timed_lines, front, text, at);
        lemma_with_timed_line_keeps_order(before, times.last(), text, at);
        lemma_insertion_index(before, times.last());
        assert(with_timed_line(before, times.last(), text).len() == before.len() + 1);
        assert(added.drop_last() == lines_at(front, text));
        assert(added.last() == (times.last(), text));
        if times.last() == at {
            assert((texts_at(timed_lines, at) + texts_at(lines_at(front, text), at)).push(text)
                == texts_at(timed_lines, at) + texts_at(lines_at(front, text), at).push(text));
        }
    }
}

} // verus!
