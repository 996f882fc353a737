//! ID tags: the metadata of lyrics.
use std::cmp::Ordering;
use vstd::prelude::*;
use unicase::UniCase;
use crate::error::{IDTagErrorKind, LyricsError};
use crate::text::{
    comes_before, is_label_char, is_text_char, precedes, push_all, same_chars, to_chars, to_string,
    trim, trimmed,
};

verus! {

/// A tag in the format `[label: text]`. Its label identifies it, whatever the
/// case of its letters.
#[derive(Debug, Clone)]
pub struct IDTag {
    label: String,
    text: String,
    key: Vec<char>,
}

/// What an ID tag holds.
pub struct IDTagView {
    pub label: Seq<char>,
    pub text: Seq<char>,
}

/// The case folding of a label: the text that `UniCase::to_folded_case`
/// returns for it. Two labels name the same tag where their foldings are
/// equal, and tags are ordered by the foldings of their labels.
pub uninterp spec fn case_folded(label: Seq<char>) -> Seq<char>;

/// A label as a tag shows it: not empty, and without control characters,
/// square brackets and colons.
pub open spec fn valid_label(label: Seq<char>) -> bool {
    label.len() > 0 && forall|i: int| 0 <= i < label.len() ==> is_label_char(#[trigger] label[i])
}

/// The text of a tag: without control characters and square brackets.
pub open spec fn valid_text(text: Seq<char>) -> bool {
    forall|i: int| 0 <= i < text.len() ==> is_text_char(#[trigger] text[i])
}

impl IDTagView {
    /// The label is valid once the whitespace around it is dropped, and the
    /// text is valid as it stands.
    pub open spec fn wf(self) -> bool {
        valid_label(trimmed(self.label)) && valid_text(self.text)
    }

    /// What identifies and orders the tag: the case folding of its label.
    pub open spec fn key(self) -> Seq<char> {
        case_folded(self.label)
    }

    /// The tag as its text shows it: the label and the text without the
    /// whitespace around them.
    pub open spec fn written(self) -> IDTagView {
        IDTagView { label: trimmed(self.label), text: trimmed(self.text) }
    }

    /// The tag as it is written: `[label: text]`, both without the whitespace
    /// around them.
    pub open spec fn rendered(self) -> Seq<char> {
        seq!['['] + trimmed(self.label) + seq![':', ' '] + trimmed(self.text) + seq![']']
    }
}

impl View for IDTag {
    type V = IDTagView;

    closed spec fn view(&self) -> IDTagView {
        IDTagView { label: self.label@, text: self.text@ }
    }
}

impl IDTag {
    /// The key that the tag holds to be compared by.
    pub closed spec fn held_key(&self) -> Seq<char> {
        self.key@
    }

    /// The tag is valid, and it holds the case folding of its label.
    pub closed spec fn wf(&self) -> bool {
        self@.wf() && self.key@ == self@.key()
    }

    /// A valid tag holds a valid label and text, and it is compared by the
    /// case folding of its label.
    pub proof fn lemma_wf(&self)
        requires
            self.wf(),
        ensures
            self@.wf(),
            self.held_key() == self@.key(),
    {
    }

    /// The tag with the given label and text.
    ///
    /// The label is refused where, without the whitespace around it, it is
    /// empty or holds a control character, a square bracket or a colon. The
    /// text is refused where it holds a control character or a square
    /// bracket.
    pub fn from_string(label: &str, text: &str) -> (r: Result<IDTag, LyricsError>)
        ensures
            match r {
                Ok(tag) => valid_label(trimmed(label@)) && valid_text(text@) && tag.wf() && tag@
                    == (IDTagView { label: label@, text: text@ }),
                Err(LyricsError::IDTagError(IDTagErrorKind::Label)) => !valid_label(
                    trimmed(label@),
                ),
                Err(LyricsError::IDTagError(IDTagErrorKind::Text)) => valid_label(trimmed(label@))
                    && !valid_text(text@),
                Err(_) => false,
            },
    {
        let label_chars = to_chars(label);
        if !check_label(trim(label_chars.as_slice())) {
            return Err(LyricsError::IDTagError(IDTagErrorKind::Label));
        }
        let text_chars = to_chars(text);
        if !check_text(text_chars.as_slice()) {
            return Err(LyricsError::IDTagError(IDTagErrorKind::Text));
        }
        Ok(IDTag::from_string_unchecked(label, text))
    }

    /// The tag with the given label and text, which the caller has checked.
    pub fn from_string_unchecked(label: &str, text: &str) -> (tag: IDTag)
        requires
            valid_label(trimmed(label@)),
            valid_text(text@),
        ensures
            tag.wf(),
            tag@ == (IDTagView { label: label@, text: text@ }),
    {
        let folded = fold_case(label);
        IDTag {
            label: String::from_str(label),
            text: String::from_str(text),
            key: to_chars(folded.as_str()),
        }
    }

    /// The tag with the label and the text of the given characters, which the
    /// caller has checked.
    pub(crate) fn from_chars_unchecked(label: &[char], text: &[char]) -> (tag: IDTag)
        requires
            valid_label(trimmed(label@)),
            valid_text(text@),
        ensures
            tag.wf(),
            tag@ == (IDTagView { label: label@, text: text@ }),
    {
        let label = to_string(label);
        let folded = fold_case(label.as_str());
        IDTag { label, text: to_string(text), key: to_chars(folded.as_str()) }
    }

    /// Whether the label of `self` comes before that of `other`, whatever the
    /// case of their letters.
    pub fn comes_before(&self, other: &IDTag) -> (r: bool)
        requires
            self.wf(),
            other.wf(),
        ensures
            r == precedes(self@.key(), other@.key()),
    {
        comes_before(self.key.as_slice(), other.key.as_slice())
    }

    /// Whether `self` and `other` have the same label, whatever the case of
    /// its letters.
    pub fn same_label(&self, other: &IDTag) -> (r: bool)
        requires
            self.wf(),
            other.wf(),
        ensures
            r == (self@.key() == other@.key()),
    {
        same_chars(self.key.as_slice(), other.key.as_slice())
    }

    /// Appends the tag as it is written to `buffer`.
    pub fn write(&self, buffer: &mut Vec<char>)
        ensures
            final(buffer)@ == old(buffer)@ + self@.rendered(),
    {
        let label = to_chars(self.label.as_str());
        let text = to_chars(self.text.as_str());
        buffer.push('[');
        push_all(buffer, trim(label.as_slice()));
        buffer.push(':');
        buffer.push(' ');
        push_all(buffer, trim(text.as_slice()));
        buffer.push(']');
        assert(buffer@ == old(buffer)@ + self@.rendered());
    }

    /// The tag as it is written: `[label: text]`.
    pub fn to_string(&self) -> (r: String)
        ensures
            r@ == self@.rendered(),
    {
        let mut buffer: Vec<char> = Vec::new();
        self.write(&mut buffer);
        to_string(buffer.as_slice())
    }
}

impl PartialEq for IDTag {
    /// Two tags are equal where they have the same label, whatever the case
    /// of its letters and whatever their texts.
    fn eq(&self, other: &IDTag) -> (r: bool) {
        same_chars(self.key.as_slice(), other.key.as_slice())
    }
}

impl Eq for IDTag {

}

impl vstd::std_specs::cmp::PartialEqSpecImpl for IDTag {
    open spec fn obeys_eq_spec() -> bool {
        true
    }

    open spec fn eq_spec(&self, other: &IDTag) -> bool {
        self.held_key() == other.held_key()
    }
}

impl PartialOrd for IDTag {
    /// Tags are ordered by their labels, whatever the case of their letters.
    fn partial_cmp(&self, other: &IDTag) -> (r: Option<Ordering>) {
        if comes_before(self.key.as_slice(), other.key.as_slice()) {
            Some(Ordering::Less)
        } else if comes_before(other.key.as_slice(), self.key.as_slice()) {
            Some(Ordering::Greater)
        } else {
            Some(Ordering::Equal)
        }
    }
}

impl vstd::std_specs::cmp::PartialOrdSpecImpl for IDTag {
    open spec fn obeys_partial_cmp_spec() -> bool {
        true
    }

    open spec fn partial_cmp_spec(&self, other: &IDTag) -> Option<Ordering> {
        if precedes(self.held_key(), other.held_key()) {
            Some(Ordering::Less)
        } else if precedes(other.held_key(), self.held_key()) {
            Some(Ordering::Greater)
        } else {
            Some(Ordering::Equal)
        }
    }
}

/// Whether every character of `label` may stand in a label, and there is one.
pub fn check_label(label: &[char]) -> (r: bool)
    ensures
        r == valid_label(label@),
{
    if label.len() == 0 {
        return false;
    }
    let mut i: usize = 0;
    while i < label.len()
        invariant
            i <= label.len(),
            forall|j: int| 0 <= j < i ==> is_label_char(#[trigger] label@[j]),
        decreases label.len() - i,
    {
        if !is_label_char(label[i]) {
            return false;
        }
        i += 1;
    }
    true
}

/// Whether every character of `text` may stand in the text of a tag.
pub fn check_text(text: &[char]) -> (r: bool)
    ensures
        r == valid_text(text@),
{
    let mut i: usize = 0;
    while i < text.len()
        invariant
            i <= text.len(),
            forall|j: int| 0 <= j < i ==> is_text_char(#[trigger] text@[j]),
        decreases text.len() - i,
    {
        if !is_text_char(text[i]) {
            return false;
        }
        i += 1;
    }
    true
}

/// Calls `UniCase::new(label).to_folded_case()`, which maps every character
/// of the label to its Unicode case folding. The result depends on the label
/// alone; the contract gives it the name `case_folded` and claims nothing else
/// of it.
#[verifier::external_body]
fn fold_case(label: &str) -> (r: String)
    ensures
        r@ == case_folded(label@),
{
    UniCase::new(label).to_folded_case()
}

} // verus!
