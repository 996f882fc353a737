//! Character classes, whitespace trimming and conversions between strings and
//! character sequences.
//!
//! Every rule of the format is stated over `Seq<char>`; the executable
//! functions work on `&[char]` slices and are proved against those statements.
use vstd::prelude::*;

verus! {

/// The control characters that no label, text or lyric line may hold:
/// U+0000 to U+0008, U+000A to U+001F and U+007F. The tab, U+0009, is allowed.
pub open spec fn spec_is_control(c: char) -> bool {
    c <= '\u{8}' || ('\u{A}' <= c && c <= '\u{1F}') || c == '\u{7F}'
}

/// Whether `c` is a forbidden control character.
#[verifier::when_used_as_spec(spec_is_control)]
pub fn is_control(c: char) -> (b: bool)
    ensures
        b == spec_is_control(c),
{
    c <= '\u{8}' || ('\u{A}' <= c && c <= '\u{1F}') || c == '\u{7F}'
}

/// The characters with the Unicode property `White_Space`.
pub open spec fn spec_is_white_space(c: char) -> bool {
    ||| ('\u{9}' <= c && c <= '\u{D}')
    ||| c == ' '
    ||| c == '\u{85}'
    ||| c == '\u{A0}'
    ||| c == '\u{1680}'
    ||| ('\u{2000}' <= c && c <= '\u{200A}')
    ||| c == '\u{2028}'
    ||| c == '\u{2029}'
    ||| c == '\u{202F}'
    ||| c == '\u{205F}'
    ||| c == '\u{3000}'
}

/// Whether `c` is whitespace.
#[verifier::when_used_as_spec(spec_is_white_space)]
pub fn is_white_space(c: char) -> (b: bool)
    ensures
        b == spec_is_white_space(c),
{
    ('\u{9}' <= c && c <= '\u{D}') || c == ' ' || c == '\u{85}' || c == '\u{A0}' || c == '\u{1680}'
        || ('\u{2000}' <= c && c <= '\u{200A}') || c == '\u{2028}' || c == '\u{2029}' || c
        == '\u{202F}' || c == '\u{205F}' || c == '\u{3000}'
}

/// A decimal digit, `0` to `9`.
pub open spec fn spec_is_digit(c: char) -> bool {
    '0' <= c && c <= '9'
}

/// Whether `c` is a decimal digit.
#[verifier::when_used_as_spec(spec_is_digit)]
pub fn is_digit(c: char) -> (b: bool)
    ensures
        b == spec_is_digit(c),
{
    '0' <= c && c <= '9'
}

/// A character that may stand in the label of a tag.
pub open spec fn spec_is_label_char(c: char) -> bool {
    !spec_is_control(c) && c != '[' && c != ']' && c != ':'
}

/// Whether `c` may stand in the label of a tag.
#[verifier::when_used_as_spec(spec_is_label_char)]
pub fn is_label_char(c: char) -> (b: bool)
    ensures
        b == spec_is_label_char(c),
{
    !is_control(c) && c != '[' && c != ']' && c != ':'
}

/// A character that may stand in the text of a tag.
pub open spec fn spec_is_text_char(c: char) -> bool {
    !spec_is_control(c) && c != '[' && c != ']'
}

/// Whether `c` may stand in the text of a tag.
#[verifier::when_used_as_spec(spec_is_text_char)]
pub fn is_text_char(c: char) -> (b: bool)
    ensures
        b == spec_is_text_char(c),
{
    !is_control(c) && c != '[' && c != ']'
}

/// `s` holds the character `c` at `at`.
pub open spec fn holds(s: Seq<char>, at: int, c: char) -> bool {
    0 <= at < s.len() && s[at] == c
}

/// Some character of `s` is a forbidden control character.
pub open spec fn has_control(s: Seq<char>) -> bool {
    exists|i: int| 0 <= i < s.len() && is_control(#[trigger] s[i])
}

/// `s` without its leading whitespace.
pub open spec fn trimmed_start(s: Seq<char>) -> Seq<char>
    decreases s.len(),
{
    if s.len() > 0 && is_white_space(s[0]) {
        trimmed_start(s.drop_first())
    } else {
        s
    }
}

/// `s` without its trailing whitespace.
pub open spec fn trimmed_end(s: Seq<char>) -> Seq<char>
    decreases s.len(),
{
    if s.len() > 0 && is_white_space(s.last()) {
        trimmed_end(s.drop_last())
    } else {
        s
    }
}

/// `s` without its leading and trailing whitespace.
pub open spec fn trimmed(s: Seq<char>) -> Seq<char> {
    trimmed_end(trimmed_start(s))
}

/// Every character of `s` is whitespace.
pub open spec fn is_blank(s: Seq<char>) -> bool {
    forall|i: int| 0 <= i < s.len() ==> is_white_space(#[trigger] s[i])
}

/// `s` neither starts nor ends with whitespace.
pub open spec fn is_trimmed(s: Seq<char>) -> bool {
    s.len() > 0 ==> !is_white_space(s[0]) && !is_white_space(s.last())
}

/// `a` comes before `b` in dictionary order, character by character: at the
/// first place where they differ `a` holds the smaller character, or `a` ends
/// there and `b` goes on.
pub open spec fn precedes(a: Seq<char>, b: Seq<char>) -> bool
    decreases a.len(),
{
    if b.len() == 0 {
        false
    } else if a.len() == 0 {
        true
    } else if a[0] != b[0] {
        a[0] < b[0]
    } else {
        precedes(a.drop_first(), b.drop_first())
    }
}

/// The number of leading whitespace characters of `s[from..]`, as an index
/// into `s`: the first position at or after `from` that holds no whitespace.
pub fn skip_white_space(s: &[char], from: usize) -> (at: usize)
    requires
        from <= s.len(),
    ensures
        from <= at <= s.len(),
        s@.skip(at as int) == trimmed_start(s@.skip(from as int)),
{
    let mut at: usize = from;
    while at < s.len() && is_white_space(s[at])
        invariant
            from <= at <= s.len(),
            trimmed_start(s@.skip(at as int)) == trimmed_start(s@.skip(from as int)),
        decreases s.len() - at,
    {
        assert(s@.skip(at as int).drop_first() == s@.skip(at as int + 1));
        at += 1;
    }
    at
}

/// The end of `s[..to]` once its trailing whitespace is dropped.
pub fn drop_white_space(s: &[char], to: usize) -> (at: usize)
    requires
        to <= s.len(),
    ensures
        at <= to,
        s@.take(at as int) == trimmed_end(s@.take(to as int)),
{
    let mut at: usize = to;
    while at > 0 && is_white_space(s[at - 1])
        invariant
            at <= to <= s.len(),
            trimmed_end(s@.take(at as int)) == trimmed_end(s@.take(to as int)),
        decreases at,
    {
        assert(s@.take(at as int).drop_last() == s@.take(at as int - 1));
        at -= 1;
    }
    at
}

/// The slice `s` without its leading whitespace.
pub fn trim_start(s: &[char]) -> (r: &[char])
    ensures
        r@ == trimmed_start(s@),
{
    let at = skip_white_space(s, 0);
    assert(s@.skip(0) == s@);
    let r = &s[at..s.len()];
    assert(r@ == s@.skip(at as int));
    r
}

/// The slice `s` without its trailing whitespace.
pub fn trim_end(s: &[char]) -> (r: &[char])
    ensures
        r@ == trimmed_end(s@),
{
    let at = drop_white_space(s, s.len());
    assert(s@.take(s.len() as int) == s@);
    let r = &s[0..at];
    assert(r@ == s@.take(at as int));
    r
}

/// The slice `s` without its leading and trailing whitespace.
pub fn trim(s: &[char]) -> (r: &[char])
    ensures
        r@ == trimmed(s@),
{
    trim_end(trim_start(s))
}

/// Whether `a` comes before `b` in dictionary order.
pub fn comes_before(a: &[char], b: &[char]) -> (r: bool)
    ensures
        r == precedes(a@, b@),
{
    let mut i: usize = 0;
    assert(a@.skip(0) == a@ && b@.skip(0) == b@);
    while i < a.len() && i < b.len() && a[i] == b[i]
        invariant
            i <= a.len(),
            i <= b.len(),
            precedes(a@, b@) == precedes(a@.skip(i as int), b@.skip(i as int)),
        decreases a.len() - i,
    {
        assert(a@.skip(i as int).drop_first() == a@.skip(i as int + 1));
        assert(b@.skip(i as int).drop_first() == b@.skip(i as int + 1));
        i += 1;
    }
    if i == b.len() {
        false
    } else if i == a.len() {
        true
    } else {
        a[i] < b[i]
    }
}

/// Whether `a` and `b` hold the same characters.
pub fn same_chars(a: &[char], b: &[char]) -> (r: bool)
    ensures
        r == (a@ == b@),
{
    if a.len() != b.len() {
        return false;
    }
    let mut i: usize = 0;
    while i < a.len()
        invariant
            i <= a.len(),
            a.len() == b.len(),
            a@.take(i as int) == b@.take(i as int),
        decreases a.len() - i,
    {
        if a[i] != b[i] {
            return false;
        }
        assert(a@.take(i as int + 1) == a@.take(i as int).push(a@[i as int]));
        assert(b@.take(i as int + 1) == b@.take(i as int).push(b@[i as int]));
        i += 1;
    }
    assert(a@.take(a.len() as int) == a@ && b@.take(b.len() as int) == b@);
    true
}

/// The characters of a string slice, in order.
pub fn to_chars(s: &str) -> (v: Vec<char>)
    ensures
        v@ == s@,
{
    broadcast use vstd::string::group_string_axioms;

    let mut v: Vec<char> = Vec::new();
    for c in it: s.chars()
        invariant
            it.seq() == s@,
            v@ == s@.take(it.index() as int),
    {
        v.push(c);
    }
    v
}

/// `String::push` appends one character to the string.
pub assume_specification[ String::push ](s: &mut String, c: char)
    ensures
        final(s)@ == old(s)@.push(c),
;

/// The string made of the characters of `s`, in order.
pub fn to_string(s: &[char]) -> (r: String)
    ensures
        r@ == s@,
{
    let mut r = String::new();
    let mut i: usize = 0;
    while i < s.len()
        invariant
            i <= s.len(),
            r@ == s@.take(i as int),
        decreases s.len() - i,
    {
        r.push(s[i]);
        i += 1;
    }
    assert(s@.take(s.len() as int) == s@);
    r
}

/// Appends the characters of `s` to `buffer`.
pub fn push_all(buffer: &mut Vec<char>, s: &[char])
    ensures
        final(buffer)@ == old(buffer)@ + s@,
{
    let mut i: usize = 0;
    while i < s.len()
        invariant
            i <= s.len(),
            buffer@ == old(buffer)@ + s@.take(i as int),
        decreases s.len() - i,
    {
        buffer.push(s[i]);
        i += 1;
    }
    assert(s@.take(s.len() as int) == s@);
}

/// Trimming the start removes a whitespace prefix and nothing else.
pub proof fn lemma_trimmed_start(s: Seq<char>)
    ensures
        trimmed_start(s).len() <= s.len(),
        trimmed_start(s) == s.skip(s.len() - trimmed_start(s).len()),
        is_blank(s.take(s.len() - trimmed_start(s).len())),
        trimmed_start(s).len() > 0 ==> !is_white_space(trimmed_start(s)[0]),
    decreases s.len(),
{
    if s.len() > 0 && is_white_space(s[0]) {
        let t = s.drop_first();
        lemma_trimmed_start(t);
        let k = t.len() - trimmed_start(t).len();
        assert(t.skip(k) == s.skip(k + 1));
        assert forall|i: int| 0 <= i < k + 1 implies is_white_space(#[trigger] s.take(k + 1)[i]) by {
            if i > 0 {
                assert(s.take(k + 1)[i] == t.take(k)[i - 1]);
            }
        }
    } else {
        assert(s.skip(0) == s);
    }
}

/// Trimming the end removes a whitespace suffix and nothing else.
pub proof fn lemma_trimmed_end(s: Seq<char>)
    ensures
        trimmed_end(s).len() <= s.len(),
        trimmed_end(s) == s.take(trimmed_end(s).len() as int),
        is_blank(s.skip(trimmed_end(s).len() as int)),
        trimmed_end(s).len() > 0 ==> !is_white_space(trimmed_end(s).last()),
    decreases s.len(),
{
    if s.len() > 0 && is_white_space(s.last()) {
        let t = s.drop_last();
        lemma_trimmed_end(t);
        let k = trimmed_end(t).len() as int;
        assert(t.take(k) == s.take(k));
        assert forall|i: int| 0 <= i < s.len() - k implies is_white_space(#[trigger] s.skip(k)[i]) by {
            if i < t.len() - k {
                assert(s.skip(k)[i] == t.skip(k)[i]);
            }
        }
    } else {
        assert(s.take(s.len() as int) == s);
    }
}

/// Trimming leaves a part of `s` that neither starts nor ends with
/// whitespace: what stands between the leading and the trailing whitespace.
pub proof fn lemma_trimmed(s: Seq<char>)
    ensures
        trimmed(s).len() <= trimmed_start(s).len() <= s.len(),
        trimmed(s) == s.subrange(
            s.len() - trimmed_start(s).len(),
            s.len() - trimmed_start(s).len() + trimmed(s).len(),
        ),
        is_trimmed(trimmed(s)),
        is_blank(s.take(s.len() - trimmed_start(s).len())),
        is_blank(s.skip(s.len() - trimmed_start(s).len() + trimmed(s).len())),
{
    lemma_trimmed_start(s);
    let t = trimmed_start(s);
    lemma_trimmed_end(t);
    let a = s.len() - t.len();
    let n = trimmed(s).len() as int;
    assert(t.take(n) == s.subrange(a, a + n));
    assert(s.skip(a + n) == t.skip(n));
    if n > 0 {
        assert(trimmed(s)[0] == t[0]);
    }
}

/// Trimming changes nothing where there is no whitespace to drop.
pub proof fn lemma_trimmed_fixed(s: Seq<char>)
    requires
        is_trimmed(s),
    ensures
        trimmed_start(s) == s,
        trimmed_end(s) == s,
        trimmed(s) == s,
{
}

/// Nothing is left of a blank text once it is trimmed.
pub proof fn lemma_trimmed_blank(s: Seq<char>)
    requires
        is_blank(s),
    ensures
        trimmed_start(s).len() == 0,
        trimmed(s).len() == 0,
    decreases s.len(),
{
    if s.len() > 0 {
        assert(is_white_space(s[0]));
        let t = s.drop_first();
        assert forall|i: int| 0 <= i < t.len() implies is_white_space(#[trigger] t[i]) by {
            assert(t[i] == s[i + 1]);
        }
        lemma_trimmed_blank(t);
    }
}

/// Whitespace before a text is dropped with the whitespace that the text
/// starts with.
pub proof fn lemma_trimmed_start_skips(blank: Seq<char>, s: Seq<char>)
    requires
        is_blank(blank),
    ensures
        trimmed_start(blank + s) == trimmed_start(s),
    decreases blank.len(),
{
    if blank.len() > 0 {
        assert(is_white_space(blank[0]));
        let t = blank.drop_first();
        assert forall|i: int| 0 <= i < t.len() implies is_white_space(#[trigger] t[i]) by {
            assert(t[i] == blank[i + 1]);
        }
        assert((blank + s).drop_first() == t + s);
        assert((blank + s)[0] == blank[0]);
        lemma_trimmed_start_skips(t, s);
    } else {
        assert(blank + s == s);
    }
}

/// Trimming the end keeps the first character where it is no whitespace.
pub proof fn lemma_trimmed_end_keeps_start(s: Seq<char>)
    requires
        s.len() > 0,
        !is_white_space(s[0]),
    ensures
        trimmed_end(s).len() > 0,
        trimmed_end(s)[0] == s[0],
    decreases s.len(),
{
    if is_white_space(s.last()) {
        lemma_trimmed_end_keeps_start(s.drop_last());
    }
}

/// Nothing comes before itself.
pub proof fn lemma_precedes_irreflexive(a: Seq<char>)
    ensures
        !precedes(a, a),
    decreases a.len(),
{
    if a.len() > 0 {
        lemma_precedes_irreflexive(a.drop_first());
    }
}

/// What comes before something that comes before `c` comes before `c`.
pub proof fn lemma_precedes_transitive(a: Seq<char>, b: Seq<char>, c: Seq<char>)
    requires
        precedes(a, b),
        precedes(b, c),
    ensures
        precedes(a, c),
    decreases a.len(),
{
    if a.len() > 0 && a[0] == b[0] && b[0] == c[0] {
        lemma_precedes_transitive(a.drop_first(), b.drop_first(), c.drop_first());
    }
}

/// Of two different sequences one comes before the other.
pub proof fn lemma_precedes_total(a: Seq<char>, b: Seq<char>)
    ensures
        precedes(a, b) || a == b || precedes(b, a),
    decreases a.len(),
{
    if a.len() > 0 && b.len() > 0 && a[0] == b[0] {
        lemma_precedes_total(a.drop_first(), b.drop_first());
        if a.drop_first() == b.drop_first() {
            assert(a =~= seq![a[0]] + a.drop_first());
            assert(b =~= seq![b[0]] + b.drop_first());
        }
    } else if a.len() == 0 && b.len() == 0 {
        assert(a =~= b);
    }
}

} // verus!
