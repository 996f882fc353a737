//! The metadata of lyrics: ID tags, one for each label, in the order of
//! their labels.
use vstd::prelude::*;
use crate::tags::id_tag::{IDTag, IDTagView};
use crate::text::{
    lemma_precedes_irreflexive, lemma_precedes_total, lemma_precedes_transitive, precedes,
};

verus! {

/// The tags stand in the strict order of their keys: the case foldings of
/// their labels ascend, so no two tags have the same label.
pub open spec fn ascending(tags: Seq<IDTagView>) -> bool {
    forall|i: int, j: int|
        0 <= i < j < tags.len() ==> precedes(#[trigger] tags[i].key(), #[trigger] tags[j].key())
}

/// Every tag is valid.
pub open spec fn all_valid(tags: Seq<IDTagView>) -> bool {
    forall|i: int| 0 <= i < tags.len() ==> (#[trigger] tags[i]).wf()
}

/// One of the tags has the key `key`.
pub open spec fn has_key(tags: Seq<IDTagView>, key: Seq<char>) -> bool {
    exists|i: int| 0 <= i < tags.len() && (#[trigger] tags[i]).key() == key
}

/// The number of tags whose key comes before `key`.
pub open spec fn rank(tags: Seq<IDTagView>, key: Seq<char>) -> nat
    decreases tags.len(),
{
    if tags.len() == 0 {
        0
    } else {
        rank(tags.drop_last(), key) + if precedes(tags.last().key(), key) {
            1nat
        } else {
            0nat
        }
    }
}

/// The tags once `tag` is inserted: where a tag has the key of `tag` already,
/// nothing changes and that tag stays; else `tag` stands behind the tags whose
/// keys come before its own.
pub open spec fn with_tag(tags: Seq<IDTagView>, tag: IDTagView) -> Seq<IDTagView> {
    if has_key(tags, tag.key()) {
        tags
    } else {
        tags.insert(rank(tags, tag.key()) as int, tag)
    }
}

/// The ID tags of lyrics. No two of them have the same label, whatever the
/// case of its letters, and they stand in the order of their labels.
#[derive(Debug, Clone)]
pub struct Metadata {
    tags: Vec<IDTag>,
}

impl View for Metadata {
    type V = Seq<IDTagView>;

    /// The tags, in their order.
    closed spec fn view(&self) -> Seq<IDTagView> {
        self.tags@.map_values(|tag: IDTag| tag@)
    }
}

impl Metadata {
    /// Every tag is valid, and the tags ascend.
    pub closed spec fn wf(&self) -> bool {
        &&& forall|i: int| 0 <= i < self.tags.len() ==> (#[trigger] self.tags[i]).wf()
        &&& ascending(self@)
    }

    /// Valid metadata holds valid tags in ascending order.
    pub proof fn lemma_wf(&self)
        requires
            self.wf(),
        ensures
            ascending(self@),
            all_valid(self@),
    {
        assert forall|i: int| 0 <= i < self@.len() implies (#[trigger] self@[i]).wf() by {
            self.tags[i].lemma_wf();
        }
    }

    /// No tags.
    pub fn new() -> (r: Metadata)
        ensures
            r.wf(),
            r@ == Seq::<IDTagView>::empty(),
    {
        Metadata { tags: Vec::new() }
    }

    /// The number of tags.
    pub fn len(&self) -> (r: usize)
        ensures
            r == self@.len(),
    {
        self.tags.len()
    }

    /// Whether there is no tag.
    pub fn is_empty(&self) -> (r: bool)
        ensures
            r == (self@.len() == 0),
    {
        self.tags.len() == 0
    }

    /// The tag at `index`, counted in the order of the labels.
    pub fn get(&self, index: usize) -> (r: &IDTag)
        requires
            index < self@.len(),
        ensures
            r@ == self@[index as int],
            self.wf() ==> r.wf(),
    {
        &self.tags[index]
    }

    /// Inserts `tag` unless a tag with its label is there already. Returns
    /// whether it was inserted.
    pub fn insert(&mut self, tag: IDTag) -> (r: bool)
        requires
            old(self).wf(),
            tag.wf(),
        ensures
            final(self).wf(),
            final(self)@ == with_tag(old(self)@, tag@),
            r == !has_key(old(self)@, tag@.key()),
    {
        let ghost key = tag@.key();
        let ghost before = self@;
        let mut at: usize = 0;
        while at < self.tags.len() && self.tags[at].comes_before(&tag)
            invariant
                at <= self.tags.len(),
                self.wf(),
                tag.wf(),
                self@ == before,
                key == tag@.key(),
                forall|i: int| 0 <= i < at ==> precedes((#[trigger] before[i]).key(), key),
            decreases self.tags.len() - at,
        {
            at += 1;
        }
        proof {
            assert forall|i: int| at <= i < before.len() implies !precedes(
                (#[trigger] before[i]).key(),
                key,
            ) by {
                if i > at {
                    assert(precedes(before[at as int].key(), before[i].key()));
                    if precedes(before[i].key(), key) {
                        lemma_precedes_transitive(before[at as int].key(), before[i].key(), key);
                    }
                }
            }
            lemma_rank(before, key, at as int);
            assert forall|i: int| 0 <= i < before.len() && i != at implies (
            #[trigger] before[i]).key() != key by {
                if i < at {
                    lemma_precedes_irreflexive(key);
                } else {
                    assert(precedes(before[at as int].key(), before[i].key()));
                }
            }
        }
        if at < self.tags.len() && self.tags[at].same_label(&tag) {
            assert(before[at as int].key() == key);
            false
        } else {
            assert(!has_key(before, key));
            self.tags.insert(at, tag);
            proof {
                assert(self@ =~= before.insert(at as int, tag@));
                lemma_with_tag(before, tag@);
            }
            true
        }
    }
}

/// Where the keys of the first `at` tags come before `key` and those of the
/// others do not, `at` is the rank of `key`.
pub proof fn lemma_rank(tags: Seq<IDTagView>, key: Seq<char>, at: int)
    requires
        0 <= at <= tags.len(),
        forall|i: int| 0 <= i < at ==> precedes((#[trigger] tags[i]).key(), key),
        forall|i: int| at <= i < tags.len() ==> !precedes((#[trigger] tags[i]).key(), key),
    ensures
        rank(tags, key) == at,
    decreases tags.len(),
{
    if tags.len() > 0 {
        let front = tags.drop_last();
        if at == tags.len() {
            lemma_rank(front, key, at - 1);
        } else {
            lemma_rank(front, key, at);
        }
    }
}

/// The rank of a key is a position in the tags.
pub proof fn lemma_rank_bound(tags: Seq<IDTagView>, key: Seq<char>)
    ensures
        rank(tags, key) <= tags.len(),
    decreases tags.len(),
{
    if tags.len() > 0 {
        lemma_rank_bound(tags.drop_last(), key);
    }
}

/// In ascending tags, the tags whose keys come before `key` are the first
/// `rank(tags, key)`.
pub proof fn lemma_rank_splits(tags: Seq<IDTagView>, key: Seq<char>)
    requires
        ascending(tags),
    ensures
        rank(tags, key) <= tags.len(),
        forall|i: int| 0 <= i < rank(tags, key) ==> precedes((#[trigger] tags[i]).key(), key),
        forall|i: int|
            rank(tags, key) <= i < tags.len() ==> !precedes((#[trigger] tags[i]).key(), key),
    decreases tags.len(),
{
    if tags.len() > 0 {
        let front = tags.drop_last();
        assert forall|i: int, j: int| 0 <= i < j < front.len() implies precedes(
            #[trigger] front[i].key(),
            #[trigger] front[j].key(),
        ) by {
            assert(front[i] == tags[i] && front[j] == tags[j]);
        }
        lemma_rank_splits(front, key);
        let r = rank(front, key);
        if precedes(tags.last().key(), key) {
            assert forall|i: int| 0 <= i < tags.len() implies precedes(
                (#[trigger] tags[i]).key(),
                key,
            ) by {
                if i < tags.len() - 1 {
                    assert(precedes(tags[i].key(), tags[tags.len() - 1].key()));
                    lemma_precedes_transitive(tags[i].key(), tags.last().key(), key);
                }
            }
            if r < front.len() {
                assert(front[r as int] == tags[r as int]);
            }
        } else {
            assert forall|i: int| 0 <= i < r implies precedes((#[trigger] tags[i]).key(), key) by {
                assert(front[i] == tags[i]);
            }
            assert forall|i: int| r <= i < tags.len() implies !precedes(
                (#[trigger] tags[i]).key(),
                key,
            ) by {
                if i < front.len() {
                    assert(front[i] == tags[i]);
                }
            }
        }
    }
}

/// Inserting a tag into ascending tags leaves them ascending, and valid where
/// they and the tag are.
pub proof fn lemma_with_tag(tags: Seq<IDTagView>, tag: IDTagView)
    requires
        ascending(tags),
    ensures
        ascending(with_tag(tags, tag)),
        has_key(with_tag(tags, tag), tag.key()),
        all_valid(tags) && tag.wf() ==> all_valid(with_tag(tags, tag)),
{
    let key = tag.key();
    if !has_key(tags, key) {
        lemma_rank_splits(tags, key);
        let r = rank(tags, key) as int;
        let after = tags.insert(r, tag);
        assert forall|i: int, j: int| 0 <= i < j < after.len() implies precedes(
            #[trigger] after[i].key(),
            #[trigger] after[j].key(),
        ) by {
            if j < r {
                assert(after[i] == tags[i] && after[j] == tags[j]);
            } else if j == r {
                assert(after[i] == tags[i]);
            } else if i == r {
                assert(after[j] == tags[j - 1]);
                lemma_precedes_total(tags[j - 1].key(), key);
            } else if i < r {
                assert(after[i] == tags[i] && after[j] == tags[j - 1]);
            } else {
                assert(after[i] == tags[i - 1] && after[j] == tags[j - 1]);
            }
        }
        assert(after[r] == tag);
        if all_valid(tags) && tag.wf() {
            assert forall|i: int| 0 <= i < after.len() implies (#[trigger] after[i]).wf() by {
                if i < r {
                    assert(after[i] == tags[i]);
                } else if i > r {
                    assert(after[i] == tags[i - 1]);
                }
            }
        }
    }
}

/// The tags once `tag` is inserted are the tags before and, unless one of them
/// has its key, `tag`.
pub proof fn lemma_with_tag_contains(tags: Seq<IDTagView>, tag: IDTagView, other: IDTagView)
    ensures
        with_tag(tags, tag).contains(other) <==> tags.contains(other) || (other == tag && !has_key(
            tags,
            tag.key(),
        )),
{
    if !has_key(tags, tag.key()) {
        lemma_rank_bound(tags, tag.key());
        let r = rank(tags, tag.key()) as int;
        let after = tags.insert(r, tag);
        if tags.contains(other) {
            let i = choose|i: int| 0 <= i < tags.len() && tags[i] == other;
            if i < r {
                assert(after[i] == other);
            } else {
                assert(after[i + 1] == other);
            }
        }
        if other == tag {
            assert(after[r] == other);
        }
        if after.contains(other) {
            let i = choose|i: int| 0 <= i < after.len() && after[i] == other;
            if i < r {
                assert(tags[i] == other);
            } else if i > r {
                assert(tags[i - 1] == other);
            }
        }
    }
}

/// Ascending tags are known by what they hold: two ascending sequences of the
/// same tags are equal.
pub proof fn lemma_ascending_unique(a: Seq<IDTagView>, b: Seq<IDTagView>)
    requires
        ascending(a),
        ascending(b),
        forall|tag: IDTagView| a.contains(tag) <==> b.contains(tag),
    ensures
        a == b,
    decreases a.len(),
{
    if a.len() == 0 {
        if b.len() > 0 {
            assert(b.contains(b[0]));
        }
        assert(a =~= b);
    } else {
        let last = a.last();
        assert(a.contains(last));
        let j = choose|j: int| 0 <= j < b.len() && b[j] == last;
        assert(b.contains(b.last()));
        let i = choose|i: int| 0 <= i < a.len() && a[i] == b.last();
        if j < b.len() - 1 {
            assert(precedes(b[j].key(), b[b.len() - 1].key()));
            if i < a.len() - 1 {
                assert(precedes(a[i].key(), a[a.len() - 1].key()));
                lemma_precedes_transitive(last.key(), b.last().key(), last.key());
            }
            lemma_precedes_irreflexive(last.key());
        }
        assert(b.last() == last);
        let x = a.drop_last();
        let y = b.drop_last();
        assert forall|tag: IDTagView| x.contains(tag) <==> y.contains(tag) by {
            lemma_precedes_irreflexive(last.key());
            if x.contains(tag) {
                let k = choose|k: int| 0 <= k < x.len() && x[k] == tag;
                assert(a[k] == tag);
                assert(precedes(a[k].key(), a[a.len() - 1].key()));
                assert(a.contains(tag));
                let l = choose|l: int| 0 <= l < b.len() && b[l] == tag;
                assert(y[l] == tag);
            }
            if y.contains(tag) {
                let k = choose|k: int| 0 <= k < y.len() && y[k] == tag;
                assert(b[k] == tag);
                assert(precedes(b[k].key(), b[b.len() - 1].key()));
                assert(b.contains(tag));
                let l = choose|l: int| 0 <= l < a.len() && a[l] == tag;
                assert(x[l] == tag);
            }
        }
        assert forall|i: int, j: int| 0 <= i < j < x.len() implies precedes(
            #[trigger] x[i].key(),
            #[trigger] x[j].key(),
        ) by {
            assert(x[i] == a[i] && x[j] == a[j]);
        }
        assert forall|i: int, j: int| 0 <= i < j < y.len() implies precedes(
            #[trigger] y[i].key(),
            #[trigger] y[j].key(),
        ) by {
            assert(y[i] == b[i] && y[j] == b[j]);
        }
        lemma_ascending_unique(x, y);
        assert(a =~= x.push(last));
        assert(b =~= y.push(last));
    }
}

/// One of the tags has the key `key` where one of the tags that they hold has
/// it.
pub proof fn lemma_has_key(tags: Seq<IDTagView>, key: Seq<char>)
    ensures
        has_key(tags, key) <==> exists|tag: IDTagView| tags.contains(tag) && tag.key() == key,
{
    if has_key(tags, key) {
        let i = choose|i: int| 0 <= i < tags.len() && (#[trigger] tags[i]).key() == key;
        assert(tags.contains(tags[i]));
    }
    if exists|tag: IDTagView| tags.contains(tag) && tag.key() == key {
        let tag = choose|tag: IDTagView| tags.contains(tag) && tag.key() == key;
        let i = choose|i: int| 0 <= i < tags.len() && tags[i] == tag;
        assert(tags[i].key() == key);
    }
}

/// Inserting a tag whose label is there already, whatever the case of its
/// letters, changes nothing: the tag that came first stays. So inserting a
/// tag twice is inserting it once.
pub proof fn law_insert_is_idempotent(tags: Seq<IDTagView>, first: IDTagView, second: IDTagView)
    requires
        ascending(tags),
        first.key() == second.key(),
    ensures
        with_tag(with_tag(tags, first), second) == with_tag(tags, first),
{
    lemma_with_tag(tags, first);
}

/// Tags with different labels may be inserted in either order: the metadata
/// is the same, and it ascends.
pub proof fn law_insert_order_is_free(tags: Seq<IDTagView>, first: IDTagView, second: IDTagView)
    requires
        ascending(tags),
        first.key() != second.key(),
    ensures
        with_tag(with_tag(tags, first), second) == with_tag(with_tag(tags, second), first),
        ascending(with_tag(with_tag(tags, first), second)),
{
    let a = with_tag(tags, first);
    let b = with_tag(tags, second);
    let ab = with_tag(a, second);
    let ba = with_tag(b, first);
    lemma_with_tag(tags, first);
    lemma_with_tag(tags, second);
    lemma_with_tag(a, second);
    lemma_with_tag(b, first);
    assert(has_key(a, second.key()) == has_key(tags, second.key())) by {
        lemma_has_key(a, second.key());
        lemma_has_key(tags, second.key());
        assert forall|tag: IDTagView| tag.key() == second.key() implies (a.contains(tag)
            <==> tags.contains(tag)) by {
            lemma_with_tag_contains(tags, first, tag);
        }
    }
    assert(has_key(b, first.key()) == has_key(tags, first.key())) by {
        lemma_has_key(b, first.key());
        lemma_has_key(tags, first.key());
        assert forall|tag: IDTagView| tag.key() == first.key() implies (b.contains(tag)
            <==> tags.contains(tag)) by {
            lemma_with_tag_contains(tags, second, tag);
        }
    }
    assert forall|tag: IDTagView| ab.contains(tag) <==> ba.contains(tag) by {
        lemma_with_tag_contains(tags, first, tag);
        lemma_with_tag_contains(tags, second, tag);
        lemma_with_tag_contains(a, second, tag);
        lemma_with_tag_contains(b, first, tag);
    }
    lemma_ascending_unique(ab, ba);
}

} // verus!
