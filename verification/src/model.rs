//! The text as a mathematical object: the sequence of all characters ever inserted, in order,
//! deleted ones included.

use std::ops::Range;

use vstd::prelude::*;

use crate::anchor::Anchor;
use crate::clocks::{InsertionTimestamp, LamportTimestamp};
use crate::replica_id::ReplicaId;
use crate::text::{Text, TextEdit};

verus! {

/// The name of a character: it is the `ts`-th one inserted by replica `by`.
pub struct CharId {
    pub by: ReplicaId,
    pub ts: int,
}

/// A character of the text.
pub struct Char {
    pub id: CharId,
    /// The character was inserted after the one before this anchor.
    pub anchor: Anchor,
    pub lamport_ts: LamportTimestamp,
    pub insertion_ts: InsertionTimestamp,
    pub deleted: bool,
}

/// The character before an anchor.
pub open spec fn char_before(anchor: Anchor) -> CharId {
    CharId { by: anchor.replica_id, ts: anchor.character_ts - 1 }
}

/// The character after an anchor.
pub open spec fn char_after(anchor: Anchor) -> CharId {
    CharId { by: anchor.replica_id, ts: anchor.character_ts as int }
}

/// The characters that are part of the buffer, in order.
pub open spec fn visible(doc: Seq<Char>) -> Seq<CharId>
    decreases doc.len(),
{
    if doc.len() == 0 {
        Seq::empty()
    } else if doc.last().deleted {
        visible(doc.drop_last())
    } else {
        visible(doc.drop_last()).push(doc.last().id)
    }
}

/// The place right after the `offset`-th character of the buffer: the length of the shortest part
/// at the start of the text that holds `offset` characters of the buffer.
pub open spec fn place_of(doc: Seq<Char>, offset: int) -> int
    decreases doc.len(),
{
    if offset <= 0 || doc.len() == 0 {
        0
    } else if visible(doc.drop_last()).len() >= offset {
        place_of(doc.drop_last(), offset)
    } else {
        doc.len() as int
    }
}

/// Where in the text the character at the given offset of the buffer is.
pub open spec fn index_of_visible(doc: Seq<Char>, offset: int) -> int {
    place_of(doc, offset + 1) - 1
}

/// Whether a character of the given name is in the text.
pub open spec fn has_char(doc: Seq<Char>, id: CharId) -> bool {
    exists|i: int| 0 <= i < doc.len() && (#[trigger] doc[i]).id == id
}

/// Where in the text the character of the given name is.
pub open spec fn index_of_char(doc: Seq<Char>, id: CharId) -> int {
    choose|i: int| 0 <= i < doc.len() && (#[trigger] doc[i]).id == id
}

/// The text holds each character that the versions count once, and no other.
pub open spec fn complete(doc: Seq<Char>, versions: Map<ReplicaId, int>) -> bool {
    &&& forall|i: int|
        0 <= i < doc.len() ==> 0 <= (#[trigger] doc[i]).id.ts < versions[doc[i].id.by]
    &&& forall|i: int, j: int|
        0 <= i < j < doc.len() ==> (#[trigger] doc[i]).id != (#[trigger] doc[j]).id
    &&& forall|id: CharId|
        0 <= id.ts < versions[id.by] ==> #[trigger] has_char(doc, id)
}

/// The characters of an inserted piece of text. Each one after the first follows the one before.
pub open spec fn run_chars(
    text: Text,
    anchor: Anchor,
    lamport_ts: LamportTimestamp,
    insertion_ts: InsertionTimestamp,
    deleted: bool,
) -> Seq<Char> {
    Seq::new(
        text.spec_len() as nat,
        |i: int|
            Char {
                id: CharId { by: text.inserted_by, ts: text.start + i },
                anchor: if i == 0 {
                    anchor
                } else {
                    Anchor { replica_id: text.inserted_by, character_ts: (text.start + i) as usize }
                },
                lamport_ts,
                insertion_ts,
                deleted,
            },
    )
}

/// The text with characters put in at an index.
pub open spec fn splice(doc: Seq<Char>, at: int, chars: Seq<Char>) -> Seq<Char> {
    doc.take(at) + chars + doc.skip(at)
}

/// A deleted character.
pub open spec fn deleted_char(c: Char) -> Char {
    Char { deleted: true, ..c }
}

/// The text with the characters from `lo` up to `hi` deleted.
pub open spec fn delete_between(doc: Seq<Char>, lo: int, hi: int) -> Seq<Char> {
    Seq::new(
        doc.len(),
        |i: int|
            if lo <= i < hi {
                deleted_char(doc[i])
            } else {
                doc[i]
            },
    )
}

/// Whether a character is among those that the versions count.
pub open spec fn known(versions: Map<ReplicaId, int>, id: CharId) -> bool {
    id.ts < versions[id.by]
}

/// The text with those characters from `lo` up to `hi` deleted that the versions count.
pub open spec fn delete_known_between(
    doc: Seq<Char>,
    lo: int,
    hi: int,
    versions: Map<ReplicaId, int>,
) -> Seq<Char> {
    Seq::new(
        doc.len(),
        |i: int|
            if lo <= i < hi && known(versions, doc[i].id) {
                deleted_char(doc[i])
            } else {
                doc[i]
            },
    )
}

/// Whether, of two runs of text inserted at the same place, the first one comes first: the one
/// with the later timestamp does, and at equal timestamps the one of the smaller replica.
pub open spec fn outranks(
    lamport_a: LamportTimestamp,
    by_a: ReplicaId,
    lamport_b: LamportTimestamp,
    by_b: ReplicaId,
) -> bool {
    lamport_a > lamport_b || (lamport_a == lamport_b && by_a.0 < by_b.0)
}

/// The first index from `at` on whose character does not outrank the given one.
pub open spec fn skip_outranking(
    doc: Seq<Char>,
    at: int,
    lamport_ts: LamportTimestamp,
    by: ReplicaId,
) -> int
    decreases doc.len() - at,
{
    if 0 <= at < doc.len() && outranks(doc[at].lamport_ts, doc[at].id.by, lamport_ts, by) {
        skip_outranking(doc, at + 1, lamport_ts, by)
    } else {
        at
    }
}

/// Where text that was inserted at an anchor goes.
pub open spec fn merge_place(
    doc: Seq<Char>,
    anchor: Anchor,
    lamport_ts: LamportTimestamp,
    by: ReplicaId,
) -> int {
    let after = if anchor.is_origin() {
        0
    } else {
        index_of_char(doc, char_before(anchor)) + 1
    };
    skip_outranking(doc, after, lamport_ts, by)
}

/// Whether one of the ranges holds the offset.
pub open spec fn in_ranges(ranges: Seq<Range<usize>>, x: int) -> bool {
    exists|k: int| 0 <= k < ranges.len() && (#[trigger] ranges[k]).start <= x < ranges[k].end
}

/// Ranges that ascend and do not touch each other, none of them empty.
pub open spec fn separated(ranges: Seq<Range<usize>>) -> bool {
    &&& forall|k: int| 0 <= k < ranges.len() ==> (#[trigger] ranges[k]).start < ranges[k].end
    &&& forall|k: int, l: int|
        0 <= k < l < ranges.len() ==> (#[trigger] ranges[k]).end < (#[trigger] ranges[l]).start
}

/// A buffer without what is at the offsets in the ranges.
pub open spec fn cut<T>(buffer: Seq<T>, ranges: Seq<Range<usize>>) -> Seq<T>
    decreases buffer.len(),
{
    if buffer.len() == 0 {
        Seq::empty()
    } else if in_ranges(ranges, buffer.len() - 1) {
        cut(buffer.drop_last(), ranges)
    } else {
        cut(buffer.drop_last(), ranges).push(buffer.last())
    }
}

/// The names of the characters of an inserted text.
pub open spec fn text_ids(text: Text) -> Seq<CharId> {
    Seq::new(
        text.spec_len() as nat,
        |i: int| CharId { by: text.inserted_by, ts: text.start + i },
    )
}

/// What a buffer becomes when a peer applies a text edit to it.
pub open spec fn apply_text_edit(buffer: Seq<CharId>, edit: TextEdit) -> Seq<CharId> {
    match edit {
        TextEdit::Insertion(offset, text) => {
            buffer.take(offset as int) + text_ids(text) + buffer.skip(offset as int)
        },
        TextEdit::ContiguousDeletion(range) => {
            buffer.take(range.start as int) + buffer.skip(range.end as int)
        },
        TextEdit::SplitDeletion(ranges) => cut(buffer, ranges@),
    }
}

/// Up to the last of several separated ranges a buffer is cut by the others, and after it not at
/// all.
proof fn lemma_cut_up_to<T>(buffer: Seq<T>, ranges: Seq<Range<usize>>, n: int)
    requires
        separated(ranges),
        ranges.len() > 0,
        ranges.last().end <= buffer.len(),
        0 <= n <= buffer.len(),
    ensures
        ({
            let range = ranges.last();
            let others = ranges.drop_last();
            cut(buffer.take(n), ranges) == if n <= range.start {
                cut(buffer.take(n), others)
            } else if n <= range.end {
                cut(buffer.take(range.start as int), others)
            } else {
                cut(buffer.take(range.start as int), others) + buffer.subrange(
                    range.end as int,
                    n,
                )
            }
        }),
    decreases n,
{
    let range = ranges.last();
    let others = ranges.drop_last();
    let m = ranges.len() - 1;
    if n > 0 {
        let x = n - 1;
        lemma_cut_up_to(buffer, ranges, x);
        assert(buffer.take(n).drop_last() =~= buffer.take(x));
        assert(buffer.take(n).last() == buffer[x]);
        assert(in_ranges(ranges, x) <==> in_ranges(others, x) || range.start <= x < range.end) by {
            if in_ranges(ranges, x) {
                let k = choose|k: int|
                    0 <= k < ranges.len() && (#[trigger] ranges[k]).start <= x < ranges[k].end;
                if k < m {
                    assert(others[k] == ranges[k]);
                }
            }
            if in_ranges(others, x) {
                let k = choose|k: int|
                    0 <= k < others.len() && (#[trigger] others[k]).start <= x < others[k].end;
                assert(ranges[k] == others[k]);
            }
            if range.start <= x < range.end {
                assert(ranges[m].start <= x < ranges[m].end);
            }
        }
        if x >= range.start {
            assert(!in_ranges(others, x)) by {
                if in_ranges(others, x) {
                    let k = choose|k: int|
                        0 <= k < others.len() && (#[trigger] others[k]).start <= x
                            < others[k].end;
                    assert(ranges[k].end < ranges[m].start);
                }
            }
        }
        if n > range.end {
            let front = cut(buffer.take(range.start as int), others);
            if x == range.end {
                assert(front + buffer.subrange(range.end as int, x) =~= front);
            }
            assert(front + buffer.subrange(range.end as int, n) =~= (front + buffer.subrange(
                range.end as int,
                x,
            )).push(buffer[x]));
        } else if n == range.start + 1 {
            assert(buffer.take(x) == buffer.take(range.start as int));
        }
    }
}

/// What comes after all ranges is not cut.
proof fn lemma_cut_before<T>(front: Seq<T>, back: Seq<T>, ranges: Seq<Range<usize>>)
    requires
        forall|k: int| 0 <= k < ranges.len() ==> (#[trigger] ranges[k]).end <= front.len(),
    ensures
        cut(front + back, ranges) == cut(front, ranges) + back,
    decreases back.len(),
{
    if back.len() == 0 {
        assert(front + back =~= front);
        assert(cut(front, ranges) + back =~= cut(front, ranges));
    } else {
        lemma_cut_before(front, back.drop_last(), ranges);
        assert((front + back).drop_last() =~= front + back.drop_last());
        assert(!in_ranges(ranges, (front + back).len() - 1));
        assert(cut(front, ranges) + back =~= (cut(front, ranges) + back.drop_last()).push(
            back.last(),
        ));
    }
}

/// A buffer without several ranges is what is left when they are removed one after the other, from
/// the last one on.
pub proof fn law_ranges_are_removed_one_by_one<T>(buffer: Seq<T>, ranges: Seq<Range<usize>>)
    requires
        separated(ranges),
        ranges.len() > 0 ==> ranges.last().end <= buffer.len(),
    ensures
        ranges.len() == 0 ==> cut(buffer, ranges) == buffer,
        ranges.len() > 0 ==> cut(buffer, ranges) == cut(
            buffer.take(ranges.last().start as int) + buffer.skip(ranges.last().end as int),
            ranges.drop_last(),
        ),
{
    if ranges.len() == 0 {
        lemma_cut_before(Seq::<T>::empty(), buffer, ranges);
        assert(Seq::<T>::empty() + buffer =~= buffer);
        assert(cut(Seq::<T>::empty(), ranges) + buffer =~= buffer);
    } else {
        let range = ranges.last();
        let others = ranges.drop_last();
        let m = ranges.len() - 1;
        let front = buffer.take(range.start as int);
        let back = buffer.skip(range.end as int);
        lemma_cut_up_to(buffer, ranges, buffer.len() as int);
        assert(buffer.take(buffer.len() as int) =~= buffer);
        assert(range.start < range.end) by {
            assert(ranges[m].start < ranges[m].end);
        }
        assert forall|k: int| 0 <= k < others.len() implies (#[trigger] others[k]).end
            <= front.len() by {
            assert(ranges[k].end < ranges[m].start);
        }
        lemma_cut_before(front, back, others);
        assert(back =~= buffer.subrange(range.end as int, buffer.len() as int));
        if range.end == buffer.len() {
            assert(cut(front, others) + back =~= cut(front, others));
        }
    }
}

/// What applying a text edit to a buffer does, said of its numbers.
pub proof fn law_what_a_text_edit_does(
    buffer: Seq<CharId>,
    offset: usize,
    text: Text,
    range: Range<usize>,
    ranges: Vec<Range<usize>>,
)
    requires
        offset <= buffer.len(),
        text.start <= text.end,
        range.start <= range.end <= buffer.len(),
    ensures
        ({
            let after = apply_text_edit(buffer, TextEdit::Insertion(offset, text));
            let n = text.end - text.start;
            &&& after.len() == buffer.len() + n
            &&& forall|i: int| 0 <= i < offset ==> #[trigger] after[i] == buffer[i]
            &&& forall|i: int|
                offset <= i < offset + n ==> (#[trigger] after[i]) == (CharId {
                    by: text.inserted_by,
                    ts: text.start + i - offset,
                })
            &&& forall|i: int|
                offset + n <= i < after.len() ==> #[trigger] after[i] == buffer[i - n]
        }),
        ({
            let after = apply_text_edit(buffer, TextEdit::ContiguousDeletion(range));
            let n = range.end - range.start;
            &&& after.len() == buffer.len() - n
            &&& forall|i: int| 0 <= i < range.start ==> #[trigger] after[i] == buffer[i]
            &&& forall|i: int|
                range.start <= i < after.len() ==> #[trigger] after[i] == buffer[i + n]
        }),
        apply_text_edit(buffer, TextEdit::SplitDeletion(ranges)) == cut(buffer, ranges@),
{
}

pub proof fn lemma_visible_concat(a: Seq<Char>, b: Seq<Char>)
    ensures
        visible(a + b) == visible(a) + visible(b),
    decreases b.len(),
{
    if b.len() == 0 {
        assert(a + b =~= a);
    } else {
        lemma_visible_concat(a, b.drop_last());
        assert((a + b).drop_last() =~= a + b.drop_last());
        assert((a + b).last() == b.last());
    }
}

/// Cutting the text at an index cuts the buffer.
pub proof fn lemma_visible_cut(doc: Seq<Char>, at: int)
    requires
        0 <= at <= doc.len(),
    ensures
        visible(doc) == visible(doc.take(at)) + visible(doc.skip(at)),
        visible(doc.take(at)).len() <= visible(doc).len(),
{
    lemma_visible_concat(doc.take(at), doc.skip(at));
    assert(doc.take(at) + doc.skip(at) =~= doc);
}

/// All characters of a part of the text are part of the buffer.
pub proof fn lemma_visible_all(doc: Seq<Char>)
    requires
        forall|i: int| 0 <= i < doc.len() ==> !(#[trigger] doc[i]).deleted,
    ensures
        visible(doc) == Seq::new(doc.len(), |i: int| doc[i].id),
    decreases doc.len(),
{
    let ids = Seq::new(doc.len(), |i: int| doc[i].id);
    if doc.len() > 0 {
        lemma_visible_all(doc.drop_last());
        assert(visible(doc) =~= ids);
    } else {
        assert(visible(doc) =~= ids);
    }
}

/// No character of a part of the text is part of the buffer.
pub proof fn lemma_visible_none(doc: Seq<Char>)
    requires
        forall|i: int| 0 <= i < doc.len() ==> (#[trigger] doc[i]).deleted,
    ensures
        visible(doc) == Seq::<CharId>::empty(),
    decreases doc.len(),
{
    if doc.len() > 0 {
        lemma_visible_none(doc.drop_last());
    }
}

/// The place of an offset is the end of the shortest part of the text that holds so many
/// characters of the buffer.
pub proof fn lemma_place(doc: Seq<Char>, offset: int)
    requires
        0 <= offset <= visible(doc).len(),
    ensures
        0 <= place_of(doc, offset) <= doc.len(),
        visible(doc.take(place_of(doc, offset))).len() == offset,
        offset > 0 ==> place_of(doc, offset) > 0 && !doc[place_of(doc, offset) - 1].deleted
            && doc[place_of(doc, offset) - 1].id == visible(doc)[offset - 1],
    decreases doc.len(),
{
    if offset <= 0 || doc.len() == 0 {
        assert(doc.take(0) =~= Seq::<Char>::empty());
    } else if visible(doc.drop_last()).len() >= offset {
        lemma_place(doc.drop_last(), offset);
        let p = place_of(doc, offset);
        assert(doc.drop_last().take(p) =~= doc.take(p));
    } else {
        assert(doc.take(doc.len() as int) =~= doc);
    }
}

/// A place whose last character is part of the buffer is the place of the number of characters of
/// the buffer before it.
pub proof fn lemma_place_at(doc: Seq<Char>, p: int)
    requires
        0 < p <= doc.len(),
        !doc[p - 1].deleted,
    ensures
        place_of(doc, visible(doc.take(p)).len() as int) == p,
        visible(doc.take(p)).len() == visible(doc.take(p - 1)).len() + 1,
        visible(doc.take(p)).len() <= visible(doc).len(),
    decreases doc.len(),
{
    lemma_visible_cut(doc, p);
    assert(doc.take(p).drop_last() =~= doc.take(p - 1));
    if p < doc.len() {
        lemma_place_at(doc.drop_last(), p);
        assert(doc.drop_last().take(p) =~= doc.take(p));
        lemma_visible_cut(doc.drop_last(), p);
    } else {
        assert(doc.take(p) =~= doc);
    }
}

/// Later offsets have later places.
pub proof fn lemma_place_ascends(doc: Seq<Char>, a: int, b: int)
    requires
        0 <= a <= b <= visible(doc).len(),
    ensures
        place_of(doc, a) <= place_of(doc, b),
        a < b ==> place_of(doc, a) < place_of(doc, b),
{
    lemma_place(doc, a);
    lemma_place(doc, b);
    let pa = place_of(doc, a);
    let pb = place_of(doc, b);
    if pb < pa {
        lemma_visible_cut(doc.take(pa), pb);
        assert(doc.take(pa).take(pb) =~= doc.take(pb));
        lemma_place_at(doc, pa);
        lemma_visible_cut(doc.take(pa - 1), pb);
        assert(doc.take(pa - 1).take(pb) =~= doc.take(pb));
    }
}

/// A buffer does not grow when characters are deleted.
pub proof fn lemma_visible_shrinks(doc: Seq<Char>, after: Seq<Char>)
    requires
        after.len() == doc.len(),
        forall|i: int| 0 <= i < doc.len() && (#[trigger] doc[i]).deleted ==> after[i].deleted,
    ensures
        visible(after).len() <= visible(doc).len(),
    decreases doc.len(),
{
    if doc.len() > 0 {
        lemma_visible_shrinks(doc.drop_last(), after.drop_last());
        assert(doc[doc.len() - 1].deleted ==> after[doc.len() - 1].deleted);
    }
}

/// A character of the buffer is found by its offset.
pub proof fn lemma_index_of_visible(doc: Seq<Char>, i: int)
    requires
        0 <= i < doc.len(),
        !doc[i].deleted,
    ensures
        index_of_visible(doc, visible(doc.take(i)).len() as int) == i,
        visible(doc.take(i)).len() < visible(doc).len(),
{
    lemma_place_at(doc, i + 1);
    assert(doc.take(i + 1).take(i) =~= doc.take(i));
}

/// What is deleted in the text is cut out of the buffer.
pub proof fn lemma_cut_is_deletion(
    doc: Seq<Char>,
    after: Seq<Char>,
    ranges: Seq<Range<usize>>,
    n: int,
)
    requires
        0 <= n <= doc.len(),
        after.len() == doc.len(),
        forall|i: int|
            0 <= i < doc.len() ==> (#[trigger] after[i]).id == doc[i].id && (doc[i].deleted
                ==> after[i].deleted),
        forall|i: int|
            0 <= i < doc.len() && !(#[trigger] doc[i]).deleted ==> (after[i].deleted <==> in_ranges(
                ranges,
                visible(doc.take(i)).len() as int,
            )),
    ensures
        visible(after.take(n)) == cut(visible(doc.take(n)), ranges),
    decreases n,
{
    if n == 0 {
        assert(doc.take(0) =~= Seq::<Char>::empty());
        assert(after.take(0) =~= Seq::<Char>::empty());
    } else {
        lemma_cut_is_deletion(doc, after, ranges, n - 1);
        assert(doc.take(n).drop_last() =~= doc.take(n - 1));
        assert(after.take(n).drop_last() =~= after.take(n - 1));
        assert(doc.take(n).last() == doc[n - 1]);
        assert(after.take(n).last() == after[n - 1]);
        if !doc[n - 1].deleted {
            let buffer = visible(doc.take(n));
            assert(buffer.drop_last() =~= visible(doc.take(n - 1)));
        }
    }
}

/// Cutting out one range leaves what is before and after it.
pub proof fn lemma_cut_one<T>(buffer: Seq<T>, range: Range<usize>)
    requires
        range.start <= range.end,
    ensures
        cut(buffer, seq![range]) == buffer.take(
            if range.start <= buffer.len() {
                range.start as int
            } else {
                buffer.len() as int
            },
        ) + buffer.skip(
            if range.end <= buffer.len() {
                range.end as int
            } else {
                buffer.len() as int
            },
        ),
    decreases buffer.len(),
{
    let ranges = seq![range];
    let lo = if range.start <= buffer.len() {
        range.start as int
    } else {
        buffer.len() as int
    };
    let hi = if range.end <= buffer.len() {
        range.end as int
    } else {
        buffer.len() as int
    };
    if buffer.len() > 0 {
        let n = buffer.len() - 1;
        lemma_cut_one(buffer.drop_last(), range);
        assert(in_ranges(ranges, n) <==> range.start <= n < range.end) by {
            assert(ranges[0] == range);
        }
        if range.start <= n < range.end {
            assert(cut(buffer, ranges) =~= buffer.take(lo) + buffer.skip(hi));
        } else {
            assert(cut(buffer, ranges) =~= buffer.take(lo) + buffer.skip(hi));
        }
    } else {
        assert(cut(buffer, ranges) =~= buffer.take(lo) + buffer.skip(hi));
    }
}

/// A character of a complete text is where its name says.
pub proof fn lemma_index_of_char(doc: Seq<Char>, versions: Map<ReplicaId, int>, i: int)
    requires
        complete(doc, versions),
        0 <= i < doc.len(),
    ensures
        index_of_char(doc, doc[i].id) == i,
{
    let j = index_of_char(doc, doc[i].id);
    assert(0 <= j < doc.len() && doc[j].id == doc[i].id);
    if i < j {
        assert(doc[i].id != doc[j].id);
    } else if j < i {
        assert(doc[j].id != doc[i].id);
    }
}

pub proof fn lemma_skip_outranking_bounds(
    doc: Seq<Char>,
    at: int,
    lamport_ts: LamportTimestamp,
    by: ReplicaId,
)
    requires
        0 <= at <= doc.len(),
    ensures
        at <= skip_outranking(doc, at, lamport_ts, by) <= doc.len(),
    decreases doc.len() - at,
{
    if at < doc.len() && outranks(doc[at].lamport_ts, doc[at].id.by, lamport_ts, by) {
        lemma_skip_outranking_bounds(doc, at + 1, lamport_ts, by);
    }
}

/// A stretch of outranking characters is skipped as a whole.
pub proof fn lemma_skip_stretch(
    doc: Seq<Char>,
    at: int,
    to: int,
    lamport_ts: LamportTimestamp,
    by: ReplicaId,
)
    requires
        0 <= at <= to <= doc.len(),
        forall|i: int|
            at <= i < to ==> outranks((#[trigger] doc[i]).lamport_ts, doc[i].id.by, lamport_ts, by),
    ensures
        skip_outranking(doc, at, lamport_ts, by) == skip_outranking(doc, to, lamport_ts, by),
    decreases to - at,
{
    if at < to {
        assert(outranks(doc[at].lamport_ts, doc[at].id.by, lamport_ts, by));
        lemma_skip_stretch(doc, at + 1, to, lamport_ts, by);
    }
}

/// What put-in characters do to the length of the buffer.
pub proof fn lemma_splice_visible(doc: Seq<Char>, at: int, chars: Seq<Char>)
    requires
        0 <= at <= doc.len(),
    ensures
        visible(splice(doc, at, chars)) == visible(doc.take(at)) + visible(chars) + visible(
            doc.skip(at),
        ),
        visible(splice(doc, at, chars)).len() == visible(doc).len() + visible(chars).len(),
{
    lemma_visible_cut(doc, at);
    lemma_visible_concat(doc.take(at), chars);
    lemma_visible_concat(doc.take(at) + chars, doc.skip(at));
}

/// A complete text stays complete when the next characters of a replica are put in anywhere.
pub proof fn lemma_splice_complete(
    doc: Seq<Char>,
    versions: Map<ReplicaId, int>,
    at: int,
    text: Text,
    anchor: Anchor,
    lamport_ts: LamportTimestamp,
    insertion_ts: InsertionTimestamp,
)
    requires
        complete(doc, versions),
        versions.dom().contains(text.inserted_by),
        0 <= at <= doc.len(),
        text.start <= text.end,
        text.start == versions[text.inserted_by],
    ensures
        complete(
            splice(doc, at, run_chars(text, anchor, lamport_ts, insertion_ts, false)),
            versions.insert(text.inserted_by, text.end as int),
        ),
{
    let chars = run_chars(text, anchor, lamport_ts, insertion_ts, false);
    let after = splice(doc, at, chars);
    let n = chars.len() as int;
    let next = versions.insert(text.inserted_by, text.end as int);
    assert forall|i: int| 0 <= i < after.len() implies 0 <= (#[trigger] after[i]).id.ts
        < next[after[i].id.by] by {
        if i < at {
            assert(after[i] == doc[i]);
        } else if i < at + n {
            assert(after[i] == chars[i - at]);
        } else {
            assert(after[i] == doc[i - n]);
        }
    }
    assert forall|i: int, j: int| 0 <= i < j < after.len() implies (#[trigger] after[i]).id != (
    #[trigger] after[j]).id by {
        let ci = if i < at {
            doc[i]
        } else if i < at + n {
            chars[i - at]
        } else {
            doc[i - n]
        };
        let cj = if j < at {
            doc[j]
        } else if j < at + n {
            chars[j - at]
        } else {
            doc[j - n]
        };
        assert(after[i] == ci);
        assert(after[j] == cj);
    }
    assert forall|id: CharId| 0 <= id.ts < next[id.by] implies #[trigger] has_char(after, id) by {
        if id.by == text.inserted_by && id.ts >= text.start {
            let k = id.ts - text.start;
            assert(after[at + k] == chars[k]);
            assert(after[at + k].id == id);
        } else {
            assert(has_char(doc, id));
            let i = choose|i: int| 0 <= i < doc.len() && (#[trigger] doc[i]).id == id;
            if i < at {
                assert(after[i] == doc[i]);
            } else {
                assert(after[i + n] == doc[i]);
            }
        }
    }
}

/// Deleting characters leaves a complete text complete.
pub proof fn lemma_same_ids_complete(
    doc: Seq<Char>,
    after: Seq<Char>,
    versions: Map<ReplicaId, int>,
)
    requires
        complete(doc, versions),
        after.len() == doc.len(),
        forall|i: int| 0 <= i < doc.len() ==> (#[trigger] after[i]).id == doc[i].id,
    ensures
        complete(after, versions),
{
    assert forall|i: int| 0 <= i < after.len() implies 0 <= (#[trigger] after[i]).id.ts
        < versions[after[i].id.by] by {
        assert(after[i].id == doc[i].id);
    }
    assert forall|i: int, j: int| 0 <= i < j < after.len() implies (#[trigger] after[i]).id != (
    #[trigger] after[j]).id by {
        assert(after[i].id == doc[i].id && after[j].id == doc[j].id);
    }
    assert forall|id: CharId| 0 <= id.ts < versions[id.by] implies #[trigger] has_char(
        after,
        id,
    ) by {
        assert(has_char(doc, id));
        let i = choose|i: int| 0 <= i < doc.len() && (#[trigger] doc[i]).id == id;
        assert(after[i].id == id);
    }
}

} // verus!
