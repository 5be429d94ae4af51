//! The order of the characters of a text, which does not depend on when they are integrated.
//!
//! The anchors make a tree of the characters: the parent of a character is the one that it was
//! inserted after. In the text a character comes before its children, and of two children of a
//! character the one that outranks the other comes first, with everything below it.

use vstd::prelude::*;

use crate::model::{char_before, outranks, Char, CharId};

verus! {

/// All characters that have been inserted in a session, as they were inserted.
pub type Births = Map<CharId, Char>;

/// The character that a character was inserted after.
pub open spec fn parent(c: Char) -> CharId {
    char_before(c.anchor)
}

/// Whether a character may have been inserted after another one: it carries a later timestamp, or
/// it follows it in the same insertion.
pub open spec fn follows(c: Char, before: Char) -> bool {
    ||| before.lamport_ts < c.lamport_ts
    ||| before.lamport_ts == c.lamport_ts && before.id == (CharId {
        by: c.id.by,
        ts: c.id.ts - 1,
    })
}

/// What holds of the characters of a session: the characters of a replica have ascending
/// timestamps, equal ones only where each follows the one before, and each character was inserted
/// after one that its replica knew.
pub open spec fn causal(births: Births) -> bool {
    &&& forall|id: CharId| #[trigger]
        births.contains_key(id) ==> id.ts >= 0 && births[id].id == id && !births[id].deleted
    &&& forall|id: CharId|
        #[trigger] births.contains_key(id) && !births[id].anchor.is_origin() ==> {
            &&& births.contains_key(parent(births[id]))
            &&& follows(births[id], births[parent(births[id])])
        }
    &&& forall|id: CharId, ts: int|
        births.contains_key(id) && 0 <= ts < id.ts ==> {
            &&& #[trigger] births.contains_key(CharId { by: id.by, ts })
            &&& births[CharId { by: id.by, ts }].lamport_ts <= births[id].lamport_ts
            &&& births[CharId { by: id.by, ts }].lamport_ts == births[id].lamport_ts ==> {
                &&& !births[id].anchor.is_origin()
                &&& parent(births[id]) == CharId { by: id.by, ts: id.ts - 1 }
            }
        }
}

/// The characters from the root of the tree down to a character.
pub open spec fn path(births: Births, id: CharId) -> Seq<Char>
    decreases births[id].lamport_ts, id.ts,
{
    let c = births[id];
    let p = parent(c);
    if births.contains_key(id) && !c.anchor.is_origin() && births.contains_key(p) && 0 <= p.ts
        && 0 <= id.ts && (births[p].lamport_ts < c.lamport_ts || (births[p].lamport_ts
        == c.lamport_ts && p.ts < id.ts)) {
        path(births, p).push(c)
    } else {
        seq![c]
    }
}

/// Whether one character comes before another one that was inserted in the same place.
pub open spec fn ranks_over(a: Char, b: Char) -> bool {
    outranks(a.lamport_ts, a.id.by, b.lamport_ts, b.id.by)
}

/// The paths part at `k`, and the end of the first one comes before that of the second.
pub open spec fn part_at(p: Seq<Char>, q: Seq<Char>, k: int) -> bool {
    &&& 0 <= k <= p.len()
    &&& k < q.len()
    &&& forall|i: int| 0 <= i < k ==> #[trigger] p[i] == q[i]
    &&& k == p.len() || ranks_over(p[k], q[k])
}

/// Whether the character at the end of one path comes before that at the end of another.
pub open spec fn ahead(p: Seq<Char>, q: Seq<Char>) -> bool {
    exists|k: int| #[trigger] part_at(p, q, k)
}

/// Whether a character comes before another one in the text.
pub open spec fn comes_before(births: Births, a: CharId, b: CharId) -> bool {
    ahead(path(births, a), path(births, b))
}

pub proof fn lemma_ahead_irreflexive(p: Seq<Char>)
    ensures
        !ahead(p, p),
{
}

pub proof fn lemma_ahead_transitive(p: Seq<Char>, q: Seq<Char>, r: Seq<Char>)
    requires
        ahead(p, q),
        ahead(q, r),
    ensures
        ahead(p, r),
{
    let i = choose|k: int| #[trigger] part_at(p, q, k);
    let j = choose|k: int| #[trigger] part_at(q, r, k);
    let k = if i <= j {
        i
    } else {
        j
    };
    assert forall|l: int| 0 <= l < k implies #[trigger] p[l] == r[l] by {
        assert(p[l] == q[l]);
        assert(q[l] == r[l]);
    }
    if j < i {
        assert(p[j] == q[j]);
    } else if i < j {
        assert(q[i] == r[i]);
    }
    assert(part_at(p, r, k));
}

/// A path leads from the root to its character, from parent to child.
pub proof fn lemma_path(births: Births, id: CharId)
    requires
        causal(births),
        births.contains_key(id),
    ensures
        path(births, id).len() > 0,
        path(births, id).last() == births[id],
        path(births, id)[0].anchor.is_origin(),
        forall|i: int|
            0 <= i < path(births, id).len() ==> {
                let c = #[trigger] path(births, id)[i];
                &&& births.contains_key(c.id)
                &&& c == births[c.id]
                &&& path(births, c.id) == path(births, id).take(i + 1)
            },
        forall|i: int|
            0 < i < path(births, id).len() ==> {
                let c = #[trigger] path(births, id)[i];
                &&& !c.anchor.is_origin()
                &&& parent(c) == path(births, id)[i - 1].id
                &&& follows(c, path(births, id)[i - 1])
            },
    decreases births[id].lamport_ts, id.ts,
{
    let c = births[id];
    let whole = path(births, id);
    if c.anchor.is_origin() {
        assert(whole.take(1) =~= whole);
    } else {
        let p = parent(c);
        lemma_path(births, p);
        let front = path(births, p);
        assert(whole == front.push(c));
        assert forall|i: int| 0 <= i < whole.len() implies {
            let d = #[trigger] whole[i];
            &&& births.contains_key(d.id)
            &&& d == births[d.id]
            &&& path(births, d.id) == whole.take(i + 1)
        } by {
            if i < front.len() {
                assert(whole[i] == front[i]);
                assert(whole.take(i + 1) =~= front.take(i + 1));
            } else {
                assert(whole.take(i + 1) =~= whole);
            }
        }
        assert forall|i: int| 0 < i < whole.len() implies {
            let d = #[trigger] whole[i];
            &&& !d.anchor.is_origin()
            &&& parent(d) == whole[i - 1].id
            &&& follows(d, whole[i - 1])
        } by {
            if i < front.len() {
                assert(whole[i] == front[i]);
                assert(whole[i - 1] == front[i - 1]);
            } else {
                assert(whole[i - 1] == front.last());
            }
        }
    }
}

/// Timestamps ascend along a path, and stay equal only along the characters of one replica.
pub proof fn lemma_path_ascends(births: Births, id: CharId, i: int, j: int)
    requires
        causal(births),
        births.contains_key(id),
        0 <= i <= j < path(births, id).len(),
    ensures
        path(births, id)[i].lamport_ts <= path(births, id)[j].lamport_ts,
        path(births, id)[i].lamport_ts == path(births, id)[j].lamport_ts ==> path(
            births,
            id,
        )[i].id.by == path(births, id)[j].id.by,
    decreases j - i,
{
    lemma_path(births, id);
    if i < j {
        lemma_path_ascends(births, id, i, j - 1);
        let p = path(births, id);
        assert(follows(p[j], p[j - 1]));
    }
}

/// Two characters that were inserted in the same place differ in rank.
pub proof fn lemma_siblings(births: Births, a: CharId, b: CharId)
    requires
        causal(births),
        births.contains_key(a),
        births.contains_key(b),
        a != b,
        births[a].anchor.is_origin() == births[b].anchor.is_origin(),
        !births[a].anchor.is_origin() ==> parent(births[a]) == parent(births[b]),
    ensures
        ranks_over(births[a], births[b]) || ranks_over(births[b], births[a]),
{
    if a.by == b.by && births[a].lamport_ts == births[b].lamport_ts {
        if a.ts < b.ts {
            lemma_no_twin(births, a, b);
        } else {
            lemma_no_twin(births, b, a);
        }
    } else if a.by.0 == b.by.0 {
        assert(a.by == b.by);
    }
}

/// Characters of the same replica and with the same timestamp were inserted in different places.
proof fn lemma_no_twin(births: Births, a: CharId, b: CharId)
    requires
        causal(births),
        births.contains_key(a),
        births.contains_key(b),
        a.by == b.by,
        a.ts < b.ts,
        births[a].lamport_ts == births[b].lamport_ts,
    ensures
        !births[b].anchor.is_origin(),
        births[a].anchor.is_origin() || parent(births[a]) != parent(births[b]),
{
    assert(CharId { by: b.by, ts: a.ts } == a);
    assert(births.contains_key(CharId { by: b.by, ts: a.ts }));
    let before = CharId { by: b.by, ts: b.ts - 1 };
    assert(parent(births[b]) == before);
    if !births[a].anchor.is_origin() && parent(births[a]) == before {
        assert(follows(births[a], births[before]));
        if a.ts < before.ts {
            assert(CharId { by: before.by, ts: a.ts } == a);
            assert(births.contains_key(CharId { by: before.by, ts: a.ts }));
        }
    }
}

/// The index at which two paths part, searched from `k` on.
proof fn lemma_first_difference(p: Seq<Char>, q: Seq<Char>, k: int) -> (d: int)
    requires
        0 <= k <= p.len(),
        k <= q.len(),
        forall|i: int| 0 <= i < k ==> #[trigger] p[i] == q[i],
    ensures
        k <= d <= p.len(),
        d <= q.len(),
        forall|i: int| 0 <= i < d ==> #[trigger] p[i] == q[i],
        d == p.len() || d == q.len() || p[d] != q[d],
    decreases p.len() - k,
{
    if k == p.len() || k == q.len() || p[k] != q[k] {
        k
    } else {
        lemma_first_difference(p, q, k + 1)
    }
}

/// Of two characters one comes before the other.
pub proof fn lemma_order_total(births: Births, a: CharId, b: CharId)
    requires
        causal(births),
        births.contains_key(a),
        births.contains_key(b),
        a != b,
    ensures
        comes_before(births, a, b) || comes_before(births, b, a),
{
    let p = path(births, a);
    let q = path(births, b);
    lemma_path(births, a);
    lemma_path(births, b);
    let d = lemma_first_difference(p, q, 0);
    if d == p.len() && d == q.len() {
        assert(p[d - 1] == q[d - 1]);
        assert(p.last() == q.last());
    } else if d == p.len() {
        assert(part_at(p, q, d));
    } else if d == q.len() {
        assert(part_at(q, p, d));
    } else {
        if d > 0 {
            assert(p[d - 1] == q[d - 1]);
        }
        lemma_siblings(births, p[d].id, q[d].id);
        if ranks_over(p[d], q[d]) {
            assert(part_at(p, q, d));
        } else {
            assert(part_at(q, p, d));
        }
    }
}

/// Of two characters only one comes before the other.
pub proof fn lemma_order_strict(births: Births, a: CharId, b: CharId)
    requires
        comes_before(births, a, b),
    ensures
        a != b,
        !comes_before(births, b, a),
{
    lemma_ahead_irreflexive(path(births, a));
    if comes_before(births, b, a) {
        lemma_ahead_transitive(path(births, a), path(births, b), path(births, a));
    }
}

/// Whether one map holds everything that another one does.
pub open spec fn keeps<K, V>(grown: Map<K, V>, map: Map<K, V>) -> bool {
    forall|key: K| #[trigger]
        map.contains_key(key) ==> grown.contains_key(key) && grown[key] == map[key]
}

/// What is inserted later does not change the order of what is there.
pub proof fn lemma_path_kept(births: Births, grown: Births, id: CharId)
    requires
        causal(births),
        causal(grown),
        keeps(grown, births),
        births.contains_key(id),
    ensures
        path(grown, id) == path(births, id),
    decreases births[id].lamport_ts, id.ts,
{
    assert(grown[id] == births[id]);
    if !births[id].anchor.is_origin() {
        let p = parent(births[id]);
        assert(births.contains_key(p));
        lemma_path_kept(births, grown, p);
    }
}

} // verus!
