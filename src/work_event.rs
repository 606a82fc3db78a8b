use vstd::prelude::*;
use vstd::seq_lib::{to_multiset_build, to_multiset_insert};

verus! {

/// A piece of work to log: a meeting or an issue, with the time given to it.
pub struct WorkEvent<T> {
    /// Seconds given to the item.
    pub duration: i64,
    /// Weight of the item in the allocation.
    pub score: u64,
    /// Issue key the time is logged against; empty when there is none.
    pub key: String,
    pub description: String,
    /// Start, in seconds since midnight, when the item has one.
    pub time: Option<u32>,
    pub event: T,
}

impl<T> WorkEvent<T> {
    pub fn new(
        duration: i64,
        score: u64,
        key: String,
        description: String,
        time: Option<u32>,
        event: T,
    ) -> (r: Self)
        ensures
            r.duration == duration,
            r.score == score,
            r.key == key,
            r.description == description,
            r.time == time,
            r.event == event,
    {
        WorkEvent { duration, score, key, description, time, event }
    }

    /// Only work with some time and an issue key is logged.
    pub fn should_log(&self) -> (r: bool)
        ensures
            r == (self.duration != 0 && self.key@.len() > 0),
    {
        self.duration != 0 && self.key.as_str().unicode_len() > 0
    }
}

/// The value that orders events: the score, or else the duration.
pub open spec fn order_key<T>(e: WorkEvent<T>, by_score: bool) -> int {
    if by_score {
        e.score as int
    } else {
        e.duration as int
    }
}

/// Where an event of key `k` goes in `s`: after every leading event whose key is
/// at least `k`.
pub open spec fn insert_pos<T>(s: Seq<WorkEvent<T>>, k: int, by_score: bool) -> nat
    decreases s.len(),
{
    if s.len() == 0 {
        0
    } else if order_key(s[0], by_score) >= k {
        1 + insert_pos(s.drop_first(), k, by_score)
    } else {
        0
    }
}

/// The events in decreasing order of key; events of equal key keep their order.
pub open spec fn sort_desc<T>(s: Seq<WorkEvent<T>>, by_score: bool) -> Seq<WorkEvent<T>>
    decreases s.len(),
{
    if s.len() == 0 {
        s
    } else {
        let r = sort_desc(s.drop_last(), by_score);
        r.insert(insert_pos(r, order_key(s.last(), by_score), by_score) as int, s.last())
    }
}

proof fn lemma_insert_pos_bound<T>(s: Seq<WorkEvent<T>>, k: int, by_score: bool)
    ensures
        insert_pos(s, k, by_score) <= s.len(),
    decreases s.len(),
{
    if s.len() > 0 {
        lemma_insert_pos_bound(s.drop_first(), k, by_score);
    }
}

pub proof fn lemma_sort_len<T>(s: Seq<WorkEvent<T>>, by_score: bool)
    ensures
        sort_desc(s, by_score).len() == s.len(),
    decreases s.len(),
{
    if s.len() > 0 {
        lemma_sort_len(s.drop_last(), by_score);
        let r = sort_desc(s.drop_last(), by_score);
        lemma_insert_pos_bound(r, order_key(s.last(), by_score), by_score);
    }
}

/// Keys never increase along the sequence.
pub open spec fn sorted_by_key<T>(s: Seq<WorkEvent<T>>, by_score: bool) -> bool {
    forall|i: int, j: int| 0 <= i < j < s.len() ==> order_key(#[trigger] s[i], by_score) >= order_key(#[trigger] s[j], by_score)
}

proof fn lemma_insert_pos_splits<T>(s: Seq<WorkEvent<T>>, k: int, by_score: bool)
    requires
        sorted_by_key(s, by_score),
    ensures
        insert_pos(s, k, by_score) <= s.len(),
        forall|i: int| 0 <= i < insert_pos(s, k, by_score) ==> order_key(#[trigger] s[i], by_score) >= k,
        forall|i: int| insert_pos(s, k, by_score) <= i < s.len() ==> order_key(#[trigger] s[i], by_score) < k,
    decreases s.len(),
{
    if s.len() > 0 {
        let t = s.drop_first();
        assert(sorted_by_key(t, by_score)) by {
            assert forall|i: int, j: int| 0 <= i < j < t.len() implies order_key(#[trigger] t[i], by_score) >= order_key(#[trigger] t[j], by_score) by {
                assert(t[i] == s[i + 1] && t[j] == s[j + 1]);
            }
        }
        lemma_insert_pos_splits(t, k, by_score);
        if order_key(s[0], by_score) >= k {
            assert forall|i: int| 0 <= i < insert_pos(s, k, by_score) implies order_key(#[trigger] s[i], by_score) >= k by {
                if i > 0 {
                    assert(s[i] == t[i - 1]);
                }
            }
            assert forall|i: int| insert_pos(s, k, by_score) <= i < s.len() implies order_key(#[trigger] s[i], by_score) < k by {
                assert(s[i] == t[i - 1]);
            }
        } else {
            assert forall|i: int| 0 <= i < s.len() implies order_key(#[trigger] s[i], by_score) < k by {
                if i > 0 {
                    assert(order_key(s[0], by_score) >= order_key(s[i], by_score));
                }
            }
        }
    }
}

/// Sorting leaves the keys in decreasing order.
pub proof fn lemma_sort_sorted<T>(s: Seq<WorkEvent<T>>, by_score: bool)
    ensures
        sorted_by_key(sort_desc(s, by_score), by_score),
    decreases s.len(),
{
    if s.len() > 0 {
        let r = sort_desc(s.drop_last(), by_score);
        let x = s.last();
        let k = order_key(x, by_score);
        lemma_sort_sorted(s.drop_last(), by_score);
        lemma_insert_pos_splits(r, k, by_score);
        let p = insert_pos(r, k, by_score) as int;
        let q = r.insert(p, x);
        assert forall|i: int, j: int| 0 <= i < j < q.len() implies order_key(#[trigger] q[i], by_score) >= order_key(#[trigger] q[j], by_score) by {
            if i < p {
                assert(q[i] == r[i]);
                if j < p {
                    assert(q[j] == r[j]);
                } else if j > p {
                    assert(q[j] == r[j - 1]);
                }
            } else if i == p {
                assert(q[j] == r[j - 1]);
            } else {
                assert(q[i] == r[i - 1]);
                assert(q[j] == r[j - 1]);
            }
        }
    }
}

/// Sorting keeps every event that all events satisfy a bound on the score.
pub proof fn lemma_sort_keeps_score_bound<T>(s: Seq<WorkEvent<T>>, by_score: bool, bound: int)
    requires
        forall|k: int| 0 <= k < s.len() ==> (#[trigger] s[k]).score <= bound,
    ensures
        forall|k: int| 0 <= k < sort_desc(s, by_score).len() ==> (#[trigger] sort_desc(s, by_score)[k]).score <= bound,
    decreases s.len(),
{
    if s.len() > 0 {
        let t = s.drop_last();
        assert forall|k: int| 0 <= k < t.len() implies (#[trigger] t[k]).score <= bound by {
            assert(t[k] == s[k]);
        }
        lemma_sort_keeps_score_bound(t, by_score, bound);
        let r = sort_desc(t, by_score);
        let x = s.last();
        lemma_insert_pos_bound(r, order_key(x, by_score), by_score);
        let p = insert_pos(r, order_key(x, by_score), by_score) as int;
        let q = r.insert(p, x);
        assert forall|k: int| 0 <= k < q.len() implies (#[trigger] q[k]).score <= bound by {
            if k < p {
                assert(q[k] == r[k]);
            } else if k > p {
                assert(q[k] == r[k - 1]);
            }
        }
    }
}

/// Every event of the sorted sequence is an event of the input.
pub proof fn lemma_sort_members<T>(s: Seq<WorkEvent<T>>, by_score: bool)
    ensures
        forall|k: int| 0 <= k < sort_desc(s, by_score).len() ==> exists|m: int| 0 <= m < s.len() && #[trigger] sort_desc(s, by_score)[k] == s[m],
    decreases s.len(),
{
    if s.len() > 0 {
        let t = s.drop_last();
        lemma_sort_members(t, by_score);
        let r = sort_desc(t, by_score);
        let x = s.last();
        lemma_insert_pos_bound(r, order_key(x, by_score), by_score);
        let p = insert_pos(r, order_key(x, by_score), by_score) as int;
        let q = r.insert(p, x);
        assert forall|k: int| 0 <= k < q.len() implies exists|m: int| 0 <= m < s.len() && #[trigger] q[k] == s[m] by {
            if k < p {
                assert(q[k] == r[k]);
                let m = choose|m: int| 0 <= m < t.len() && r[k] == t[m];
                assert(s[m] == t[m]);
            } else if k > p {
                assert(q[k] == r[k - 1]);
                let m = choose|m: int| 0 <= m < t.len() && r[k - 1] == t[m];
                assert(s[m] == t[m]);
            } else {
                assert(q[k] == s[s.len() - 1]);
            }
        }
    }
}

/// Sorting only reorders the events.
pub proof fn lemma_sort_permutes<T>(s: Seq<WorkEvent<T>>, by_score: bool)
    ensures
        sort_desc(s, by_score).to_multiset() == s.to_multiset(),
    decreases s.len(),
{
    if s.len() > 0 {
        let t = s.drop_last();
        let x = s.last();
        lemma_sort_permutes(t, by_score);
        let r = sort_desc(t, by_score);
        lemma_insert_pos_bound(r, order_key(x, by_score), by_score);
        to_multiset_insert(r, insert_pos(r, order_key(x, by_score), by_score) as int, x);
        to_multiset_build(t, x);
        assert(t.push(x) =~= s);
    }
}

/// `idx` places each output position at a distinct input position, and events
/// of equal key keep the order they had in the input.
pub open spec fn stable_index<T>(out: Seq<WorkEvent<T>>, inp: Seq<WorkEvent<T>>, idx: Seq<int>, by_score: bool) -> bool {
    &&& idx.len() == out.len()
    &&& out.len() == inp.len()
    &&& forall|k: int| 0 <= k < idx.len() ==> 0 <= #[trigger] idx[k] < inp.len() && out[k] == inp[idx[k]]
    &&& forall|k: int, l: int| 0 <= k < idx.len() && 0 <= l < idx.len() && k != l ==> #[trigger] idx[k] != #[trigger] idx[l]
    &&& forall|k: int, l: int| 0 <= k < l < idx.len() && order_key(out[k], by_score) == order_key(out[l], by_score)
        ==> #[trigger] idx[k] < #[trigger] idx[l]
}

/// Sorting is a stable permutation: each sorted event is an input event, no input
/// event is used twice, and events of equal key keep their input order.
pub proof fn lemma_sort_stable<T>(s: Seq<WorkEvent<T>>, by_score: bool) -> (idx: Seq<int>)
    ensures
        stable_index(sort_desc(s, by_score), s, idx, by_score),
    decreases s.len(),
{
    if s.len() == 0 {
        Seq::empty()
    } else {
        let t = s.drop_last();
        let x = s.last();
        let n = s.len() as int;
        let it = lemma_sort_stable(t, by_score);
        let r = sort_desc(t, by_score);
        lemma_sort_sorted(t, by_score);
        lemma_insert_pos_splits(r, order_key(x, by_score), by_score);
        let p = insert_pos(r, order_key(x, by_score), by_score) as int;
        let q = r.insert(p, x);
        let idx = it.insert(p, n - 1);
        assert forall|k: int| 0 <= k < idx.len() implies 0 <= #[trigger] idx[k] < s.len() && q[k] == s[idx[k]] by {
            if k < p {
                assert(idx[k] == it[k] && q[k] == r[k] && t[it[k]] == s[it[k]]);
            } else if k > p {
                assert(idx[k] == it[k - 1] && q[k] == r[k - 1] && t[it[k - 1]] == s[it[k - 1]]);
            }
        }
        assert forall|k: int, l: int| 0 <= k < idx.len() && 0 <= l < idx.len() && k != l implies #[trigger] idx[k] != #[trigger] idx[l] by {
            let a = if k < p { k } else { k - 1 };
            let b = if l < p { l } else { l - 1 };
            if k != p && l != p {
                assert(idx[k] == it[a] && idx[l] == it[b]);
            } else if k == p {
                assert(idx[l] == it[b]);
            } else {
                assert(idx[k] == it[a]);
            }
        }
        assert forall|k: int, l: int| 0 <= k < l < idx.len() && order_key(q[k], by_score) == order_key(q[l], by_score)
            implies #[trigger] idx[k] < #[trigger] idx[l] by {
            if l < p {
                assert(idx[k] == it[k] && idx[l] == it[l] && q[k] == r[k] && q[l] == r[l]);
            } else if k > p {
                assert(idx[k] == it[k - 1] && idx[l] == it[l - 1] && q[k] == r[k - 1] && q[l] == r[l - 1]);
            } else if k < p && l > p {
                assert(idx[k] == it[k] && idx[l] == it[l - 1] && q[k] == r[k] && q[l] == r[l - 1]);
            } else if k == p {
                assert(q[l] == r[l - 1]);
                assert(order_key(r[l - 1], by_score) < order_key(x, by_score));
            } else {
                assert(idx[k] == it[k]);
            }
        }
        idx
    }
}

fn key_of<T>(e: &WorkEvent<T>, by_score: bool) -> (r: i128)
    ensures
        r == order_key(*e, by_score),
{
    if by_score {
        e.score as i128
    } else {
        e.duration as i128
    }
}

fn insert_ordered<T>(out: &mut Vec<WorkEvent<T>>, e: WorkEvent<T>, by_score: bool)
    ensures
        final(out)@ == old(out)@.insert(
            insert_pos(old(out)@, order_key(e, by_score), by_score) as int,
            e,
        ),
{
    let k = key_of(&e, by_score);
    let mut p: usize = 0;
    assert(out@.skip(0) =~= out@);
    while p < out.len()
        invariant
            p <= out.len(),
            out@ == old(out)@,
            k == order_key(e, by_score),
            insert_pos(out@, k as int, by_score) == p + insert_pos(out@.skip(p as int), k as int, by_score),
        ensures
            p <= out.len(),
            out@ == old(out)@,
            insert_pos(out@, k as int, by_score) == p,
        decreases out.len() - p,
    {
        assert(out@.skip(p as int).drop_first() =~= out@.skip(p + 1));
        if key_of(&out[p], by_score) < k {
            break;
        }
        p = p + 1;
    }
    proof {
        lemma_insert_pos_bound(out@, k as int, by_score);
    }
    out.insert(p, e);
}

/// Sorts events by decreasing key, keeping the order of events of equal key.
pub fn sort_events<T>(events: Vec<WorkEvent<T>>, by_score: bool) -> (r: Vec<WorkEvent<T>>)
    ensures
        r@ == sort_desc(events@, by_score),
        sorted_by_key(r@, by_score),
        r@.to_multiset() == events@.to_multiset(),
        exists|idx: Seq<int>| #[trigger] stable_index(r@, events@, idx, by_score),
{
    proof {
        lemma_sort_sorted(events@, by_score);
        lemma_sort_permutes(events@, by_score);
        let idx = lemma_sort_stable(events@, by_score);
    }
    let ghost orig = events@;
    let n = events.len();
    let mut rest = events;
    let mut out: Vec<WorkEvent<T>> = Vec::new();
    let mut i: usize = 0;
    assert(orig.take(0) =~= Seq::<WorkEvent<T>>::empty());
    assert(orig.skip(0) =~= orig);
    while rest.len() > 0
        invariant
            i + rest.len() == orig.len(),
            orig.len() == n,
            rest@ == orig.skip(i as int),
            out@ == sort_desc(orig.take(i as int), by_score),
        decreases rest.len(),
    {
        let e = rest.remove(0);
        assert(orig.take(i + 1).drop_last() =~= orig.take(i as int));
        assert(orig.take(i + 1).last() == e);
        assert(rest@ =~= orig.skip(i + 1));
        insert_ordered(&mut out, e, by_score);
        i = i + 1;
    }
    assert(orig.take(i as int) =~= orig);
    out
}

/// Sorts events by decreasing duration, keeping the order of events of equal duration.
pub fn to_sorted_events<T>(events: Vec<WorkEvent<T>>) -> (r: Vec<WorkEvent<T>>)
    ensures
        r@ == sort_desc(events@, false),
        sorted_by_key(r@, false),
        r@.to_multiset() == events@.to_multiset(),
        exists|idx: Seq<int>| #[trigger] stable_index(r@, events@, idx, false),
{
    sort_events(events, false)
}

/// Sum of the durations of some events.
pub open spec fn duration_sum<T>(s: Seq<WorkEvent<T>>) -> int
    decreases s.len(),
{
    if s.len() == 0 {
        0
    } else {
        duration_sum(s.drop_last()) + s.last().duration
    }
}

pub fn total_duration<T>(events: &Vec<WorkEvent<T>>) -> (r: i128)
    ensures
        r == duration_sum(events@),
{
    let mut sum: i128 = 0;
    let mut i: usize = 0;
    while i < events.len()
        invariant
            0 <= i <= events.len(),
            sum == duration_sum(events@.take(i as int)),
            -0x8000_0000_0000_0000 * (i as int) <= sum <= 0x8000_0000_0000_0000 * (i as int),
        decreases events.len() - i,
    {
        assert(events@.take(i + 1).drop_last() =~= events@.take(i as int));
        sum = sum + events[i].duration as i128;
        i = i + 1;
    }
    assert(events@.take(i as int) =~= events@);
    sum
}

} // verus!
