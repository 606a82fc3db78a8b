use vstd::prelude::*;

use crate::meeting::Meeting;

verus! {

/// `a` spans all of `b`: it starts no later and ends no earlier.
pub open spec fn covers(a: Meeting, b: Meeting) -> bool {
    a.start_time <= b.start_time && a.end_time >= b.end_time
}

/// The open intervals of `a` and `b` intersect.
pub open spec fn overlaps(a: Meeting, b: Meeting) -> bool {
    a.start_time < b.end_time && b.start_time < a.end_time
}

/// `a` starts first and ends inside `b`.
pub open spec fn leads_into(a: Meeting, b: Meeting) -> bool {
    a.start_time < b.start_time && a.end_time > b.start_time && a.end_time < b.end_time
}

/// `a` starts inside `b` and ends after it.
pub open spec fn trails_out_of(a: Meeting, b: Meeting) -> bool {
    a.start_time > b.start_time && a.start_time < b.end_time && a.end_time > b.end_time
}

/// Two meetings compete for the same time: one spans the other, or they overlap.
pub open spec fn conflict(a: Meeting, b: Meeting) -> bool {
    covers(a, b) || covers(b, a) || overlaps(a, b)
}

/// No two meetings at distinct positions of `s` compete for the same time.
pub open spec fn pairwise_separate(s: Seq<Meeting>) -> bool {
    forall|i: int, j: int|
        0 <= i < s.len() && 0 <= j < s.len() && i != j ==> !#[trigger] conflict(s[i], s[j])
}

/// Meeting `a`, under examination, drops `b`: `a` spans `b`, or they partly
/// overlap and `a` lasts at least as long (on equal durations the meeting under
/// examination stays).
pub open spec fn beats(a: Meeting, b: Meeting) -> bool {
    covers(a, b) || ((leads_into(a, b) || trails_out_of(a, b)) && a.duration >= b.duration)
}

/// Meeting `a`, under examination, is dropped because of `b`: they partly
/// overlap and `b` lasts longer, or `b` spans `a`.
pub open spec fn loses(a: Meeting, b: Meeting) -> bool {
    !beats(a, b) && (leads_into(a, b) || trails_out_of(a, b) || covers(b, a))
}

/// Compares `a` against the pool in order. Returns whether `a` survives, and
/// the pool left: the meetings that `a` dropped are gone, and the comparison
/// stops at the first meeting that drops `a`.
pub open spec fn sweep(a: Meeting, pool: Seq<Meeting>) -> (bool, Seq<Meeting>)
    decreases pool.len(),
{
    if pool.len() == 0 {
        (true, pool)
    } else if beats(a, pool[0]) {
        sweep(a, pool.drop_first())
    } else if loses(a, pool[0]) {
        (false, pool)
    } else {
        let r = sweep(a, pool.drop_first());
        (r.0, seq![pool[0]] + r.1)
    }
}

/// The meetings kept when the pool is processed from the front: each is taken
/// out, compared against all that remain, and kept if nothing dropped it.
pub open spec fn resolve(pool: Seq<Meeting>) -> Seq<Meeting>
    decreases pool.len(),
    via resolve_decreases
{
    if pool.len() == 0 {
        pool
    } else {
        let r = sweep(pool[0], pool.drop_first());
        if r.0 {
            seq![pool[0]] + resolve(r.1)
        } else {
            resolve(r.1)
        }
    }
}

#[via_fn]
proof fn resolve_decreases(pool: Seq<Meeting>) {
    if pool.len() > 0 {
        lemma_sweep_shrinks(pool[0], pool.drop_first());
    }
}

/// The pool left by a sweep is a part of the pool, in order.
proof fn lemma_sweep_shrinks(a: Meeting, pool: Seq<Meeting>)
    ensures
        sweep(a, pool).1.len() <= pool.len(),
        forall|x: Meeting| sweep(a, pool).1.contains(x) ==> pool.contains(x),
    decreases pool.len(),
{
    if pool.len() > 0 {
        let rest = pool.drop_first();
        lemma_sweep_shrinks(a, rest);
        let r = sweep(a, rest);
        if !beats(a, pool[0]) && !loses(a, pool[0]) {
            assert forall|x: Meeting| (seq![pool[0]] + r.1).contains(x) implies pool.contains(x) by {
                let k = choose|k: int| 0 <= k < (seq![pool[0]] + r.1).len() && (seq![pool[0]] + r.1)[k] == x;
                if k > 0 {
                    assert(r.1[k - 1] == x);
                    assert(r.1.contains(x));
                    assert(rest.contains(x));
                    let m = choose|m: int| 0 <= m < rest.len() && rest[m] == x;
                    assert(pool[m + 1] == x);
                } else {
                    assert(pool[0] == x);
                }
            }
        } else if beats(a, pool[0]) {
            assert forall|x: Meeting| r.1.contains(x) implies pool.contains(x) by {
                assert(rest.contains(x));
                let m = choose|m: int| 0 <= m < rest.len() && rest[m] == x;
                assert(pool[m + 1] == x);
            }
        }
    }
}

/// Neither meeting drops the other only when they do not compete for time.
proof fn lemma_no_rule_no_conflict(a: Meeting, b: Meeting)
    requires
        !beats(a, b),
        !loses(a, b),
    ensures
        !conflict(a, b),
        !conflict(b, a),
{
}

/// A meeting that survives its sweep competes with none of the pool left.
proof fn lemma_sweep_clears(a: Meeting, pool: Seq<Meeting>)
    requires
        sweep(a, pool).0,
    ensures
        forall|x: Meeting| sweep(a, pool).1.contains(x) ==> !conflict(a, x) && !conflict(x, a),
    decreases pool.len(),
{
    if pool.len() > 0 {
        let rest = pool.drop_first();
        if beats(a, pool[0]) {
            lemma_sweep_clears(a, rest);
        } else if !loses(a, pool[0]) {
            lemma_sweep_clears(a, rest);
            lemma_no_rule_no_conflict(a, pool[0]);
            let r = sweep(a, rest);
            assert forall|x: Meeting| (seq![pool[0]] + r.1).contains(x) implies !conflict(a, x)
                && !conflict(x, a) by {
                let k = choose|k: int| 0 <= k < (seq![pool[0]] + r.1).len() && (seq![pool[0]] + r.1)[k] == x;
                if k > 0 {
                    assert(r.1[k - 1] == x);
                    assert(r.1.contains(x));
                }
            }
        }
    }
}

/// A meeting that competes with nothing in the pool survives and leaves it whole.
proof fn lemma_sweep_free(a: Meeting, pool: Seq<Meeting>)
    requires
        forall|k: int| 0 <= k < pool.len() ==> !#[trigger] conflict(a, pool[k]),
    ensures
        sweep(a, pool) == (true, pool),
    decreases pool.len(),
{
    if pool.len() > 0 {
        let rest = pool.drop_first();
        assert(!conflict(a, pool[0]));
        assert forall|k: int| 0 <= k < rest.len() implies !#[trigger] conflict(a, rest[k]) by {
            assert(rest[k] == pool[k + 1]);
        }
        lemma_sweep_free(a, rest);
        assert(seq![pool[0]] + rest =~= pool);
    }
}

/// Every kept meeting comes from the pool, and no two kept meetings compete for time.
pub proof fn lemma_resolve_separate(pool: Seq<Meeting>)
    ensures
        forall|x: Meeting| resolve(pool).contains(x) ==> pool.contains(x),
        pairwise_separate(resolve(pool)),
    decreases pool.len(),
{
    if pool.len() > 0 {
        let a = pool[0];
        let r = sweep(a, pool.drop_first());
        lemma_sweep_shrinks(a, pool.drop_first());
        lemma_resolve_separate(r.1);
        let tail = resolve(r.1);
        assert forall|x: Meeting| tail.contains(x) implies pool.contains(x) by {
            assert(r.1.contains(x));
            assert(pool.drop_first().contains(x));
            let m = choose|m: int| 0 <= m < pool.drop_first().len() && pool.drop_first()[m] == x;
            assert(pool[m + 1] == x);
        }
        if r.0 {
            lemma_sweep_clears(a, pool.drop_first());
            let s = seq![a] + tail;
            assert forall|x: Meeting| s.contains(x) implies pool.contains(x) by {
                let k = choose|k: int| 0 <= k < s.len() && s[k] == x;
                if k > 0 {
                    assert(tail[k - 1] == x);
                    assert(tail.contains(x));
                } else {
                    assert(pool[0] == x);
                }
            }
            assert forall|i: int, j: int|
                0 <= i < s.len() && 0 <= j < s.len() && i != j implies !#[trigger] conflict(
                s[i],
                s[j],
            ) by {
                if i > 0 && j > 0 {
                    assert(s[i] == tail[i - 1]);
                    assert(s[j] == tail[j - 1]);
                } else if i == 0 {
                    assert(tail[j - 1] == s[j]);
                    assert(tail.contains(s[j]));
                    assert(r.1.contains(s[j]));
                } else {
                    assert(tail[i - 1] == s[i]);
                    assert(tail.contains(s[i]));
                    assert(r.1.contains(s[i]));
                }
            }
        }
    }
}

/// Resolving a set of meetings of which no two compete for time keeps all of
/// them, in order.
pub proof fn lemma_resolve_keeps_separate(s: Seq<Meeting>)
    requires
        pairwise_separate(s),
    ensures
        resolve(s) == s,
    decreases s.len(),
{
    if s.len() > 0 {
        let rest = s.drop_first();
        assert forall|k: int| 0 <= k < rest.len() implies !#[trigger] conflict(s[0], rest[k]) by {
            assert(rest[k] == s[k + 1]);
        }
        lemma_sweep_free(s[0], rest);
        assert forall|i: int, j: int|
            0 <= i < rest.len() && 0 <= j < rest.len() && i != j implies !#[trigger] conflict(
            rest[i],
            rest[j],
        ) by {
            assert(rest[i] == s[i + 1]);
            assert(rest[j] == s[j + 1]);
        }
        lemma_resolve_keeps_separate(rest);
        assert(seq![s[0]] + rest =~= s);
    }
}

/// Resolving twice is resolving once.
pub proof fn lemma_resolve_idempotent(s: Seq<Meeting>)
    ensures
        resolve(resolve(s)) == resolve(s),
{
    lemma_resolve_separate(s);
    lemma_resolve_keeps_separate(resolve(s));
}

fn beats_exec(a: &Meeting, b: &Meeting) -> (r: bool)
    ensures
        r == beats(*a, *b),
{
    (a.start_time <= b.start_time && a.end_time >= b.end_time) || (((a.start_time < b.start_time
        && a.end_time > b.start_time && a.end_time < b.end_time) || (a.start_time > b.start_time
        && a.start_time < b.end_time && a.end_time > b.end_time)) && a.duration >= b.duration)
}

fn loses_exec(a: &Meeting, b: &Meeting) -> (r: bool)
    ensures
        r == loses(*a, *b),
{
    !beats_exec(a, b) && ((a.start_time < b.start_time && a.end_time > b.start_time && a.end_time
        < b.end_time) || (a.start_time > b.start_time && a.start_time < b.end_time && a.end_time
        > b.end_time) || (b.start_time <= a.start_time && b.end_time >= a.end_time))
}

/// Compares `a` against every meeting of the pool, removing those it drops.
fn sweep_pool(a: &Meeting, pool: &mut Vec<Meeting>) -> (keep: bool)
    ensures
        (keep, final(pool)@) == sweep(*a, old(pool)@),
{
    let ghost orig = pool@;
    let mut i: usize = 0;
    assert(pool@.skip(0) =~= pool@);
    assert(pool@.take(0) + pool@ =~= pool@);
    while i < pool.len()
        invariant
            0 <= i <= pool.len(),
            orig == old(pool)@,
            sweep(*a, orig) == (sweep(*a, pool@.skip(i as int)).0, pool@.take(i as int) + sweep(
                *a,
                pool@.skip(i as int),
            ).1),
        decreases pool.len() - i,
    {
        let ghost before = pool@;
        assert(before.skip(i as int).drop_first() =~= before.skip(i + 1));
        assert(before.skip(i as int)[0] == before[i as int]);
        if beats_exec(a, &pool[i]) {
            pool.remove(i);
            assert(pool@.skip(i as int) =~= before.skip(i + 1));
            assert(pool@.take(i as int) =~= before.take(i as int));
        } else if loses_exec(a, &pool[i]) {
            assert(sweep(*a, pool@.skip(i as int)) == (false, pool@.skip(i as int)));
            assert(pool@.take(i as int) + pool@.skip(i as int) =~= pool@);
            return false;
        } else {
            let ghost r = sweep(*a, before.skip(i + 1));
            assert(before.take(i as int) + (seq![before[i as int]] + r.1) =~= before.take(i + 1)
                + r.1);
            i += 1;
        }
    }
    assert(pool@.skip(i as int) =~= Seq::<Meeting>::empty());
    assert(pool@.take(i as int) =~= pool@);
    true
}

/// Removes the meetings that compete for time with another, by the rules of
/// `beats` and `loses`, keeping the survivors in the order given.
pub fn remove_overlaps(meetings: Vec<Meeting>) -> (r: Vec<Meeting>)
    ensures
        r@ == resolve(meetings@),
        pairwise_separate(r@),
{
    let ghost orig = meetings@;
    let mut pool = meetings;
    let mut kept: Vec<Meeting> = Vec::new();
    while pool.len() > 0
        invariant
            kept@ + resolve(pool@) == resolve(orig),
        decreases pool.len(),
    {
        let ghost before = pool@;
        let a = pool.remove(0);
        assert(pool@ =~= before.drop_first());
        let keep = sweep_pool(&a, &mut pool);
        proof {
            lemma_sweep_shrinks(a, before.drop_first());
        }
        if keep {
            assert(kept@.push(a) + resolve(pool@) =~= kept@ + (seq![a] + resolve(pool@)));
            kept.push(a);
        }
    }
    assert(kept@ + resolve(pool@) =~= kept@);
    proof {
        lemma_resolve_separate(orig);
    }
    kept
}

} // verus!
