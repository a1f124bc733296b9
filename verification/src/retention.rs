//! The retention bound of the history: after pruning, at most `MAX_ITEMS`
//! unpinned rows are left, none of them older than `MAX_AGE_MS`.

use vstd::prelude::*;
use crate::store::{age_cutoff, candidate, count_newer, newer, prune_spec, survives, survivors, RowView, StoreView};
use crate::{MAX_AGE_MS, MAX_ITEMS};

verus! {

/// Number of rows of `s` that meet `p`.
pub open spec fn count_where(s: Seq<RowView>, p: spec_fn(RowView) -> bool) -> nat
    decreases s.len(),
{
    if s.len() == 0 {
        0
    } else {
        count_where(s.drop_last(), p) + if p(s.last()) {
            1nat
        } else {
            0nat
        }
    }
}

pub open spec fn is_unpinned() -> spec_fn(RowView) -> bool {
    |r: RowView| !r.pinned
}

/// Number of unpinned rows of `s`.
pub open spec fn unpinned_count(s: Seq<RowView>) -> nat {
    count_where(s, is_unpinned())
}

/// Unpinned rows that survive pruning `all` at `cutoff`.
spec fn kept_unpinned(all: Seq<RowView>, cutoff: int) -> spec_fn(RowView) -> bool {
    |r: RowView| !r.pinned && survives(all, r, cutoff)
}

/// Candidate rows more recent than `r`.
spec fn newer_candidate(r: RowView, cutoff: int) -> spec_fn(RowView) -> bool {
    |x: RowView| candidate(x, cutoff) && newer(x.updated_at, x.id, r.updated_at, r.id)
}

spec fn other_than(p: spec_fn(RowView) -> bool, r: RowView) -> spec_fn(RowView) -> bool {
    |x: RowView| p(x) && x != r
}

spec fn equal_to(r: RowView) -> spec_fn(RowView) -> bool {
    |x: RowView| x == r
}

spec fn ids_increase(s: Seq<RowView>) -> bool {
    forall|i: int, j: int| 0 <= i < j < s.len() ==> s[i].id < s[j].id
}

proof fn lemma_count_mono(s: Seq<RowView>, p: spec_fn(RowView) -> bool, q: spec_fn(RowView) -> bool)
    requires
        forall|i: int| 0 <= i < s.len() && #[trigger] p(s[i]) ==> q(s[i]),
    ensures
        count_where(s, p) <= count_where(s, q),
    decreases s.len(),
{
    if s.len() > 0 {
        let t = s.drop_last();
        assert forall|i: int| 0 <= i < t.len() && #[trigger] p(t[i]) implies q(t[i]) by {
            assert(t[i] == s[i]);
        }
        lemma_count_mono(t, p, q);
    }
}

proof fn lemma_count_split(s: Seq<RowView>, p: spec_fn(RowView) -> bool, r: RowView)
    ensures
        count_where(s, p) <= count_where(s, other_than(p, r)) + count_where(s, equal_to(r)),
    decreases s.len(),
{
    if s.len() > 0 {
        lemma_count_split(s.drop_last(), p, r);
    }
}

pub(crate) proof fn lemma_count_zero(s: Seq<RowView>, p: spec_fn(RowView) -> bool)
    requires
        forall|i: int| 0 <= i < s.len() ==> !#[trigger] p(s[i]),
    ensures
        count_where(s, p) == 0,
    decreases s.len(),
{
    if s.len() > 0 {
        let t = s.drop_last();
        assert forall|i: int| 0 <= i < t.len() implies !#[trigger] p(t[i]) by {
            assert(t[i] == s[i]);
        }
        lemma_count_zero(t, p);
    }
}

proof fn lemma_count_positive(s: Seq<RowView>, p: spec_fn(RowView) -> bool, k: int)
    requires
        0 <= k < s.len(),
        p(s[k]),
    ensures
        count_where(s, p) > 0,
    decreases s.len(),
{
    if k < s.len() - 1 {
        let t = s.drop_last();
        assert(t[k] == s[k]);
        lemma_count_positive(t, p, k);
    }
}

/// A row occurs at most once in a table whose ids increase.
proof fn lemma_count_once(s: Seq<RowView>, r: RowView)
    requires
        ids_increase(s),
    ensures
        count_where(s, equal_to(r)) <= 1,
    decreases s.len(),
{
    if s.len() > 0 {
        let t = s.drop_last();
        if s.last() == r {
            assert forall|i: int| 0 <= i < t.len() implies !#[trigger] equal_to(r)(t[i]) by {
                assert(t[i] == s[i]);
                assert(s[i].id < s[s.len() - 1].id);
            }
            lemma_count_zero(t, equal_to(r));
        } else {
            lemma_count_once(t, r);
        }
    }
}

proof fn lemma_count_concat(a: Seq<RowView>, b: Seq<RowView>, p: spec_fn(RowView) -> bool)
    ensures
        count_where(a + b, p) == count_where(a, p) + count_where(b, p),
    decreases b.len(),
{
    if b.len() == 0 {
        assert(a + b =~= a);
    } else {
        assert((a + b).drop_last() =~= a + b.drop_last());
        lemma_count_concat(a, b.drop_last(), p);
    }
}

proof fn lemma_count_one(x: RowView, p: spec_fn(RowView) -> bool)
    ensures
        count_where(seq![x], p) == if p(x) {
            1nat
        } else {
            0nat
        },
{
    assert(seq![x].drop_last() =~= Seq::<RowView>::empty());
    assert(count_where(Seq::<RowView>::empty(), p) == 0);
}

proof fn lemma_count_newer_is_count(s: Seq<RowView>, r: RowView, cutoff: int)
    ensures
        count_newer(s, r, cutoff) == count_where(s, newer_candidate(r, cutoff)),
    decreases s.len(),
{
    if s.len() > 0 {
        lemma_count_newer_is_count(s.drop_last(), r, cutoff);
    }
}

proof fn lemma_survivors_count(s: Seq<RowView>, all: Seq<RowView>, cutoff: int)
    ensures
        unpinned_count(survivors(s, all, cutoff)) == count_where(s, kept_unpinned(all, cutoff)),
    decreases s.len(),
{
    if s.len() > 0 {
        let rest = s.drop_first();
        lemma_survivors_count(rest, all, cutoff);
        assert(s =~= seq![s[0]] + rest);
        lemma_count_concat(seq![s[0]], rest, kept_unpinned(all, cutoff));
        lemma_count_one(s[0], kept_unpinned(all, cutoff));
        if survives(all, s[0], cutoff) {
            lemma_count_concat(seq![s[0]], survivors(rest, all, cutoff), is_unpinned());
            lemma_count_one(s[0], is_unpinned());
        }
    }
}

/// The oldest row of `s` that meets `p`: every other such row is newer.
proof fn lemma_oldest(s: Seq<RowView>, p: spec_fn(RowView) -> bool) -> (i: int)
    requires
        count_where(s, p) > 0,
        ids_increase(s),
    ensures
        0 <= i < s.len(),
        p(s[i]),
        forall|j: int|
            0 <= j < s.len() && #[trigger] p(s[j]) && j != i ==> newer(s[j].updated_at, s[j].id, s[i].updated_at, s[i].id),
    decreases s.len(),
{
    let n = s.len() - 1;
    let t = s.drop_last();
    assert forall|a: int, b: int| 0 <= a < b < t.len() implies t[a].id < t[b].id by {
        assert(t[a] == s[a] && t[b] == s[b]);
    }
    if count_where(t, p) > 0 {
        let i0 = lemma_oldest(t, p);
        assert(t[i0] == s[i0]);
        assert(s[i0].id < s[n].id);
        if p(s[n]) && newer(s[i0].updated_at, s[i0].id, s[n].updated_at, s[n].id) {
            assert forall|j: int|
                0 <= j < s.len() && #[trigger] p(s[j]) && j != n implies newer(s[j].updated_at, s[j].id, s[n].updated_at, s[n].id) by {
                assert(t[j] == s[j]);
            }
            n
        } else {
            assert forall|j: int|
                0 <= j < s.len() && #[trigger] p(s[j]) && j != i0 implies newer(s[j].updated_at, s[j].id, s[i0].updated_at, s[i0].id) by {
                if j < n {
                    assert(t[j] == s[j]);
                }
            }
            i0
        }
    } else {
        assert forall|j: int| 0 <= j < s.len() && #[trigger] p(s[j]) && j != n implies newer(s[j].updated_at, s[j].id, s[n].updated_at, s[n].id) by {
            assert(t[j] == s[j]);
            lemma_count_positive(t, p, j);
        }
        n
    }
}

/// Pruning bounds the history: after `prune_spec`, at most `MAX_ITEMS`
/// unpinned rows remain, and every unpinned row left was used within
/// `MAX_AGE_MS` of `now`.
pub proof fn lemma_prune_bounds(v: StoreView, now: i64)
    requires
        v.wf(),
    ensures
        unpinned_count(prune_spec(v, now).rows) <= MAX_ITEMS,
        forall|k: int|
            0 <= k < prune_spec(v, now).rows.len() && !(#[trigger] prune_spec(v, now).rows[k]).pinned
                ==> prune_spec(v, now).rows[k].updated_at >= now - MAX_AGE_MS,
{
    let all = v.rows;
    let cutoff = age_cutoff(now);
    let kept = kept_unpinned(all, cutoff);
    lemma_survivors_count(all, all, cutoff);
    lemma_survivors_all_survive(all, all, cutoff);
    if count_where(all, kept) > 0 {
        let i = lemma_oldest(all, kept);
        let r = all[i];
        lemma_count_split(all, kept, r);
        lemma_count_once(all, r);
        assert forall|j: int| 0 <= j < all.len() && #[trigger] other_than(kept, r)(all[j]) implies newer_candidate(r, cutoff)(all[j]) by {
            assert(kept(all[j]));
            assert(j != i);
        }
        lemma_count_mono(all, other_than(kept, r), newer_candidate(r, cutoff));
        lemma_count_newer_is_count(all, r, cutoff);
    }
}

/// Pruning only removes rows, and it removes exactly these: a row stays if
/// and only if it is pinned, or it was used at or after the age limit and
/// fewer than `MAX_ITEMS` unpinned rows used at or after the limit are more
/// recent (later `updated_at`, ties by larger id), that is, it is among the
/// `MAX_ITEMS` most recent of them. The seen keys are untouched.
pub proof fn lemma_prune_survivors(v: StoreView, now: i64)
    ensures
        forall|k: int|
            0 <= k < v.rows.len() ==> (prune_spec(v, now).rows.contains(#[trigger] v.rows[k]) <==> survives(
                v.rows,
                v.rows[k],
                age_cutoff(now),
            )),
        forall|m: int| 0 <= m < prune_spec(v, now).rows.len() ==> v.rows.contains(#[trigger] prune_spec(v, now).rows[m]),
        prune_spec(v, now).seen == v.seen,
{
    let all = v.rows;
    let c = age_cutoff(now);
    let out = survivors(all, all, c);
    lemma_survivors_all_survive(all, all, c);
    assert forall|k: int| 0 <= k < all.len() implies (out.contains(#[trigger] all[k]) <==> survives(all, all[k], c)) by {
        if survives(all, all[k], c) {
            crate::store::lemma_survivors_keep(all, all, c, k);
        }
        if out.contains(all[k]) {
            let m = choose|m: int| 0 <= m < out.len() && out[m] == all[k];
            assert(survives(all, out[m], c));
        }
    }
    assert forall|m: int| 0 <= m < out.len() implies all.contains(#[trigger] out[m]) by {
        crate::sync::lemma_survivors_from(all, all, c, m);
    }
}

/// Unpinned rows of `all` still in use at `now` (last used at or after
/// `now - MAX_AGE_MS`) that were used more recently than `r`: later
/// `updated_at`, or the same one and a larger id.
pub open spec fn more_recent_in_use(all: Seq<RowView>, r: RowView, now: i64) -> nat {
    count_where(
        all,
        |x: RowView|
            !x.pinned && x.updated_at >= now - MAX_AGE_MS && (x.updated_at > r.updated_at || (x.updated_at
                == r.updated_at && x.id > r.id)),
    )
}

proof fn lemma_count_ext(s: Seq<RowView>, p: spec_fn(RowView) -> bool, q: spec_fn(RowView) -> bool)
    requires
        forall|i: int| 0 <= i < s.len() ==> p(#[trigger] s[i]) == q(s[i]),
    ensures
        count_where(s, p) == count_where(s, q),
    decreases s.len(),
{
    if s.len() > 0 {
        let t = s.drop_last();
        assert forall|i: int| 0 <= i < t.len() implies p(#[trigger] t[i]) == q(t[i]) by {
            assert(t[i] == s[i]);
        }
        lemma_count_ext(t, p, q);
        assert(p(s[s.len() - 1]) == q(s[s.len() - 1]));
    }
}

/// Which rows pruning at `now` keeps, stated from the rows alone: a pinned
/// row always stays; an unpinned row stays exactly when it was last used
/// at or after `now - MAX_AGE_MS` (its creation time plays no part) and
/// fewer than `MAX_ITEMS` unpinned rows in use were used more recently.
pub proof fn lemma_prune_rule(v: StoreView, now: i64, k: int)
    requires
        0 <= k < v.rows.len(),
    ensures
        v.rows[k].pinned ==> prune_spec(v, now).rows.contains(v.rows[k]),
        !v.rows[k].pinned ==> (prune_spec(v, now).rows.contains(v.rows[k]) <==> (v.rows[k].updated_at >= now
            - MAX_AGE_MS && more_recent_in_use(v.rows, v.rows[k], now) < MAX_ITEMS)),
{
    let all = v.rows;
    let r = all[k];
    let c = age_cutoff(now);
    lemma_prune_survivors(v, now);
    assert(prune_spec(v, now).rows.contains(all[k]) <==> survives(all, all[k], c));
    lemma_count_newer_is_count(all, r, c);
    let q = |x: RowView|
        !x.pinned && x.updated_at >= now - MAX_AGE_MS && (x.updated_at > r.updated_at || (x.updated_at
            == r.updated_at && x.id > r.id));
    assert forall|i: int| 0 <= i < all.len() implies newer_candidate(r, c)(#[trigger] all[i]) == q(all[i]) by {
        assert((all[i].updated_at >= c) == (all[i].updated_at >= now - MAX_AGE_MS));
    }
    lemma_count_ext(all, newer_candidate(r, c), q);
    assert((r.updated_at >= c) == (r.updated_at >= now - MAX_AGE_MS));
}

proof fn lemma_survivors_all_survive(s: Seq<RowView>, all: Seq<RowView>, cutoff: int)
    ensures
        forall|k: int| 0 <= k < survivors(s, all, cutoff).len() ==> survives(all, #[trigger] survivors(s, all, cutoff)[k], cutoff),
    decreases s.len(),
{
    if s.len() > 0 {
        let rest = survivors(s.drop_first(), all, cutoff);
        lemma_survivors_all_survive(s.drop_first(), all, cutoff);
        if survives(all, s[0], cutoff) {
            let out = survivors(s, all, cutoff);
            assert forall|k: int| 0 <= k < out.len() implies survives(all, #[trigger] out[k], cutoff) by {
                if k > 0 {
                    assert(out[k] == rest[k - 1]);
                }
            }
        }
    }
}

} // verus!
