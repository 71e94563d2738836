//! Ranking and report rendering: inverts a phrase map into a table keyed
//! by count, strictly descending, each count with every phrase observed
//! exactly that many times; and renders one tab-separated report line per
//! distinct count.

use vstd::prelude::*;

use crate::map::{find_count, shard_view, PhraseBuf, PhraseMap};

verus! {

/// The phrase-list size at and above which a report line carries only the
/// count and list size, not the phrase bodies.
pub const PHRASE_LIST_CAP: usize = 1000000;

/// Whether `t` is the frequency table of map `m`: counts strictly
/// descending, every group non-empty, every listed phrase counted by `m`
/// at exactly the group's count, every phrase of `m` listed, and no
/// phrase listed twice.
pub open spec fn is_table_of(t: Seq<(u32, Vec<PhraseBuf>)>, m: PhraseMap) -> bool {
    &&& forall|i: int, j: int| 0 <= i < j < t.len() ==> t[i].0 > t[j].0
    &&& forall|i: int| 0 <= i < t.len() ==> (#[trigger] t[i]).1@.len() >= 1
    &&& forall|i: int, k: int|
        0 <= i < t.len() && 0 <= k < t[i].1@.len() ==> m.contains_phrase(
            #[trigger] t[i].1.deep_view()[k],
        ) && m.count_of(t[i].1.deep_view()[k]) == t[i].0
    &&& forall|i: int, k: int, i2: int, k2: int|
        #![trigger t[i].1.deep_view()[k], t[i2].1.deep_view()[k2]]
        0 <= i < t.len() && 0 <= k < t[i].1@.len() && 0 <= i2 < t.len() && 0 <= k2
            < t[i2].1@.len() && (i != i2 || k != k2) ==> t[i].1.deep_view()[k]
            != t[i2].1.deep_view()[k2]
    &&& forall|q: Seq<Seq<char>>|
        #[trigger] m.contains_phrase(q) ==> exists|i: int, k: int|
            0 <= i < t.len() && 0 <= k < t[i].1@.len() && (#[trigger] t[i].1.deep_view()[k]) == q
}

/// Invert a phrase map into its frequency table: one row per distinct
/// count, strictly descending, holding every phrase with that count. Ties
/// within a row stand in an arbitrary order.
#[verifier::loop_isolation(false)]
pub fn build_table(m: PhraseMap) -> (t: Vec<(u32, Vec<PhraseBuf>)>)
    requires
        m.wf(),
    ensures
        is_table_of(t@, m),
{
    let ghost gm = m;
    let mut entries = m.into_entries();
    let ghost ev = shard_view(entries@);
    let mut t: Vec<(u32, Vec<PhraseBuf>)> = Vec::new();
    proof {
        assert(shard_view(entries@) =~= ev.take(entries@.len() as int));
    }
    while entries.len() > 0
        invariant
            entries@.len() <= ev.len(),
            shard_view(entries@) == ev.take(entries@.len() as int),
            forall|i: int, j: int| 0 <= i < j < t@.len() ==> t@[i].0 > t@[j].0,
            forall|i: int| 0 <= i < t@.len() ==> (#[trigger] t@[i]).1@.len() >= 1,
            forall|i: int, k: int|
                0 <= i < t@.len() && 0 <= k < t@[i].1@.len() ==> gm.contains_phrase(
                    #[trigger] t@[i].1.deep_view()[k],
                ) && gm.count_of(t@[i].1.deep_view()[k]) == t@[i].0,
            forall|i: int, k: int|
                0 <= i < t@.len() && 0 <= k < t@[i].1@.len() ==> find_count(
                    ev.skip(entries@.len() as int),
                    #[trigger] t@[i].1.deep_view()[k],
                ) is Some,
            forall|i: int, k: int, i2: int, k2: int|
                #![trigger t@[i].1.deep_view()[k], t@[i2].1.deep_view()[k2]]
                0 <= i < t@.len() && 0 <= k < t@[i].1@.len() && 0 <= i2 < t@.len() && 0 <= k2
                    < t@[i2].1@.len() && (i != i2 || k != k2) ==> t@[i].1.deep_view()[k]
                    != t@[i2].1.deep_view()[k2],
            forall|q: Seq<Seq<char>>|
                #![trigger find_count(ev.skip(entries@.len() as int), q)]
                find_count(ev.skip(entries@.len() as int), q) is Some ==> exists|i: int, k: int|
                    0 <= i < t@.len() && 0 <= k < t@[i].1@.len() && (
                    #[trigger] t@[i].1.deep_view()[k]) == q,
        decreases entries@.len(),
    {
        let ghost jj = entries@.len() - 1;
        let ghost pre_entries = shard_view(entries@);
        let ghost pre_t = t@;
        let (p, c) = entries.pop().unwrap();
        let ghost pv = p.deep_view();
        proof {
            assert(shard_view(entries@) =~= pre_entries.take(jj));
            assert(shard_view(entries@) =~= ev.take(jj));
            assert((pv, c) == ev[jj]);
            assert(gm.contains_phrase(pv) && gm.count_of(pv) == c);
            // the popped phrase is new to the processed suffix and the table
            assert forall|i2: int| 0 <= i2 < ev.skip(jj + 1).len() implies (#[trigger] ev.skip(
                jj + 1,
            )[i2]).0 != pv by {
                assert(ev.skip(jj + 1)[i2] == ev[jj + 1 + i2]);
            }
            crate::map::lemma_find_count_absent(ev.skip(jj + 1), pv);
            assert(ev.skip(jj)[0] == ev[jj]);
            assert(ev.skip(jj).drop_first() =~= ev.skip(jj + 1));
        }
        // find the row for count `c`: rows with larger counts come first
        let mut idx: usize = 0;
        while idx < t.len() && t[idx].0 > c
            invariant
                idx <= t@.len(),
                forall|k: int| 0 <= k < idx ==> t@[k].0 > c,
            decreases t@.len() - idx,
        {
            idx = idx + 1;
        }
        if idx < t.len() && t[idx].0 == c {
            t[idx].1.push(p);
            proof {
                assert(t@[idx as int].1.deep_view() =~= pre_t[idx as int].1.deep_view().push(pv));
                assert(t@ =~= pre_t.update(idx as int, t@[idx as int]));
                lemma_after_push(pre_t, t@, gm, ev, jj, idx as int, pv, c);
            }
        } else {
            let mut group: Vec<PhraseBuf> = Vec::new();
            group.push(p);
            let row = (c, group);
            proof {
                assert(row.1.deep_view() =~= seq![pv]);
            }
            t.insert(idx, row);
            proof {
                assert(t@ =~= pre_t.insert(idx as int, row));
                lemma_after_insert(pre_t, t@, gm, ev, jj, idx as int, row, pv, c);
            }
        }
    }
    proof {
        assert(ev.skip(0) =~= ev);
        assert forall|q: Seq<Seq<char>>| #[trigger] gm.contains_phrase(q) implies exists|
            i: int,
            k: int,
        |
            0 <= i < t@.len() && 0 <= k < t@[i].1@.len() && (#[trigger] t@[i].1.deep_view()[k])
                == q by {
            let i = choose|i: int| 0 <= i < ev.len() && (#[trigger] ev[i]).0 == q;
            crate::map::lemma_find_count_at(ev, i);
        }
    }
    t
}

proof fn lemma_after_push(
    pre: Seq<(u32, Vec<PhraseBuf>)>,
    post: Seq<(u32, Vec<PhraseBuf>)>,
    m: PhraseMap,
    ev: Seq<(Seq<Seq<char>>, u32)>,
    jj: int,
    idx: int,
    pv: Seq<Seq<char>>,
    c: u32,
)
    requires
        0 <= jj < ev.len(),
        ev[jj] == (pv, c),
        0 <= idx < pre.len(),
        pre[idx].0 == c,
        m.contains_phrase(pv),
        m.count_of(pv) == c,
        find_count(ev.skip(jj), pv) == Some(c),
        forall|q: Seq<Seq<char>>|
            #![trigger find_count(ev.skip(jj), q)]
            find_count(ev.skip(jj), q) is Some ==> q == pv || find_count(ev.skip(jj + 1), q)
                is Some,
        forall|q: Seq<Seq<char>>|
            #![trigger find_count(ev.skip(jj + 1), q)]
            find_count(ev.skip(jj + 1), q) is Some ==> find_count(ev.skip(jj), q) is Some,
        find_count(ev.skip(jj + 1), pv) is None,
        post == pre.update(idx, post[idx]),
        post[idx].0 == pre[idx].0,
        post[idx].1.deep_view() == pre[idx].1.deep_view().push(pv),
        post[idx].1@.len() == pre[idx].1@.len() + 1,
        forall|i: int, j: int| 0 <= i < j < pre.len() ==> pre[i].0 > pre[j].0,
        forall|i: int| 0 <= i < pre.len() ==> (#[trigger] pre[i]).1@.len() >= 1,
        forall|i: int, k: int|
            0 <= i < pre.len() && 0 <= k < pre[i].1@.len() ==> m.contains_phrase(
                #[trigger] pre[i].1.deep_view()[k],
            ) && m.count_of(pre[i].1.deep_view()[k]) == pre[i].0,
        forall|i: int, k: int|
            0 <= i < pre.len() && 0 <= k < pre[i].1@.len() ==> find_count(
                ev.skip(jj + 1),
                #[trigger] pre[i].1.deep_view()[k],
            ) is Some,
        forall|i: int, k: int, i2: int, k2: int|
            #![trigger pre[i].1.deep_view()[k], pre[i2].1.deep_view()[k2]]
            0 <= i < pre.len() && 0 <= k < pre[i].1@.len() && 0 <= i2 < pre.len() && 0 <= k2
                < pre[i2].1@.len() && (i != i2 || k != k2) ==> pre[i].1.deep_view()[k]
                != pre[i2].1.deep_view()[k2],
        forall|q: Seq<Seq<char>>|
            #![trigger find_count(ev.skip(jj + 1), q)]
            find_count(ev.skip(jj + 1), q) is Some ==> exists|i: int, k: int|
                0 <= i < pre.len() && 0 <= k < pre[i].1@.len() && (
                #[trigger] pre[i].1.deep_view()[k]) == q,
    ensures
        forall|i: int, j: int| 0 <= i < j < post.len() ==> post[i].0 > post[j].0,
        forall|i: int| 0 <= i < post.len() ==> (#[trigger] post[i]).1@.len() >= 1,
        forall|i: int, k: int|
            0 <= i < post.len() && 0 <= k < post[i].1@.len() ==> m.contains_phrase(
                #[trigger] post[i].1.deep_view()[k],
            ) && m.count_of(post[i].1.deep_view()[k]) == post[i].0,
        forall|i: int, k: int|
            0 <= i < post.len() && 0 <= k < post[i].1@.len() ==> find_count(
                ev.skip(jj),
                #[trigger] post[i].1.deep_view()[k],
            ) is Some,
        forall|i: int, k: int, i2: int, k2: int|
            #![trigger post[i].1.deep_view()[k], post[i2].1.deep_view()[k2]]
            0 <= i < post.len() && 0 <= k < post[i].1@.len() && 0 <= i2 < post.len() && 0 <= k2
                < post[i2].1@.len() && (i != i2 || k != k2) ==> post[i].1.deep_view()[k]
                != post[i2].1.deep_view()[k2],
        forall|q: Seq<Seq<char>>|
            #![trigger find_count(ev.skip(jj), q)]
            find_count(ev.skip(jj), q) is Some ==> exists|i: int, k: int|
                0 <= i < post.len() && 0 <= k < post[i].1@.len() && (
                #[trigger] post[i].1.deep_view()[k]) == q,
{
    let gl = pre[idx].1@.len() as int;
    assert forall|i: int, k: int|
        0 <= i < post.len() && 0 <= k < post[i].1@.len() implies m.contains_phrase(
        #[trigger] post[i].1.deep_view()[k],
    ) && m.count_of(post[i].1.deep_view()[k]) == post[i].0 && find_count(
        ev.skip(jj),
        post[i].1.deep_view()[k],
    ) is Some by {
        if i == idx && k == gl {
            assert(post[i].1.deep_view()[k] == pv);
        } else {
            assert(post[i].1.deep_view()[k] == pre[i].1.deep_view()[k]);
        }
    }
    assert forall|i: int, k: int, i2: int, k2: int|
        #![trigger post[i].1.deep_view()[k], post[i2].1.deep_view()[k2]]
        0 <= i < post.len() && 0 <= k < post[i].1@.len() && 0 <= i2 < post.len() && 0 <= k2
            < post[i2].1@.len() && (i != i2 || k != k2) implies post[i].1.deep_view()[k]
        != post[i2].1.deep_view()[k2] by {
        if i == idx && k == gl {
            assert(post[i].1.deep_view()[k] == pv);
            assert(post[i2].1.deep_view()[k2] == pre[i2].1.deep_view()[k2]);
            assert(find_count(ev.skip(jj + 1), pre[i2].1.deep_view()[k2]) is Some);
        } else if i2 == idx && k2 == gl {
            assert(post[i2].1.deep_view()[k2] == pv);
            assert(post[i].1.deep_view()[k] == pre[i].1.deep_view()[k]);
            assert(find_count(ev.skip(jj + 1), pre[i].1.deep_view()[k]) is Some);
        } else {
            assert(post[i].1.deep_view()[k] == pre[i].1.deep_view()[k]);
            assert(post[i2].1.deep_view()[k2] == pre[i2].1.deep_view()[k2]);
        }
    }
    assert forall|q: Seq<Seq<char>>| find_count(ev.skip(jj), q) is Some implies exists|
        i: int,
        k: int,
    | 0 <= i < post.len() && 0 <= k < post[i].1@.len() && (#[trigger] post[i].1.deep_view()[k])
        == q by {
        if q == pv {
            assert(post[idx].1.deep_view()[gl] == q);
        } else {
            let (i, k) = choose|i: int, k: int|
                0 <= i < pre.len() && 0 <= k < pre[i].1@.len() && (
                #[trigger] pre[i].1.deep_view()[k]) == q;
            assert(post[i].1.deep_view()[k] == q);
        }
    }
}

proof fn lemma_after_insert(
    pre: Seq<(u32, Vec<PhraseBuf>)>,
    post: Seq<(u32, Vec<PhraseBuf>)>,
    m: PhraseMap,
    ev: Seq<(Seq<Seq<char>>, u32)>,
    jj: int,
    idx: int,
    row: (u32, Vec<PhraseBuf>),
    pv: Seq<Seq<char>>,
    c: u32,
)
    requires
        0 <= jj < ev.len(),
        ev[jj] == (pv, c),
        0 <= idx <= pre.len(),
        m.contains_phrase(pv),
        m.count_of(pv) == c,
        find_count(ev.skip(jj), pv) == Some(c),
        forall|q: Seq<Seq<char>>|
            #![trigger find_count(ev.skip(jj), q)]
            find_count(ev.skip(jj), q) is Some ==> q == pv || find_count(ev.skip(jj + 1), q)
                is Some,
        forall|q: Seq<Seq<char>>|
            #![trigger find_count(ev.skip(jj + 1), q)]
            find_count(ev.skip(jj + 1), q) is Some ==> find_count(ev.skip(jj), q) is Some,
        find_count(ev.skip(jj + 1), pv) is None,
        row.0 == c,
        row.1.deep_view() == seq![pv],
        row.1@.len() == 1,
        post == pre.insert(idx, row),
        forall|k: int| 0 <= k < idx ==> pre[k].0 > c,
        idx < pre.len() ==> pre[idx].0 < c,
        forall|i: int, j: int| 0 <= i < j < pre.len() ==> pre[i].0 > pre[j].0,
        forall|i: int| 0 <= i < pre.len() ==> (#[trigger] pre[i]).1@.len() >= 1,
        forall|i: int, k: int|
            0 <= i < pre.len() && 0 <= k < pre[i].1@.len() ==> m.contains_phrase(
                #[trigger] pre[i].1.deep_view()[k],
            ) && m.count_of(pre[i].1.deep_view()[k]) == pre[i].0,
        forall|i: int, k: int|
            0 <= i < pre.len() && 0 <= k < pre[i].1@.len() ==> find_count(
                ev.skip(jj + 1),
                #[trigger] pre[i].1.deep_view()[k],
            ) is Some,
        forall|i: int, k: int, i2: int, k2: int|
            #![trigger pre[i].1.deep_view()[k], pre[i2].1.deep_view()[k2]]
            0 <= i < pre.len() && 0 <= k < pre[i].1@.len() && 0 <= i2 < pre.len() && 0 <= k2
                < pre[i2].1@.len() && (i != i2 || k != k2) ==> pre[i].1.deep_view()[k]
                != pre[i2].1.deep_view()[k2],
        forall|q: Seq<Seq<char>>|
            #![trigger find_count(ev.skip(jj + 1), q)]
            find_count(ev.skip(jj + 1), q) is Some ==> exists|i: int, k: int|
                0 <= i < pre.len() && 0 <= k < pre[i].1@.len() && (
                #[trigger] pre[i].1.deep_view()[k]) == q,
    ensures
        forall|i: int, j: int| 0 <= i < j < post.len() ==> post[i].0 > post[j].0,
        forall|i: int| 0 <= i < post.len() ==> (#[trigger] post[i]).1@.len() >= 1,
        forall|i: int, k: int|
            0 <= i < post.len() && 0 <= k < post[i].1@.len() ==> m.contains_phrase(
                #[trigger] post[i].1.deep_view()[k],
            ) && m.count_of(post[i].1.deep_view()[k]) == post[i].0,
        forall|i: int, k: int|
            0 <= i < post.len() && 0 <= k < post[i].1@.len() ==> find_count(
                ev.skip(jj),
                #[trigger] post[i].1.deep_view()[k],
            ) is Some,
        forall|i: int, k: int, i2: int, k2: int|
            #![trigger post[i].1.deep_view()[k], post[i2].1.deep_view()[k2]]
            0 <= i < post.len() && 0 <= k < post[i].1@.len() && 0 <= i2 < post.len() && 0 <= k2
                < post[i2].1@.len() && (i != i2 || k != k2) ==> post[i].1.deep_view()[k]
                != post[i2].1.deep_view()[k2],
        forall|q: Seq<Seq<char>>|
            #![trigger find_count(ev.skip(jj), q)]
            find_count(ev.skip(jj), q) is Some ==> exists|i: int, k: int|
                0 <= i < post.len() && 0 <= k < post[i].1@.len() && (
                #[trigger] post[i].1.deep_view()[k]) == q,
{
    assert(post.len() == pre.len() + 1);
    assert(post[idx] == row);
    assert forall|i: int| 0 <= i < post.len() && i != idx implies post[i] == (if i < idx {
        pre[i]
    } else {
        pre[i - 1]
    }) by {}
    assert forall|i: int, j: int| 0 <= i < j < post.len() implies post[i].0 > post[j].0 by {
        if i == idx {
            assert(post[j] == pre[j - 1]);
            if idx < pre.len() {
                assert(pre[idx].0 < c);
                if j - 1 > idx {
                    assert(pre[idx].0 > pre[j - 1].0);
                }
            }
        } else if j == idx {
            assert(post[i] == pre[i]);
            assert(pre[i].0 > c);
        } else if i < idx && j > idx {
            assert(post[i] == pre[i] && post[j] == pre[j - 1]);
            assert(pre[i].0 > c);
            if idx < pre.len() {
                if j - 1 == idx {
                    assert(pre[j - 1].0 < c);
                } else {
                    assert(pre[idx].0 > pre[j - 1].0);
                    assert(pre[idx].0 < c);
                }
            }
        }
    }
    assert forall|i: int, k: int|
        0 <= i < post.len() && 0 <= k < post[i].1@.len() implies m.contains_phrase(
        #[trigger] post[i].1.deep_view()[k],
    ) && m.count_of(post[i].1.deep_view()[k]) == post[i].0 && find_count(
        ev.skip(jj),
        post[i].1.deep_view()[k],
    ) is Some by {
        if i == idx {
            assert(post[i].1.deep_view()[k] == pv);
        } else if i < idx {
            assert(post[i].1.deep_view()[k] == pre[i].1.deep_view()[k]);
        } else {
            assert(post[i].1.deep_view()[k] == pre[i - 1].1.deep_view()[k]);
        }
    }
    assert forall|i: int, k: int, i2: int, k2: int|
        #![trigger post[i].1.deep_view()[k], post[i2].1.deep_view()[k2]]
        0 <= i < post.len() && 0 <= k < post[i].1@.len() && 0 <= i2 < post.len() && 0 <= k2
            < post[i2].1@.len() && (i != i2 || k != k2) implies post[i].1.deep_view()[k]
        != post[i2].1.deep_view()[k2] by {
        let oi: int = if i < idx { i } else { i - 1 };
        let oi2: int = if i2 < idx { i2 } else { i2 - 1 };
        if i == idx {
            assert(post[i].1.deep_view()[k] == pv);
            if i2 != idx {
                assert(post[i2].1.deep_view()[k2] == pre[oi2].1.deep_view()[k2]);
                assert(find_count(ev.skip(jj + 1), pre[oi2].1.deep_view()[k2]) is Some);
            }
        } else if i2 == idx {
            assert(post[i2].1.deep_view()[k2] == pv);
            assert(post[i].1.deep_view()[k] == pre[oi].1.deep_view()[k]);
            assert(find_count(ev.skip(jj + 1), pre[oi].1.deep_view()[k]) is Some);
        } else {
            assert(post[i].1.deep_view()[k] == pre[oi].1.deep_view()[k]);
            assert(post[i2].1.deep_view()[k2] == pre[oi2].1.deep_view()[k2]);
        }
    }
    assert forall|q: Seq<Seq<char>>| find_count(ev.skip(jj), q) is Some implies exists|
        i: int,
        k: int,
    | 0 <= i < post.len() && 0 <= k < post[i].1@.len() && (#[trigger] post[i].1.deep_view()[k])
        == q by {
        if q == pv {
            assert(post[idx].1.deep_view()[0] == q);
        } else {
            let (i, k) = choose|i: int, k: int|
                0 <= i < pre.len() && 0 <= k < pre[i].1@.len() && (
                #[trigger] pre[i].1.deep_view()[k]) == q;
            if i < idx {
                assert(post[i].1.deep_view()[k] == q);
            } else {
                assert(post[i + 1].1.deep_view()[k] == q);
            }
        }
    }
}

/// The character for one decimal digit.
pub open spec fn digit_char(d: nat) -> char {
    if d == 0 {
        '0'
    } else if d == 1 {
        '1'
    } else if d == 2 {
        '2'
    } else if d == 3 {
        '3'
    } else if d == 4 {
        '4'
    } else if d == 5 {
        '5'
    } else if d == 6 {
        '6'
    } else if d == 7 {
        '7'
    } else if d == 8 {
        '8'
    } else {
        '9'
    }
}

/// The decimal digits of `x`, most significant first.
pub open spec fn dec_spec(x: nat) -> Seq<char>
    decreases x,
{
    if x < 10 {
        seq![digit_char(x)]
    } else {
        dec_spec(x / 10).push(digit_char(x % 10))
    }
}

/// A phrase's words joined by single spaces.
pub open spec fn joined_words(p: Seq<Seq<char>>) -> Seq<char>
    decreases p.len(),
{
    if p.len() == 0 {
        Seq::empty()
    } else if p.len() == 1 {
        p[0]
    } else {
        joined_words(p.drop_last()) + seq![' '] + p.last()
    }
}

/// A line's phrase bodies: for each phrase a tab, then its words.
pub open spec fn bodies(g: Seq<Seq<Seq<char>>>) -> Seq<char>
    decreases g.len(),
{
    if g.len() == 0 {
        Seq::empty()
    } else {
        bodies(g.drop_last()) + seq!['\t'] + joined_words(g.last())
    }
}

/// One report line, without its newline: the count, a tab, the number of
/// phrases at that count, then -- only when that number is under `cap` --
/// each phrase's words after a tab.
pub open spec fn line_spec(c: u32, g: Seq<Seq<Seq<char>>>, cap: nat) -> Seq<char> {
    dec_spec(c as nat) + seq!['\t'] + dec_spec(g.len()) + if g.len() < cap {
        bodies(g)
    } else {
        Seq::empty()
    }
}

fn digit_str(d: u64) -> (r: String)
    requires
        d < 10,
    ensures
        r@ == seq![digit_char(d as nat)],
{
    proof {
        reveal_strlit("0");
        reveal_strlit("1");
        reveal_strlit("2");
        reveal_strlit("3");
        reveal_strlit("4");
        reveal_strlit("5");
        reveal_strlit("6");
        reveal_strlit("7");
        reveal_strlit("8");
        reveal_strlit("9");
    }
    let r = if d == 0 {
        String::from_str("0")
    } else if d == 1 {
        String::from_str("1")
    } else if d == 2 {
        String::from_str("2")
    } else if d == 3 {
        String::from_str("3")
    } else if d == 4 {
        String::from_str("4")
    } else if d == 5 {
        String::from_str("5")
    } else if d == 6 {
        String::from_str("6")
    } else if d == 7 {
        String::from_str("7")
    } else if d == 8 {
        String::from_str("8")
    } else {
        String::from_str("9")
    };
    proof {
        assert(r@ =~= seq![digit_char(d as nat)]);
    }
    r
}

/// Render `x` in decimal.
fn dec_u64(x: u64) -> (r: String)
    ensures
        r@ == dec_spec(x as nat),
    decreases x,
{
    if x < 10 {
        digit_str(x)
    } else {
        let mut s = dec_u64(x / 10);
        let dig = digit_str(x % 10);
        s.append(dig.as_str());
        proof {
            assert(s@ =~= dec_spec((x / 10) as nat).push(digit_char((x % 10) as nat)));
        }
        s
    }
}

/// Join a phrase's words with single spaces.
fn join_words(p: &PhraseBuf) -> (r: String)
    ensures
        r@ == joined_words(p.deep_view()),
{
    proof {
        reveal_strlit(" ");
    }
    let mut s = String::new();
    let mut i: usize = 0;
    proof {
        assert(joined_words(p.deep_view().take(0)) =~= Seq::<char>::empty());
    }
    while i < p.len()
        invariant
            i <= p@.len(),
            p.deep_view().len() == p@.len(),
            s@ == joined_words(p.deep_view().take(i as int)),
        decreases p@.len() - i,
    {
        proof {
            reveal_strlit(" ");
        }
        if i > 0 {
            s.append(" ");
        }
        s.append(p[i].as_str());
        proof {
            let dv = p.deep_view();
            assert(dv.take(i as int + 1).last() == dv[i as int]);
            assert(dv.take(i as int + 1).drop_last() =~= dv.take(i as int));
            assert(dv[i as int] == p@[i as int]@);
            if i == 0 {
                assert(joined_words(dv.take(1)) == dv[0]);
                assert(s@ =~= dv[0]);
            } else {
                assert(joined_words(dv.take(i as int + 1)) == joined_words(dv.take(i as int))
                    + seq![' '] + dv[i as int]);
                assert(s@ =~= joined_words(dv.take(i as int + 1)));
            }
        }
        i = i + 1;
    }
    proof {
        assert(p.deep_view().take(p@.len() as int) =~= p.deep_view());
    }
    s
}

/// Render the report: one line per table row, in table (descending count)
/// order, each formed as `line_spec` says. Rows whose phrase list reaches
/// `cap` carry only the count and list size.
#[verifier::loop_isolation(false)]
pub fn report_lines(table: &Vec<(u32, Vec<PhraseBuf>)>, cap: usize) -> (r: Vec<String>)
    ensures
        r@.len() == table@.len(),
        forall|i: int|
            0 <= i < table@.len() ==> (#[trigger] r@[i])@ == line_spec(
                table@[i].0,
                table@[i].1.deep_view(),
                cap as nat,
            ),
{
    proof {
        reveal_strlit("\t");
    }
    let mut r: Vec<String> = Vec::new();
    let mut i: usize = 0;
    while i < table.len()
        invariant
            i <= table@.len(),
            r@.len() == i,
            forall|i2: int|
                0 <= i2 < i ==> (#[trigger] r@[i2])@ == line_spec(
                    table@[i2].0,
                    table@[i2].1.deep_view(),
                    cap as nat,
                ),
        decreases table@.len() - i,
    {
        let row_count = table[i].0;
        let group = &table[i].1;
        let mut line = dec_u64(row_count as u64);
        line.append("\t");
        let size_str = dec_u64(group.len() as u64);
        line.append(size_str.as_str());
        let ghost head = dec_spec(row_count as nat) + seq!['\t'] + dec_spec(
            group.deep_view().len(),
        );
        proof {
            assert(group.deep_view().len() == group@.len());
            assert(line@ =~= head);
        }
        if group.len() < cap {
            let ghost gv = group.deep_view();
            let mut k: usize = 0;
            proof {
                assert(bodies(gv.take(0)) =~= Seq::<char>::empty());
                assert(line@ =~= head + bodies(gv.take(0)));
            }
            while k < group.len()
                invariant
                    k <= group@.len(),
                    gv == group.deep_view(),
                    gv.len() == group@.len(),
                    line@ == head + bodies(gv.take(k as int)),
                decreases group@.len() - k,
            {
                line.append("\t");
                let words = join_words(&group[k]);
                line.append(words.as_str());
                proof {
                    assert(gv.take(k as int + 1).drop_last() =~= gv.take(k as int));
                    assert(gv.take(k as int + 1).last() == gv[k as int]);
                    assert(group@[k as int].deep_view() == gv[k as int]);
                    assert(line@ =~= head + bodies(gv.take(k as int + 1)));
                }
                k = k + 1;
            }
            proof {
                assert(gv.take(group@.len() as int) =~= gv);
                assert(line@ =~= line_spec(row_count, gv, cap as nat));
            }
        } else {
            proof {
                assert(line@ =~= line_spec(
                    table@[i as int].0,
                    table@[i as int].1.deep_view(),
                    cap as nat,
                ));
            }
        }
        r.push(line);
        i = i + 1;
    }
    r
}

} // verus!
