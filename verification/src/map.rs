//! The phrase map: a sharded associative container from an owned phrase (a
//! fixed-width sequence of words) to a 32-bit counter. A phrase's shard is
//! chosen by the low bits of its hash, computed once per operation; lookup
//! then compares exact word contents within that shard. Counts only grow;
//! an addition that would exceed `u32::MAX` stops there (the counter
//! saturates instead of overflowing).

use vstd::prelude::*;

verus! {

/// An owned phrase: a fixed number of owned words.
pub type PhraseBuf = Vec<String>;

/// The number of independent sub-maps of a phrase map.
pub const SHARD_COUNT: usize = 64;

/// One FNV-1a step: xor the next value in, then multiply by the FNV prime,
/// wrapping modulo 2^64.
pub open spec fn hash_mix(h: u64, x: u64) -> u64 {
    vstd::wrapping::u64_specs::wrapping_mul(h ^ x, 0x100000001b3)
}

/// Hash of a byte sequence, folded left to right onto `h`.
pub open spec fn hash_bytes(h: u64, b: Seq<u8>) -> u64
    decreases b.len(),
{
    if b.len() == 0 {
        h
    } else {
        hash_bytes(hash_mix(h, b[0] as u64), b.drop_first())
    }
}

/// Hash of one word: the hash of its UTF-8 bytes.
pub open spec fn hash_word(h: u64, w: Seq<char>) -> u64 {
    hash_bytes(h, vstd::utf8::encode_utf8(w))
}

/// A separator value mixed in after each word; it is above the range of any
/// byte, so word boundaries change the hash.
pub open spec fn word_separator() -> u64 {
    0x110000
}

/// Hash of a phrase: words folded left to right, a separator after each.
pub open spec fn hash_phrase_from(h: u64, ws: Seq<Seq<char>>) -> u64
    decreases ws.len(),
{
    if ws.len() == 0 {
        h
    } else {
        hash_phrase_from(hash_mix(hash_word(h, ws[0]), word_separator()), ws.drop_first())
    }
}

/// The FNV-1a offset basis.
pub open spec fn hash_basis() -> u64 {
    0xcbf29ce484222325
}

/// The hash of a phrase, a pure function of its word contents.
pub open spec fn hash_of(p: Seq<Seq<char>>) -> u64 {
    hash_phrase_from(hash_basis(), p)
}

/// The shard a phrase belongs to: the low bits of its hash.
pub open spec fn shard_of(p: Seq<Seq<char>>) -> int {
    hash_of(p) as int % (SHARD_COUNT as int)
}

/// Capped addition: the value of a counter after adding `x`, stopping at
/// `u32::MAX`.
pub open spec fn sat_cap(x: int) -> u32 {
    if x > u32::MAX {
        u32::MAX
    } else if x < 0 {
        0
    } else {
        x as u32
    }
}

fn hash_mix_exec(h: u64, x: u64) -> (r: u64)
    ensures
        r == hash_mix(h, x),
{
    (h ^ x).wrapping_mul(0x100000001b3)
}

proof fn lemma_hash_bytes_push(h: u64, b: Seq<u8>, x: u8)
    ensures
        hash_bytes(h, b.push(x)) == hash_mix(hash_bytes(h, b), x as u64),
    decreases b.len(),
{
    if b.len() == 0 {
        reveal_with_fuel(hash_bytes, 3);
        assert(b.push(x) =~= seq![x]);
        assert(seq![x].drop_first() =~= Seq::<u8>::empty());
    } else {
        assert(b.push(x).drop_first() =~= b.drop_first().push(x));
        lemma_hash_bytes_push(hash_mix(h, b[0] as u64), b.drop_first(), x);
    }
}

proof fn lemma_hash_phrase_push(h: u64, ws: Seq<Seq<char>>, w: Seq<char>)
    ensures
        hash_phrase_from(h, ws.push(w)) == hash_mix(
            hash_word(hash_phrase_from(h, ws), w),
            word_separator(),
        ),
    decreases ws.len(),
{
    if ws.len() == 0 {
        reveal_with_fuel(hash_phrase_from, 3);
        assert(ws.push(w) =~= seq![w]);
        assert(seq![w].drop_first() =~= Seq::<Seq<char>>::empty());
    } else {
        assert(ws.push(w).drop_first() =~= ws.drop_first().push(w));
        lemma_hash_phrase_push(hash_mix(hash_word(h, ws[0]), word_separator()), ws.drop_first(), w);
    }
}

/// Fold one word's UTF-8 bytes onto the running hash.
fn hash_word_exec(h: u64, w: &String) -> (r: u64)
    ensures
        r == hash_word(h, w@),
{
    let bytes = w.as_str().as_bytes();
    let mut acc = h;
    let mut i: usize = 0;
    proof {
        assert(bytes@.take(0) =~= Seq::<u8>::empty());
    }
    while i < bytes.len()
        invariant
            i <= bytes@.len(),
            acc == hash_bytes(h, bytes@.take(i as int)),
        decreases bytes@.len() - i,
    {
        let b = bytes[i];
        proof {
            assert(bytes@.take(i as int).push(b) =~= bytes@.take(i as int + 1));
            lemma_hash_bytes_push(h, bytes@.take(i as int), b);
        }
        acc = hash_mix_exec(acc, b as u64);
        i = i + 1;
    }
    proof {
        assert(bytes@.take(bytes@.len() as int) =~= bytes@);
    }
    acc
}

/// The single hash computation of an operation: the phrase's hash and its
/// shard index, both reused for lookup and insertion.
fn hash(phrase: &PhraseBuf) -> (r: (u64, usize))
    ensures
        r.0 == hash_of(phrase.deep_view()),
        r.1 as int == shard_of(phrase.deep_view()),
        r.1 < SHARD_COUNT,
{
    let mut acc: u64 = 0xcbf29ce484222325;
    let mut i: usize = 0;
    proof {
        assert(phrase.deep_view().take(0) =~= Seq::<Seq<char>>::empty());
    }
    while i < phrase.len()
        invariant
            i <= phrase@.len(),
            phrase.deep_view().len() == phrase@.len(),
            acc == hash_phrase_from(hash_basis(), phrase.deep_view().take(i as int)),
        decreases phrase@.len() - i,
    {
        let hw = hash_word_exec(acc, &phrase[i]);
        proof {
            assert(phrase.deep_view()[i as int] == phrase@[i as int]@);
            assert(phrase.deep_view().take(i as int).push(phrase.deep_view()[i as int])
                =~= phrase.deep_view().take(i as int + 1));
            lemma_hash_phrase_push(hash_basis(), phrase.deep_view().take(i as int),
                phrase.deep_view()[i as int]);
        }
        acc = hash_mix_exec(hw, 0x110000);
        i = i + 1;
    }
    proof {
        assert(phrase.deep_view().take(phrase@.len() as int) =~= phrase.deep_view());
    }
    let idx = (acc % 64) as usize;
    (acc, idx)
}

/// Word-by-word equality of two phrases: true exactly when the word
/// contents match.
fn phrase_eq(a: &PhraseBuf, b: &PhraseBuf) -> (r: bool)
    ensures
        r == (a.deep_view() == b.deep_view()),
{
    if a.len() != b.len() {
        proof {
            assert(a.deep_view().len() != b.deep_view().len());
        }
        return false;
    }
    let mut i: usize = 0;
    while i < a.len()
        invariant
            a@.len() == b@.len(),
            i <= a@.len(),
            forall|k: int| 0 <= k < i ==> a.deep_view()[k] == b.deep_view()[k],
        decreases a@.len() - i,
    {
        if !(a[i] == b[i]) {
            proof {
                assert(a.deep_view()[i as int] != b.deep_view()[i as int]);
            }
            return false;
        }
        i = i + 1;
    }
    proof {
        assert(a.deep_view() =~= b.deep_view());
    }
    true
}

/// The view of one stored entry: the phrase's word contents and its count.
pub open spec fn entry_view(e: (PhraseBuf, u32)) -> (Seq<Seq<char>>, u32) {
    (e.0.deep_view(), e.1)
}

/// The view of one shard: its entries' views, in storage order.
pub open spec fn shard_view(shard: Seq<(PhraseBuf, u32)>) -> Seq<(Seq<Seq<char>>, u32)> {
    shard.map_values(|e: (PhraseBuf, u32)| entry_view(e))
}

/// The count stored for `p` in an entry sequence: the value of the first
/// entry whose phrase is `p`, if any.
pub open spec fn find_count(s: Seq<(Seq<Seq<char>>, u32)>, p: Seq<Seq<char>>) -> Option<u32>
    decreases s.len(),
{
    if s.len() == 0 {
        None
    } else if s[0].0 == p {
        Some(s[0].1)
    } else {
        find_count(s.drop_first(), p)
    }
}

/// A well-formed shard: every entry's phrase has `width` words and hashes to
/// this shard, and no two entries share a phrase.
pub open spec fn shard_ok(s: Seq<(Seq<Seq<char>>, u32)>, width: nat, idx: int) -> bool {
    &&& forall|j: int|
        0 <= j < s.len() ==> (#[trigger] s[j]).0.len() == width && shard_of(s[j].0) == idx
    &&& forall|j: int, k: int| 0 <= j < k < s.len() ==> s[j].0 != s[k].0
}

pub proof fn lemma_find_count_at(s: Seq<(Seq<Seq<char>>, u32)>, j: int)
    requires
        0 <= j < s.len(),
        forall|j2: int, k: int| 0 <= j2 < k < s.len() ==> s[j2].0 != s[k].0,
    ensures
        find_count(s, s[j].0) == Some(s[j].1),
    decreases s.len(),
{
    if j > 0 {
        assert(s[0].0 != s[j].0);
        lemma_find_count_at(s.drop_first(), j - 1);
    }
}

pub proof fn lemma_find_count_absent(s: Seq<(Seq<Seq<char>>, u32)>, p: Seq<Seq<char>>)
    requires
        forall|j: int| 0 <= j < s.len() ==> (#[trigger] s[j]).0 != p,
    ensures
        find_count(s, p) is None,
    decreases s.len(),
{
    if s.len() > 0 {
        lemma_find_count_absent(s.drop_first(), p);
    }
}

proof fn lemma_find_count_update(s: Seq<(Seq<Seq<char>>, u32)>, j: int, v: u32, q: Seq<Seq<char>>)
    requires
        0 <= j < s.len(),
        forall|j2: int, k: int| 0 <= j2 < k < s.len() ==> s[j2].0 != s[k].0,
    ensures
        find_count(s.update(j, (s[j].0, v)), q) == if q == s[j].0 {
            Some(v)
        } else {
            find_count(s, q)
        },
    decreases s.len(),
{
    let s2 = s.update(j, (s[j].0, v));
    if j == 0 {
        if s2[0].0 == q {
        } else {
            assert(s2.drop_first() =~= s.drop_first());
        }
    } else {
        assert(s2[0] == s[0]);
        assert(s2.drop_first() =~= s.drop_first().update(j - 1, (s[j].0, v)));
        lemma_find_count_update(s.drop_first(), j - 1, v, q);
    }
}

proof fn lemma_find_count_push(s: Seq<(Seq<Seq<char>>, u32)>, e: (Seq<Seq<char>>, u32), q: Seq<Seq<char>>)
    ensures
        find_count(s.push(e), q) == if find_count(s, q) is Some {
            find_count(s, q)
        } else if e.0 == q {
            Some(e.1)
        } else {
            None::<u32>
        },
    decreases s.len(),
{
    if s.len() == 0 {
        reveal_with_fuel(find_count, 3);
        assert(s.push(e)[0] == e);
        assert(s.push(e).drop_first() =~= Seq::<(Seq<Seq<char>>, u32)>::empty());
    } else {
        assert(s.push(e).drop_first() =~= s.drop_first().push(e));
        lemma_find_count_push(s.drop_first(), e, q);
    }
}

/// The index of the entry holding phrase `p`, found by exact word-content
/// comparison after the hash has selected the shard.
fn find_in_shard(shard: &Vec<(PhraseBuf, u32)>, p: &PhraseBuf) -> (r: Option<usize>)
    ensures
        match r {
            Some(j) => j < shard@.len() && shard@[j as int].0.deep_view() == p.deep_view(),
            None => forall|j: int|
                0 <= j < shard@.len() ==> (#[trigger] shard@[j]).0.deep_view() != p.deep_view(),
        },
{
    let mut i: usize = 0;
    while i < shard.len()
        invariant
            i <= shard@.len(),
            forall|j: int| 0 <= j < i ==> (#[trigger] shard@[j]).0.deep_view() != p.deep_view(),
        decreases shard@.len() - i,
    {
        if phrase_eq(&shard[i].0, p) {
            return Some(i);
        }
        i = i + 1;
    }
    None
}

/// The total number of entries over a sequence of shards.
pub open spec fn total_len(ss: Seq<Vec<(PhraseBuf, u32)>>) -> nat
    decreases ss.len(),
{
    if ss.len() == 0 {
        0
    } else {
        total_len(ss.drop_last()) + ss.last()@.len()
    }
}

proof fn lemma_total_len_update(ss: Seq<Vec<(PhraseBuf, u32)>>, i: int, v: Vec<(PhraseBuf, u32)>)
    requires
        0 <= i < ss.len(),
    ensures
        total_len(ss.update(i, v)) + ss[i]@.len() == total_len(ss) + v@.len(),
    decreases ss.len(),
{
    let s2 = ss.update(i, v);
    if i == ss.len() - 1 {
        assert(s2.drop_last() =~= ss.drop_last());
        assert(s2.last() == v);
    } else {
        assert(s2.drop_last() =~= ss.drop_last().update(i, v));
        assert(s2.last() == ss.last());
        lemma_total_len_update(ss.drop_last(), i, v);
    }
}

/// The sharded map from phrases to counts.
pub struct PhraseMap {
    shards: Vec<Vec<(PhraseBuf, u32)>>,
    width: usize,
}

impl PhraseMap {
    /// The view of shard `i`.
    pub closed spec fn shard_model(self, i: int) -> Seq<(Seq<Seq<char>>, u32)> {
        shard_view(self.shards@[i]@)
    }

    /// The fixed number of words of every phrase in this map.
    pub closed spec fn spec_width(self) -> nat {
        self.width as nat
    }

    /// Well-formed: exactly `SHARD_COUNT` shards, each holding only phrases
    /// of this map's width that hash to it, with no phrase stored twice.
    pub closed spec fn wf(self) -> bool {
        &&& self.shards@.len() == SHARD_COUNT
        &&& self.width >= 1
        &&& forall|i: int|
            0 <= i < SHARD_COUNT ==> shard_ok(#[trigger] self.shard_model(i), self.spec_width(), i)
    }

    /// The count recorded for phrase `p`; zero when `p` is absent.
    pub closed spec fn count_of(self, p: Seq<Seq<char>>) -> u32 {
        match find_count(self.shard_model(shard_of(p)), p) {
            Some(c) => c,
            None => 0,
        }
    }

    /// Whether phrase `p` has an entry.
    pub closed spec fn contains_phrase(self, p: Seq<Seq<char>>) -> bool {
        find_count(self.shard_model(shard_of(p)), p) is Some
    }

    /// The number of entries over all shards.
    pub closed spec fn num_entries(self) -> nat {
        total_len(self.shards@)
    }

    /// An empty map for phrases of `width` words.
    pub fn new(width: usize) -> (r: PhraseMap)
        requires
            width >= 1,
        ensures
            r.wf(),
            r.spec_width() == width,
            forall|q: Seq<Seq<char>>| #[trigger] r.count_of(q) == 0,
            forall|q: Seq<Seq<char>>| !(#[trigger] r.contains_phrase(q)),
            r.num_entries() == 0,
    {
        let mut shards: Vec<Vec<(PhraseBuf, u32)>> = Vec::new();
        let mut i: usize = 0;
        while i < SHARD_COUNT
            invariant
                i <= SHARD_COUNT,
                shards@.len() == i,
                forall|k: int| 0 <= k < i ==> (#[trigger] shards@[k])@.len() == 0,
        decreases SHARD_COUNT - i,
        {
            shards.push(Vec::new());
            i = i + 1;
        }
        let r = PhraseMap { shards, width };
        proof {
            lemma_total_len_zero(r.shards@, SHARD_COUNT as int);
            assert(r.shards@.take(SHARD_COUNT as int) =~= r.shards@);
        }
        r
    }

    /// Record `delta` more occurrences of an owned phrase. One hash
    /// computation serves shard selection, lookup and insertion. The
    /// phrase's counter grows by `delta`, stopping at `u32::MAX`; every
    /// other count is unchanged.
    pub fn add_owned(&mut self, phrase: PhraseBuf, delta: u32)
        requires
            old(self).wf(),
            phrase@.len() == old(self).spec_width(),
        ensures
            final(self).wf(),
            final(self).spec_width() == old(self).spec_width(),
            forall|q: Seq<Seq<char>>|
                #[trigger] final(self).count_of(q) == if q == phrase.deep_view() {
                    sat_cap(old(self).count_of(q) + delta)
                } else {
                    old(self).count_of(q)
                },
            forall|q: Seq<Seq<char>>|
                #[trigger] final(self).contains_phrase(q) == (old(self).contains_phrase(q)
                    || q == phrase.deep_view()),
            final(self).num_entries() == old(self).num_entries() + if old(self).contains_phrase(
                phrase.deep_view(),
            ) {
                0int
            } else {
                1int
            },
    {
        let (_hash, idx) = hash(&phrase);
        let ghost p = phrase.deep_view();
        let ghost s0 = self.shard_model(idx as int);
        proof {
            assert(phrase.deep_view().len() == phrase@.len());
        }
        let found = find_in_shard(&self.shards[idx], &phrase);
        match found {
            Some(j) => {
                let c = self.shards[idx][j].1;
                let nc = if c <= u32::MAX - delta {
                    c + delta
                } else {
                    u32::MAX
                };
                proof {
                    assert(s0[j as int].0 == p);
                    lemma_find_count_at(s0, j as int);
                    assert(old(self).count_of(p) == c);
                    assert(nc == sat_cap(c + delta));
                }
                self.shards[idx][j].1 = nc;
                proof {
                    assert(self.shards@ =~= old(self).shards@.update(
                        idx as int,
                        self.shards@[idx as int],
                    ));
                    assert(self.shard_model(idx as int) =~= s0.update(
                        j as int,
                        (s0[j as int].0, nc),
                    ));
                    lemma_map_update_entry(*old(self), *self, idx as int, j as int, nc);
                }
            }
            None => {
                proof {
                    lemma_find_count_absent(s0, p);
                    assert(!old(self).contains_phrase(p));
                    assert(old(self).count_of(p) == 0);
                    assert(delta == sat_cap(old(self).count_of(p) + delta));
                }
                self.shards[idx].push((phrase, delta));
                proof {
                    assert(self.shards@ =~= old(self).shards@.update(
                        idx as int,
                        self.shards@[idx as int],
                    ));
                    assert(self.shard_model(idx as int) =~= s0.push((p, delta)));
                    lemma_map_push_entry(*old(self), *self, idx as int, p, delta);
                }
            }
        }
    }

    /// Record `delta` more occurrences of a borrowed phrase; an owned copy
    /// is allocated only when the phrase is absent. One hash computation
    /// serves shard selection, lookup and insertion.
    pub fn add(&mut self, phrase: &PhraseBuf, delta: u32)
        requires
            old(self).wf(),
            phrase@.len() == old(self).spec_width(),
        ensures
            final(self).wf(),
            final(self).spec_width() == old(self).spec_width(),
            forall|q: Seq<Seq<char>>|
                #[trigger] final(self).count_of(q) == if q == phrase.deep_view() {
                    sat_cap(old(self).count_of(q) + delta)
                } else {
                    old(self).count_of(q)
                },
            forall|q: Seq<Seq<char>>|
                #[trigger] final(self).contains_phrase(q) == (old(self).contains_phrase(q)
                    || q == phrase.deep_view()),
            final(self).num_entries() == old(self).num_entries() + if old(self).contains_phrase(
                phrase.deep_view(),
            ) {
                0int
            } else {
                1int
            },
    {
        let (_hash, idx) = hash(phrase);
        let ghost p = phrase.deep_view();
        let ghost s0 = self.shard_model(idx as int);
        proof {
            assert(phrase.deep_view().len() == phrase@.len());
        }
        let found = find_in_shard(&self.shards[idx], phrase);
        match found {
            Some(j) => {
                let c = self.shards[idx][j].1;
                let nc = if c <= u32::MAX - delta {
                    c + delta
                } else {
                    u32::MAX
                };
                proof {
                    assert(s0[j as int].0 == p);
                    lemma_find_count_at(s0, j as int);
                    assert(old(self).count_of(p) == c);
                    assert(nc == sat_cap(c + delta));
                }
                self.shards[idx][j].1 = nc;
                proof {
                    assert(self.shards@ =~= old(self).shards@.update(
                        idx as int,
                        self.shards@[idx as int],
                    ));
                    assert(self.shard_model(idx as int) =~= s0.update(
                        j as int,
                        (s0[j as int].0, nc),
                    ));
                    lemma_map_update_entry(*old(self), *self, idx as int, j as int, nc);
                }
            }
            None => {
                proof {
                    lemma_find_count_absent(s0, p);
                    assert(!old(self).contains_phrase(p));
                    assert(old(self).count_of(p) == 0);
                    assert(delta == sat_cap(old(self).count_of(p) + delta));
                }
                let owned = phrase.clone();
                proof {
                    vstd::std_specs::vec::vec_clone_deep_view_proof(*phrase, owned);
                    assert(owned.deep_view() == p);
                }
                self.shards[idx].push((owned, delta));
                proof {
                    assert(self.shards@ =~= old(self).shards@.update(
                        idx as int,
                        self.shards@[idx as int],
                    ));
                    assert(self.shard_model(idx as int) =~= s0.push((p, delta)));
                    lemma_map_push_entry(*old(self), *self, idx as int, p, delta);
                }
            }
        }
    }

    /// The count recorded for a phrase; zero when it is absent.
    pub fn get(&self, phrase: &PhraseBuf) -> (r: u32)
        requires
            self.wf(),
        ensures
            r == self.count_of(phrase.deep_view()),
    {
        let (_hash, idx) = hash(phrase);
        let ghost s0 = self.shard_model(idx as int);
        match find_in_shard(&self.shards[idx], phrase) {
            Some(j) => {
                proof {
                    lemma_find_count_at(s0, j as int);
                }
                self.shards[idx][j].1
            }
            None => {
                proof {
                    lemma_find_count_absent(s0, phrase.deep_view());
                }
                0
            }
        }
    }

    /// Whether the map holds more than `threshold` entries; the walk stops
    /// as soon as the bound is passed.
    pub fn exceeds(&self, threshold: usize) -> (r: bool)
        ensures
            r == (self.num_entries() > threshold),
    {
        let mut acc: usize = 0;
        let mut i: usize = 0;
        proof {
            assert(self.shards@.take(0) =~= Seq::<Vec<(PhraseBuf, u32)>>::empty());
        }
        while i < self.shards.len()
            invariant
                i <= self.shards@.len(),
                acc == total_len(self.shards@.take(i as int)),
                acc <= threshold,
            decreases self.shards@.len() - i,
        {
            let l = self.shards[i].len();
            proof {
                assert(self.shards@.take(i as int + 1).drop_last() =~= self.shards@.take(i as int));
                assert(self.shards@.take(i as int + 1).last() == self.shards@[i as int]);
            }
            if l > threshold - acc {
                proof {
                    lemma_total_len_prefix(self.shards@, i as int + 1);
                }
                return true;
            }
            acc = acc + l;
            i = i + 1;
        }
        proof {
            assert(self.shards@.take(self.shards@.len() as int) =~= self.shards@);
        }
        false
    }

}

/// After replacing the count of the entry at `j` of shard `idx` with `nc`,
/// only that entry's phrase changes its count.
proof fn lemma_map_update_entry(m0: PhraseMap, m1: PhraseMap, idx: int, j: int, nc: u32)
    requires
        m0.wf(),
        0 <= idx < SHARD_COUNT as int,
        m1.spec_width() == m0.spec_width(),
        0 <= j < m0.shard_model(idx).len(),
        m1.shards@ == m0.shards@.update(idx, m1.shards@[idx]),
        m1.shard_model(idx) == m0.shard_model(idx).update(j, (m0.shard_model(idx)[j].0, nc)),
    ensures
        m1.wf(),
        m1.num_entries() == m0.num_entries(),
        m0.contains_phrase(m0.shard_model(idx)[j].0),
        forall|q: Seq<Seq<char>>|
            #[trigger] m1.count_of(q) == if q == m0.shard_model(idx)[j].0 {
                nc
            } else {
                m0.count_of(q)
            },
        forall|q: Seq<Seq<char>>|
            #[trigger] m1.contains_phrase(q) == (m0.contains_phrase(q)
                || q == m0.shard_model(idx)[j].0),
{
    let s0 = m0.shard_model(idx);
    let s1 = m1.shard_model(idx);
    let key = s0[j].0;
    assert(shard_of(key) == idx);
    lemma_find_count_at(s0, j);
    assert forall|q: Seq<Seq<char>>|
        #[trigger] m1.count_of(q) == if q == key { nc } else { m0.count_of(q) } by {
        if shard_of(q) == idx {
            lemma_find_count_update(s0, j, nc, q);
        } else {
            assert(m1.shards@[shard_of(q)] == m0.shards@[shard_of(q)]);
            assert(m1.shard_model(shard_of(q)) == m0.shard_model(shard_of(q)));
        }
    }
    assert forall|q: Seq<Seq<char>>|
        #[trigger] m1.contains_phrase(q) == (m0.contains_phrase(q) || q == key) by {
        if shard_of(q) == idx {
            lemma_find_count_update(s0, j, nc, q);
        } else {
            assert(m1.shards@[shard_of(q)] == m0.shards@[shard_of(q)]);
            assert(m1.shard_model(shard_of(q)) == m0.shard_model(shard_of(q)));
        }
    }
    assert forall|i: int| 0 <= i < SHARD_COUNT implies shard_ok(
        #[trigger] m1.shard_model(i),
        m1.spec_width(),
        i,
    ) by {
        if i == idx {
            assert forall|j2: int| 0 <= j2 < s1.len() implies (#[trigger] s1[j2]).0.len()
                == m1.spec_width() && shard_of(s1[j2].0) == i by {
                assert(s1[j2].0 == s0[j2].0);
            }
            assert forall|j2: int, k: int| 0 <= j2 < k < s1.len() implies s1[j2].0 != s1[k].0 by {
                assert(s1[j2].0 == s0[j2].0);
                assert(s1[k].0 == s0[k].0);
            }
        } else {
            assert(m1.shards@[i] == m0.shards@[i]);
            assert(m1.shard_model(i) == m0.shard_model(i));
        }
    }
    assert(m1.shards@[idx]@.len() == m0.shards@[idx]@.len());
    lemma_total_len_update(m0.shards@, idx, m1.shards@[idx]);
}

/// After pushing a fresh entry `(p, delta)` onto shard `idx`, `p` has count
/// `delta` and every other count is unchanged.
proof fn lemma_map_push_entry(m0: PhraseMap, m1: PhraseMap, idx: int, p: Seq<Seq<char>>, delta: u32)
    requires
        m0.wf(),
        0 <= idx < SHARD_COUNT as int,
        m1.spec_width() == m0.spec_width(),
        m1.shards@ == m0.shards@.update(idx, m1.shards@[idx]),
        m1.shard_model(idx) == m0.shard_model(idx).push((p, delta)),
        shard_of(p) == idx,
        p.len() == m0.spec_width(),
        find_count(m0.shard_model(idx), p) is None,
    ensures
        m1.wf(),
        m1.num_entries() == m0.num_entries() + 1,
        !m0.contains_phrase(p),
        forall|q: Seq<Seq<char>>|
            #[trigger] m1.count_of(q) == if q == p {
                delta
            } else {
                m0.count_of(q)
            },
        forall|q: Seq<Seq<char>>|
            #[trigger] m1.contains_phrase(q) == (m0.contains_phrase(q) || q == p),
{
    let s0 = m0.shard_model(idx);
    let s1 = m1.shard_model(idx);
    let e = (p, delta);
    assert forall|q: Seq<Seq<char>>|
        #[trigger] m1.count_of(q) == if q == p { delta } else { m0.count_of(q) } by {
        if shard_of(q) == idx {
            lemma_find_count_push(s0, e, q);
            if q == p {
                assert(find_count(s0, q) is None);
            }
        } else {
            assert(m1.shards@[shard_of(q)] == m0.shards@[shard_of(q)]);
            assert(m1.shard_model(shard_of(q)) == m0.shard_model(shard_of(q)));
        }
    }
    assert forall|q: Seq<Seq<char>>|
        #[trigger] m1.contains_phrase(q) == (m0.contains_phrase(q) || q == p) by {
        if shard_of(q) == idx {
            lemma_find_count_push(s0, e, q);
            if q == p {
                assert(find_count(s0, q) is None);
            }
        } else {
            assert(m1.shards@[shard_of(q)] == m0.shards@[shard_of(q)]);
            assert(m1.shard_model(shard_of(q)) == m0.shard_model(shard_of(q)));
        }
    }
    assert forall|i: int| 0 <= i < SHARD_COUNT implies shard_ok(
        #[trigger] m1.shard_model(i),
        m1.spec_width(),
        i,
    ) by {
        if i == idx {
            assert forall|j2: int| 0 <= j2 < s1.len() implies (#[trigger] s1[j2]).0.len()
                == m1.spec_width() && shard_of(s1[j2].0) == i by {
                if j2 < s0.len() {
                    assert(s1[j2] == s0[j2]);
                } else {
                    assert(s1[j2] == e);
                }
            }
            assert forall|j2: int, k: int| 0 <= j2 < k < s1.len() implies s1[j2].0 != s1[k].0 by {
                assert(s1[j2] == s0[j2]);
                if k < s0.len() {
                    assert(s1[k] == s0[k]);
                } else {
                    assert(s1[k] == e);
                    if s0[j2].0 == p {
                        lemma_find_count_at(s0, j2);
                    }
                }
            }
        } else {
            assert(m1.shards@[i] == m0.shards@[i]);
            assert(m1.shard_model(i) == m0.shard_model(i));
        }
    }
    assert(m1.shards@[idx]@.len() == m0.shards@[idx]@.len() + 1);
    lemma_total_len_update(m0.shards@, idx, m1.shards@[idx]);
}


proof fn lemma_total_len_zero(ss: Seq<Vec<(PhraseBuf, u32)>>, k: int)
    requires
        0 <= k <= ss.len(),
        forall|i: int| 0 <= i < ss.len() ==> (#[trigger] ss[i])@.len() == 0,
    ensures
        total_len(ss.take(k)) == 0,
    decreases k,
{
    if k > 0 {
        assert(ss.take(k).drop_last() =~= ss.take(k - 1));
        assert(ss.take(k).last() == ss[k - 1]);
        lemma_total_len_zero(ss, k - 1);
    }
}

/// `find_count` returning a value means some entry holds that phrase.
proof fn lemma_find_count_some_exists(s: Seq<(Seq<Seq<char>>, u32)>, q: Seq<Seq<char>>)
    requires
        find_count(s, q) is Some,
    ensures
        exists|j: int| 0 <= j < s.len() && (#[trigger] s[j]).0 == q,
    decreases s.len(),
{
    if s.len() > 0 && s[0].0 != q {
        lemma_find_count_some_exists(s.drop_first(), q);
    }
}

impl PhraseMap {
    /// Every (phrase, count) pair of the map, each exactly once, in
    /// unspecified order; the map is consumed.
    pub fn into_entries(self) -> (r: Vec<(PhraseBuf, u32)>)
        requires
            self.wf(),
        ensures
            r@.len() == self.num_entries(),
            forall|i: int|
                0 <= i < r@.len() ==> {
                    let e = #[trigger] shard_view(r@)[i];
                    &&& self.contains_phrase(e.0)
                    &&& self.count_of(e.0) == e.1
                    &&& e.0.len() == self.spec_width()
                },
            forall|i: int, j: int|
                0 <= i < j < r@.len() ==> shard_view(r@)[i].0 != shard_view(r@)[j].0,
            forall|q: Seq<Seq<char>>|
                #[trigger] self.contains_phrase(q) ==> exists|i: int|
                    0 <= i < r@.len() && (#[trigger] shard_view(r@)[i]).0 == q,
    {
        let ghost m = self;
        let PhraseMap { shards: mut shards, width: _ } = self;
        let mut r: Vec<(PhraseBuf, u32)> = Vec::new();
        while shards.len() > 0
            invariant
                m.wf(),
                shards@ == m.shards@.take(shards@.len() as int),
                shards@.len() <= SHARD_COUNT,
                r@.len() + total_len(shards@) == m.num_entries(),
                forall|i: int|
                    0 <= i < r@.len() ==> {
                        let e = #[trigger] shard_view(r@)[i];
                        &&& m.contains_phrase(e.0)
                        &&& m.count_of(e.0) == e.1
                        &&& e.0.len() == m.spec_width()
                    },
                forall|i: int, j: int|
                    0 <= i < j < r@.len() ==> shard_view(r@)[i].0 != shard_view(r@)[j].0,
                forall|i: int|
                    0 <= i < r@.len() ==> shard_of((#[trigger] shard_view(r@)[i]).0)
                        >= shards@.len(),
                forall|q: Seq<Seq<char>>|
                    #[trigger] m.contains_phrase(q) && shard_of(q) >= shards@.len()
                        ==> exists|i: int|
                        0 <= i < r@.len() && (#[trigger] shard_view(r@)[i]).0 == q,
            decreases shards@.len(),
        {
            let ghost kk = shards@.len() - 1;
            proof {
                assert(shards@.last() == m.shards@[kk]);
            }
            let mut shard = shards.pop().unwrap();
            proof {
                assert(shards@ =~= m.shards@.take(kk));
                assert(shard@ =~= m.shards@[kk]@.take(shard@.len() as int));
                assert(total_len(m.shards@.take(kk + 1)) == total_len(m.shards@.take(kk + 1).drop_last())
                    + m.shards@.take(kk + 1).last()@.len());
                assert(m.shards@.take(kk + 1).drop_last() =~= m.shards@.take(kk));
                assert(shard_view(shard@) =~= m.shard_model(kk));
                assert forall|q: Seq<Seq<char>>, i: int|
                    #![trigger shard_view(r@)[i], find_count(shard_view(shard@), q)]
                    find_count(shard_view(shard@), q) is Some && 0 <= i < r@.len() implies
                    shard_view(r@)[i].0 != q by {
                    lemma_find_count_some_exists(shard_view(shard@), q);
                    let j = choose|j: int|
                        0 <= j < shard_view(shard@).len() && (#[trigger] shard_view(shard@)[j]).0
                            == q;
                    assert(shard_of(q) == kk);
                }
            }
            while shard.len() > 0
                invariant
                    m.wf(),
                    0 <= kk < SHARD_COUNT,
                    shards@ == m.shards@.take(kk),
                    shard@.len() <= m.shards@[kk]@.len(),
                    shard@ == m.shards@[kk]@.take(shard@.len() as int),
                    r@.len() + total_len(shards@) + shard@.len() == m.num_entries(),
                    forall|i: int|
                        0 <= i < r@.len() ==> {
                            let e = #[trigger] shard_view(r@)[i];
                            &&& m.contains_phrase(e.0)
                            &&& m.count_of(e.0) == e.1
                            &&& e.0.len() == m.spec_width()
                        },
                    forall|i: int, j: int|
                        0 <= i < j < r@.len() ==> shard_view(r@)[i].0 != shard_view(r@)[j].0,
                    forall|i: int|
                        0 <= i < r@.len() ==> shard_of((#[trigger] shard_view(r@)[i]).0) >= kk,
                    forall|q: Seq<Seq<char>>, i: int|
                        #![trigger shard_view(r@)[i], find_count(shard_view(shard@), q)]
                        find_count(shard_view(shard@), q) is Some && 0 <= i < r@.len()
                            ==> shard_view(r@)[i].0 != q,
                    forall|q: Seq<Seq<char>>|
                        #[trigger] m.contains_phrase(q) && (shard_of(q) > kk || (shard_of(q) == kk
                            && find_count(shard_view(shard@), q) is None)) ==> exists|i: int|
                            0 <= i < r@.len() && (#[trigger] shard_view(r@)[i]).0 == q,
                decreases shard@.len(),
            {
                let ghost jj = shard@.len() - 1;
                let ghost pre_shard = shard_view(shard@);
                let ghost pre_r = shard_view(r@);
                proof {
                    assert(shard@.last() == m.shards@[kk]@[jj]);
                }
                let e = shard.pop().unwrap();
                let ghost ev = entry_view(e);
                r.push(e);
                proof {
                    assert(shard@ =~= m.shards@[kk]@.take(jj));
                    assert(shard_view(shard@) =~= pre_shard.take(jj));
                    assert(shard_view(r@) =~= pre_r.push(ev));
                    assert(pre_shard =~= m.shard_model(kk).take(jj + 1));
                    assert(ev == m.shard_model(kk)[jj]);
                    assert(shard_of(ev.0) == kk);
                    lemma_find_count_at(m.shard_model(kk), jj);
                    assert(m.count_of(ev.0) == ev.1);
                    // the popped phrase does not recur in the remaining prefix
                    assert forall|j2: int| 0 <= j2 < jj implies (#[trigger] m.shard_model(
                        kk,
                    )[j2]).0 != ev.0 by {
                        assert(m.shard_model(kk)[j2].0 != m.shard_model(kk)[jj].0);
                    }
                    lemma_find_count_absent(shard_view(shard@), ev.0);
                    assert(pre_shard =~= shard_view(shard@).push(ev));
                    // it was present before the pop, so it is not yet in `r`
                    lemma_find_count_at(pre_shard, jj);
                    assert(forall|i: int|
                        0 <= i < pre_r.len() ==> (#[trigger] pre_r[i]).0 != ev.0);
                    assert forall|q: Seq<Seq<char>>, i: int|
                        #![trigger shard_view(r@)[i], find_count(shard_view(shard@), q)]
                        find_count(shard_view(shard@), q) is Some && 0 <= i < r@.len() implies
                        shard_view(r@)[i].0 != q by {
                        lemma_find_count_push(shard_view(shard@), ev, q);
                        assert(find_count(pre_shard, q) is Some);
                        if i < pre_r.len() {
                        } else {
                            assert(shard_view(r@)[i] == ev);
                            assert(q != ev.0);
                        }
                    }
                    assert forall|q: Seq<Seq<char>>|
                        #[trigger] m.contains_phrase(q) && (shard_of(q) > kk || (shard_of(q) == kk
                            && find_count(shard_view(shard@), q) is None)) implies exists|i: int|
                        0 <= i < r@.len() && (#[trigger] shard_view(r@)[i]).0 == q by {
                        if shard_of(q) == kk && find_count(shard_view(shard@), q) is None {
                            if q == ev.0 {
                                assert(shard_view(r@)[r@.len() - 1].0 == q);
                            } else {
                                lemma_find_count_push(shard_view(shard@), ev, q);
                                assert(find_count(pre_shard, q) is None);
                                let i = choose|i: int|
                                    0 <= i < pre_r.len() && (#[trigger] pre_r[i]).0 == q;
                                assert(shard_view(r@)[i].0 == q);
                            }
                        } else {
                            let i = choose|i: int|
                                0 <= i < pre_r.len() && (#[trigger] pre_r[i]).0 == q;
                            assert(shard_view(r@)[i].0 == q);
                        }
                    }
                }
            }
            proof {
                assert(shard_view(shard@).len() == 0);
                assert forall|q: Seq<Seq<char>>|
                    #[trigger] m.contains_phrase(q) && shard_of(q) >= shards@.len()
                        implies exists|i: int|
                    0 <= i < r@.len() && (#[trigger] shard_view(r@)[i]).0 == q by {
                    if shard_of(q) == kk {
                        assert(find_count(shard_view(shard@), q) is None);
                    }
                }
            }
        }
        proof {
            assert(shards@.len() == 0);
            assert(total_len(shards@) == 0);
            assert forall|q: Seq<Seq<char>>| #[trigger] m.contains_phrase(q) implies exists|i: int|
                0 <= i < r@.len() && (#[trigger] shard_view(r@)[i]).0 == q by {
                assert(shard_of(q) >= 0);
            }
        }
        r
    }
}

impl PhraseMap {
    /// Merge another map into this one: every (phrase, count) pair of the
    /// donor is added, so each final count is the capped sum of the two
    /// sides' counts. The donor is consumed.
    pub fn merge(&mut self, other: PhraseMap)
        requires
            old(self).wf(),
            other.wf(),
            old(self).spec_width() == other.spec_width(),
        ensures
            final(self).wf(),
            final(self).spec_width() == old(self).spec_width(),
            forall|q: Seq<Seq<char>>|
                #[trigger] final(self).count_of(q) == sat_cap(
                    old(self).count_of(q) + other.count_of(q),
                ),
            forall|q: Seq<Seq<char>>|
                #[trigger] final(self).contains_phrase(q) == (old(self).contains_phrase(q)
                    || other.contains_phrase(q)),
    {
        let ghost o = other;
        let mut entries = other.into_entries();
        let ghost ev = shard_view(entries@);
        proof {
            assert(shard_view(entries@) =~= ev.take(entries@.len() as int));
        }
        while entries.len() > 0
            invariant
                self.wf(),
                self.spec_width() == old(self).spec_width(),
                entries@.len() <= ev.len(),
                shard_view(entries@) == ev.take(entries@.len() as int),
                forall|i: int|
                    0 <= i < ev.len() ==> o.contains_phrase((#[trigger] ev[i]).0)
                        && o.count_of(ev[i].0) == ev[i].1 && ev[i].0.len()
                        == old(self).spec_width(),
                forall|i: int, j: int| 0 <= i < j < ev.len() ==> ev[i].0 != ev[j].0,
                forall|q: Seq<Seq<char>>|
                    #[trigger] o.contains_phrase(q) ==> exists|i: int|
                        0 <= i < ev.len() && (#[trigger] ev[i]).0 == q,
                forall|q: Seq<Seq<char>>|
                    #[trigger] self.count_of(q) == if find_count(
                        ev.skip(entries@.len() as int),
                        q,
                    ) is Some {
                        sat_cap(old(self).count_of(q) + o.count_of(q))
                    } else {
                        old(self).count_of(q)
                    },
                forall|q: Seq<Seq<char>>|
                    #[trigger] self.contains_phrase(q) == (old(self).contains_phrase(q)
                        || find_count(ev.skip(entries@.len() as int), q) is Some),
            decreases entries@.len(),
        {
            let ghost jj = entries@.len() - 1;
            let ghost pre_entries = shard_view(entries@);
            let e = entries.pop().unwrap();
            proof {
                assert(entry_view(e) == pre_entries[jj]);
                assert(pre_entries[jj] == ev[jj]);
                assert(shard_view(entries@) =~= pre_entries.take(jj));
                assert(shard_view(entries@) =~= ev.take(jj));
                assert(e.0.deep_view().len() == e.0@.len());
                // the popped phrase is not among the already-processed suffix
                assert forall|i: int| 0 <= i < ev.skip(jj + 1).len() implies (#[trigger] ev.skip(
                    jj + 1,
                )[i]).0 != ev[jj].0 by {
                    assert(ev.skip(jj + 1)[i] == ev[jj + 1 + i]);
                }
                lemma_find_count_absent(ev.skip(jj + 1), ev[jj].0);
            }
            self.add_owned(e.0, e.1);
            proof {
                assert(ev.skip(jj)[0] == ev[jj]);
                assert(ev.skip(jj).drop_first() =~= ev.skip(jj + 1));
                assert forall|q: Seq<Seq<char>>|
                    #[trigger] self.count_of(q) == if find_count(ev.skip(jj), q) is Some {
                        sat_cap(old(self).count_of(q) + o.count_of(q))
                    } else {
                        old(self).count_of(q)
                    } by {
                    if q == ev[jj].0 {
                        assert(find_count(ev.skip(jj), q) == Some(ev[jj].1));
                        assert(o.count_of(q) == ev[jj].1);
                    } else {
                        assert(find_count(ev.skip(jj), q) == find_count(ev.skip(jj + 1), q));
                    }
                }
                assert forall|q: Seq<Seq<char>>|
                    #[trigger] self.contains_phrase(q) == (old(self).contains_phrase(q)
                        || find_count(ev.skip(jj), q) is Some) by {
                    if q == ev[jj].0 {
                        assert(find_count(ev.skip(jj), q) == Some(ev[jj].1));
                    } else {
                        assert(find_count(ev.skip(jj), q) == find_count(ev.skip(jj + 1), q));
                    }
                }
            }
        }
        proof {
            assert(ev.skip(0) =~= ev);
            assert forall|q: Seq<Seq<char>>|
                #[trigger] self.count_of(q) == sat_cap(old(self).count_of(q) + o.count_of(q)) by {
                if o.contains_phrase(q) {
                    let i = choose|i: int| 0 <= i < ev.len() && (#[trigger] ev[i]).0 == q;
                    lemma_find_count_at(ev, i);
                } else {
                    if find_count(ev, q) is Some {
                        lemma_find_count_some_exists(ev, q);
                    }
                    assert(o.count_of(q) == 0);
                }
            }
            assert forall|q: Seq<Seq<char>>|
                #[trigger] self.contains_phrase(q) == (old(self).contains_phrase(q)
                    || o.contains_phrase(q)) by {
                if o.contains_phrase(q) {
                    let i = choose|i: int| 0 <= i < ev.len() && (#[trigger] ev[i]).0 == q;
                    lemma_find_count_at(ev, i);
                } else {
                    if find_count(ev, q) is Some {
                        lemma_find_count_some_exists(ev, q);
                    }
                }
            }
        }
    }
}

/// Law helper: adding onto an already-capped total gives the same counter
/// as capping the full total once.
pub proof fn lemma_sat_cap_chain(a: int, b: int)
    requires
        a >= 0,
        b >= 0,
    ensures
        sat_cap(sat_cap(a) + b) == sat_cap(a + b),
{
}

/// Law: merging two maps combines counts symmetrically, so the order of a
/// pairwise reduction does not change any final count.
pub proof fn lemma_merge_commutes(a: PhraseMap, b: PhraseMap, q: Seq<Seq<char>>)
    ensures
        sat_cap(a.count_of(q) + b.count_of(q)) == sat_cap(b.count_of(q) + a.count_of(q)),
{
}

/// Law: merging is associative: combining three maps' counts groups either
/// way to the same final count.
pub proof fn lemma_merge_assoc(a: PhraseMap, b: PhraseMap, c: PhraseMap, q: Seq<Seq<char>>)
    ensures
        sat_cap(sat_cap(a.count_of(q) + b.count_of(q)) + c.count_of(q)) == sat_cap(
            a.count_of(q) + sat_cap(b.count_of(q) + c.count_of(q)),
        ),
{
}

/// The total delta that a sequence of (phrase, delta) events records for
/// phrase `q`.
pub open spec fn event_total(events: Seq<(Seq<Seq<char>>, u32)>, q: Seq<Seq<char>>) -> int
    decreases events.len(),
{
    if events.len() == 0 {
        0
    } else {
        event_total(events.drop_last(), q) + if events.last().0 == q {
            events.last().1 as int
        } else {
            0
        }
    }
}

/// Whether a sequence of (phrase, delta) events mentions phrase `q` at
/// all.
pub open spec fn event_mentions(events: Seq<(Seq<Seq<char>>, u32)>, q: Seq<Seq<char>>) -> bool
    decreases events.len(),
{
    if events.len() == 0 {
        false
    } else {
        event_mentions(events.drop_last(), q) || events.last().0 == q
    }
}

/// In an event list whose keys are distinct, the total recorded for a key
/// present at index `i` is exactly that entry's delta.
pub proof fn lemma_event_total_unique(events: Seq<(Seq<Seq<char>>, u32)>, q: Seq<Seq<char>>, i: int)
    requires
        0 <= i < events.len(),
        events[i].0 == q,
        forall|j: int, k: int| 0 <= j < k < events.len() ==> events[j].0 != events[k].0,
    ensures
        event_total(events, q) == events[i].1,
        event_mentions(events, q),
    decreases events.len(),
{
    if i == events.len() - 1 {
        lemma_event_total_absent_prefix(events.drop_last(), q, events, i);
    } else {
        assert(events.last().0 != q);
        lemma_event_total_unique(events.drop_last(), q, i);
    }
}

proof fn lemma_event_total_absent_prefix(
    pre: Seq<(Seq<Seq<char>>, u32)>,
    q: Seq<Seq<char>>,
    events: Seq<(Seq<Seq<char>>, u32)>,
    i: int,
)
    requires
        pre == events.drop_last(),
        0 <= i < events.len(),
        events[i].0 == q,
        i == events.len() - 1,
        forall|j: int, k: int| 0 <= j < k < events.len() ==> events[j].0 != events[k].0,
    ensures
        event_total(pre, q) == 0,
{
    assert(forall|j: int| 0 <= j < pre.len() ==> (#[trigger] pre[j]).0 != q);
    lemma_event_total_no_mention(pre, q);
}

/// An event list with no entry for `q` records nothing for it.
pub proof fn lemma_event_total_no_mention(events: Seq<(Seq<Seq<char>>, u32)>, q: Seq<Seq<char>>)
    requires
        forall|j: int| 0 <= j < events.len() ==> (#[trigger] events[j]).0 != q,
    ensures
        event_total(events, q) == 0,
        !event_mentions(events, q),
    decreases events.len(),
{
    if events.len() > 0 {
        lemma_event_total_no_mention(events.drop_last(), q);
    }
}

/// The count that folding `events` into an empty map yields for `q`.
pub open spec fn folded_count(events: Seq<(Seq<Seq<char>>, u32)>, q: Seq<Seq<char>>) -> u32 {
    sat_cap(event_total(events, q))
}

pub proof fn lemma_event_total_nonneg(events: Seq<(Seq<Seq<char>>, u32)>, q: Seq<Seq<char>>)
    ensures
        event_total(events, q) >= 0,
    decreases events.len(),
{
    if events.len() > 0 {
        lemma_event_total_nonneg(events.drop_last(), q);
    }
}

pub proof fn lemma_event_total_concat(
    e1: Seq<(Seq<Seq<char>>, u32)>,
    e2: Seq<(Seq<Seq<char>>, u32)>,
    q: Seq<Seq<char>>,
)
    ensures
        event_total(e1 + e2, q) == event_total(e1, q) + event_total(e2, q),
    decreases e2.len(),
{
    if e2.len() == 0 {
        assert(e1 + e2 =~= e1);
    } else {
        assert((e1 + e2).drop_last() =~= e1 + e2.drop_last());
        assert((e1 + e2).last() == e2.last());
        lemma_event_total_concat(e1, e2.drop_last(), q);
    }
}

/// Law (merge commutativity/associativity over a partition): folding two
/// groups of events independently and then merging the resulting counts
/// gives the same count as folding all the events together.
pub proof fn lemma_partition_fold(
    e1: Seq<(Seq<Seq<char>>, u32)>,
    e2: Seq<(Seq<Seq<char>>, u32)>,
    q: Seq<Seq<char>>,
)
    ensures
        sat_cap(folded_count(e1, q) + folded_count(e2, q)) == folded_count(e1 + e2, q),
{
    lemma_event_total_nonneg(e1, q);
    lemma_event_total_nonneg(e2, q);
    lemma_event_total_concat(e1, e2, q);
}

/// The number of occurrences of phrase `q` in a sequence of phrases.
pub open spec fn occ_in(s: Seq<Seq<Seq<char>>>, q: Seq<Seq<char>>) -> int
    decreases s.len(),
{
    if s.len() == 0 {
        0
    } else {
        occ_in(s.drop_last(), q) + if s.last() == q {
            1int
        } else {
            0
        }
    }
}

pub proof fn lemma_occ_in_nonneg(s: Seq<Seq<Seq<char>>>, q: Seq<Seq<char>>)
    ensures
        occ_in(s, q) >= 0,
    decreases s.len(),
{
    if s.len() > 0 {
        lemma_occ_in_nonneg(s.drop_last(), q);
    }
}

pub proof fn lemma_occ_in_concat(a: Seq<Seq<Seq<char>>>, b: Seq<Seq<Seq<char>>>, q: Seq<Seq<char>>)
    ensures
        occ_in(a + b, q) == occ_in(a, q) + occ_in(b, q),
    decreases b.len(),
{
    if b.len() == 0 {
        assert(a + b =~= a);
    } else {
        assert((a + b).drop_last() =~= a + b.drop_last());
        assert((a + b).last() == b.last());
        lemma_occ_in_concat(a, b.drop_last(), q);
    }
}

impl PhraseMap {
    /// The number of words of every phrase in this map.
    pub fn width(&self) -> (r: usize)
        ensures
            r == self.spec_width(),
    {
        self.width
    }
}

/// A well-formed map's phrase width is at least one word.
pub proof fn lemma_wf_width(m: PhraseMap)
    requires
        m.wf(),
    ensures
        m.spec_width() >= 1,
{
}

/// An entry list that lists a map's pairs exactly once records, for every
/// phrase, exactly that map's count.
pub proof fn lemma_entry_list_totals(es: Seq<(Seq<Seq<char>>, u32)>, m: PhraseMap)
    requires
        forall|i: int|
            0 <= i < es.len() ==> m.contains_phrase((#[trigger] es[i]).0) && m.count_of(es[i].0)
                == es[i].1,
        forall|i: int, j: int| 0 <= i < j < es.len() ==> es[i].0 != es[j].0,
        forall|q: Seq<Seq<char>>|
            #[trigger] m.contains_phrase(q) ==> exists|i: int|
                0 <= i < es.len() && (#[trigger] es[i]).0 == q,
    ensures
        forall|q: Seq<Seq<char>>| #[trigger] event_total(es, q) == m.count_of(q),
        forall|q: Seq<Seq<char>>| #[trigger] event_mentions(es, q) == m.contains_phrase(q),
{
    assert forall|q: Seq<Seq<char>>| #[trigger] event_total(es, q) == m.count_of(q) by {
        lemma_one_phrase_total(es, m, q);
    }
    assert forall|q: Seq<Seq<char>>| #[trigger] event_mentions(es, q) == m.contains_phrase(q) by {
        lemma_one_phrase_total(es, m, q);
    }
}

proof fn lemma_one_phrase_total(es: Seq<(Seq<Seq<char>>, u32)>, m: PhraseMap, q: Seq<Seq<char>>)
    requires
        forall|i: int|
            0 <= i < es.len() ==> m.contains_phrase((#[trigger] es[i]).0) && m.count_of(es[i].0)
                == es[i].1,
        forall|i: int, j: int| 0 <= i < j < es.len() ==> es[i].0 != es[j].0,
        forall|p: Seq<Seq<char>>|
            #[trigger] m.contains_phrase(p) ==> exists|i: int|
                0 <= i < es.len() && (#[trigger] es[i]).0 == p,
    ensures
        event_total(es, q) == m.count_of(q),
        event_mentions(es, q) == m.contains_phrase(q),
{
    if m.contains_phrase(q) {
        let i = choose|i: int| 0 <= i < es.len() && (#[trigger] es[i]).0 == q;
        lemma_event_total_unique(es, q, i);
    } else {
        assert forall|j: int| 0 <= j < es.len() implies (#[trigger] es[j]).0 != q by {
            if es[j].0 == q {
                assert(m.contains_phrase(q));
            }
        }
        lemma_event_total_no_mention(es, q);
    }
}

proof fn lemma_total_len_prefix(ss: Seq<Vec<(PhraseBuf, u32)>>, k: int)
    requires
        0 <= k <= ss.len(),
    ensures
        total_len(ss) >= total_len(ss.take(k)),
    decreases ss.len(),
{
    if k == ss.len() {
        assert(ss.take(k) =~= ss);
    } else {
        assert(ss.drop_last().take(k) =~= ss.take(k));
        lemma_total_len_prefix(ss.drop_last(), k);
    }
}

} // verus!
