//! The spill encoding: a self-delimiting binary snapshot of a phrase map's
//! entries. Layout, all integers little-endian: the phrase width (8 bytes),
//! the entry count (8 bytes), then per entry each word as an 8-byte UTF-8
//! byte length followed by its UTF-8 bytes, and finally the entry's count
//! (4 bytes). Decoding merges each entry into a phrase map as it is read,
//! so no intermediate map is ever built.

use vstd::prelude::*;

use crate::map::{event_mentions, event_total, sat_cap, shard_view, PhraseBuf, PhraseMap};
use vstd::utf8::{decode_utf8, encode_utf8, valid_utf8};

verus! {

/// 256 to the `k`.
pub open spec fn pow256(k: nat) -> nat
    decreases k,
{
    if k == 0 {
        1
    } else {
        256 * pow256((k - 1) as nat)
    }
}

/// The little-endian encoding of `x` in `k` bytes, least significant
/// first.
pub open spec fn le_bytes(x: nat, k: nat) -> Seq<u8>
    decreases k,
{
    if k == 0 {
        Seq::empty()
    } else {
        seq![(x % 256) as u8] + le_bytes(x / 256, (k - 1) as nat)
    }
}

/// The value of little-endian bytes, least significant first.
pub open spec fn le_value(b: Seq<u8>) -> nat
    decreases b.len(),
{
    if b.len() == 0 {
        0
    } else {
        b[0] as nat + 256 * le_value(b.drop_first())
    }
}

proof fn lemma_pow256_vals()
    ensures
        pow256(4) == 0x1_0000_0000,
        pow256(7) == 0x100_0000_0000_0000,
        pow256(8) == 0x1_0000_0000_0000_0000,
{
    reveal_with_fuel(pow256, 9);
}

proof fn lemma_pow256_pos(k: nat)
    ensures
        pow256(k) >= 1,
    decreases k,
{
    if k > 0 {
        lemma_pow256_pos((k - 1) as nat);
    }
}

proof fn lemma_pow256_le(a: nat, b: nat)
    requires
        a <= b,
    ensures
        pow256(a) <= pow256(b),
    decreases b,
{
    lemma_pow256_pos(a);
    if a < b {
        lemma_pow256_le(a, (b - 1) as nat);
        lemma_pow256_pos((b - 1) as nat);
    }
}

proof fn lemma_le_bytes_len(x: nat, k: nat)
    ensures
        le_bytes(x, k).len() == k,
    decreases k,
{
    if k > 0 {
        lemma_le_bytes_len(x / 256, (k - 1) as nat);
    }
}

proof fn lemma_le_round_trip(x: nat, k: nat)
    requires
        x < pow256(k),
    ensures
        le_value(le_bytes(x, k)) == x,
    decreases k,
{
    if k > 0 {
        let s = le_bytes(x, k);
        assert(s[0] == (x % 256) as u8);
        assert(s.drop_first() =~= le_bytes(x / 256, (k - 1) as nat));
        lemma_le_round_trip(x / 256, (k - 1) as nat);
    }
}

proof fn lemma_le_value_bound(b: Seq<u8>)
    ensures
        le_value(b) < pow256(b.len()),
    decreases b.len(),
{
    if b.len() > 0 {
        lemma_le_value_bound(b.drop_first());
    }
}

/// The bytes of one word: its UTF-8 byte length, then its UTF-8 bytes.
pub open spec fn word_bytes(w: Seq<char>) -> Seq<u8> {
    le_bytes(encode_utf8(w).len(), 8) + encode_utf8(w)
}

/// The bytes of a phrase's words, in order.
pub open spec fn words_bytes(ws: Seq<Seq<char>>) -> Seq<u8>
    decreases ws.len(),
{
    if ws.len() == 0 {
        Seq::empty()
    } else {
        word_bytes(ws[0]) + words_bytes(ws.drop_first())
    }
}

/// The bytes of one entry: its phrase's words, then its count.
pub open spec fn entry_bytes(e: (Seq<Seq<char>>, u32)) -> Seq<u8> {
    words_bytes(e.0) + le_bytes(e.1 as nat, 4)
}

/// The bytes of an entry list, in order.
pub open spec fn entries_bytes(es: Seq<(Seq<Seq<char>>, u32)>) -> Seq<u8>
    decreases es.len(),
{
    if es.len() == 0 {
        Seq::empty()
    } else {
        entry_bytes(es[0]) + entries_bytes(es.drop_first())
    }
}

/// The full spill encoding of an entry list with phrase width `n`.
pub open spec fn encoding(es: Seq<(Seq<Seq<char>>, u32)>, n: nat) -> Seq<u8> {
    le_bytes(n, 8) + le_bytes(es.len(), 8) + entries_bytes(es)
}

/// A word whose UTF-8 length fits the 8-byte length prefix.
pub open spec fn word_encodable(w: Seq<char>) -> bool {
    encode_utf8(w).len() < pow256(8)
}

pub open spec fn phrase_encodable(p: Seq<Seq<char>>) -> bool {
    forall|j: int| 0 <= j < p.len() ==> word_encodable(#[trigger] p[j])
}

/// An entry list the format can represent: lengths fit their prefixes and
/// every phrase has exactly `n` words.
pub open spec fn encodable(es: Seq<(Seq<Seq<char>>, u32)>, n: nat) -> bool {
    &&& n < pow256(8)
    &&& es.len() < pow256(8)
    &&& forall|i: int|
        0 <= i < es.len() ==> (#[trigger] es[i]).0.len() == n && phrase_encodable(es[i].0)
}

proof fn lemma_words_bytes_snoc(ws: Seq<Seq<char>>, w: Seq<char>)
    ensures
        words_bytes(ws.push(w)) == words_bytes(ws) + word_bytes(w),
    decreases ws.len(),
{
    if ws.len() == 0 {
        reveal_with_fuel(words_bytes, 3);
        assert(ws.push(w) =~= seq![w]);
        assert(seq![w].drop_first() =~= Seq::<Seq<char>>::empty());
        assert(words_bytes(ws) + word_bytes(w) =~= word_bytes(w) + words_bytes(
            seq![w].drop_first(),
        ));
    } else {
        assert(ws.push(w)[0] == ws[0]);
        assert(ws.push(w).drop_first() =~= ws.drop_first().push(w));
        lemma_words_bytes_snoc(ws.drop_first(), w);
        assert(words_bytes(ws.push(w)) =~= words_bytes(ws) + word_bytes(w));
    }
}

proof fn lemma_entries_bytes_snoc(es: Seq<(Seq<Seq<char>>, u32)>, e: (Seq<Seq<char>>, u32))
    ensures
        entries_bytes(es.push(e)) == entries_bytes(es) + entry_bytes(e),
    decreases es.len(),
{
    if es.len() == 0 {
        reveal_with_fuel(entries_bytes, 3);
        assert(es.push(e) =~= seq![e]);
        assert(seq![e].drop_first() =~= Seq::<(Seq<Seq<char>>, u32)>::empty());
        assert(entries_bytes(es) + entry_bytes(e) =~= entry_bytes(e) + entries_bytes(
            seq![e].drop_first(),
        ));
    } else {
        assert(es.push(e)[0] == es[0]);
        assert(es.push(e).drop_first() =~= es.drop_first().push(e));
        lemma_entries_bytes_snoc(es.drop_first(), e);
        assert(entries_bytes(es.push(e)) =~= entries_bytes(es) + entry_bytes(e));
    }
}

/// Append the `k`-byte little-endian encoding of `x`.
fn push_le(out: &mut Vec<u8>, x: u64, k: usize)
    requires
        x < pow256(k as nat),
        k <= 8,
    ensures
        final(out)@ == old(out)@ + le_bytes(x as nat, k as nat),
    decreases k,
{
    if k == 0 {
        proof {
            assert(final(out)@ =~= old(out)@ + le_bytes(x as nat, 0));
        }
        return ;
    }
    let ghost pre = out@;
    out.push((x % 256) as u8);
    push_le(out, x / 256, k - 1);
    proof {
        assert(x as nat / 256 == (x / 256) as nat);
        assert(out@ =~= pre + le_bytes(x as nat, k as nat));
    }
}

/// Append a byte slice.
fn push_bytes(out: &mut Vec<u8>, b: &[u8])
    ensures
        final(out)@ == old(out)@ + b@,
{
    let ghost pre = out@;
    let mut i: usize = 0;
    proof {
        assert(out@ =~= pre + b@.take(0));
    }
    while i < b.len()
        invariant
            i <= b@.len(),
            out@ == pre + b@.take(i as int),
        decreases b@.len() - i,
    {
        out.push(b[i]);
        proof {
            assert(pre + b@.take(i as int) + seq![b@[i as int]] =~= pre + b@.take(i as int + 1));
        }
        i = i + 1;
    }
    proof {
        assert(b@.take(b@.len() as int) =~= b@);
    }
}

/// Serialize an entry list (every phrase `n` words wide) to the spill
/// encoding, in one left-to-right pass.
pub fn encode_entries(entries: &Vec<(PhraseBuf, u32)>, n: usize) -> (r: Vec<u8>)
    requires
        forall|i: int| 0 <= i < entries@.len() ==> (#[trigger] entries@[i]).0@.len() == n,
    ensures
        r@ == encoding(shard_view(entries@), n as nat),
        encodable(shard_view(entries@), n as nat),
{
    proof {
        lemma_pow256_vals();
    }
    let ghost es = shard_view(entries@);
    let mut out: Vec<u8> = Vec::new();
    push_le(&mut out, n as u64, 8);
    push_le(&mut out, entries.len() as u64, 8);
    let ghost header = out@;
    proof {
        assert(es.take(0) =~= Seq::<(Seq<Seq<char>>, u32)>::empty());
        assert(out@ =~= header + entries_bytes(es.take(0)));
    }
    let mut i: usize = 0;
    while i < entries.len()
        invariant
            i <= entries@.len(),
            n < pow256(8),
            es == shard_view(entries@),
            es.len() == entries@.len(),
            forall|i2: int| 0 <= i2 < entries@.len() ==> (#[trigger] entries@[i2]).0@.len() == n,
            header == le_bytes(n as nat, 8) + le_bytes(entries@.len() as nat, 8),
            out@ == header + entries_bytes(es.take(i as int)),
            forall|i2: int| 0 <= i2 < i ==> phrase_encodable((#[trigger] es[i2]).0),
        decreases entries@.len() - i,
    {
        let ghost base = out@;
        let word_count = entries[i].0.len();
        proof {
            assert(es[i as int].0 == entries@[i as int].0.deep_view());
            assert(es[i as int].0.len() == word_count);
            assert(es[i as int].0.take(0) =~= Seq::<Seq<char>>::empty());
            assert(out@ =~= base + words_bytes(es[i as int].0.take(0)));
        }
        let mut j: usize = 0;
        while j < word_count
            invariant
                j <= word_count,
                i < entries@.len(),
                word_count == entries@[i as int].0@.len(),
                es == shard_view(entries@),
                es.len() == entries@.len(),
                es[i as int].0 == entries@[i as int].0.deep_view(),
                es[i as int].0.len() == word_count,
                out@ == base + words_bytes(es[i as int].0.take(j as int)),
                forall|j2: int| 0 <= j2 < j ==> word_encodable(#[trigger] es[i as int].0[j2]),
            decreases word_count - j,
        {
            let w = &entries[i].0[j];
            let bs = w.as_str().as_bytes();
            let bl = bs.len();
            proof {
                lemma_pow256_vals();
                assert(bs@ == encode_utf8(w@));
                assert(es[i as int].0[j as int] == w@);
                assert(bl as nat == bs@.len());
            }
            push_le(&mut out, bl as u64, 8);
            push_bytes(&mut out, bs);
            proof {
                assert(es[i as int].0.take(j as int).push(w@) =~= es[i as int].0.take(j as int + 1));
                lemma_words_bytes_snoc(es[i as int].0.take(j as int), w@);
                assert(out@ =~= base + words_bytes(es[i as int].0.take(j as int + 1)));
            }
            j = j + 1;
        }
        proof {
            lemma_pow256_vals();
            assert(es[i as int].0.take(word_count as int) =~= es[i as int].0);
        }
        push_le(&mut out, entries[i].1 as u64, 4);
        proof {
            assert(es[i as int].1 == entries@[i as int].1);
            assert(out@ =~= base + entry_bytes(es[i as int]));
            assert(es.take(i as int).push(es[i as int]) =~= es.take(i as int + 1));
            lemma_entries_bytes_snoc(es.take(i as int), es[i as int]);
            assert(out@ =~= header + entries_bytes(es.take(i as int + 1)));
        }
        i = i + 1;
    }
    proof {
        assert(es.take(es.len() as int) =~= es);
        assert(out@ =~= encoding(es, n as nat));
    }
    out
}

/// Read a `k`-byte little-endian integer off the front of `b`.
pub open spec fn take_le(b: Seq<u8>, k: nat) -> Option<(nat, Seq<u8>)> {
    if b.len() >= k {
        Some((le_value(b.take(k as int)), b.skip(k as int)))
    } else {
        None
    }
}

/// Read one length-prefixed UTF-8 word off the front of `b`.
pub open spec fn take_word(b: Seq<u8>) -> Option<(Seq<char>, Seq<u8>)> {
    match take_le(b, 8) {
        Some((len, rest)) => if rest.len() >= len && valid_utf8(rest.take(len as int)) {
            Some((decode_utf8(rest.take(len as int)), rest.skip(len as int)))
        } else {
            None
        },
        None => None,
    }
}

/// Read `n` words off the front of `b`.
pub open spec fn take_phrase(b: Seq<u8>, n: nat) -> Option<(Seq<Seq<char>>, Seq<u8>)>
    decreases n,
{
    if n == 0 {
        Some((Seq::empty(), b))
    } else {
        match take_word(b) {
            Some((w, rest)) => match take_phrase(rest, (n - 1) as nat) {
                Some((ws, rest2)) => Some((seq![w] + ws, rest2)),
                None => None,
            },
            None => None,
        }
    }
}

/// Read one entry (an `n`-word phrase and its count) off the front of `b`.
pub open spec fn take_entry(b: Seq<u8>, n: nat) -> Option<((Seq<Seq<char>>, u32), Seq<u8>)> {
    match take_phrase(b, n) {
        Some((p, rest)) => match take_le(rest, 4) {
            Some((c, rest2)) => Some(((p, c as u32), rest2)),
            None => None,
        },
        None => None,
    }
}

/// Read `cnt` entries off the front of `b`.
pub open spec fn take_entries(b: Seq<u8>, cnt: nat, n: nat) -> Option<
    (Seq<(Seq<Seq<char>>, u32)>, Seq<u8>),
>
    decreases cnt,
{
    if cnt == 0 {
        Some((Seq::empty(), b))
    } else {
        match take_entry(b, n) {
            Some((e, rest)) => match take_entries(rest, (cnt - 1) as nat, n) {
                Some((es, rest2)) => Some((seq![e] + es, rest2)),
                None => None,
            },
            None => None,
        }
    }
}

/// The decoded phrase width and entry list of a spill byte sequence, when
/// the bytes are exactly one well-formed encoding.
pub open spec fn decode_spec(b: Seq<u8>) -> Option<(nat, Seq<(Seq<Seq<char>>, u32)>)> {
    match take_le(b, 8) {
        Some((n, rest)) => match take_le(rest, 8) {
            Some((cnt, rest2)) => match take_entries(rest2, cnt, n) {
                Some((es, rest3)) => if rest3.len() == 0 {
                    Some((n, es))
                } else {
                    None
                },
                None => None,
            },
            None => None,
        },
        None => None,
    }
}

proof fn lemma_take_le_of_le(x: nat, k: nat, rest: Seq<u8>)
    requires
        x < pow256(k),
    ensures
        take_le(le_bytes(x, k) + rest, k) == Some((x, rest)),
{
    lemma_le_bytes_len(x, k);
    assert((le_bytes(x, k) + rest).take(k as int) =~= le_bytes(x, k));
    assert((le_bytes(x, k) + rest).skip(k as int) =~= rest);
    lemma_le_round_trip(x, k);
}

proof fn lemma_take_word_of(w: Seq<char>, rest: Seq<u8>)
    requires
        word_encodable(w),
    ensures
        take_word(word_bytes(w) + rest) == Some((w, rest)),
{
    let bs = encode_utf8(w);
    assert(word_bytes(w) + rest =~= le_bytes(bs.len(), 8) + (bs + rest));
    lemma_take_le_of_le(bs.len(), 8, bs + rest);
    assert((bs + rest).take(bs.len() as int) =~= bs);
    assert((bs + rest).skip(bs.len() as int) =~= rest);
    vstd::utf8::encode_utf8_valid_utf8(w);
    vstd::utf8::encode_utf8_decode_utf8(w);
}

proof fn lemma_take_phrase_of(p: Seq<Seq<char>>, rest: Seq<u8>)
    requires
        phrase_encodable(p),
    ensures
        take_phrase(words_bytes(p) + rest, p.len()) == Some((p, rest)),
    decreases p.len(),
{
    if p.len() == 0 {
        assert(words_bytes(p) + rest =~= rest);
        assert(take_phrase(rest, 0) == Some((Seq::<Seq<char>>::empty(), rest)));
        assert(p =~= Seq::<Seq<char>>::empty());
    } else {
        assert(words_bytes(p) + rest =~= word_bytes(p[0]) + (words_bytes(p.drop_first()) + rest));
        lemma_take_word_of(p[0], words_bytes(p.drop_first()) + rest);
        assert(phrase_encodable(p.drop_first()));
        lemma_take_phrase_of(p.drop_first(), rest);
        assert(seq![p[0]] + p.drop_first() =~= p);
    }
}

proof fn lemma_take_entry_of(e: (Seq<Seq<char>>, u32), rest: Seq<u8>, n: nat)
    requires
        phrase_encodable(e.0),
        e.0.len() == n,
    ensures
        take_entry(entry_bytes(e) + rest, n) == Some((e, rest)),
{
    lemma_pow256_vals();
    assert(entry_bytes(e) + rest =~= words_bytes(e.0) + (le_bytes(e.1 as nat, 4) + rest));
    lemma_take_phrase_of(e.0, le_bytes(e.1 as nat, 4) + rest);
    lemma_take_le_of_le(e.1 as nat, 4, rest);
}

proof fn lemma_take_entries_of(es: Seq<(Seq<Seq<char>>, u32)>, rest: Seq<u8>, n: nat)
    requires
        forall|i: int|
            0 <= i < es.len() ==> (#[trigger] es[i]).0.len() == n && phrase_encodable(es[i].0),
    ensures
        take_entries(entries_bytes(es) + rest, es.len(), n) == Some((es, rest)),
    decreases es.len(),
{
    if es.len() == 0 {
        assert(entries_bytes(es) + rest =~= rest);
        assert(es =~= Seq::<(Seq<Seq<char>>, u32)>::empty());
    } else {
        assert(entries_bytes(es) + rest =~= entry_bytes(es[0]) + (entries_bytes(es.drop_first())
            + rest));
        lemma_take_entry_of(es[0], entries_bytes(es.drop_first()) + rest, n);
        assert(forall|i: int|
            0 <= i < es.drop_first().len() ==> (#[trigger] es.drop_first()[i]).0.len() == n
                && phrase_encodable(es.drop_first()[i].0));
        lemma_take_entries_of(es.drop_first(), rest, n);
        assert(seq![es[0]] + es.drop_first() =~= es);
    }
}

/// Law (round trip): decoding the encoding of any representable entry
/// list gives back exactly that width and entry list, so a spill merged
/// into an empty map restores the spilled counts.
pub proof fn lemma_round_trip(es: Seq<(Seq<Seq<char>>, u32)>, n: nat)
    requires
        encodable(es, n),
    ensures
        decode_spec(encoding(es, n)) == Some((n, es)),
{
    let body = entries_bytes(es);
    assert(encoding(es, n) =~= le_bytes(n, 8) + (le_bytes(es.len(), 8) + body));
    lemma_take_le_of_le(n, 8, le_bytes(es.len(), 8) + body);
    lemma_take_le_of_le(es.len(), 8, body);
    assert(body =~= body + Seq::<u8>::empty());
    lemma_take_entries_of(es, Seq::empty(), n);
    assert(take_entries(body, es.len(), n) == Some((es, Seq::<u8>::empty())));
}

/// Relies on `String::from_utf8`: returns the string whose UTF-8 encoding
/// is exactly the given bytes when they are valid UTF-8, and nothing
/// otherwise.
#[verifier::external_body]
fn string_from_utf8(v: Vec<u8>) -> (r: Option<String>)
    ensures
        r is Some <==> valid_utf8(v@),
        r matches Some(s) ==> s@ == decode_utf8(v@),
{
    String::from_utf8(v).ok()
}

/// Read a `k`-byte little-endian integer at `pos`.
fn read_le(bytes: &Vec<u8>, pos: usize, k: usize) -> (r: Option<(u64, usize)>)
    requires
        pos <= bytes@.len(),
        1 <= k <= 8,
    ensures
        match r {
            Some(v) => {
                &&& v.1 == pos + k
                &&& v.1 <= bytes@.len()
                &&& take_le(bytes@.skip(pos as int), k as nat) == Some(
                    ((v.0 as nat), bytes@.skip(v.1 as int)),
                )
            },
            None => take_le(bytes@.skip(pos as int), k as nat) is None,
        },
{
    if bytes.len() - pos < k {
        proof {
            assert(bytes@.skip(pos as int).len() < k);
        }
        return None;
    }
    let mut x: u64 = 0;
    let mut i: usize = k;
    let total = bytes.len();
    proof {
        assert(bytes@.subrange(pos + k, pos + k) =~= Seq::<u8>::empty());
    }
    while i > 0
        invariant
            total == bytes@.len(),
            pos + k <= bytes@.len(),
            i <= k,
            k <= 8,
            x as nat == le_value(bytes@.subrange(pos + i, pos + k)),
            x < pow256((k - i) as nat),
        decreases i,
    {
        i = i - 1;
        proof {
            lemma_pow256_vals();
            lemma_pow256_le((k - i - 1) as nat, 7);
            assert(pow256((k - i) as nat) == 256 * pow256((k - i - 1) as nat));
            lemma_pow256_le((k - i) as nat, 8);
        }
        let b = bytes[pos + i];
        x = (b as u64) + x * 256;
        proof {
            let s = bytes@.subrange(pos + i, pos + k);
            assert(s[0] == bytes@[pos + i]);
            assert(s.drop_first() =~= bytes@.subrange(pos + i + 1, pos + k));
        }
    }
    proof {
        assert(bytes@.subrange(pos as int, pos + k) =~= bytes@.skip(pos as int).take(k as int));
        assert(bytes@.skip(pos as int).skip(k as int) =~= bytes@.skip(pos + k));
        assert(bytes@.skip(pos as int).len() >= k);
    }
    Some((x, pos + k))
}

/// Read one length-prefixed UTF-8 word at `pos`.
fn read_word(bytes: &Vec<u8>, pos: usize) -> (r: Option<(String, usize)>)
    requires
        pos <= bytes@.len(),
    ensures
        match r {
            Some(v) => {
                &&& v.1 <= bytes@.len()
                &&& take_word(bytes@.skip(pos as int)) matches Some(w) && w.0 == v.0@ && w.1
                    == bytes@.skip(v.1 as int)
            },
            None => take_word(bytes@.skip(pos as int)) is None,
        },
{
    let len_read = read_le(bytes, pos, 8);
    match len_read {
        None => None,
        Some((wl, p2)) => {
            if (bytes.len() - p2) as u64 >= wl {
                let wl_size = wl as usize;
                let total = bytes.len();
                let mut wb: Vec<u8> = Vec::new();
                let mut t: usize = 0;
                proof {
                    assert(bytes@.subrange(p2 as int, p2 as int) =~= Seq::<u8>::empty());
                }
                while t < wl_size
                    invariant
                        total == bytes@.len(),
                        p2 + wl_size <= bytes@.len(),
                        t <= wl_size,
                        wb@ == bytes@.subrange(p2 as int, p2 + t),
                    decreases wl_size - t,
                {
                    wb.push(bytes[p2 + t]);
                    proof {
                        assert(bytes@.subrange(p2 as int, p2 + t).push(bytes@[p2 + t])
                            =~= bytes@.subrange(p2 as int, p2 + t + 1));
                    }
                    t = t + 1;
                }
                proof {
                    assert(wb@ =~= bytes@.skip(p2 as int).take(wl as int));
                }
                match string_from_utf8(wb) {
                    Some(s) => {
                        proof {
                            assert(bytes@.skip(p2 as int).skip(wl as int) =~= bytes@.skip(
                                p2 + wl_size,
                            ));
                        }
                        Some((s, p2 + wl_size))
                    }
                    None => None,
                }
            } else {
                proof {
                    assert(bytes@.skip(p2 as int).len() < wl as nat);
                }
                None
            }
        }
    }
}

/// Read one `n`-word phrase at `pos`.
fn read_phrase(bytes: &Vec<u8>, pos: usize, n: usize) -> (r: Option<(PhraseBuf, usize)>)
    requires
        pos <= bytes@.len(),
    ensures
        match r {
            Some(v) => {
                &&& v.1 <= bytes@.len()
                &&& v.0@.len() == n
                &&& take_phrase(bytes@.skip(pos as int), n as nat) matches Some(w) && w.0
                    == v.0.deep_view() && w.1 == bytes@.skip(v.1 as int)
            },
            None => take_phrase(bytes@.skip(pos as int), n as nat) is None,
        },
    decreases n,
{
    if n == 0 {
        let empty: PhraseBuf = Vec::new();
        proof {
            assert(empty.deep_view() =~= Seq::<Seq<char>>::empty());
        }
        return Some((empty, pos));
    }
    match read_word(bytes, pos) {
        None => None,
        Some((w, p2)) => {
            match read_phrase(bytes, p2, n - 1) {
                None => None,
                Some((mut ws, p3)) => {
                    ws.insert(0, w);
                    proof {
                        let tail = take_phrase(bytes@.skip(p2 as int), (n - 1) as nat)->Some_0.0;
                        assert(ws.deep_view() =~= seq![ws@[0]@] + tail);
                    }
                    Some((ws, p3))
                }
            }
        }
    }
}

/// Read one entry (phrase and count) at `pos`.
fn read_entry(bytes: &Vec<u8>, pos: usize, n: usize) -> (r: Option<((PhraseBuf, u32), usize)>)
    requires
        pos <= bytes@.len(),
    ensures
        match r {
            Some(v) => {
                &&& v.1 <= bytes@.len()
                &&& v.0.0@.len() == n
                &&& take_entry(bytes@.skip(pos as int), n as nat) matches Some(w) && w.0 == (
                v.0.0.deep_view(), v.0.1) && w.1 == bytes@.skip(v.1 as int)
            },
            None => take_entry(bytes@.skip(pos as int), n as nat) is None,
        },
{
    match read_phrase(bytes, pos, n) {
        None => None,
        Some((p, p2)) => {
            match read_le(bytes, p2, 4) {
                None => None,
                Some((c, p3)) => {
                    proof {
                        lemma_pow256_vals();
                        let rest = bytes@.skip(p2 as int);
                        lemma_le_value_bound(rest.take(4));
                        assert(rest.take(4).len() == 4);
                    }
                    Some(((p, c as u32), p3))
                }
            }
        }
    }
}

/// The external-merge collector: merges a spill file's serialized
/// contents directly into the phrase map it carries, adding each entry
/// the moment it is decoded, so no intermediate map is built.
pub struct DesCollect(pub PhraseMap);

impl DesCollect {
    /// Merge one spill file's bytes into the carried map. Returns true
    /// exactly when the bytes are one well-formed encoding whose phrase
    /// width matches the map's; each decoded phrase's count then grows by
    /// the recorded amount, capped at `u32::MAX`. A false return means
    /// corrupt spill data: the caller treats it as fatal, so the counts
    /// are then unspecified (though the map stays well-formed).
    #[verifier::loop_isolation(false)]
    pub fn merge_encoded(&mut self, bytes: &Vec<u8>) -> (ok: bool)
        requires
            old(self).0.wf(),
        ensures
            final(self).0.wf(),
            final(self).0.spec_width() == old(self).0.spec_width(),
            ok == (decode_spec(bytes@) matches Some(d) && d.0 == old(self).0.spec_width()),
            ok ==> (decode_spec(bytes@) matches Some(d) && {
                &&& forall|q: Seq<Seq<char>>|
                    #[trigger] final(self).0.count_of(q) == sat_cap(
                        old(self).0.count_of(q) + event_total(d.1, q),
                    )
                &&& forall|q: Seq<Seq<char>>|
                    #[trigger] final(self).0.contains_phrase(q) == (old(
                        self,
                    ).0.contains_phrase(q) || event_mentions(d.1, q))
            }),
    {
        let n = self.0.width();
        proof {
            assert(bytes@.skip(0) =~= bytes@);
        }
        let (file_n, p1) = match read_le(bytes, 0, 8) {
            Some(v) => v,
            None => {
                return false;
            }
        };
        if file_n != n as u64 {
            return false;
        }
        let (cnt, p2) = match read_le(bytes, p1, 8) {
            Some(v) => v,
            None => {
                return false;
            }
        };
        let ghost m0 = self.0;
        let ghost mut done: Seq<(Seq<Seq<char>>, u32)> = Seq::empty();
        let mut j: u64 = 0;
        let mut pos = p2;
        proof {
            assert(done + take_entries(bytes@.skip(p2 as int), cnt as nat, n as nat)->Some_0.0
                =~= take_entries(bytes@.skip(p2 as int), cnt as nat, n as nat)->Some_0.0);
            lemma_unchanged(m0);
        }
        while j < cnt
            invariant
                self.0.wf(),
                self.0.spec_width() == m0.spec_width(),
                m0.spec_width() == n as nat,
                m0.wf(),
                pos <= bytes@.len(),
                j <= cnt,
                match take_entries(bytes@.skip(pos as int), (cnt - j) as nat, n as nat) {
                    Some(t) => take_entries(bytes@.skip(p2 as int), cnt as nat, n as nat) == Some(
                        (done + t.0, t.1),
                    ),
                    None => take_entries(bytes@.skip(p2 as int), cnt as nat, n as nat) is None,
                },
                forall|q: Seq<Seq<char>>|
                    #[trigger] self.0.count_of(q) == sat_cap(
                        m0.count_of(q) + event_total(done, q),
                    ),
                forall|q: Seq<Seq<char>>|
                    #[trigger] self.0.contains_phrase(q) == (m0.contains_phrase(q)
                        || event_mentions(done, q)),
            decreases cnt - j,
        {
            match read_entry(bytes, pos, n) {
                None => {
                    proof {
                        assert(take_entries(bytes@.skip(pos as int), (cnt - j) as nat, n as nat)
                            is None);
                    }
                    return false;
                }
                Some((e, np)) => {
                    let ghost evw = (e.0.deep_view(), e.1);
                    proof {
                        let t_new = take_entries(
                            bytes@.skip(np as int),
                            (cnt - j - 1) as nat,
                            n as nat,
                        );
                        if t_new is Some {
                            assert(done + (seq![evw] + t_new->Some_0.0) =~= done.push(evw)
                                + t_new->Some_0.0);
                        }
                    }
                    self.0.add_owned(e.0, e.1);
                    proof {
                        let done2 = done.push(evw);
                        assert(done2.drop_last() =~= done);
                        assert(done2.last() == evw);
                        assert forall|q: Seq<Seq<char>>|
                            #[trigger] self.0.count_of(q) == sat_cap(
                                m0.count_of(q) + event_total(done2, q),
                            ) by {
                            crate::map::lemma_event_total_nonneg(done, q);
                            if q == evw.0 {
                                crate::map::lemma_sat_cap_chain(
                                    m0.count_of(q) + event_total(done, q),
                                    evw.1 as int,
                                );
                            }
                        }
                        done = done2;
                    }
                    pos = np;
                    j = j + 1;
                }
            }
        }
        if pos != bytes.len() {
            proof {
                assert(bytes@.skip(pos as int).len() > 0);
                assert(take_entries(bytes@.skip(pos as int), 0, n as nat) == Some(
                    (Seq::<(Seq<Seq<char>>, u32)>::empty(), bytes@.skip(pos as int)),
                ));
                assert(done + Seq::<(Seq<Seq<char>>, u32)>::empty() =~= done);
            }
            return false;
        }
        proof {
            assert(take_entries(bytes@.skip(pos as int), 0, n as nat) == Some(
                (Seq::<(Seq<Seq<char>>, u32)>::empty(), bytes@.skip(pos as int)),
            ));
            assert(done + Seq::<(Seq<Seq<char>>, u32)>::empty() =~= done);
            assert(bytes@.skip(pos as int).len() == 0);
        }
        true
    }
}

proof fn lemma_unchanged(m: PhraseMap)
    ensures
        forall|q: Seq<Seq<char>>|
            #[trigger] m.count_of(q) == sat_cap(
                m.count_of(q) + event_total(Seq::<(Seq<Seq<char>>, u32)>::empty(), q),
            ),
        forall|q: Seq<Seq<char>>|
            #[trigger] m.contains_phrase(q) == (m.contains_phrase(q) || event_mentions(
                Seq::<(Seq<Seq<char>>, u32)>::empty(),
                q,
            )),
{
}

} // verus!
