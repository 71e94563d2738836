//! Tokenizer: splits text into sentences, sentences into words, and emits the
//! sliding window of `n` consecutive words as phrases. Windows never cross a
//! sentence boundary; a sentence with fewer than `n` words yields no phrases.

use unicode_segmentation::UnicodeSegmentation;
use vstd::prelude::*;

verus! {

/// The sentences that Unicode sentence segmentation produces for a text,
/// in order.
pub uninterp spec fn sentences_of(text: Seq<char>) -> Seq<Seq<char>>;

/// The words that Unicode word segmentation produces for a text, in order.
pub uninterp spec fn words_of(text: Seq<char>) -> Seq<Seq<char>>;

/// Relies on `unicode_segmentation::UnicodeSegmentation::unicode_sentences`:
/// the sentence list depends on the characters of the text alone.
#[verifier::external_body]
fn split_sentences(text: &str) -> (r: Vec<String>)
    ensures
        r.deep_view() == sentences_of(text@),
{
    text.unicode_sentences().map(|s| s.to_owned()).collect()
}

/// Relies on `unicode_segmentation::UnicodeSegmentation::unicode_words`:
/// the word list depends on the characters of the text alone.
#[verifier::external_body]
fn split_words(text: &str) -> (r: Vec<String>)
    ensures
        r.deep_view() == words_of(text@),
{
    text.unicode_words().map(|s| s.to_owned()).collect()
}

/// All windows of `n` consecutive words of `ws`, advancing by one word each
/// step, in left-to-right order.
pub open spec fn windows_of(ws: Seq<Seq<char>>, n: nat) -> Seq<Seq<Seq<char>>> {
    if ws.len() >= n {
        Seq::new((ws.len() - n + 1) as nat, |i: int| ws.subrange(i, i + n))
    } else {
        Seq::empty()
    }
}

/// The phrases of a text: for each sentence independently, every window of
/// `n` consecutive words, sentences in order.
pub open spec fn text_phrases(text: Seq<char>, n: nat) -> Seq<Seq<Seq<char>>> {
    sentences_of(text).map(|i: int, s: Seq<char>| windows_of(words_of(s), n)).flatten()
}

/// One window of `n` words starting at `start`.
fn window_at(words: &Vec<String>, start: usize, n: usize) -> (r: Vec<String>)
    requires
        start + n <= words@.len(),
    ensures
        r.deep_view() == words.deep_view().subrange(start as int, start as int + n as int),
        r@.len() == n,
{
    let mut w: Vec<String> = Vec::new();
    let wl = words.len();
    let mut j: usize = 0;
    while j < n
        invariant
            wl == words@.len(),
            start + n <= wl,
            j <= n,
            w@.len() == j,
            forall|k: int| 0 <= k < j ==> w@[k]@ == words@[start + k]@,
        decreases n - j,
    {
        w.push(words[start + j].clone());
        j = j + 1;
    }
    proof {
        assert(w.deep_view() =~= words.deep_view().subrange(
            start as int,
            start as int + n as int,
        ));
    }
    w
}

/// The sliding windows of `n` consecutive words, one phrase per position.
pub fn phrase_windows(words: &Vec<String>, n: usize) -> (r: Vec<Vec<String>>)
    requires
        n >= 1,
    ensures
        r.deep_view() == windows_of(words.deep_view(), n as nat),
        forall|k: int| 0 <= k < r@.len() ==> (#[trigger] r@[k])@.len() == n,
{
    let mut r: Vec<Vec<String>> = Vec::new();
    if words.len() < n {
        proof {
            assert(r.deep_view() =~= windows_of(words.deep_view(), n as nat));
        }
        return r;
    }
    let count = words.len() - n + 1;
    let mut i: usize = 0;
    while i < count
        invariant
            n >= 1,
            n <= words@.len(),
            count == words@.len() - n + 1,
            i <= count,
            r@.len() == i,
            forall|k: int|
                0 <= k < i ==> r@[k].deep_view() == words.deep_view().subrange(k, k + n),
            forall|k: int| 0 <= k < i ==> (#[trigger] r@[k])@.len() == n,
        decreases count - i,
    {
        let w = window_at(words, i, n);
        r.push(w);
        i = i + 1;
    }
    proof {
        assert(r.deep_view() =~= windows_of(words.deep_view(), n as nat));
    }
    r
}

/// The phrases of one sentence: the windows of its words.
fn sentence_phrases(sentence: &String, n: usize) -> (r: Vec<Vec<String>>)
    requires
        n >= 1,
    ensures
        r.deep_view() == windows_of(words_of(sentence@), n as nat),
        forall|k: int| 0 <= k < r@.len() ==> (#[trigger] r@[k])@.len() == n,
{
    let words = split_words(sentence.as_str());
    phrase_windows(&words, n)
}

/// All phrases of a text: split into sentences, split each sentence into
/// words, and emit every window of `n` consecutive words per sentence.
pub fn phrases_in_text(text: &str, n: usize) -> (r: Vec<Vec<String>>)
    requires
        n >= 1,
    ensures
        r.deep_view() == text_phrases(text@, n as nat),
        forall|k: int| 0 <= k < r@.len() ==> (#[trigger] r@[k])@.len() == n,
{
    let sentences = split_sentences(text);
    let ghost per_sentence = sentences.deep_view().map(
        |i: int, s: Seq<char>| windows_of(words_of(s), n as nat),
    );
    let mut r: Vec<Vec<String>> = Vec::new();
    let mut i: usize = 0;
    while i < sentences.len()
        invariant
            n >= 1,
            sentences.deep_view() == sentences_of(text@),
            per_sentence == sentences.deep_view().map(
                |k: int, s: Seq<char>| windows_of(words_of(s), n as nat),
            ),
            i <= sentences@.len(),
            sentences.deep_view().len() == sentences@.len(),
            r.deep_view() == per_sentence.take(i as int).flatten(),
            forall|k: int| 0 <= k < r@.len() ==> (#[trigger] r@[k])@.len() == n,
        decreases sentences@.len() - i,
    {
        let ph = sentence_phrases(&sentences[i], n);
        let ghost old_r = r.deep_view();
        let ghost added = ph.deep_view();
        let mut j: usize = 0;
        while j < ph.len()
            invariant
                j <= ph@.len(),
                added == ph.deep_view(),
                added.len() == ph@.len(),
                forall|k: int| 0 <= k < ph@.len() ==> (#[trigger] ph@[k])@.len() == n,
                r@.len() == old_r.len() + j,
                forall|k: int| 0 <= k < old_r.len() ==> r@[k].deep_view() == old_r[k],
                forall|k: int| 0 <= k < j ==> r@[old_r.len() + k].deep_view() == added[k],
                forall|k: int| 0 <= k < r@.len() ==> (#[trigger] r@[k])@.len() == n,
            decreases ph@.len() - j,
        {
            let p = ph[j].clone();
            proof {
                vstd::std_specs::vec::vec_clone_deep_view_proof(ph[j as int], p);
                assert(p.deep_view() == added[j as int]);
            }
            r.push(p);
            j = j + 1;
        }
        proof {
            assert(r.deep_view() =~= old_r + added);
            assert(sentences[i as int].deep_view() == sentences.deep_view()[i as int]);
            assert(added == per_sentence[i as int]);
            per_sentence.take(i as int).lemma_flatten_push(added);
            assert(per_sentence.take(i as int).push(added) =~= per_sentence.take(i as int + 1));
        }
        i = i + 1;
    }
    proof {
        assert(per_sentence.take(sentences@.len() as int) =~= per_sentence);
    }
    r
}

} // verus!
