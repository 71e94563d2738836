//! The document walker: a tree-shaped document value and the location state
//! machine that finds the recognized text fields. Only the value of a key
//! named exactly `text` or `description`, reached inside the posts of the
//! users collection, contributes phrases; everything else is walked and
//! discarded.

use vstd::prelude::*;

use crate::map::{occ_in, sat_cap, PhraseMap};
use crate::tokenize::{phrases_in_text, text_phrases};

verus! {

/// A tree-shaped document value. Scalars never contribute phrases, so
/// anything that is not text, a sequence or a mapping is `Ignored`.
pub enum Value {
    /// A scalar (number, boolean, null): walked over, never tokenized.
    Ignored,
    /// A text value.
    Text(String),
    /// An array of values.
    Sequence(Vec<Value>),
    /// An object: a list of key/value fields in document order.
    Mapping(Vec<(String, Value)>),
}

impl Value {
    /// The string contents when this is a text value.
    pub fn as_str(&self) -> (r: Option<&str>)
        ensures
            match r {
                Some(s) => self is Text && s@ == self->Text_0@,
                None => !(self is Text),
            },
    {
        match self {
            Value::Text(s) => Some(s.as_str()),
            _ => None,
        }
    }
}

/// Where the walk currently stands relative to the recognized document
/// shape.
#[derive(Clone, Copy, PartialEq, Eq, Structural)]
pub enum Location {
    /// At the top level, before the users collection.
    Outside,
    /// Inside the users collection.
    User,
    /// Inside the posts collection of a user.
    Post,
    /// Under an unrecognized key: the whole subtree is skipped.
    Unknown,
}

/// The location reached by descending through key `key` from `loc`:
/// `users` leads from the top level into the users collection, `posts`
/// from there into the posts collection; any other key at those two levels
/// leads into skipped territory; inside a post every key stays inside the
/// post.
pub open spec fn advance(loc: Location, key: Seq<char>) -> Location {
    match loc {
        Location::Outside => if key == "users"@ {
            Location::User
        } else {
            Location::Unknown
        },
        Location::User => if key == "posts"@ {
            Location::Post
        } else {
            Location::Unknown
        },
        Location::Post => Location::Post,
        Location::Unknown => Location::Unknown,
    }
}

fn advance_loc(loc: Location, key: &String) -> (r: Location)
    ensures
        r == advance(loc, key@),
{
    match loc {
        Location::Outside => {
            let users = String::from_str("users");
            if *key == users {
                Location::User
            } else {
                Location::Unknown
            }
        }
        Location::User => {
            let posts = String::from_str("posts");
            if *key == posts {
                Location::Post
            } else {
                Location::Unknown
            }
        }
        Location::Post => Location::Post,
        Location::Unknown => Location::Unknown,
    }
}

/// The phrases a value contributes when walked at location `loc` with
/// phrase width `n`, in walk order.
pub open spec fn value_phrases(v: Value, loc: Location, n: nat) -> Seq<Seq<Seq<char>>>
    decreases v,
{
    match v {
        Value::Ignored => Seq::empty(),
        Value::Text(_) => Seq::empty(),
        Value::Sequence(items) => seq_phrases(items@, loc, n),
        Value::Mapping(fields) => fields_phrases(fields@, loc, n),
    }
}

/// The phrases of a run of sibling values, each walked at the same
/// location.
pub open spec fn seq_phrases(items: Seq<Value>, loc: Location, n: nat) -> Seq<Seq<Seq<char>>>
    decreases items,
{
    if items.len() == 0 {
        Seq::empty()
    } else {
        value_phrases(items[0], loc, n) + seq_phrases(items.drop_first(), loc, n)
    }
}

/// The phrases of a run of object fields, in field order.
pub open spec fn fields_phrases(fields: Seq<(String, Value)>, loc: Location, n: nat) -> Seq<
    Seq<Seq<char>>,
>
    decreases fields,
{
    if fields.len() == 0 {
        Seq::empty()
    } else {
        field_phrases(fields[0], loc, n) + fields_phrases(fields.drop_first(), loc, n)
    }
}

/// The phrases of one object field: nothing under an unrecognized key;
/// otherwise the value's own phrases, followed by the tokenization of the
/// value when the key is `text` or `description`, the value is a string,
/// and the walk stands inside a post.
pub open spec fn field_phrases(f: (String, Value), loc: Location, n: nat) -> Seq<Seq<Seq<char>>>
    decreases f,
{
    let nl = advance(loc, f.0@);
    if nl == Location::Unknown {
        Seq::empty()
    } else {
        value_phrases(f.1, nl, n) + match f.1 {
            Value::Text(s) => if nl == Location::Post && (f.0@ == "text"@ || f.0@
                == "description"@) {
                text_phrases(s@, n)
            } else {
                Seq::empty()
            },
            _ => Seq::empty(),
        }
    }
}

/// The phrases of a whole document: a walk from the top level, provided
/// the document is an object; any other top-level shape is unusable and
/// contributes nothing.
pub open spec fn doc_phrases(doc: Value, n: nat) -> Seq<Seq<Seq<char>>> {
    if doc is Mapping {
        value_phrases(doc, Location::Outside, n)
    } else {
        Seq::empty()
    }
}

proof fn lemma_seq_phrases_concat(s1: Seq<Value>, s2: Seq<Value>, loc: Location, n: nat)
    ensures
        seq_phrases(s1 + s2, loc, n) == seq_phrases(s1, loc, n) + seq_phrases(s2, loc, n),
    decreases s1.len(),
{
    if s1.len() == 0 {
        assert(s1 + s2 =~= s2);
        assert(seq_phrases(s1, loc, n) + seq_phrases(s2, loc, n) =~= seq_phrases(s2, loc, n));
    } else {
        assert((s1 + s2)[0] == s1[0]);
        assert((s1 + s2).drop_first() =~= s1.drop_first() + s2);
        lemma_seq_phrases_concat(s1.drop_first(), s2, loc, n);
        assert(seq_phrases(s1 + s2, loc, n) =~= seq_phrases(s1, loc, n) + seq_phrases(
            s2,
            loc,
            n,
        ));
    }
}

proof fn lemma_fields_phrases_concat(
    s1: Seq<(String, Value)>,
    s2: Seq<(String, Value)>,
    loc: Location,
    n: nat,
)
    ensures
        fields_phrases(s1 + s2, loc, n) == fields_phrases(s1, loc, n) + fields_phrases(
            s2,
            loc,
            n,
        ),
    decreases s1.len(),
{
    if s1.len() == 0 {
        assert(s1 + s2 =~= s2);
        assert(fields_phrases(s1, loc, n) + fields_phrases(s2, loc, n) =~= fields_phrases(
            s2,
            loc,
            n,
        ));
    } else {
        assert((s1 + s2)[0] == s1[0]);
        assert((s1 + s2).drop_first() =~= s1.drop_first() + s2);
        lemma_fields_phrases_concat(s1.drop_first(), s2, loc, n);
        assert(fields_phrases(s1 + s2, loc, n) =~= fields_phrases(s1, loc, n) + fields_phrases(
            s2,
            loc,
            n,
        ));
    }
}

proof fn lemma_seq_phrases_singleton(v: Value, loc: Location, n: nat)
    ensures
        seq_phrases(seq![v], loc, n) == value_phrases(v, loc, n),
{
    reveal_with_fuel(seq_phrases, 3);
    assert(seq![v].drop_first() =~= Seq::<Value>::empty());
    assert(value_phrases(v, loc, n) + seq_phrases(seq![v].drop_first(), loc, n) =~= value_phrases(
        v,
        loc,
        n,
    ));
}

proof fn lemma_fields_phrases_singleton(f: (String, Value), loc: Location, n: nat)
    ensures
        fields_phrases(seq![f], loc, n) == field_phrases(f, loc, n),
{
    reveal_with_fuel(fields_phrases, 3);
    assert(seq![f].drop_first() =~= Seq::<(String, Value)>::empty());
    assert(field_phrases(f, loc, n) + fields_phrases(seq![f].drop_first(), loc, n)
        =~= field_phrases(f, loc, n));
}

/// Walk a value at location `loc`, adding one occurrence of every phrase
/// it contributes: afterwards each phrase's count has grown by its number
/// of occurrences under this value, capped at `u32::MAX`.
#[verifier::loop_isolation(false)]
pub fn walk_value(v: &Value, loc: Location, counts: &mut PhraseMap)
    requires
        old(counts).wf(),
    ensures
        final(counts).wf(),
        final(counts).spec_width() == old(counts).spec_width(),
        forall|q: Seq<Seq<char>>|
            #[trigger] final(counts).count_of(q) == sat_cap(
                old(counts).count_of(q) + occ_in(
                    value_phrases(*v, loc, old(counts).spec_width()),
                    q,
                ),
            ),
        forall|q: Seq<Seq<char>>|
            #[trigger] final(counts).contains_phrase(q) == (old(counts).contains_phrase(q)
                || occ_in(value_phrases(*v, loc, old(counts).spec_width()), q) > 0),
    decreases *v,
{
    let ghost n = old(counts).spec_width();
    match v {
        Value::Ignored => {
            proof {
                lemma_unchanged_zero(*counts, value_phrases(*v, loc, n));
            }
        }
        Value::Text(_) => {
            proof {
                lemma_unchanged_zero(*counts, value_phrases(*v, loc, n));
            }
        }
        Value::Sequence(items) => {
            let ghost c0 = *counts;
            let mut i: usize = 0;
            proof {
                assert(items@.take(0) =~= Seq::<Value>::empty());
                lemma_unchanged_zero(*counts, seq_phrases(items@.take(0), loc, n));
            }
            while i < items.len()
                invariant
                    i <= items@.len(),
                    c0.wf(),
                    counts.wf(),
                    counts.spec_width() == c0.spec_width(),
                    n == c0.spec_width(),
                    forall|q: Seq<Seq<char>>|
                        #[trigger] counts.count_of(q) == sat_cap(
                            c0.count_of(q) + occ_in(seq_phrases(items@.take(i as int), loc, n), q),
                        ),
                    forall|q: Seq<Seq<char>>|
                        #[trigger] counts.contains_phrase(q) == (c0.contains_phrase(q) || occ_in(
                            seq_phrases(items@.take(i as int), loc, n),
                            q,
                        ) > 0),
                decreases items@.len() - i,
            {
                let ghost pre = *counts;
                walk_value(&items[i], loc, counts);
                proof {
                    assert(items@.take(i as int + 1) =~= items@.take(i as int) + seq![items@[i as int]]);
                    lemma_seq_phrases_concat(items@.take(i as int), seq![items@[i as int]], loc, n);
                    lemma_seq_phrases_singleton(items@[i as int], loc, n);
                    lemma_step_counts(
                        c0,
                        pre,
                        *counts,
                        seq_phrases(items@.take(i as int), loc, n),
                        value_phrases(items@[i as int], loc, n),
                    );
                }
                i = i + 1;
            }
            proof {
                assert(items@.take(items@.len() as int) =~= items@);
            }
        }
        Value::Mapping(fields) => {
            let ghost c0 = *counts;
            let mut i: usize = 0;
            proof {
                assert(fields@.take(0) =~= Seq::<(String, Value)>::empty());
                lemma_unchanged_zero(*counts, fields_phrases(fields@.take(0), loc, n));
            }
            while i < fields.len()
                invariant
                    i <= fields@.len(),
                    c0.wf(),
                    counts.wf(),
                    counts.spec_width() == c0.spec_width(),
                    n == c0.spec_width(),
                    forall|q: Seq<Seq<char>>|
                        #[trigger] counts.count_of(q) == sat_cap(
                            c0.count_of(q) + occ_in(
                                fields_phrases(fields@.take(i as int), loc, n),
                                q,
                            ),
                        ),
                    forall|q: Seq<Seq<char>>|
                        #[trigger] counts.contains_phrase(q) == (c0.contains_phrase(q) || occ_in(
                            fields_phrases(fields@.take(i as int), loc, n),
                            q,
                        ) > 0),
                decreases fields@.len() - i,
            {
                let ghost pre = *counts;
                let ghost f = fields@[i as int];
                let key = &fields[i].0;
                let nl = advance_loc(loc, key);
                if !matches!(nl, Location::Unknown) {
                    let ghost mid0 = *counts;
                    walk_value(&fields[i].1, nl, counts);
                    let is_text_key = {
                        let text_key = String::from_str("text");
                        let desc_key = String::from_str("description");
                        *key == text_key || *key == desc_key
                    };
                    if matches!(nl, Location::Post) && is_text_key {
                        match &fields[i].1 {
                            Value::Text(s) => {
                                let ghost mid = *counts;
                                let width = counts.width();
                                proof {
                                    crate::map::lemma_wf_width(*counts);
                                }
                                let phrases = phrases_in_text(s.as_str(), width);
                                let ghost tp = text_phrases(s@, n);
                                let mut j: usize = 0;
                                while j < phrases.len()
                                    invariant
                                        j <= phrases@.len(),
                                        mid.wf(),
                                        counts.wf(),
                                        counts.spec_width() == mid.spec_width(),
                                        n == mid.spec_width(),
                                        phrases.deep_view() == tp,
                                        phrases.deep_view().len() == phrases@.len(),
                                        forall|k: int|
                                            0 <= k < phrases@.len() ==> (
                                            #[trigger] phrases@[k])@.len() == n,
                                        forall|q: Seq<Seq<char>>|
                                            #[trigger] counts.count_of(q) == sat_cap(
                                                mid.count_of(q) + occ_in(tp.take(j as int), q),
                                            ),
                                        forall|q: Seq<Seq<char>>|
                                            #[trigger] counts.contains_phrase(q) == (
                                            mid.contains_phrase(q) || occ_in(
                                                tp.take(j as int),
                                                q,
                                            ) > 0),
                                    decreases phrases@.len() - j,
                                {
                                    let ghost pre2 = *counts;
                                    counts.add(&phrases[j], 1);
                                    proof {
                                        assert(phrases@[j as int].deep_view() == tp[j as int]);
                                        assert(tp.take(j as int + 1).drop_last() =~= tp.take(
                                            j as int,
                                        ));
                                        assert(tp.take(j as int + 1).last() == tp[j as int]);
                                        lemma_step_single(
                                            mid,
                                            pre2,
                                            *counts,
                                            tp,
                                            j as int,
                                        );
                                    }
                                    j = j + 1;
                                }
                                proof {
                                    assert(tp.take(phrases@.len() as int) =~= tp);
                                    lemma_step_counts(
                                        c0,
                                        pre,
                                        *counts,
                                        fields_phrases(fields@.take(i as int), loc, n),
                                        field_phrases(f, loc, n),
                                    );
                                }
                            }
                            _ => {
                                proof {
                                    lemma_step_counts(
                                        c0,
                                        pre,
                                        *counts,
                                        fields_phrases(fields@.take(i as int), loc, n),
                                        field_phrases(f, loc, n),
                                    );
                                }
                            }
                        }
                    } else {
                        proof {
                            lemma_step_counts(
                                c0,
                                pre,
                                *counts,
                                fields_phrases(fields@.take(i as int), loc, n),
                                field_phrases(f, loc, n),
                            );
                        }
                    }
                } else {
                    proof {
                        assert(field_phrases(f, loc, n) =~= Seq::<Seq<Seq<char>>>::empty());
                        lemma_step_counts(
                            c0,
                            pre,
                            *counts,
                            fields_phrases(fields@.take(i as int), loc, n),
                            field_phrases(f, loc, n),
                        );
                    }
                }
                proof {
                    assert(fields@.take(i as int + 1) =~= fields@.take(i as int) + seq![fields@[i as int]]);
                    lemma_fields_phrases_concat(
                        fields@.take(i as int),
                        seq![fields@[i as int]],
                        loc,
                        n,
                    );
                    lemma_fields_phrases_singleton(fields@[i as int], loc, n);
                }
                i = i + 1;
            }
            proof {
                assert(fields@.take(fields@.len() as int) =~= fields@);
            }
        }
    }
}

proof fn lemma_unchanged_zero(m: PhraseMap, s: Seq<Seq<Seq<char>>>)
    requires
        s.len() == 0,
    ensures
        forall|q: Seq<Seq<char>>| occ_in(s, q) == 0,
        forall|q: Seq<Seq<char>>| #[trigger] m.count_of(q) == sat_cap(m.count_of(q) + occ_in(s, q)),
        forall|q: Seq<Seq<char>>|
            #[trigger] m.contains_phrase(q) == (m.contains_phrase(q) || occ_in(s, q) > 0),
{
}

/// A fold step: if `mid` stands at `base` plus the occurrences of `done`,
/// and `post` stands at `mid` plus the occurrences of `step`, then `post`
/// stands at `base` plus the occurrences of `done + step`.
proof fn lemma_step_counts(
    base: PhraseMap,
    mid: PhraseMap,
    post: PhraseMap,
    done: Seq<Seq<Seq<char>>>,
    step: Seq<Seq<Seq<char>>>,
)
    requires
        forall|q: Seq<Seq<char>>|
            #[trigger] mid.count_of(q) == sat_cap(base.count_of(q) + occ_in(done, q)),
        forall|q: Seq<Seq<char>>|
            #[trigger] mid.contains_phrase(q) == (base.contains_phrase(q) || occ_in(done, q) > 0),
        forall|q: Seq<Seq<char>>|
            #[trigger] post.count_of(q) == sat_cap(mid.count_of(q) + occ_in(step, q)),
        forall|q: Seq<Seq<char>>|
            #[trigger] post.contains_phrase(q) == (mid.contains_phrase(q) || occ_in(step, q) > 0),
    ensures
        forall|q: Seq<Seq<char>>|
            #[trigger] post.count_of(q) == sat_cap(base.count_of(q) + occ_in(done + step, q)),
        forall|q: Seq<Seq<char>>|
            #[trigger] post.contains_phrase(q) == (base.contains_phrase(q) || occ_in(
                done + step,
                q,
            ) > 0),
{
    assert forall|q: Seq<Seq<char>>|
        #[trigger] post.count_of(q) == sat_cap(base.count_of(q) + occ_in(done + step, q)) by {
        crate::map::lemma_occ_in_concat(done, step, q);
        crate::map::lemma_occ_in_nonneg(done, q);
        crate::map::lemma_occ_in_nonneg(step, q);
        crate::map::lemma_sat_cap_chain(
            base.count_of(q) + occ_in(done, q),
            occ_in(step, q),
        );
    }
    assert forall|q: Seq<Seq<char>>|
        #[trigger] post.contains_phrase(q) == (base.contains_phrase(q) || occ_in(done + step, q)
            > 0) by {
        crate::map::lemma_occ_in_concat(done, step, q);
        crate::map::lemma_occ_in_nonneg(done, q);
        crate::map::lemma_occ_in_nonneg(step, q);
    }
}

/// One added phrase: after adding one occurrence of `tp[j]` to a map that
/// stands at `base` plus the occurrences of `tp.take(j)`, the map stands
/// at `base` plus the occurrences of `tp.take(j + 1)`.
proof fn lemma_step_single(
    base: PhraseMap,
    pre: PhraseMap,
    post: PhraseMap,
    tp: Seq<Seq<Seq<char>>>,
    j: int,
)
    requires
        0 <= j < tp.len(),
        forall|q: Seq<Seq<char>>|
            #[trigger] pre.count_of(q) == sat_cap(base.count_of(q) + occ_in(tp.take(j), q)),
        forall|q: Seq<Seq<char>>|
            #[trigger] pre.contains_phrase(q) == (base.contains_phrase(q) || occ_in(tp.take(j), q)
                > 0),
        forall|q: Seq<Seq<char>>|
            #[trigger] post.count_of(q) == if q == tp[j] {
                sat_cap(pre.count_of(q) + 1)
            } else {
                pre.count_of(q)
            },
        forall|q: Seq<Seq<char>>|
            #[trigger] post.contains_phrase(q) == (pre.contains_phrase(q) || q == tp[j]),
    ensures
        forall|q: Seq<Seq<char>>|
            #[trigger] post.count_of(q) == sat_cap(base.count_of(q) + occ_in(tp.take(j + 1), q)),
        forall|q: Seq<Seq<char>>|
            #[trigger] post.contains_phrase(q) == (base.contains_phrase(q) || occ_in(
                tp.take(j + 1),
                q,
            ) > 0),
{
    assert(tp.take(j + 1).drop_last() =~= tp.take(j));
    assert(tp.take(j + 1).last() == tp[j]);
    assert forall|q: Seq<Seq<char>>|
        #[trigger] post.count_of(q) == sat_cap(base.count_of(q) + occ_in(tp.take(j + 1), q)) by {
        crate::map::lemma_occ_in_nonneg(tp.take(j), q);
        if q == tp[j] {
            crate::map::lemma_sat_cap_chain(base.count_of(q) + occ_in(tp.take(j), q), 1);
        }
    }
    assert forall|q: Seq<Seq<char>>|
        #[trigger] post.contains_phrase(q) == (base.contains_phrase(q) || occ_in(
            tp.take(j + 1),
            q,
        ) > 0) by {
        crate::map::lemma_occ_in_nonneg(tp.take(j), q);
    }
}

/// A processor for one parsed document: walks it and feeds every
/// recognized text field's phrases into the phrase map it carries.
pub struct ProcFile {
    /// The accumulating phrase counts.
    pub counts: PhraseMap,
}

impl ProcFile {
    /// Wrap a phrase map for document processing.
    pub fn new(counts: PhraseMap) -> (r: ProcFile)
        ensures
            r.counts == counts,
    {
        ProcFile { counts }
    }

    /// Process one document: when its top level is an object, walk it and
    /// add one occurrence of every phrase of its recognized text fields;
    /// any other top-level shape leaves the counts unchanged and reports
    /// no usable content.
    pub fn process(&mut self, doc: &Value) -> (ok: bool)
        requires
            old(self).counts.wf(),
        ensures
            final(self).counts.wf(),
            final(self).counts.spec_width() == old(self).counts.spec_width(),
            ok == (*doc is Mapping),
            forall|q: Seq<Seq<char>>|
                #[trigger] final(self).counts.count_of(q) == sat_cap(
                    old(self).counts.count_of(q) + occ_in(
                        doc_phrases(*doc, old(self).counts.spec_width()),
                        q,
                    ),
                ),
            forall|q: Seq<Seq<char>>|
                #[trigger] final(self).counts.contains_phrase(q) == (old(
                    self,
                ).counts.contains_phrase(q) || occ_in(
                    doc_phrases(*doc, old(self).counts.spec_width()),
                    q,
                ) > 0),
    {
        match doc {
            Value::Mapping(_) => {
                walk_value(doc, Location::Outside, &mut self.counts);
                true
            }
            _ => {
                proof {
                    lemma_unchanged_zero(self.counts, doc_phrases(*doc, self.counts.spec_width()));
                }
                false
            }
        }
    }

    /// Hand the accumulated counts back.
    pub fn finish(self) -> (r: PhraseMap)
        ensures
            r == self.counts,
    {
        self.counts
    }
}

} // verus!
