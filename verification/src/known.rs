//! What has been asked of the repositories so far, and what came of it.
use crate::text;
use vstd::prelude::*;

verus! {

/// What came of asking for a document.
#[derive(Debug)]
pub enum Fetched<T> {
    Found(T),
    Failed,
}

impl<T: View> View for Fetched<T> {
    type V = Fetched<T::V>;

    open spec fn view(&self) -> Fetched<T::V> {
        match self {
            Fetched::Found(v) => Fetched::Found(v@),
            Fetched::Failed => Fetched::Failed,
        }
    }
}

/// The first position at or after `from` that holds `key`, or the length of the list.
pub open spec fn known_from<V>(l: Seq<(Seq<char>, Fetched<V>)>, key: Seq<char>, from: int) -> int
    decreases l.len() - from,
{
    if from >= l.len() {
        l.len() as int
    } else if l[from].0 == key {
        from
    } else {
        known_from(l, key, from + 1)
    }
}

/// What is known under `key`, if anything was asked.
pub open spec fn outcome<V>(l: Seq<(Seq<char>, Fetched<V>)>, key: Seq<char>) -> Option<Fetched<V>> {
    let i = known_from(l, key, 0);
    if i < l.len() {
        Some(l[i].1)
    } else {
        None
    }
}

/// `known_from` is the least position that holds the key.
pub proof fn lemma_known_from<V>(l: Seq<(Seq<char>, Fetched<V>)>, key: Seq<char>, from: int)
    requires
        0 <= from <= l.len(),
    ensures
        from <= known_from(l, key, from) <= l.len(),
        forall|i: int| from <= i < known_from(l, key, from) ==> (#[trigger] l[i]).0 != key,
        known_from(l, key, from) < l.len() ==> l[known_from(l, key, from)].0 == key,
    decreases l.len() - from,
{
    if from < l.len() && l[from].0 != key {
        lemma_known_from(l, key, from + 1);
    }
}

/// One answer.
#[derive(Debug)]
struct Answer<T> {
    key: String,
    outcome: Fetched<T>,
}

impl<T: View> View for Answer<T> {
    type V = (Seq<char>, Fetched<T::V>);

    closed spec fn view(&self) -> (Seq<char>, Fetched<T::V>) {
        (self.key@, self.outcome@)
    }
}

/// The answers so far.
#[derive(Debug)]
pub struct Known<T> {
    answers: Vec<Answer<T>>,
}

impl<T: View> View for Known<T> {
    type V = Seq<(Seq<char>, Fetched<T::V>)>;

    closed spec fn view(&self) -> Seq<(Seq<char>, Fetched<T::V>)> {
        text::views(self.answers@)
    }
}

impl<T: View> Known<T> {
    /// Nothing was asked yet.
    pub fn new() -> (r: Known<T>)
        ensures
            r@ == Seq::<(Seq<char>, Fetched<T::V>)>::empty(),
    {
        let r = Known { answers: Vec::new() };
        assert(r@ =~= Seq::<(Seq<char>, Fetched<T::V>)>::empty());
        r
    }

    fn position(&self, key: &str) -> (r: usize)
        ensures
            r == known_from(self@, key@, 0),
            r <= self@.len(),
    {
        let wanted: String = key.to_owned();
        let mut i: usize = 0;
        while i < self.answers.len() && self.answers[i].key != wanted
            invariant
                wanted@ == key@,
                i <= self.answers@.len(),
                known_from(self@, key@, 0) == known_from(self@, key@, i as int),
            decreases self.answers@.len() - i,
        {
            i += 1;
        }
        i
    }

    /// What is known under a key.
    pub fn get(&self, key: &str) -> (r: Option<&Fetched<T>>)
        ensures
            match r {
                Some(f) => outcome(self@, key@) == Some(f@),
                None => outcome(self@, key@) is None,
            },
    {
        let i = self.position(key);
        if i < self.answers.len() {
            Some(&self.answers[i].outcome)
        } else {
            None
        }
    }

    /// Whether something is known under a key.
    pub fn has(&self, key: &str) -> (r: bool)
        ensures
            r == (outcome(self@, key@) is Some),
    {
        self.position(key) < self.answers.len()
    }

    /// Notes what came of a question, unless it has an answer already.
    pub fn note(&mut self, key: &str, answer: Fetched<T>)
        ensures
            final(self)@ == if outcome(old(self)@, key@) is Some {
                old(self)@
            } else {
                old(self)@.push((key@, answer@))
            },
    {
        if !self.has(key) {
            let ghost before = self.answers@;
            let ghost entry = (key@, answer@);
            self.answers.push(Answer { key: key.to_owned(), outcome: answer });
            assert(text::views(self.answers@) =~= text::views(before).push(entry));
        }
    }
}

/// An answer to a new question is known, and every other question has the answer it had.
pub proof fn lemma_push_outcome<V>(
    l: Seq<(Seq<char>, Fetched<V>)>,
    key: Seq<char>,
    answer: Fetched<V>,
    other: Seq<char>,
)
    requires
        outcome(l, key) is None,
    ensures
        outcome(l.push((key, answer)), other) == if other == key {
            Some(answer)
        } else {
            outcome(l, other)
        },
{
    let m = l.push((key, answer));
    lemma_known_from(l, other, 0);
    lemma_known_from(m, other, 0);
    let i = known_from(l, other, 0);
    let j = known_from(m, other, 0);
    assert(forall|k: int| 0 <= k < l.len() ==> m[k] == l[k]);
    if i < l.len() {
        assert(m[i] == l[i]);
        assert(j == i);
    } else if other == key {
        assert(m[l.len() as int].0 == key);
        assert(j == l.len());
    } else {
        assert(j == m.len());
    }
}

/// How many entries from position `i` on have a key of a kind.
pub open spec fn count_keys<V>(
    l: Seq<(Seq<char>, Fetched<V>)>,
    kind: spec_fn(Seq<char>) -> bool,
    i: int,
) -> nat
    decreases l.len() - i,
{
    if i >= l.len() {
        0
    } else if kind(l[i].0) {
        count_keys(l, kind, i + 1) + 1
    } else {
        count_keys(l, kind, i + 1)
    }
}

/// A narrower kind has fewer keys.
pub proof fn lemma_count_keys<V>(
    l: Seq<(Seq<char>, Fetched<V>)>,
    wide: spec_fn(Seq<char>) -> bool,
    narrow: spec_fn(Seq<char>) -> bool,
    i: int,
)
    requires
        0 <= i,
        forall|k: Seq<char>| #[trigger] narrow(k) ==> wide(k),
    ensures
        count_keys(l, narrow, i) <= count_keys(l, wide, i),
        (exists|j: int| i <= j < l.len() && wide((#[trigger] l[j]).0) && !narrow(l[j].0))
            ==> count_keys(l, narrow, i) < count_keys(l, wide, i),
    decreases l.len() - i,
{
    if i < l.len() {
        lemma_count_keys(l, wide, narrow, i + 1);
    }
}

} // verus!
