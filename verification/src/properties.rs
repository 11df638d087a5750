//! Named text values that remember the order in which they were set, and the interpolation of
//! `${...}` placeholders from them.
use crate::text;
use vstd::prelude::*;

verus! {

/// A list of names and values.
pub type Entries = Seq<(Seq<char>, Seq<char>)>;

/// The first position at or after `from` that holds `key`, or the length of the list.
pub open spec fn key_from(l: Entries, key: Seq<char>, from: int) -> int
    decreases l.len() - from,
{
    if from >= l.len() {
        l.len() as int
    } else if l[from].0 == key {
        from
    } else {
        key_from(l, key, from + 1)
    }
}

/// The value of `key`.
pub open spec fn lookup(l: Entries, key: Seq<char>) -> Option<Seq<char>> {
    let i = key_from(l, key, 0);
    if i < l.len() {
        Some(l[i].1)
    } else {
        None
    }
}

/// The list with `key` set to `value`: in its place where the key is known, at the end where it
/// is new.
pub open spec fn set_entry(l: Entries, key: Seq<char>, value: Seq<char>) -> Entries {
    let i = key_from(l, key, 0);
    if i < l.len() {
        l.update(i, (key, value))
    } else {
        l.push((key, value))
    }
}

/// The list with `key` set to `value` unless it has a value already.
pub open spec fn set_default(l: Entries, key: Seq<char>, value: Seq<char>) -> Entries {
    if lookup(l, key) is Some {
        l
    } else {
        l.push((key, value))
    }
}

/// The list with each of `more` set in turn.
pub open spec fn set_all(l: Entries, more: Entries) -> Entries
    decreases more.len(),
{
    if more.len() == 0 {
        l
    } else {
        set_all(set_entry(l, more[0].0, more[0].1), more.skip(1))
    }
}

/// Whether no key occurs twice.
pub open spec fn distinct_keys(l: Entries) -> bool {
    forall|i: int, j: int| 0 <= i < j < l.len() ==> (#[trigger] l[i]).0 != (#[trigger] l[j]).0
}

/// `key_from` is the least position that holds the key.
pub proof fn lemma_key_from(l: Entries, key: Seq<char>, from: int)
    requires
        0 <= from <= l.len(),
    ensures
        from <= key_from(l, key, from) <= l.len(),
        forall|i: int| from <= i < key_from(l, key, from) ==> (#[trigger] l[i]).0 != key,
        key_from(l, key, from) < l.len() ==> l[key_from(l, key, from)].0 == key,
    decreases l.len() - from,
{
    if from < l.len() && l[from].0 != key {
        lemma_key_from(l, key, from + 1);
    }
}

/// One name with its value.
#[derive(Debug)]
pub struct Entry {
    pub key: String,
    pub value: String,
}

impl View for Entry {
    type V = (Seq<char>, Seq<char>);

    open spec fn view(&self) -> (Seq<char>, Seq<char>) {
        (self.key@, self.value@)
    }
}

impl Clone for Entry {
    fn clone(&self) -> (r: Self)
        ensures
            r@ == self@,
    {
        Entry { key: self.key.clone(), value: self.value.clone() }
    }
}

/// A map from names to values that keeps the order in which the names were first set.
#[derive(Debug)]
pub struct PropertyMap {
    entries: Vec<Entry>,
}

impl View for PropertyMap {
    type V = Entries;

    closed spec fn view(&self) -> Entries {
        text::views(self.entries@)
    }
}

/// Setting a name leaves none twice.
pub proof fn lemma_set_distinct(l: Entries, key: Seq<char>, value: Seq<char>)
    requires
        distinct_keys(l),
    ensures
        distinct_keys(set_entry(l, key, value)),
{
    lemma_key_from(l, key, 0);
}

impl PropertyMap {
    /// No name has two values.
    #[verifier::type_invariant]
    pub open spec fn inv(self) -> bool {
        distinct_keys(self@)
    }

    /// A map without entries.
    pub fn new() -> (r: PropertyMap)
        ensures
            r@ == Entries::empty(),
    {
        let r = PropertyMap { entries: Vec::new() };
        assert(r@ =~= Entries::empty());
        r
    }

    /// The number of names that have a value.
    pub fn len(&self) -> (r: usize)
        ensures
            r == self@.len(),
    {
        self.entries.len()
    }

    /// Whether no name has a value.
    pub fn is_empty(&self) -> (r: bool)
        ensures
            r == (self@.len() == 0),
    {
        self.entries.len() == 0
    }

    /// The entry at a position of the order.
    pub fn entry(&self, i: usize) -> (r: &Entry)
        requires
            i < self@.len(),
        ensures
            r@ == self@[i as int],
    {
        &self.entries[i]
    }

    fn position(&self, key: &str) -> (r: usize)
        ensures
            r == key_from(self@, key@, 0),
            r <= self@.len(),
    {
        let wanted: String = key.to_owned();
        let mut i: usize = 0;
        while i < self.entries.len() && self.entries[i].key != wanted
            invariant
                wanted@ == key@,
                i <= self.entries@.len(),
                key_from(self@, key@, 0) == key_from(self@, key@, i as int),
            decreases self.entries@.len() - i,
        {
            i += 1;
        }
        i
    }

    /// The value of a name.
    pub fn get(&self, key: &str) -> (r: Option<&String>)
        ensures
            match r {
                Some(v) => lookup(self@, key@) == Some(v@),
                None => lookup(self@, key@) is None,
            },
    {
        let i = self.position(key);
        if i < self.entries.len() {
            Some(&self.entries[i].value)
        } else {
            None
        }
    }

    /// Whether a name has a value.
    pub fn contains_key(&self, key: &str) -> (r: bool)
        ensures
            r == (lookup(self@, key@) is Some),
    {
        self.position(key) < self.entries.len()
    }

    /// Sets the value of a name.
    pub fn insert(&mut self, key: String, value: String)
        ensures
            final(self)@ == set_entry(old(self)@, key@, value@),
    {
        proof {
            use_type_invariant(&*self);
            lemma_set_distinct(self@, key@, value@);
        }
        let i = self.position(key.as_str());
        let mut entries: Vec<Entry> = Vec::new();
        std::mem::swap(&mut entries, &mut self.entries);
        let ghost before = entries@;
        let ghost entry = (key@, value@);
        if i < entries.len() {
            entries.set(i, Entry { key, value });
            assert(text::views(entries@) =~= text::views(before).update(i as int, entry));
        } else {
            entries.push(Entry { key, value });
            assert(text::views(entries@) =~= text::views(before).push(entry));
        }
        self.entries = entries;
    }

    /// Sets the value of a name that has none.
    pub fn insert_default(&mut self, key: String, value: String)
        ensures
            final(self)@ == set_default(old(self)@, key@, value@),
    {
        if !self.contains_key(key.as_str()) {
            self.insert(key, value);
        }
    }

    /// Sets every entry of another map, in its order.
    pub fn insert_all(&mut self, other: &PropertyMap)
        ensures
            final(self)@ == set_all(old(self)@, other@),
    {
        let ghost start = self@;
        assert(other@.skip(0) =~= other@);
        for i in 0..other.entries.len()
            invariant
                set_all(start, other@) == set_all(self@, other@.skip(i as int)),
        {
            let e = other.entries[i].clone();
            proof {
                assert(other@.skip(i as int).skip(1) =~= other@.skip(i + 1));
                assert(other@.skip(i as int)[0] == e@);
            }
            self.insert(e.key, e.value);
        }
    }
}

impl Clone for PropertyMap {
    fn clone(&self) -> (r: Self)
        ensures
            r@ == self@,
    {
        let mut entries: Vec<Entry> = Vec::new();
        for i in 0..self.entries.len()
            invariant
                entries@.len() == i,
                forall|j: int| 0 <= j < i ==> entries@[j]@ == self.entries@[j]@,
        {
            entries.push(self.entries[i].clone());
        }
        proof {
            use_type_invariant(self);
            assert(text::views(entries@) =~= text::views(self.entries@));
        }
        let r = PropertyMap { entries };
        assert(r@ =~= self@);
        r
    }
}

impl Default for PropertyMap {
    fn default() -> (r: Self)
        ensures
            r@ == Entries::empty(),
    {
        PropertyMap::new()
    }
}

// ---------------------------------------------------------------------------
// Interpolation
// ---------------------------------------------------------------------------

/// How many times the placeholders of a text are replaced.
pub const MAX_DEPTH: usize = 10;

/// Whether `s` begins with the opening of a placeholder.
pub open spec fn opens(s: Seq<char>) -> bool {
    s.len() >= 2 && s[0] == '$' && s[1] == '{'
}

/// Where the placeholder that `s` begins with ends, or the length of `s` where it does not end.
pub open spec fn closing(s: Seq<char>) -> int {
    text::find_from(s, '}', 2)
}

/// The name in the placeholder that `s` begins with.
pub open spec fn placeholder_key(s: Seq<char>) -> Seq<char> {
    s.subrange(2, closing(s))
}

/// `s` with each placeholder that has a value replaced once. A placeholder without a value
/// stays, and so does one that is not closed.
pub open spec fn replace_once(s: Seq<char>, props: Entries) -> Seq<char>
    decreases s.len(),
{
    if s.len() == 0 {
        s
    } else if !opens(s) {
        seq![s[0]] + replace_once(s.skip(1), props)
    } else if !(2 <= closing(s) < s.len()) {
        s
    } else {
        let end = closing(s) + 1;
        let value = match lookup(props, placeholder_key(s)) {
            Some(value) => value,
            None => s.take(end),
        };
        value + replace_once(s.skip(end), props)
    }
}

/// Whether `s` holds a placeholder that has a value.
pub open spec fn replaceable(s: Seq<char>, props: Entries) -> bool
    decreases s.len(),
{
    if s.len() == 0 {
        false
    } else if !opens(s) {
        replaceable(s.skip(1), props)
    } else if !(2 <= closing(s) < s.len()) {
        false
    } else {
        lookup(props, placeholder_key(s)) is Some || replaceable(s.skip(closing(s) + 1), props)
    }
}

/// `s` with its placeholders replaced at most `n` times, or until none has a value.
pub open spec fn replace_up_to(s: Seq<char>, props: Entries, n: nat) -> Seq<char>
    decreases n,
{
    if n == 0 || !replaceable(s, props) {
        s
    } else {
        replace_up_to(replace_once(s, props), props, (n - 1) as nat)
    }
}

/// `s` with its placeholders replaced from `props`.
pub open spec fn interpolated(s: Seq<char>, props: Entries) -> Seq<char> {
    replace_up_to(s, props, MAX_DEPTH as nat)
}

fn replace_pass(input: &str, properties: &PropertyMap) -> (r: (String, bool))
    ensures
        r.0@ == replace_once(input@, properties@),
        r.1 == replaceable(input@, properties@),
{
    let v = text::chars_of(input);
    let mut out = String::new();
    let mut changed = false;
    let mut i: usize = 0;
    proof {
        assert(v@.skip(0) =~= v@);
        assert(out@ + replace_once(v@.skip(0), properties@) =~= replace_once(v@, properties@));
    }
    while i < v.len()
        invariant
            i <= v@.len(),
            v@ == input@,
            replace_once(v@, properties@) == out@ + replace_once(v@.skip(i as int), properties@),
            replaceable(v@, properties@) == (changed || replaceable(
                v@.skip(i as int),
                properties@,
            )),
        decreases v@.len() - i,
    {
        let ghost s = v@.skip(i as int);
        let ghost before = out@;
        if v[i] == '$' && i + 1 < v.len() && v[i + 1] == '{' {
            let close = text::find_char(&v, '}', i + 2);
            proof {
                assert(opens(s));
                text::lemma_find_from_skip(v@, '}', i as int, i + 2);
                text::lemma_find_from(v@, '}', i + 2);
            }
            if close == v.len() {
                let tail = text::string_of(&v, i, v.len());
                out.append(tail.as_str());
                proof {
                    assert(tail@ =~= s);
                    assert(v@.skip(v@.len() as int) =~= Seq::empty());
                    assert(out@ + Seq::<char>::empty() =~= out@);
                }
                i = close;
            } else {
                let key = text::string_of(&v, i + 2, close);
                assert(key@ =~= placeholder_key(s));
                match properties.get(key.as_str()) {
                    Some(value) => {
                        out.append(value.as_str());
                        changed = true;
                    },
                    None => {
                        let whole = text::string_of(&v, i, close + 1);
                        assert(whole@ =~= s.take(closing(s) + 1));
                        out.append(whole.as_str());
                    },
                }
                proof {
                    assert(s.skip(closing(s) + 1) =~= v@.skip(close + 1));
                    assert(before + replace_once(s, properties@) =~= out@ + replace_once(
                        v@.skip(close + 1),
                        properties@,
                    ));
                }
                i = close + 1;
            }
        } else {
            out.push(v[i]);
            proof {
                assert(!opens(s));
                assert(s.skip(1) =~= v@.skip(i + 1));
                assert(before + replace_once(s, properties@) =~= out@ + replace_once(
                    v@.skip(i + 1),
                    properties@,
                ));
            }
            i += 1;
        }
    }
    proof {
        assert(v@.skip(v@.len() as int) =~= Seq::empty());
        assert(out@ + Seq::<char>::empty() =~= out@);
    }
    (out, changed)
}

/// Replaces the `${...}` placeholders of a text from the given properties.
///
/// If a property is not found, its placeholder is left as it is. References of a value to other
/// properties are followed up to a depth limit.
pub fn interpolate(input: &str, properties: &PropertyMap) -> (r: String)
    ensures
        r@ == interpolated(input@, properties@),
{
    let mut result = input.to_owned();
    for i in 0..MAX_DEPTH
        invariant
            interpolated(input@, properties@) == replace_up_to(
                result@,
                properties@,
                (MAX_DEPTH - i) as nat,
            ),
    {
        let (next, changed) = replace_pass(result.as_str(), properties);
        if !changed {
            return result;
        }
        result = next;
    }
    result
}

/// Replaces the placeholders of an optional text.
pub fn interpolate_opt(input: &Option<String>, properties: &PropertyMap) -> (r: Option<String>)
    ensures
        text::opt_view(r) == interpolated_opt(text::opt_view(*input), properties@),
{
    match input {
        Some(s) => Some(interpolate(s.as_str(), properties)),
        None => None,
    }
}

/// An optional text with its placeholders replaced.
pub open spec fn interpolated_opt(s: Option<Seq<char>>, props: Entries) -> Option<Seq<char>> {
    match s {
        Some(t) => Some(interpolated(t, props)),
        None => None,
    }
}

/// The list with the value of the key at each position from `i` on replaced in turn, each from
/// the list as it then is.
pub open spec fn settled_from(l: Entries, i: int) -> Entries
    decreases l.len() - i,
{
    proof {
        if 0 <= i < l.len() {
            lemma_key_from(l, l[i].0, 0);
        }
    }
    if 0 <= i < l.len() {
        let key = l[i].0;
        let value = l[key_from(l, key, 0)].1;
        settled_from(set_entry(l, key, interpolated(value, l)), i + 1)
    } else {
        l
    }
}

impl PropertyMap {
    /// Replaces the placeholders in the values themselves, one after the other.
    pub fn settle(&mut self)
        ensures
            final(self)@ == settled_from(old(self)@, 0),
    {
        let ghost start = self@;
        let n: usize = self.entries.len();
        for i in 0..n
            invariant
                n == self@.len(),
                settled_from(start, 0) == settled_from(self@, i as int),
        {
            let key = self.entries[i].key.clone();
            proof {
                lemma_key_from(self@, key@, 0);
            }
            let at = self.position(key.as_str());
            proof {
                assert(self@[i as int].0 == key@);
            }
            let value = interpolate(self.entries[at].value.as_str(), self);
            self.insert(key, value);
        }
    }
}

} // verus!
