use vstd::prelude::*;
use vstd::string::StringExecFns;

verus! {

/// Whether some entry of `m` stands under `key`.
pub open spec fn has_key<K, V>(m: Seq<(K, V)>, key: K) -> bool {
    exists|i: int| 0 <= i < m.len() && (#[trigger] m[i]).0 == key
}

/// The place of an entry of `m` under `key`, where there is one.
pub open spec fn key_index<K, V>(m: Seq<(K, V)>, key: K) -> int {
    choose|i: int| 0 <= i < m.len() && (#[trigger] m[i]).0 == key
}

/// No key stands twice in `m`.
pub open spec fn distinct_keys<K, V>(m: Seq<(K, V)>) -> bool {
    forall|i: int, j: int| 0 <= i < j < m.len() ==> (#[trigger] m[i]).0 != (#[trigger] m[j]).0
}

/// What `m` holds under `key`.
pub open spec fn lookup<K, V>(m: Seq<(K, V)>, key: K) -> Option<V> {
    if has_key(m, key) {
        Some(m[key_index(m, key)].1)
    } else {
        None
    }
}

/// `m` with `value` under `key`: an entry that is there keeps its place and
/// loses its old value, a new one goes to the end.
pub open spec fn put<K, V>(m: Seq<(K, V)>, key: K, value: V) -> Seq<(K, V)> {
    if has_key(m, key) {
        m.update(key_index(m, key), (key, value))
    } else {
        m.push((key, value))
    }
}

/// `m` with `text` added behind what it holds under `lang`; a language that
/// is new starts from the empty text.
pub open spec fn extend(m: Seq<(Seq<char>, Seq<char>)>, lang: Seq<char>, text: Seq<char>) -> Seq<
    (Seq<char>, Seq<char>),
> {
    put(
        m,
        lang,
        match lookup(m, lang) {
            Some(t) => t + text,
            None => text,
        },
    )
}

/// With distinct keys, the entry under a key is the only one.
pub proof fn lemma_key_index<K, V>(m: Seq<(K, V)>, i: int)
    requires
        distinct_keys(m),
        0 <= i < m.len(),
    ensures
        has_key(m, m[i].0),
        key_index(m, m[i].0) == i,
        lookup(m, m[i].0) == Some(m[i].1),
{
    let k = key_index(m, m[i].0);
    assert(0 <= k < m.len() && m[k].0 == m[i].0);
    if k < i {
        assert(m[k].0 != m[i].0);
    } else if i < k {
        assert(m[i].0 != m[k].0);
    }
}

/// `put` keeps the keys distinct, the value under the key is the one it was
/// given, and what stands under the other keys stays.
pub proof fn lemma_put<K, V>(m: Seq<(K, V)>, key: K, value: V)
    requires
        distinct_keys(m),
    ensures
        distinct_keys(put(m, key, value)),
        lookup(put(m, key, value), key) == Some(value),
        forall|other: K|
            other != key ==> #[trigger] lookup(put(m, key, value), other) == lookup(m, other),
{
    let p = put(m, key, value);
    let at = if has_key(m, key) {
        key_index(m, key)
    } else {
        m.len() as int
    };
    assert(0 <= at < p.len());
    assert(p[at].0 == key);
    assert forall|i: int| 0 <= i < p.len() && i != at implies #[trigger] p[i] == m[i] && m[i].0
        != key by {
        if has_key(m, key) {
            if i < at {
                assert(m[i].0 != m[at].0);
            } else {
                assert(m[at].0 != m[i].0);
            }
        }
    }
    assert forall|i: int, j: int| 0 <= i < j < p.len() implies (#[trigger] p[i]).0 != (
    #[trigger] p[j]).0 by {
        if i != at && j != at {
            assert(m[i].0 != m[j].0);
        }
    }
    lemma_key_index(p, at);
    assert forall|other: K| other != key implies #[trigger] lookup(p, other) == lookup(
        m,
        other,
    ) by {
        if has_key(m, other) {
            let k = key_index(m, other);
            assert(k != at);
            assert(p[k] == m[k]);
            lemma_key_index(m, k);
            lemma_key_index(p, k);
        } else {
            if has_key(p, other) {
                let k = key_index(p, other);
                assert(k != at);
                assert(m[k].0 == other);
            }
        }
    }
}

/// Whether two strings hold the same text.
pub fn same_text(a: &str, b: &str) -> (r: bool)
    ensures
        r == (a@ == b@),
{
    let x = a.to_owned();
    let y = b.to_owned();
    x == y
}

/// One text under its language code.
#[derive(Debug, PartialEq, Eq)]
pub struct TextEntry {
    pub lang: String,
    pub text: String,
}

impl Clone for TextEntry {
    /// The same text under the same language code.
    fn clone(&self) -> (r: Self)
        ensures
            r == *self,
    {
        TextEntry { lang: self.lang.clone(), text: self.text.clone() }
    }
}

/// The entries as pairs of language code and text.
pub open spec fn view_of(entries: Seq<TextEntry>) -> Seq<(Seq<char>, Seq<char>)> {
    Seq::new(entries.len(), |i: int| (entries[i].lang@, entries[i].text@))
}

/// Texts by language code, in the order in which the languages came in.
/// No language code stands twice.
#[derive(Debug, PartialEq, Eq)]
pub struct TextMap {
    entries: Vec<TextEntry>,
}

impl View for TextMap {
    type V = Seq<(Seq<char>, Seq<char>)>;

    /// The texts as pairs of language code and text, in their order.
    closed spec fn view(&self) -> Seq<(Seq<char>, Seq<char>)> {
        view_of(self.entries@)
    }
}

impl TextMap {
    /// No language code stands twice.
    #[verifier::type_invariant]
    closed spec fn inv(&self) -> bool {
        distinct_keys(self@)
    }

    /// A map without entries.
    pub fn new() -> (r: Self)
        ensures
            r@ == Seq::<(Seq<char>, Seq<char>)>::empty(),
    {
        let r = TextMap { entries: Vec::new() };
        assert(r@ =~= Seq::<(Seq<char>, Seq<char>)>::empty());
        r
    }

    /// The number of languages. No language code stands twice.
    pub fn len(&self) -> (n: usize)
        ensures
            n == self@.len(),
            distinct_keys(self@),
    {
        proof {
            use_type_invariant(self);
        }
        self.entries.len()
    }

    /// Whether there is no text.
    pub fn is_empty(&self) -> (r: bool)
        ensures
            r == (self@.len() == 0),
    {
        self.entries.len() == 0
    }

    /// The language code of the entry at place `i`.
    pub fn lang_at(&self, i: usize) -> (r: &String)
        requires
            i < self@.len(),
        ensures
            r@ == self@[i as int].0,
    {
        &self.entries[i].lang
    }

    /// The text of the entry at place `i`.
    pub fn text_at(&self, i: usize) -> (r: &String)
        requires
            i < self@.len(),
        ensures
            r@ == self@[i as int].1,
    {
        &self.entries[i].text
    }

    /// The place of the entry under `lang`.
    pub fn position(&self, lang: &str) -> (r: Option<usize>)
        ensures
            r.is_some() == has_key(self@, lang@),
            r.is_some() ==> r.unwrap() == key_index(self@, lang@),
    {
        proof {
            use_type_invariant(self);
        }
        let mut i: usize = 0;
        while i < self.entries.len()
            invariant
                i <= self.entries@.len(),
                self@.len() == self.entries@.len(),
                distinct_keys(self@),
                forall|j: int| 0 <= j < i ==> (#[trigger] self@[j]).0 != lang@,
            decreases self.entries@.len() - i,
        {
            if same_text(self.entries[i].lang.as_str(), lang) {
                proof {
                    lemma_key_index(self@, i as int);
                }
                return Some(i);
            }
            i += 1;
        }
        None
    }

    /// The text under `lang`.
    pub fn get(&self, lang: &str) -> (r: Option<&String>)
        ensures
            match r {
                Some(text) => lookup(self@, lang@) == Some(text@),
                None => lookup(self@, lang@).is_none(),
            },
    {
        match self.position(lang) {
            Some(i) => Some(&self.entries[i].text),
            None => None,
        }
    }

    /// Whether there is a text under `lang`.
    pub fn contains_key(&self, lang: &str) -> (r: bool)
        ensures
            r == has_key(self@, lang@),
    {
        self.position(lang).is_some()
    }

    /// Hands out the entries and leaves the map empty.
    fn take_entries(&mut self) -> (entries: Vec<TextEntry>)
        ensures
            entries == old(self).entries,
            final(self).entries@.len() == 0,
    {
        let mut taken = TextMap::new();
        assert(taken@.len() == taken.entries@.len());
        core::mem::swap(self, &mut taken);
        taken.entries
    }

    /// Puts `text` under `lang`, in place of what was there.
    pub fn insert(&mut self, lang: String, text: String)
        ensures
            final(self)@ == put(old(self)@, lang@, text@),
    {
        proof {
            use_type_invariant(&*self);
            lemma_put(self@, lang@, text@);
        }
        let at = self.position(lang.as_str());
        let mut entries = self.take_entries();
        match at {
            Some(i) => {
                entries[i] = TextEntry { lang, text };
            },
            None => {
                entries.push(TextEntry { lang, text });
            },
        }
        assert(view_of(entries@) =~= put(old(self)@, lang@, text@));
        *self = TextMap { entries };
    }

    /// Adds `text` behind what stands under `lang`; a new language starts
    /// from the empty text.
    pub fn push_text(&mut self, lang: String, text: &str)
        ensures
            final(self)@ == extend(old(self)@, lang@, text@),
    {
        proof {
            use_type_invariant(&*self);
            lemma_put(
                self@,
                lang@,
                match lookup(self@, lang@) {
                    Some(t) => t + text@,
                    None => text@,
                },
            );
        }
        let at = self.position(lang.as_str());
        let mut entries = self.take_entries();
        match at {
            Some(i) => {
                let mut joined = entries[i].text.clone();
                joined.append(text);
                entries[i] = TextEntry { lang, text: joined };
            },
            None => {
                entries.push(TextEntry { lang, text: text.to_owned() });
            },
        }
        assert(view_of(entries@) =~= extend(old(self)@, lang@, text@));
        *self = TextMap { entries };
    }
}

impl Clone for TextMap {
    /// The same texts in the same order.
    fn clone(&self) -> (r: Self)
        ensures
            r@ == self@,
    {
        proof {
            use_type_invariant(self);
        }
        let mut entries: Vec<TextEntry> = Vec::new();
        let mut i: usize = 0;
        while i < self.entries.len()
            invariant
                i <= self.entries@.len(),
                entries@.len() == i,
                forall|j: int| 0 <= j < i ==> entries@[j] == self.entries@[j],
            decreases self.entries@.len() - i,
        {
            entries.push(self.entries[i].clone());
            i += 1;
        }
        assert(entries@ =~= self.entries@);
        TextMap { entries }
    }
}

impl Default for TextMap {
    /// A map without entries.
    fn default() -> (r: Self)
        ensures
            r@ == Seq::<(Seq<char>, Seq<char>)>::empty(),
    {
        TextMap::new()
    }
}

} // verus!
