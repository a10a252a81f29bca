use vstd::prelude::*;
use crate::text_map::{distinct_keys, has_key, key_index, lemma_key_index, lemma_put, lookup, put};

verus! {

/// The age from which a programme is meant, in one country.
#[derive(Debug, Clone, Copy, PartialEq, Eq)]
pub struct Rating {
    /// The code of the country, three letters
    pub country: [u8; 3],
    /// The age in years
    pub rating: u8,
}

/// The entries as pairs of the letters of a country and an age.
pub open spec fn ratings_view(entries: Seq<Rating>) -> Seq<(Seq<u8>, u8)> {
    Seq::new(entries.len(), |i: int| (entries[i].country@, entries[i].rating))
}

/// Whether two codes of countries are the same.
pub fn same_country(a: &[u8; 3], b: &[u8; 3]) -> (r: bool)
    ensures
        r == (a@ == b@),
{
    let r = a[0] == b[0] && a[1] == b[1] && a[2] == b[2];
    proof {
        if r {
            assert(a@ =~= b@);
        }
    }
    r
}

/// Ages by country, in the order in which the countries came in. No
/// country stands twice.
#[derive(Debug, PartialEq, Eq)]
pub struct RatingMap {
    entries: Vec<Rating>,
}

impl View for RatingMap {
    type V = Seq<(Seq<u8>, u8)>;

    /// The ages as pairs of the letters of a country and an age, in their
    /// order.
    closed spec fn view(&self) -> Seq<(Seq<u8>, u8)> {
        ratings_view(self.entries@)
    }
}

impl RatingMap {
    /// No country stands twice.
    #[verifier::type_invariant]
    closed spec fn inv(&self) -> bool {
        distinct_keys(self@)
    }

    /// A map without entries.
    pub fn new() -> (r: Self)
        ensures
            r@ == Seq::<(Seq<u8>, u8)>::empty(),
    {
        let r = RatingMap { entries: Vec::new() };
        assert(r@ =~= Seq::<(Seq<u8>, u8)>::empty());
        r
    }

    /// The number of countries. No country stands twice, and the code of
    /// each has three letters.
    pub fn len(&self) -> (n: usize)
        ensures
            n == self@.len(),
            distinct_keys(self@),
            forall|i: int| 0 <= i < self@.len() ==> (#[trigger] self@[i]).0.len() == 3,
    {
        proof {
            use_type_invariant(self);
        }
        self.entries.len()
    }

    /// Whether there is no country.
    pub fn is_empty(&self) -> (r: bool)
        ensures
            r == (self@.len() == 0),
    {
        self.entries.len() == 0
    }

    /// The entry at place `i`.
    pub fn entry_at(&self, i: usize) -> (r: Rating)
        requires
            i < self@.len(),
        ensures
            r.country@ == self@[i as int].0,
            r.rating == self@[i as int].1,
    {
        self.entries[i]
    }

    /// The place of the entry of `country`.
    pub fn position(&self, country: &[u8; 3]) -> (r: Option<usize>)
        ensures
            r.is_some() == has_key(self@, country@),
            r.is_some() ==> r.unwrap() == key_index(self@, country@),
    {
        proof {
            use_type_invariant(self);
        }
        let mut i: usize = 0;
        while i < self.entries.len()
            invariant
                i <= self.entries@.len(),
                self@.len() == self.entries@.len(),
                distinct_keys(self@),
                forall|j: int| 0 <= j < i ==> (#[trigger] self@[j]).0 != country@,
            decreases self.entries@.len() - i,
        {
            if same_country(&self.entries[i].country, country) {
                proof {
                    lemma_key_index(self@, i as int);
                }
                return Some(i);
            }
            i += 1;
        }
        None
    }

    /// The age in `country`.
    pub fn get(&self, country: &[u8; 3]) -> (r: Option<u8>)
        ensures
            r == lookup(self@, country@),
    {
        match self.position(country) {
            Some(i) => Some(self.entries[i].rating),
            None => None,
        }
    }

    /// Hands out the entries and leaves the map empty.
    fn take_entries(&mut self) -> (entries: Vec<Rating>)
        ensures
            entries == old(self).entries,
            final(self).entries@.len() == 0,
    {
        let mut taken = RatingMap::new();
        assert(taken@.len() == taken.entries@.len());
        core::mem::swap(self, &mut taken);
        taken.entries
    }

    /// Puts `rating` under `country`, in place of what was there.
    pub fn insert(&mut self, country: [u8; 3], rating: u8)
        ensures
            final(self)@ == put(old(self)@, country@, rating),
    {
        proof {
            use_type_invariant(&*self);
            lemma_put(self@, country@, rating);
        }
        let at = self.position(&country);
        let mut entries = self.take_entries();
        match at {
            Some(i) => {
                entries[i] = Rating { country, rating };
            },
            None => {
                entries.push(Rating { country, rating });
            },
        }
        assert(ratings_view(entries@) =~= put(old(self)@, country@, rating));
        *self = RatingMap { entries };
    }
}

impl Clone for RatingMap {
    /// The same ages in the same order.
    fn clone(&self) -> (r: Self)
        ensures
            r@ == self@,
    {
        proof {
            use_type_invariant(self);
        }
        let mut entries: Vec<Rating> = Vec::new();
        let mut i: usize = 0;
        while i < self.entries.len()
            invariant
                i <= self.entries@.len(),
                entries@.len() == i,
                forall|j: int| 0 <= j < i ==> entries@[j] == self.entries@[j],
            decreases self.entries@.len() - i,
        {
            entries.push(self.entries[i]);
            i += 1;
        }
        assert(entries@ =~= self.entries@);
        RatingMap { entries }
    }
}

impl Default for RatingMap {
    /// A map without entries.
    fn default() -> (r: Self)
        ensures
            r@ == Seq::<(Seq<u8>, u8)>::empty(),
    {
        RatingMap::new()
    }
}

} // verus!
