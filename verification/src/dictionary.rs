//! The dictionary index: a read-only mapping from the composite key
//! (orthographic form, normalized pronunciation) to a value, together
//! with the lookup resolver over it.
use vstd::prelude::*;
use vstd::string::StringExecFns;

use crate::normalize::normalize_pinyin;
use crate::normalize::normalize_spec;

verus! {

/// One stored association: a composite key and its value.
struct Keyed<V> {
    form: String,
    pron: String,
    value: V,
}

/// A mapping from (orthographic form, normalized pronunciation) to a
/// value, built once and then queried read-only.  A key is stored at
/// most once; a later insertion with an identical key overwrites the
/// earlier one.
pub struct TOCFLDictionary<V> {
    entries: Vec<Keyed<V>>,
}

impl<V: View> View for TOCFLDictionary<V> {
    type V = Map<(Seq<char>, Seq<char>), V::V>;

    closed spec fn view(&self) -> Map<(Seq<char>, Seq<char>), V::V> {
        Map::new(
            |k: (Seq<char>, Seq<char>)| self.keys().contains(k),
            |k: (Seq<char>, Seq<char>)| self.values()[self.index_of_key(k)],
        )
    }
}

impl<V: View> TOCFLDictionary<V> {
    /// The stored keys, in storage order.
    pub closed spec fn keys(self) -> Seq<(Seq<char>, Seq<char>)> {
        Seq::new(
            self.entries@.len() as nat,
            |i: int| (self.entries@[i].form@, self.entries@[i].pron@),
        )
    }

    /// The views of the stored values, in storage order.
    pub closed spec fn values(self) -> Seq<V::V> {
        Seq::new(self.entries@.len() as nat, |i: int| self.entries@[i].value@)
    }

    /// The position at which a stored key lies.
    closed spec fn index_of_key(self, k: (Seq<char>, Seq<char>)) -> int {
        choose|i: int| 0 <= i < self.keys().len() && self.keys()[i] == k
    }

    /// Well-formedness: every key is stored at most once.
    pub closed spec fn wf(self) -> bool {
        forall|i: int, j: int|
            0 <= i < j < self.keys().len() ==> #[trigger] self.keys()[i] != #[trigger] self.keys()[j]
    }

    /// In a well-formed dictionary the stored position of a key is unique.
    proof fn lemma_index_unique(self, i: int)
        requires
            self.wf(),
            0 <= i < self.keys().len(),
        ensures
            self.index_of_key(self.keys()[i]) == i,
    {
        let k = self.keys()[i];
        assert(0 <= i < self.keys().len() && self.keys()[i] == k);
        let j = self.index_of_key(k);
        assert(0 <= j < self.keys().len() && self.keys()[j] == k);
        if i < j {
            assert(self.keys()[i] != self.keys()[j]);
        } else if j < i {
            assert(self.keys()[j] != self.keys()[i]);
        }
    }

    /// Every stored position is reflected in the map view: the key at
    /// position `i` is in the map and maps to the value at position `i`.
    pub proof fn lemma_key_index(self, i: int)
        requires
            self.wf(),
            0 <= i < self.keys().len(),
        ensures
            self@.contains_key(self.keys()[i]),
            self@[self.keys()[i]] == self.values()[i],
    {
        assert(self.keys().contains(self.keys()[i]));
        self.lemma_index_unique(i);
    }

    /// The map view holds exactly the stored keys.
    pub proof fn lemma_dom(self)
        ensures
            forall|k: (Seq<char>, Seq<char>)|
                self@.contains_key(k) <==> self.keys().contains(k),
    {
    }

    /// An empty dictionary.
    pub fn new() -> (r: Self)
        ensures
            r.wf(),
            r@ == Map::<(Seq<char>, Seq<char>), V::V>::empty(),
            r.keys().len() == 0,
    {
        let r = TOCFLDictionary { entries: Vec::new() };
        proof {
            assert(r@ =~= Map::<(Seq<char>, Seq<char>), V::V>::empty());
        }
        r
    }

    /// The position of the stored key equal to (`form`, `pron`), if any.
    fn find(&self, form: &str, pron: &str) -> (r: Option<usize>)
        ensures
            match r {
                Some(i) => i < self.keys().len() && self.keys()[i as int] == (form@, pron@),
                None => !self.keys().contains((form@, pron@)),
            },
    {
        let qform: String = String::from_str(form);
        let qpron: String = String::from_str(pron);
        let n = self.entries.len();
        let mut i: usize = 0;
        while i < n
            invariant
                n == self.keys().len(),
                i <= n,
                qform@ == form@,
                qpron@ == pron@,
                forall|j: int| 0 <= j < i ==> self.keys()[j] != (form@, pron@),
            decreases n - i,
        {
            let e = &self.entries[i];
            let form_eq = e.form == qform;
            let pron_eq = e.pron == qpron;
            if form_eq && pron_eq {
                return Some(i);
            }
            i = i + 1;
        }
        None
    }

    /// Exact lookup of an already-normalized key.
    fn get_raw<'a>(&'a self, form: &str, pron: &str) -> (r: Option<&'a V>)
        requires
            self.wf(),
        ensures
            (r is Some) == self@.contains_key((form@, pron@)),
            r matches Some(v) ==> v@ == self@[(form@, pron@)],
    {
        match self.find(form, pron) {
            Some(i) => {
                proof {
                    self.lemma_key_index(i as int);
                }
                Some(&self.entries[i].value)
            },
            None => {
                proof {
                    self.lemma_dom();
                }
                None
            },
        }
    }

    /// Stores `value` under the key (`form`, `pron`), overwriting any
    /// earlier value stored under the same key.
    pub fn insert(&mut self, form: String, pron: String, value: V)
        requires
            old(self).wf(),
        ensures
            final(self).wf(),
            final(self)@ == old(self)@.insert((form@, pron@), value@),
    {
        let ghost k = (form@, pron@);
        match self.find(form.as_str(), pron.as_str()) {
            Some(i) => {
                self.entries[i] = Keyed { form, pron, value };
                proof {
                    assert(self.keys() =~= old(self).keys());
                    assert(self.values() =~= old(self).values().update(i as int, value@));
                    assert forall|k2: (Seq<char>, Seq<char>)| true implies
                        self.index_of_key(k2) == old(self).index_of_key(k2) by {
                        assert(self.keys() == old(self).keys());
                    }
                    assert forall|k2: (Seq<char>, Seq<char>)|
                        #[trigger] old(self)@.insert(k, value@).contains_key(k2) implies self@[k2]
                        == old(self)@.insert(k, value@)[k2] by {
                        if k2 == k {
                            self.lemma_index_unique(i as int);
                        } else {
                            assert(self.keys().contains(k2));
                            let j = self.index_of_key(k2);
                            assert(0 <= j < self.keys().len() && self.keys()[j] == k2);
                            if j == i {
                                assert(self.keys()[j] == k);
                            }
                        }
                    }
                    assert(self@ =~= old(self)@.insert(k, value@));
                }
            },
            None => {
                self.entries.push(Keyed { form, pron, value });
                proof {
                    let n = old(self).keys().len();
                    assert(self.keys() =~= old(self).keys().push(k));
                    assert(self.values() =~= old(self).values().push(value@));
                    assert forall|i: int, j: int| 0 <= i < j < self.keys().len() implies
                        self.keys()[i] != self.keys()[j] by {
                        if j < n {
                            assert(old(self).keys()[i] != old(self).keys()[j]);
                        } else {
                            if self.keys()[i] == k {
                                assert(old(self).keys().contains(old(self).keys()[i]));
                            }
                        }
                    }
                    assert forall|k2: (Seq<char>, Seq<char>)|
                        #[trigger] old(self)@.insert(k, value@).contains_key(k2) implies
                        self@.contains_key(k2) && self@[k2] == old(self)@.insert(k, value@)[k2] by {
                        if k2 == k {
                            assert(self.keys()[n as int] == k);
                            assert(self.keys().contains(k2));
                            let j = self.index_of_key(k2);
                            assert(0 <= j < self.keys().len() && self.keys()[j] == k2);
                            if j < n {
                                assert(old(self).keys().contains(old(self).keys()[j]));
                            }
                            assert(j == n);
                        } else {
                            assert(old(self)@.contains_key(k2));
                            assert(old(self).keys().contains(k2));
                            let j0 = choose|j0: int|
                                0 <= j0 < old(self).keys().len() && old(self).keys()[j0] == k2;
                            assert(self.keys()[j0] == k2);
                            assert(self.keys().contains(k2));
                            let j = self.index_of_key(k2);
                            assert(0 <= j < self.keys().len() && self.keys()[j] == k2);
                            assert(j < n);
                            old(self).lemma_index_unique(j);
                            self.lemma_index_unique(j);
                        }
                    }
                    assert forall|k2: (Seq<char>, Seq<char>)| #[trigger] self@.contains_key(k2)
                        implies old(self)@.insert(k, value@).contains_key(k2) by {
                        if k2 != k {
                            let j = choose|j: int|
                                0 <= j < self.keys().len() && self.keys()[j] == k2;
                            assert(old(self).keys()[j] == k2);
                            assert(old(self).keys().contains(k2));
                        }
                    }
                    assert(self@ =~= old(self)@.insert(k, value@));
                }
            },
        }
    }

    /// Exact lookup: normalizes the given pronunciation and returns the
    /// entry stored under (`traditional`, that normalization), if any.
    /// No fallback is attempted: a homographic form never substitutes
    /// the entry of another pronunciation.
    pub fn get_entry<'a>(&'a self, traditional: &str, pinyin: &str) -> (r: Option<&'a V>)
        requires
            self.wf(),
        ensures
            (r is Some) == self@.contains_key((traditional@, normalize_spec(pinyin@))),
            r matches Some(v) ==> v@ == self@[(traditional@, normalize_spec(pinyin@))],
    {
        let p = normalize_pinyin(pinyin);
        self.get_raw(traditional, p.as_str())
    }

    /// Lookup under the empty-pronunciation fallback key.
    pub fn get_entry_no_pinyin<'a>(&'a self, traditional: &str) -> (r: Option<&'a V>)
        requires
            self.wf(),
        ensures
            (r is Some) == self@.contains_key((traditional@, Seq::<char>::empty())),
            r matches Some(v) ==> v@ == self@[(traditional@, Seq::<char>::empty())],
    {
        let empty: &str = "";
        proof {
            reveal_strlit("");
            assert(empty@ =~= Seq::<char>::empty());
        }
        self.get_raw(traditional, empty)
    }

    /// Tries each candidate pronunciation in order via the exact-match
    /// path and returns the first hit; if none hits, falls back to the
    /// empty-pronunciation key.
    pub fn get_entry_multiple<'a>(&'a self, traditional: &str, pinyin: &[&str]) -> (r: Option<
        &'a V,
    >)
        requires
            self.wf(),
        ensures
            match r {
                Some(v) => multi_lookup_spec(self@, traditional@, pinyin.deep_view()) == Some(v@),
                None => multi_lookup_spec(self@, traditional@, pinyin.deep_view()) is None,
            },
    {
        let ghost prons = pinyin.deep_view();
        let n = pinyin.len();
        proof {
            assert(prons.skip(0) =~= prons);
        }
        let mut i: usize = 0;
        while i < n
            invariant
                self.wf(),
                n == pinyin@.len(),
                prons == pinyin.deep_view(),
                i <= n,
                multi_lookup_spec(self@, traditional@, prons) == multi_lookup_spec(
                    self@,
                    traditional@,
                    prons.skip(i as int),
                ),
            decreases n - i,
        {
            let hit = self.get_entry(traditional, pinyin[i]);
            proof {
                assert(prons.skip(i as int).len() > 0);
                assert(prons.skip(i as int)[0] == prons[i as int]);
                assert(prons[i as int] == pinyin@[i as int]@);
                assert(prons.skip(i as int).drop_first() =~= prons.skip(i + 1));
            }
            if let Some(v) = hit {
                return Some(v);
            }
            i = i + 1;
        }
        proof {
            assert(prons.skip(n as int) =~= Seq::<Seq<char>>::empty());
        }
        self.get_entry_no_pinyin(traditional)
    }

    /// All stored values, one per stored key, in storage order.  A value
    /// reachable via several keys appears once per key.
    pub fn iter<'a>(&'a self) -> (r: Vec<&'a V>)
        ensures
            r@.len() == self.values().len(),
            forall|i: int| 0 <= i < r@.len() ==> r@[i]@ == self.values()[i],
    {
        let n = self.entries.len();
        let mut out: Vec<&V> = Vec::new();
        let mut i: usize = 0;
        while i < n
            invariant
                n == self.entries@.len(),
                i <= n,
                out@.len() == i,
                forall|j: int| 0 <= j < i ==> out@[j]@ == self.values()[j],
            decreases n - i,
        {
            out.push(&self.entries[i].value);
            i = i + 1;
        }
        out
    }

    /// Iteration is exact: the stored keys are pairwise distinct, the
    /// value sequence reported by `iter` follows them position by
    /// position through the map view, and the map view holds no key
    /// beyond the stored ones — so iteration yields exactly the stored
    /// values, once per stored key.
    pub proof fn lemma_iterate_exact(self)
        requires
            self.wf(),
        ensures
            self.keys().len() == self.values().len(),
            forall|i: int, j: int|
                0 <= i < j < self.keys().len() ==> #[trigger] self.keys()[i]
                    != #[trigger] self.keys()[j],
            forall|i: int|
                0 <= i < self.keys().len() ==> self@.contains_key(#[trigger] self.keys()[i])
                    && self@[self.keys()[i]] == self.values()[i],
            forall|k: (Seq<char>, Seq<char>)|
                self@.contains_key(k) ==> self.keys().contains(k),
    {
        assert forall|i: int| 0 <= i < self.keys().len() implies self@.contains_key(
            #[trigger] self.keys()[i],
        ) && self@[self.keys()[i]] == self.values()[i] by {
            self.lemma_key_index(i);
        }
    }

    /// The number of stored keys.
    pub fn num_keys(&self) -> (n: usize)
        ensures
            n == self.keys().len(),
    {
        self.entries.len()
    }

    /// The orthographic form of the key stored at position `i`.
    pub fn form_at<'a>(&'a self, i: usize) -> (r: &'a String)
        requires
            i < self.keys().len(),
        ensures
            r@ == self.keys()[i as int].0,
    {
        &self.entries[i].form
    }

    /// The pronunciation of the key stored at position `i`.
    pub fn pron_at<'a>(&'a self, i: usize) -> (r: &'a String)
        requires
            i < self.keys().len(),
        ensures
            r@ == self.keys()[i as int].1,
    {
        &self.entries[i].pron
    }

    /// The value stored at position `i`.
    pub fn value_at<'a>(&'a self, i: usize) -> (r: &'a V)
        requires
            i < self.keys().len(),
        ensures
            r@ == self.values()[i as int],
    {
        &self.entries[i].value
    }
}

impl TOCFLDictionary<u64> {
    /// Adds `amount` to the aggregate count stored under (`form`,
    /// `pron`), treating an absent key as zero.
    pub fn add_count(&mut self, form: String, pron: String, amount: u64)
        requires
            old(self).wf(),
            (if old(self)@.contains_key((form@, pron@)) {
                old(self)@[(form@, pron@)] as int
            } else {
                0
            }) + amount <= u64::MAX,
        ensures
            final(self).wf(),
            final(self)@ == old(self)@.insert(
                (form@, pron@),
                (((if old(self)@.contains_key((form@, pron@)) {
                    old(self)@[(form@, pron@)] as int
                } else {
                    0
                }) + amount) as u64),
            ),
    {
        let cur: u64 = match self.get_raw(form.as_str(), pron.as_str()) {
            Some(v) => *v,
            None => 0,
        };
        self.insert(form, pron, cur + amount);
    }
}

/// The result of trying each candidate pronunciation in order via the
/// exact-match path, with the empty-pronunciation key as last resort.
pub open spec fn multi_lookup_spec<V>(
    m: Map<(Seq<char>, Seq<char>), V>,
    form: Seq<char>,
    prons: Seq<Seq<char>>,
) -> Option<V>
    decreases prons.len(),
{
    if prons.len() == 0 {
        if m.contains_key((form, Seq::<char>::empty())) {
            Some(m[(form, Seq::<char>::empty())])
        } else {
            None
        }
    } else if m.contains_key((form, normalize_spec(prons[0]))) {
        Some(m[(form, normalize_spec(prons[0]))])
    } else {
        multi_lookup_spec(m, form, prons.drop_first())
    }
}

/// With no candidate pronunciations, the multi-candidate lookup is
/// exactly the pronunciation-omitted lookup: both read the
/// empty-pronunciation fallback key.
pub proof fn lemma_multiple_empty_is_no_pinyin<V>(
    m: Map<(Seq<char>, Seq<char>), V>,
    form: Seq<char>,
)
    ensures
        multi_lookup_spec(m, form, Seq::<Seq<char>>::empty()) == (if m.contains_key(
            (form, Seq::<char>::empty()),
        ) {
            Some(m[(form, Seq::<char>::empty())])
        } else {
            None
        }),
{
}

/// Homograph isolation: a form's readings stay apart.  Storing an entry
/// under one pronunciation of a form neither creates nor changes what a
/// lookup under any other pronunciation of that form finds; in
/// particular, a pronunciation that was never inserted still yields
/// nothing rather than another reading's entry.
pub proof fn lemma_homograph_isolation<V>(
    m: Map<(Seq<char>, Seq<char>), V>,
    form: Seq<char>,
    p1: Seq<char>,
    p2: Seq<char>,
    e1: V,
)
    requires
        p1 != p2,
    ensures
        m.insert((form, p1), e1).contains_key((form, p2)) == m.contains_key((form, p2)),
        m.contains_key((form, p2)) ==> m.insert((form, p1), e1)[(form, p2)] == m[(form, p2)],
{
}

} // verus!
