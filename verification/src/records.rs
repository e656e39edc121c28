//! Vocabulary entries and record-set construction: the expansion of each
//! entry into the composite keys under which it can be looked up.
use vstd::prelude::*;

use crate::dictionary::TOCFLDictionary;
use crate::dictionary::multi_lookup_spec;
use crate::normalize::normalize_pinyin;
use crate::normalize::normalize_spec;

verus! {

/// One word-level vocabulary record.
#[derive(Debug, PartialEq, Eq)]
#[verifier::ext_equal]
pub struct Entry {
    /// Ordinal identifier.
    pub id: u64,
    /// Canonical orthographic form (traditional characters).
    pub text: String,
    /// Other orthographic variants.
    pub text_alt: Vec<String>,
    /// Proficiency category label.
    pub category: String,
    /// Proficiency level, 1-7.
    pub tocfl_level: u32,
    /// Usage-context label.
    pub situation: String,
    /// Written-frequency count per million tokens.
    pub written_per_million: u64,
    /// Spoken-frequency count per million tokens.
    pub spoken_per_million: u64,
    /// Opaque componentry metadata, passed through uninterpreted.
    pub components: String,
    /// Canonical phonetic notation (zhuyin).
    pub zhuyin: String,
    /// Phonetic-notation variants.
    pub zhuyin_alt: Vec<String>,
    /// Canonical romanized pronunciation (pinyin).
    pub pinyin: String,
    /// Romanized-pronunciation variants.
    pub pinyin_alt: Vec<String>,
}

/// The mathematical content of an entry: every field taken at the level
/// of character sequences and plain values.
#[verifier::ext_equal]
pub ghost struct EntryView {
    pub id: u64,
    pub text: Seq<char>,
    pub text_alt: Seq<Seq<char>>,
    pub category: Seq<char>,
    pub tocfl_level: u32,
    pub situation: Seq<char>,
    pub written_per_million: u64,
    pub spoken_per_million: u64,
    pub components: Seq<char>,
    pub zhuyin: Seq<char>,
    pub zhuyin_alt: Seq<Seq<char>>,
    pub pinyin: Seq<char>,
    pub pinyin_alt: Seq<Seq<char>>,
}

impl View for Entry {
    type V = EntryView;

    open spec fn view(&self) -> EntryView {
        EntryView {
            id: self.id,
            text: self.text@,
            text_alt: self.text_alt.deep_view(),
            category: self.category@,
            tocfl_level: self.tocfl_level,
            situation: self.situation@,
            written_per_million: self.written_per_million,
            spoken_per_million: self.spoken_per_million,
            components: self.components@,
            zhuyin: self.zhuyin@,
            zhuyin_alt: self.zhuyin_alt.deep_view(),
            pinyin: self.pinyin@,
            pinyin_alt: self.pinyin_alt.deep_view(),
        }
    }
}

/// An element-wise copy of a list of strings.
pub(crate) fn clone_strings(v: &Vec<String>) -> (r: Vec<String>)
    ensures
        r@ == v@,
{
    let n = v.len();
    let mut out: Vec<String> = Vec::new();
    let mut i: usize = 0;
    while i < n
        invariant
            n == v@.len(),
            i <= n,
            out@ == v@.take(i as int),
        decreases n - i,
    {
        out.push(v[i].clone());
        proof {
            assert(out@ =~= v@.take(i + 1));
        }
        i = i + 1;
    }
    proof {
        assert(v@.take(n as int) =~= v@);
    }
    out
}

impl Clone for Entry {
    /// An exact copy: the view of the clone equals the original's.
    fn clone(&self) -> (r: Self)
        ensures
            r@ == self@,
    {
        let r = Entry {
            id: self.id,
            text: self.text.clone(),
            text_alt: clone_strings(&self.text_alt),
            category: self.category.clone(),
            tocfl_level: self.tocfl_level,
            situation: self.situation.clone(),
            written_per_million: self.written_per_million,
            spoken_per_million: self.spoken_per_million,
            components: self.components.clone(),
            zhuyin: self.zhuyin.clone(),
            zhuyin_alt: clone_strings(&self.zhuyin_alt),
            pinyin: self.pinyin.clone(),
            pinyin_alt: clone_strings(&self.pinyin_alt),
        };
        proof {
            assert(r@ =~= self@);
        }
        r
    }
}

/// The number of positionally zipped orthographic/pronunciation variant
/// pairs of an entry: the length of the shorter variant list.
pub open spec fn variant_count(e: Entry) -> int {
    if e.text_alt@.len() <= e.pinyin_alt@.len() {
        e.text_alt@.len() as int
    } else {
        e.pinyin_alt@.len() as int
    }
}

/// The access keys generated for one entry, in insertion order: the
/// canonical pair, the empty-pronunciation fallback key, then one pair
/// per zipped variant.
pub open spec fn entry_keys(e: Entry) -> Seq<(Seq<char>, Seq<char>)> {
    seq![(e.text@, normalize_spec(e.pinyin@)), (e.text@, Seq::<char>::empty())] + Seq::new(
        variant_count(e) as nat,
        |j: int| (e.text_alt@[j]@, normalize_spec(e.pinyin_alt@[j]@)),
    )
}

/// The map after the first `j` keys of `e` have been inserted into `m`,
/// all mapped to the view of `e` itself; a later key overwrites an
/// earlier equal one.
pub open spec fn add_entry_keys_upto(
    m: Map<(Seq<char>, Seq<char>), EntryView>,
    e: Entry,
    j: int,
) -> Map<(Seq<char>, Seq<char>), EntryView>
    decreases j,
{
    if j <= 0 {
        m
    } else {
        add_entry_keys_upto(m, e, j - 1).insert(entry_keys(e)[j - 1], e@)
    }
}

/// The map after the first `i` entries have been fully expanded and
/// inserted, in order.
pub open spec fn build_prefix(entries: Seq<Entry>, i: int) -> Map<(Seq<char>, Seq<char>), EntryView>
    decreases i,
{
    if i <= 0 {
        Map::empty()
    } else {
        add_entry_keys_upto(
            build_prefix(entries, i - 1),
            entries[i - 1],
            entry_keys(entries[i - 1]).len() as int,
        )
    }
}

/// The dictionary-index contents obtained by expanding every entry of a
/// record set, in order.
pub open spec fn build_spec(entries: Seq<Entry>) -> Map<(Seq<char>, Seq<char>), EntryView> {
    build_prefix(entries, entries.len() as int)
}

/// Inserting the keys of an entry never removes a key already present.
proof fn lemma_upto_preserves(m: Map<(Seq<char>, Seq<char>), EntryView>, e: Entry, j: int, k: (
    Seq<char>,
    Seq<char>,
))
    requires
        m.contains_key(k),
    ensures
        add_entry_keys_upto(m, e, j).contains_key(k),
    decreases j,
{
    if j > 0 {
        lemma_upto_preserves(m, e, j - 1, k);
    }
}

/// After at least `l + 1` keys of an entry have been inserted, the key at
/// position `l` is present.
proof fn lemma_upto_contains(m: Map<(Seq<char>, Seq<char>), EntryView>, e: Entry, j: int, l: int)
    requires
        0 <= l < j,
    ensures
        add_entry_keys_upto(m, e, j).contains_key(entry_keys(e)[l]),
    decreases j,
{
    if l < j - 1 {
        lemma_upto_contains(m, e, j - 1, l);
    }
}

/// Every loaded form is reachable via its empty-pronunciation fallback
/// key: the index built from a record set holds, for every entry of the
/// set, the key (form of the entry, empty pronunciation).
pub proof fn lemma_fallback_key_reachable(entries: Seq<Entry>, n: int, i: int)
    requires
        0 <= i < n <= entries.len(),
    ensures
        build_prefix(entries, n).contains_key((entries[i].text@, Seq::<char>::empty())),
    decreases n,
{
    let e = entries[n - 1];
    if i == n - 1 {
        assert(entry_keys(e)[1] == (e.text@, Seq::<char>::empty()));
        lemma_upto_contains(build_prefix(entries, n - 1), e, entry_keys(e).len() as int, 1);
    } else {
        lemma_fallback_key_reachable(entries, n - 1, i);
        lemma_upto_preserves(
            build_prefix(entries, n - 1),
            e,
            entry_keys(e).len() as int,
            (entries[i].text@, Seq::<char>::empty()),
        );
    }
}

/// Builds the dictionary index of a record set: for each entry, in
/// order, inserts the canonical key, the empty-pronunciation fallback
/// key, and one key per zipped orthographic/pronunciation variant pair,
/// all mapped to that entry.
pub fn build_dictionary(entries: &Vec<Entry>) -> (r: TOCFLDictionary<Entry>)
    ensures
        r.wf(),
        r@ == build_spec(entries@),
        forall|i: int|
            0 <= i < entries@.len() ==> r@.contains_key(
                (#[trigger] entries@[i].text@, Seq::<char>::empty()),
            ),
{
    let n = entries.len();
    let mut d = TOCFLDictionary::<Entry>::new();
    let mut i: usize = 0;
    while i < n
        invariant
            n == entries@.len(),
            i <= n,
            d.wf(),
            d@ == build_prefix(entries@, i as int),
        decreases n - i,
    {
        let e = &entries[i];
        let ghost m0 = d@;
        d.insert(e.text.clone(), normalize_pinyin(e.pinyin.as_str()), e.clone());
        proof {
            assert(entry_keys(*e)[0] == (e.text@, normalize_spec(e.pinyin@)));
            assert(add_entry_keys_upto(m0, *e, 0) == m0);
            assert(d@ == add_entry_keys_upto(m0, *e, 1));
        }
        d.insert(e.text.clone(), String::new(), e.clone());
        proof {
            assert(entry_keys(*e)[1] == (e.text@, Seq::<char>::empty()));
            assert(d@ == add_entry_keys_upto(m0, *e, 2));
        }
        let alt_n = if e.text_alt.len() <= e.pinyin_alt.len() {
            e.text_alt.len()
        } else {
            e.pinyin_alt.len()
        };
        let mut j: usize = 0;
        while j < alt_n
            invariant
                alt_n == variant_count(*e),
                j <= alt_n,
                d.wf(),
                *e == entries@[i as int],
                d@ == add_entry_keys_upto(m0, *e, 2 + j),
            decreases alt_n - j,
        {
            d.insert(
                e.text_alt[j].clone(),
                normalize_pinyin(e.pinyin_alt[j].as_str()),
                e.clone(),
            );
            proof {
                assert(entry_keys(*e)[2 + j] == (
                    e.text_alt@[j as int]@,
                    normalize_spec(e.pinyin_alt@[j as int]@),
                ));
                assert(d@ == add_entry_keys_upto(m0, *e, 2 + j + 1));
            }
            j = j + 1;
        }
        proof {
            assert(2 + alt_n == entry_keys(*e).len());
            assert(d@ == build_prefix(entries@, i + 1));
        }
        i = i + 1;
    }
    proof {
        assert(d@ == build_spec(entries@));
        assert forall|i2: int| 0 <= i2 < entries@.len() implies d@.contains_key(
            (#[trigger] entries@[i2].text@, Seq::<char>::empty()),
        ) by {
            lemma_fallback_key_reachable(entries@, entries@.len() as int, i2);
        }
    }
    d
}

/// The multi-candidate lookup is total on loaded forms: over an index
/// built from a record set it yields a result for the canonical form of
/// every entry, whatever candidate pronunciations are supplied — at
/// worst the empty-pronunciation fallback key answers.
pub proof fn lemma_multiple_total_on_loaded_forms(
    entries: Seq<Entry>,
    i: int,
    prons: Seq<Seq<char>>,
)
    requires
        0 <= i < entries.len(),
    ensures
        multi_lookup_spec(build_spec(entries), entries[i].text@, prons) is Some,
    decreases prons.len(),
{
    lemma_fallback_key_reachable(entries, entries.len() as int, i);
    if prons.len() > 0 && !build_spec(entries).contains_key(
        (entries[i].text@, crate::normalize::normalize_spec(prons[0])),
    ) {
        lemma_multiple_total_on_loaded_forms(entries, i, prons.drop_first());
    }
}

} // verus!
