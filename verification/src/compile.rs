//! The character-frequency compiler: derives a character-keyed index of
//! aggregate written-frequency counts from the word-keyed index.
use vstd::prelude::*;

use pinyin::ToPinyin;

use crate::dictionary::TOCFLDictionary;
use crate::normalize::char_is_whitespace;
use crate::normalize::remove_ws_spec;
use crate::normalize::string_push;
use crate::normalize::whitespace_char;
use crate::records::Entry;
use crate::records::EntryView;

verus! {

/// The default tone-marked reading that the pinyin crate's data table
/// assigns to a single character, if any.
pub uninterp spec fn char_reading(c: char) -> Option<Seq<char>>;

/// Relies on pinyin's char::to_pinyin and Pinyin::with_tone: the default
/// tone-marked reading of a character, looked up in a fixed data table,
/// so determined by the character alone.
#[verifier::external_body]
fn form_default_pronunciation(c: char) -> (r: Option<String>)
    ensures
        (r is Some) == (char_reading(c) is Some),
        r matches Some(s) ==> char_reading(c) == Some(s@),
{
    c.to_pinyin().map(|p| p.with_tone().to_string())
}

/// A pronunciation that carries no information: every character is
/// whitespace (an empty one in particular).
pub open spec fn is_blank(p: Seq<char>) -> bool {
    forall|i: int| 0 <= i < p.len() ==> whitespace_char(p[i])
}

/// Whether a stored key attests a candidate pronunciation for the
/// character `c`: its form is exactly `c` and its pronunciation is not
/// blank.
pub open spec fn cand_key(k: (Seq<char>, Seq<char>), c: char) -> bool {
    k.0 == seq![c] && !is_blank(k.1)
}

/// The candidate pronunciations attested for `c` among the stored keys:
/// the pronunciations of the single-character keys for `c`, blanks
/// skipped.
pub open spec fn cands(keys: Seq<(Seq<char>, Seq<char>)>, c: char) -> Seq<Seq<char>> {
    keys.filter(|k: (Seq<char>, Seq<char>)| cand_key(k, c)).map_values(
        |k: (Seq<char>, Seq<char>)| k.1,
    )
}

/// `m` with `w` added to the count under `k`, an absent key counting as
/// zero.
pub open spec fn bump(
    m: Map<(Seq<char>, Seq<char>), int>,
    k: (Seq<char>, Seq<char>),
    w: int,
) -> Map<(Seq<char>, Seq<char>), int> {
    m.insert(k, (if m.contains_key(k) { m[k] } else { 0 }) + w)
}

/// The attribution of one occurrence of the character `c`, inside a
/// multi-character word of written frequency `w`, to the aggregate map:
/// with exactly one candidate reading, the count goes to that reading's
/// key and to the empty fallback key; with none, to the fallback key and,
/// if the data table offers a default reading, to that reading's key;
/// with two or more (an ambiguous homograph), only to the fallback key.
pub open spec fn char_step(
    m: Map<(Seq<char>, Seq<char>), int>,
    keys: Seq<(Seq<char>, Seq<char>)>,
    c: char,
    w: int,
) -> Map<(Seq<char>, Seq<char>), int> {
    let ck = seq![c];
    let cs = cands(keys, c);
    if cs.len() == 1 {
        bump(bump(m, (ck, remove_ws_spec(cs[0])), w), (ck, Seq::<char>::empty()), w)
    } else if cs.len() == 0 {
        let m1 = bump(m, (ck, Seq::<char>::empty()), w);
        match char_reading(c) {
            Some(p) => bump(m1, (ck, remove_ws_spec(p)), w),
            None => m1,
        }
    } else {
        bump(m, (ck, Seq::<char>::empty()), w)
    }
}

/// The aggregate map after the first `j` characters of `word` have been
/// attributed.
pub open spec fn word_prefix(
    m: Map<(Seq<char>, Seq<char>), int>,
    keys: Seq<(Seq<char>, Seq<char>)>,
    word: Seq<char>,
    j: int,
    w: int,
) -> Map<(Seq<char>, Seq<char>), int>
    decreases j,
{
    if j <= 0 {
        m
    } else {
        char_step(word_prefix(m, keys, word, j - 1, w), keys, word[j - 1], w)
    }
}

/// The aggregate map after the first `i` stored pairs have been
/// processed: a pair whose form has two or more characters attributes
/// its value's written frequency once per character occurrence.
pub open spec fn compile_prefix(
    keys: Seq<(Seq<char>, Seq<char>)>,
    vals: Seq<EntryView>,
    i: int,
) -> Map<(Seq<char>, Seq<char>), int>
    decreases i,
{
    if i <= 0 {
        Map::<(Seq<char>, Seq<char>), int>::empty()
    } else {
        let m = compile_prefix(keys, vals, i - 1);
        let word = keys[i - 1].0;
        if word.len() >= 2 {
            word_prefix(m, keys, word, word.len() as int, vals[i - 1].written_per_million as int)
        } else {
            m
        }
    }
}

/// The aggregate map compiled from a whole word-keyed index.
pub open spec fn compile_spec(
    keys: Seq<(Seq<char>, Seq<char>)>,
    vals: Seq<EntryView>,
) -> Map<(Seq<char>, Seq<char>), int> {
    compile_prefix(keys, vals, keys.len() as int)
}

/// An upper bound on every count after the first `i` pairs: each
/// character of a multi-character word adds its word's frequency to at
/// most two keys.
pub open spec fn weight_prefix(
    keys: Seq<(Seq<char>, Seq<char>)>,
    vals: Seq<EntryView>,
    i: int,
) -> int
    decreases i,
{
    if i <= 0 {
        0
    } else {
        weight_prefix(keys, vals, i - 1) + (if keys[i - 1].0.len() >= 2 {
            2 * keys[i - 1].0.len() * (vals[i - 1].written_per_million as int)
        } else {
            0
        })
    }
}

/// Every count of `m` lies between zero and `w`.
pub open spec fn bounded(m: Map<(Seq<char>, Seq<char>), int>, w: int) -> bool {
    forall|k: (Seq<char>, Seq<char>)| m.contains_key(k) ==> 0 <= #[trigger] m[k] <= w
}

/// A map of machine counts agreeing pointwise with a mathematical one.
pub open spec fn matches64(
    a: Map<(Seq<char>, Seq<char>), u64>,
    b: Map<(Seq<char>, Seq<char>), int>,
) -> bool {
    &&& a.dom() == b.dom()
    &&& forall|k: (Seq<char>, Seq<char>)| b.contains_key(k) ==> (#[trigger] a[k]) as int == b[k]
}

/// The string holding exactly the character `c`.
fn make_char_string(c: char) -> (r: String)
    ensures
        r@ == seq![c],
{
    let mut s = String::new();
    string_push(&mut s, c);
    proof {
        assert(s@ =~= seq![c]);
    }
    s
}

/// Whether every character of `s` is whitespace.
fn is_blank_str(s: &str) -> (r: bool)
    ensures
        r == is_blank(s@),
{
    let n = s.unicode_len();
    let mut i: usize = 0;
    while i < n
        invariant
            n == s@.len(),
            i <= n,
            forall|j: int| 0 <= j < i ==> whitespace_char(s@[j]),
        decreases n - i,
    {
        if !char_is_whitespace(s.get_char(i)) {
            return false;
        }
        i = i + 1;
    }
    true
}

/// Counts the candidate pronunciations attested for `c` among the
/// stored keys and, when the count is exactly one, returns that
/// candidate.
fn candidates_of(dict: &TOCFLDictionary<Entry>, c: char) -> (r: (usize, Option<String>))
    ensures
        r.0 == cands(dict.keys(), c).len(),
        r.0 == 1 ==> (r.1 matches Some(p) && p@ == cands(dict.keys(), c)[0]),
{
    let n = dict.num_keys();
    let mut count: usize = 0;
    let mut first: Option<String> = None;
    let mut i: usize = 0;
    while i < n
        invariant
            n == dict.keys().len(),
            i <= n,
            count <= i,
            count == cands(dict.keys().take(i as int), c).len(),
            count >= 1 ==> (first matches Some(p) && p@ == cands(dict.keys().take(i as int), c)[0]),
        decreases n - i,
    {
        let ghost ks = dict.keys();
        let ghost pred = |k: (Seq<char>, Seq<char>)| cand_key(k, c);
        let ghost proj = |k: (Seq<char>, Seq<char>)| k.1;
        let form = dict.form_at(i);
        let is_c = form.as_str().unicode_len() == 1 && form.as_str().get_char(0) == c;
        let pron = dict.pron_at(i);
        let blank = is_blank_str(pron.as_str());
        let matched = is_c && !blank;
        proof {
            reveal(Seq::filter);
            assert(ks.take(i + 1).drop_last() =~= ks.take(i as int));
            assert(ks.take(i + 1).last() == ks[i as int]);
            if is_c {
                assert(form@ =~= seq![c]);
            } else {
                if ks[i as int].0 == seq![c] {
                    assert(form@.len() == 1 && form@[0] == c);
                }
            }
            assert(matched == cand_key(ks[i as int], c));
            let f0 = ks.take(i as int).filter(pred);
            let f1 = ks.take(i + 1).filter(pred);
            if matched {
                assert(f1 == f0.push(ks[i as int]));
                assert(f1.map_values(proj) =~= f0.map_values(proj).push(ks[i as int].1));
            } else {
                assert(f1 == f0);
            }
            assert(cands(ks.take(i as int), c) == f0.map_values(proj));
            assert(cands(ks.take(i + 1), c) == f1.map_values(proj));
        }
        if matched {
            if count == 0 {
                first = Some(pron.clone());
            }
            count = count + 1;
        }
        i = i + 1;
    }
    proof {
        assert(dict.keys().take(n as int) =~= dict.keys());
    }
    (count, first)
}

/// A product of two non-negative numbers is non-negative.
proof fn lemma_prod_nonneg(a: int, b: int)
    requires
        a >= 0,
        b >= 0,
    ensures
        a * b >= 0,
{
    assert(a * b >= 0) by (nonlinear_arith)
        requires
            a >= 0,
            b >= 0,
    ;
}

/// The per-pair weight terms are non-negative, so the weight bound only
/// grows as more pairs are processed.
proof fn lemma_weight_mono(
    keys: Seq<(Seq<char>, Seq<char>)>,
    vals: Seq<EntryView>,
    i: int,
    j: int,
)
    requires
        0 <= i <= j,
    ensures
        weight_prefix(keys, vals, i) <= weight_prefix(keys, vals, j),
    decreases j,
{
    if i < j {
        lemma_weight_mono(keys, vals, i, j - 1);
        if keys[j - 1].0.len() >= 2 {
            lemma_prod_nonneg(2 * keys[j - 1].0.len() as int, vals[j - 1].written_per_million as int);
        }
    }
}

/// Adding `w` to one count raises the bound by at most `w`.
proof fn lemma_bounded_bump(
    m: Map<(Seq<char>, Seq<char>), int>,
    k: (Seq<char>, Seq<char>),
    w: int,
    bnd: int,
)
    requires
        bounded(m, bnd),
        w >= 0,
        bnd >= 0,
    ensures
        bounded(bump(m, k, w), bnd + w),
{
}

/// One character attribution adds its word's frequency to at most two
/// keys.
proof fn lemma_bounded_char_step(
    m: Map<(Seq<char>, Seq<char>), int>,
    keys: Seq<(Seq<char>, Seq<char>)>,
    c: char,
    w: int,
    bnd: int,
)
    requires
        bounded(m, bnd),
        w >= 0,
        bnd >= 0,
    ensures
        bounded(char_step(m, keys, c, w), bnd + 2 * w),
{
    let ck = seq![c];
    let cs = cands(keys, c);
    if cs.len() == 1 {
        lemma_bounded_bump(m, (ck, remove_ws_spec(cs[0])), w, bnd);
        lemma_bounded_bump(
            bump(m, (ck, remove_ws_spec(cs[0])), w),
            (ck, Seq::<char>::empty()),
            w,
            bnd + w,
        );
    } else if cs.len() == 0 {
        lemma_bounded_bump(m, (ck, Seq::<char>::empty()), w, bnd);
        match char_reading(c) {
            Some(p) => {
                lemma_bounded_bump(
                    bump(m, (ck, Seq::<char>::empty()), w),
                    (ck, remove_ws_spec(p)),
                    w,
                    bnd + w,
                );
            },
            None => {
                assert(bounded(char_step(m, keys, c, w), bnd + w));
            },
        }
    } else {
        lemma_bounded_bump(m, (ck, Seq::<char>::empty()), w, bnd);
    }
}

/// Compiles the character-keyed index of aggregate counts from a
/// word-keyed index: every character occurrence inside a stored form of
/// two or more characters attributes that form's written frequency per
/// million as described by `char_step`, summed over all stored pairs.
///
/// The counts are sums over multi-character words containing the
/// character, not counts of the character's own standalone frequency.
pub fn compile_common_chars(dict: &TOCFLDictionary<Entry>) -> (r: TOCFLDictionary<u64>)
    requires
        dict.wf(),
        weight_prefix(dict.keys(), dict.values(), dict.keys().len() as int) <= u64::MAX,
    ensures
        r.wf(),
        matches64(r@, compile_spec(dict.keys(), dict.values())),
{
    let ghost keys = dict.keys();
    let ghost vals = dict.values();
    let ghost total = weight_prefix(keys, vals, keys.len() as int);
    let n = dict.num_keys();
    let mut out = TOCFLDictionary::<u64>::new();
    proof {
        assert(matches64(out@, compile_prefix(keys, vals, 0))) by {
            assert(out@.dom() =~= compile_prefix(keys, vals, 0).dom());
        }
    }
    let mut i: usize = 0;
    while i < n
        invariant
            dict.wf(),
            keys == dict.keys(),
            vals == dict.values(),
            total == weight_prefix(keys, vals, keys.len() as int),
            total <= u64::MAX,
            n == keys.len(),
            i <= n,
            out.wf(),
            matches64(out@, compile_prefix(keys, vals, i as int)),
            bounded(compile_prefix(keys, vals, i as int), weight_prefix(keys, vals, i as int)),
            weight_prefix(keys, vals, i as int) >= 0,
        decreases n - i,
    {
        let word: &String = dict.form_at(i);
        let wlen = word.as_str().unicode_len();
        if wlen >= 2 {
            let w: u64 = dict.value_at(i).written_per_million;
            let ghost m0 = compile_prefix(keys, vals, i as int);
            let ghost wp0 = weight_prefix(keys, vals, i as int);
            proof {
                lemma_weight_mono(keys, vals, i + 1, keys.len() as int);
                assert(weight_prefix(keys, vals, i + 1) == wp0 + 2 * wlen * (w as int));
                lemma_prod_nonneg(2 * wlen as int, w as int);
            }
            let mut j: usize = 0;
            while j < wlen
                invariant
                    dict.wf(),
                    keys == dict.keys(),
                    vals == dict.values(),
                    i < keys.len(),
                    word@ == keys[i as int].0,
                    wlen == word@.len(),
                    w == vals[i as int].written_per_million,
                    j <= wlen,
                    out.wf(),
                    m0 == compile_prefix(keys, vals, i as int),
                    wp0 == weight_prefix(keys, vals, i as int),
                    wp0 >= 0,
                    wp0 + 2 * wlen * (w as int) <= u64::MAX,
                    matches64(out@, word_prefix(m0, keys, word@, j as int, w as int)),
                    bounded(word_prefix(m0, keys, word@, j as int, w as int), wp0 + 2 * j * (
                    w as int)),
                decreases wlen - j,
            {
                let c = word.as_str().get_char(j);
                let ghost mj = word_prefix(m0, keys, word@, j as int, w as int);
                proof {
                    assert(2 * j * (w as int) <= 2 * wlen * (w as int)) by (nonlinear_arith)
                        requires
                            0 <= j <= wlen,
                            w >= 0,
                    ;
                    assert((2 * (j + 1)) * (w as int) <= 2 * wlen * (w as int))
                        by (nonlinear_arith)
                        requires
                            0 <= j < wlen,
                            w >= 0,
                    ;
                    lemma_bounded_char_step(mj, keys, word@[j as int], w as int, wp0 + 2 * j * (
                    w as int));
                }
                let cres = candidates_of(dict, c);
                let cks = make_char_string(c);
                let ghost bnd = wp0 + 2 * j * (w as int);
                proof {
                    assert(2 * (j + 1) * (w as int) == 2 * j * (w as int) + 2 * (w as int))
                        by (nonlinear_arith);
                }
                if cres.0 == 1 {
                    match cres.1 {
                        Some(p) => {
                            let rp = crate::normalize::remove_whitespace(p.as_str());
                            let ghost k1 = (seq![c], remove_ws_spec(cands(keys, c)[0]));
                            let ghost ma = bump(mj, k1, w as int);
                            let ghost a0 = out@;
                            out.add_count(cks, rp, w);
                            proof {
                                lemma_matches_bump(a0, mj, k1, w, bnd, out@);
                                lemma_bounded_bump(mj, k1, w as int, bnd);
                            }
                            let cks2 = make_char_string(c);
                            let ghost k2 = (seq![c], Seq::<char>::empty());
                            let ghost a1 = out@;
                            out.add_count(cks2, String::new(), w);
                            proof {
                                lemma_matches_bump(a1, ma, k2, w, bnd + w, out@);
                                assert(word_prefix(m0, keys, word@, j + 1, w as int) == bump(
                                    ma,
                                    k2,
                                    w as int,
                                ));
                            }
                        },
                        None => {
                            proof {
                                assert(false);
                            }
                        },
                    }
                } else if cres.0 == 0 {
                    let ghost k1 = (seq![c], Seq::<char>::empty());
                    let ghost ma = bump(mj, k1, w as int);
                    let ghost a0 = out@;
                    out.add_count(cks, String::new(), w);
                    proof {
                        lemma_matches_bump(a0, mj, k1, w, bnd, out@);
                        lemma_bounded_bump(mj, k1, w as int, bnd);
                    }
                    match form_default_pronunciation(c) {
                        Some(p) => {
                            let cks2 = make_char_string(c);
                            let rp = crate::normalize::remove_whitespace(p.as_str());
                            let ghost k2 = (seq![c], remove_ws_spec(char_reading(c).unwrap()));
                            let ghost a1 = out@;
                            out.add_count(cks2, rp, w);
                            proof {
                                lemma_matches_bump(a1, ma, k2, w, bnd + w, out@);
                                assert(word_prefix(m0, keys, word@, j + 1, w as int) == bump(
                                    ma,
                                    k2,
                                    w as int,
                                ));
                            }
                        },
                        None => {
                            proof {
                                assert(word_prefix(m0, keys, word@, j + 1, w as int) == ma);
                            }
                        },
                    }
                } else {
                    let ghost k1 = (seq![c], Seq::<char>::empty());
                    let ghost a0 = out@;
                    out.add_count(cks, String::new(), w);
                    proof {
                        lemma_matches_bump(a0, mj, k1, w, bnd, out@);
                        assert(word_prefix(m0, keys, word@, j + 1, w as int) == bump(
                            mj,
                            k1,
                            w as int,
                        ));
                    }
                }
                j = j + 1;
            }
            proof {
                assert(compile_prefix(keys, vals, i + 1) == word_prefix(
                    m0,
                    keys,
                    word@,
                    wlen as int,
                    w as int,
                ));
                assert(2 * (wlen as int) * (w as int) == 2 * wlen * (w as int));
            }
        } else {
            proof {
                assert(compile_prefix(keys, vals, i + 1) == compile_prefix(keys, vals, i as int));
                assert(weight_prefix(keys, vals, i + 1) == weight_prefix(keys, vals, i as int));
            }
        }
        i = i + 1;
    }
    out
}

/// A machine-count map follows its mathematical map across one `bump`:
/// the updated machine map agrees with the bumped mathematical map.
proof fn lemma_matches_bump(
    a: Map<(Seq<char>, Seq<char>), u64>,
    b: Map<(Seq<char>, Seq<char>), int>,
    k: (Seq<char>, Seq<char>),
    w: u64,
    bnd: int,
    a2: Map<(Seq<char>, Seq<char>), u64>,
)
    requires
        matches64(a, b),
        bounded(b, bnd),
        bnd >= 0,
        bnd + w <= u64::MAX,
        a2 == a.insert(
            k,
            (((if a.contains_key(k) {
                a[k] as int
            } else {
                0
            }) + w) as u64),
        ),
    ensures
        matches64(a2, bump(b, k, w as int)),
{
    let b2 = bump(b, k, w as int);
    assert(a2.dom() =~= b2.dom());
    assert forall|k2: (Seq<char>, Seq<char>)| b2.contains_key(k2) implies (#[trigger] a2[k2]) as int
        == b2[k2] by {
        if k2 != k {
            assert(b.contains_key(k2));
        }
    }
}

/// The number of occurrences of `c` among the first `j` characters of
/// `word`.
pub open spec fn occurrences(word: Seq<char>, c: char, j: int) -> int
    decreases j,
{
    if j <= 0 {
        0
    } else {
        occurrences(word, c, j - 1) + (if word[j - 1] == c {
            1int
        } else {
            0int
        })
    }
}

/// The written frequency attributable to `c` over the first `i` stored
/// pairs: the sum, over every pair whose form has two or more
/// characters, of the form's written frequency times the number of
/// occurrences of `c` in the form.
pub open spec fn char_total(
    keys: Seq<(Seq<char>, Seq<char>)>,
    vals: Seq<EntryView>,
    c: char,
    i: int,
) -> int
    decreases i,
{
    if i <= 0 {
        0
    } else {
        char_total(keys, vals, c, i - 1) + (if keys[i - 1].0.len() >= 2 {
            occurrences(keys[i - 1].0, c, keys[i - 1].0.len() as int) * (vals[i - 1].written_per_million as int)
        } else {
            0
        })
    }
}

/// The count stored under `k`, an absent key counting as zero.
pub open spec fn lookup0(m: Map<(Seq<char>, Seq<char>), int>, k: (Seq<char>, Seq<char>)) -> int {
    if m.contains_key(k) {
        m[k]
    } else {
        0
    }
}

/// Every candidate pronunciation is non-blank, so removing its
/// whitespace leaves at least one character.
proof fn lemma_cand_nonblank(keys: Seq<(Seq<char>, Seq<char>)>, c: char, i: int)
    requires
        0 <= i < cands(keys, c).len(),
    ensures
        remove_ws_spec(cands(keys, c)[i]).len() > 0,
{
    let pred = |k: (Seq<char>, Seq<char>)| cand_key(k, c);
    let f = keys.filter(pred);
    keys.lemma_filter_pred(pred, i);
    let p = cands(keys, c)[i];
    assert(p == f[i].1);
    assert(!is_blank(p));
    let j = choose|j: int| 0 <= j < p.len() && !whitespace_char(p[j]);
    let wpred = |ch: char| !whitespace_char(ch);
    p.lemma_filter_contains(wpred, j);
    assert(remove_ws_spec(p).contains(p[j]));
}

/// Attributing a different character never changes the counts of `c`'s
/// keys.
proof fn lemma_char_step_other(
    m: Map<(Seq<char>, Seq<char>), int>,
    keys: Seq<(Seq<char>, Seq<char>)>,
    c2: char,
    w: int,
    c: char,
    q: Seq<char>,
)
    requires
        c2 != c,
    ensures
        lookup0(char_step(m, keys, c2, w), (seq![c], q)) == lookup0(m, (seq![c], q)),
{
    assert(seq![c2][0] == c2);
    assert(seq![c][0] == c);
    assert(seq![c2] != seq![c]);
}

/// Attributing an occurrence of a character with exactly one candidate
/// reading adds the word's frequency once to the reading's key and once
/// to the fallback key.
proof fn lemma_char_step_self(
    m: Map<(Seq<char>, Seq<char>), int>,
    keys: Seq<(Seq<char>, Seq<char>)>,
    c: char,
    w: int,
)
    requires
        cands(keys, c).len() == 1,
    ensures
        lookup0(char_step(m, keys, c, w), (seq![c], remove_ws_spec(cands(keys, c)[0])))
            == lookup0(m, (seq![c], remove_ws_spec(cands(keys, c)[0]))) + w,
        lookup0(char_step(m, keys, c, w), (seq![c], Seq::<char>::empty())) == lookup0(
            m,
            (seq![c], Seq::<char>::empty()),
        ) + w,
{
    lemma_cand_nonblank(keys, c, 0);
    assert(remove_ws_spec(cands(keys, c)[0]) != Seq::<char>::empty());
}

/// Over the first `j` characters of a word, the counts of the keys of a
/// uniquely-readable character `c` grow by its occurrence count times
/// the word's frequency.
proof fn lemma_word_totals(
    m: Map<(Seq<char>, Seq<char>), int>,
    keys: Seq<(Seq<char>, Seq<char>)>,
    word: Seq<char>,
    j: int,
    w: int,
    c: char,
    q: Seq<char>,
)
    requires
        cands(keys, c).len() == 1,
        q == remove_ws_spec(cands(keys, c)[0]) || q == Seq::<char>::empty(),
    ensures
        lookup0(word_prefix(m, keys, word, j, w), (seq![c], q)) == lookup0(m, (seq![c], q))
            + occurrences(word, c, j) * w,
    decreases j,
{
    if j <= 0 {
        assert(occurrences(word, c, j) * w == 0) by (nonlinear_arith)
            requires
                occurrences(word, c, j) == 0,
        ;
    } else {
        lemma_word_totals(m, keys, word, j - 1, w, c, q);
        let prev = word_prefix(m, keys, word, j - 1, w);
        if word[j - 1] == c {
            lemma_char_step_self(prev, keys, c, w);
            assert((occurrences(word, c, j - 1) + 1) * w == occurrences(word, c, j - 1) * w + w)
                by (nonlinear_arith);
        } else {
            lemma_char_step_other(prev, keys, word[j - 1], w, c, q);
        }
    }
}

/// Aggregate additivity and non-negativity: when exactly one candidate
/// reading is attested for a character `c`, the compiled count under
/// (c, that reading stripped of whitespace) and the one under the
/// empty-pronunciation fallback key (c, "") both equal the sum, over
/// every stored pair whose form has two or more characters, of the
/// form's written frequency per million times the number of occurrences
/// of `c` in the form; and that sum is never negative.
pub proof fn lemma_single_reading_totals(
    keys: Seq<(Seq<char>, Seq<char>)>,
    vals: Seq<EntryView>,
    c: char,
    i: int,
)
    requires
        cands(keys, c).len() == 1,
        0 <= i <= keys.len(),
    ensures
        lookup0(compile_prefix(keys, vals, i), (seq![c], remove_ws_spec(cands(keys, c)[0])))
            == char_total(keys, vals, c, i),
        lookup0(compile_prefix(keys, vals, i), (seq![c], Seq::<char>::empty())) == char_total(
            keys,
            vals,
            c,
            i,
        ),
        char_total(keys, vals, c, i) >= 0,
    decreases i,
{
    if i > 0 {
        lemma_single_reading_totals(keys, vals, c, i - 1);
        let m = compile_prefix(keys, vals, i - 1);
        let word = keys[i - 1].0;
        let w = vals[i - 1].written_per_million as int;
        if word.len() >= 2 {
            lemma_word_totals(m, keys, word, word.len() as int, w, c, remove_ws_spec(
                cands(keys, c)[0],
            ));
            lemma_word_totals(m, keys, word, word.len() as int, w, c, Seq::<char>::empty());
            lemma_occurrences_nonneg(word, c, word.len() as int);
            lemma_prod_nonneg(occurrences(word, c, word.len() as int), w);
        }
    }
}

/// An occurrence count is never negative.
proof fn lemma_occurrences_nonneg(word: Seq<char>, c: char, j: int)
    ensures
        occurrences(word, c, j) >= 0,
    decreases j,
{
    if j > 0 {
        lemma_occurrences_nonneg(word, c, j - 1);
    }
}

} // verus!
