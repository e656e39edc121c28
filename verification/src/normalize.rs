//! Canonicalization of romanized pronunciation strings.
use vstd::prelude::*;

use prettify_pinyin::prettify;

verus! {

/// Whether a character counts as whitespace; the meaning of
/// `char::is_whitespace`.
pub uninterp spec fn whitespace_char(c: char) -> bool;

/// The characters of `s` that are not whitespace, in order.
pub open spec fn remove_ws_spec(s: Seq<char>) -> Seq<char> {
    s.filter(|c: char| !whitespace_char(c))
}

/// Relies on char::is_whitespace: whether the character has the Unicode
/// White_Space property, a fact of the character alone.
#[verifier::external_body]
pub(crate) fn char_is_whitespace(c: char) -> (r: bool)
    ensures
        r == whitespace_char(c),
{
    c.is_whitespace()
}

/// Relies on String::push: appends the given character to the end of
/// the string.
#[verifier::external_body]
pub(crate) fn string_push(s: &mut String, c: char)
    ensures
        final(s)@ == old(s)@.push(c),
{
    s.push(c)
}

/// Returns `s` with every whitespace character removed.
pub fn remove_whitespace(s: &str) -> (r: String)
    ensures
        r@ == remove_ws_spec(s@),
{
    let n: usize = s.unicode_len();
    let mut out: String = String::new();
    let mut i: usize = 0;
    while i < n
        invariant
            n == s@.len(),
            i <= n,
            out@ == remove_ws_spec(s@.take(i as int)),
        decreases n - i,
    {
        let c = s.get_char(i);
        proof {
            reveal(Seq::filter);
            assert(s@.take(i + 1).drop_last() =~= s@.take(i as int));
            assert(s@.take(i + 1).last() == s@[i as int]);
        }
        if !char_is_whitespace(c) {
            string_push(&mut out, c);
        }
        i = i + 1;
    }
    proof {
        assert(s@.take(n as int) =~= s@);
    }
    out
}

/// What prettify_pinyin::prettify returns for a given string; the result
/// depends on the characters alone.
pub uninterp spec fn prettified(s: Seq<char>) -> Seq<char>;

/// An ASCII digit that prettify_pinyin reads as a tone number at the end
/// of a syllable.
pub open spec fn tone_digit(c: char) -> bool {
    c == '0' || c == '1' || c == '2' || c == '3' || c == '4' || c == '5'
}

/// A pronunciation string that tone-mark conversion leaves unchanged:
/// no syllable separator, none of the rewritten letters 'v'/'V', no
/// "u:"/"U:" digraph, and no trailing tone digit.
pub open spec fn fixed_pinyin(s: Seq<char>) -> bool {
    &&& forall|i: int| 0 <= i < s.len() ==> s[i] != ' ' && s[i] != 'v' && s[i] != 'V'
    &&& forall|i: int|
        0 <= i < s.len() - 1 ==> !((#[trigger] s[i] == 'u' || s[i] == 'U') && s[i + 1] == ':')
    &&& s.len() > 0 ==> !tone_digit(s[s.len() - 1])
}

/// Relies on prettify_pinyin::prettify: rewrites each space-separated
/// syllable that ends in a tone digit into tone-marked form, after
/// replacing 'v'/'V' and "u:"/"U:" by the umlaut letters; a string in
/// which none of those rewrites can fire is returned unchanged.
#[verifier::external_body]
fn prettify_pinyin_str(s: &str) -> (r: String)
    ensures
        r@ == prettified(s@),
        fixed_pinyin(s@) ==> r@ == s@,
        fixed_pinyin(remove_ws_spec(r@)) ==> prettified(remove_ws_spec(r@)) == remove_ws_spec(
            r@,
        ),
{
    prettify(s)
}

/// The canonical, comparable form of a romanized pronunciation: the
/// tone-mark rewrite of the whole string, with all whitespace removed.
pub open spec fn normalize_spec(s: Seq<char>) -> Seq<char> {
    remove_ws_spec(prettified(s))
}

/// Canonicalizes a pronunciation string: converts numeral-tone notation
/// to diacritics and removes all whitespace.
///
/// Normalization is idempotent on every result that the tone-mark
/// rewrite leaves alone (in particular on diacritic-form output without
/// a trailing tone digit): normalizing such a result returns it
/// unchanged.
pub fn normalize_pinyin(pinyin: &str) -> (r: String)
    ensures
        r@ == normalize_spec(pinyin@),
        fixed_pinyin(r@) ==> normalize_spec(r@) == r@,
{
    let pretty = prettify_pinyin_str(pinyin);
    let r = remove_whitespace(pretty.as_str());
    proof {
        lemma_remove_ws_idempotent(prettified(pinyin@));
    }
    r
}

/// Removing whitespace is idempotent: a string that has already been
/// stripped of whitespace is left unchanged.
pub proof fn lemma_remove_ws_idempotent(s: Seq<char>)
    ensures
        remove_ws_spec(remove_ws_spec(s)) == remove_ws_spec(s),
    decreases s.len(),
{
    reveal(Seq::filter);
    if s.len() == 0 {
        assert(remove_ws_spec(s) =~= Seq::<char>::empty());
    } else {
        lemma_remove_ws_idempotent(s.drop_last());
        let pred = |c: char| !whitespace_char(c);
        if pred(s.last()) {
            let t = s.drop_last().filter(pred).push(s.last());
            assert(t.drop_last() =~= s.drop_last().filter(pred));
            assert(t.last() == s.last());
        }
    }
}

} // verus!
