//! Pure helpers for preparing raw corpus rows: field splitting, digit
//! stripping, and the repair of numbered duplicate rows.
use vstd::prelude::*;

use crate::normalize::string_push;
use crate::normalize::char_is_whitespace;
use crate::normalize::whitespace_char;
use crate::records::Entry;
use crate::records::EntryView;

verus! {

/// An ASCII decimal digit.
pub open spec fn digit_char(c: char) -> bool {
    48 <= (c as u32) && (c as u32) <= 57
}

/// `s` without its leading whitespace.
pub open spec fn trim_front(s: Seq<char>) -> Seq<char>
    decreases s.len(),
{
    if s.len() > 0 && whitespace_char(s[0]) {
        trim_front(s.drop_first())
    } else {
        s
    }
}

/// `s` without its trailing whitespace.
pub open spec fn trim_back(s: Seq<char>) -> Seq<char>
    decreases s.len(),
{
    if s.len() > 0 && whitespace_char(s[s.len() - 1]) {
        trim_back(s.drop_last())
    } else {
        s
    }
}

/// `s` without leading and trailing whitespace.
pub open spec fn trim_spec(s: Seq<char>) -> Seq<char> {
    trim_back(trim_front(s))
}

/// The segments of `s` between '/' separators, in order; a string with
/// no separator is one segment, and empty segments are kept.
pub open spec fn split_slash(s: Seq<char>) -> Seq<Seq<char>>
    decreases s.len(),
{
    if s.len() == 0 {
        seq![Seq::<char>::empty()]
    } else if s[0] == '/' {
        seq![Seq::<char>::empty()] + split_slash(s.drop_first())
    } else {
        let r = split_slash(s.drop_first());
        seq![seq![s[0]] + r[0]] + r.drop_first()
    }
}

/// A split has at least one segment.
proof fn lemma_split_len(s: Seq<char>)
    ensures
        split_slash(s).len() >= 1,
    decreases s.len(),
{
    if s.len() > 0 {
        lemma_split_len(s.drop_first());
    }
}

/// Splitting at the first separator: if no separator lies before `i`,
/// the split of `s` is its first `i` characters followed by the split of
/// what comes after the separator at `i` (or just the whole string when
/// `i` reaches the end).
proof fn lemma_split_at_first(s: Seq<char>, i: int)
    requires
        0 <= i <= s.len(),
        forall|j: int| 0 <= j < i ==> s[j] != '/',
    ensures
        i == s.len() ==> split_slash(s) == seq![s],
        i < s.len() && s[i] == '/' ==> split_slash(s) == seq![s.take(i)] + split_slash(
            s.skip(i + 1),
        ),
    decreases i,
{
    if i == 0 {
        if s.len() == 0 {
            assert(seq![Seq::<char>::empty()] =~~= seq![s]);
        } else if s[0] == '/' {
            assert(s.take(0) =~= Seq::<char>::empty());
            assert(s.skip(1) =~= s.drop_first());
            assert(seq![Seq::<char>::empty()] + split_slash(s.drop_first()) =~~= seq![s.take(0)]
                + split_slash(s.skip(1)));
        }
    } else {
        let sd = s.drop_first();
        lemma_split_at_first(sd, i - 1);
        lemma_split_len(sd);
        let r = split_slash(sd);
        if i == s.len() {
            assert(r == seq![sd]);
            assert(r[0] == sd);
            assert(seq![seq![s[0]] + sd] + r.drop_first() =~~= seq![s]) by {
                assert(seq![s[0]] + sd =~= s);
                assert(r.drop_first() =~= Seq::<Seq<char>>::empty());
            }
        } else if s[i] == '/' {
            assert(sd[i - 1] == '/');
            assert(r == seq![sd.take(i - 1)] + split_slash(sd.skip(i)));
            assert(r[0] == sd.take(i - 1));
            assert(r.drop_first() =~= split_slash(sd.skip(i)));
            assert(sd.skip(i) =~= s.skip(i + 1));
            assert(seq![s[0]] + sd.take(i - 1) =~= s.take(i));
            assert(seq![seq![s[0]] + r[0]] + r.drop_first() =~~= seq![s.take(i)] + split_slash(
                s.skip(i + 1),
            ));
        }
    }
}

/// Returns `s` with leading and trailing whitespace removed.
fn trim_str(s: &str) -> (r: String)
    ensures
        r@ == trim_spec(s@),
{
    let n = s.unicode_len();
    let mut a: usize = 0;
    proof {
        assert(s@.skip(0) =~= s@);
    }
    while a < n && char_is_whitespace(s.get_char(a))
        invariant
            n == s@.len(),
            a <= n,
            trim_front(s@) == trim_front(s@.skip(a as int)),
        decreases n - a,
    {
        proof {
            assert(s@.skip(a as int).drop_first() =~= s@.skip(a + 1));
        }
        a = a + 1;
    }
    let ghost t = s@.skip(a as int);
    proof {
        assert(trim_front(s@) == t);
    }
    let mut b: usize = n;
    proof {
        assert(t.take(n - a) =~= t);
    }
    while b > a && char_is_whitespace(s.get_char(b - 1))
        invariant
            n == s@.len(),
            a <= b <= n,
            t == s@.skip(a as int),
            trim_back(t) == trim_back(t.take(b - a)),
        decreases b,
    {
        proof {
            assert(t.take(b - a)[b - a - 1] == s@[b - 1]);
            assert(t.take(b - a).drop_last() =~= t.take(b - 1 - a));
        }
        b = b - 1;
    }
    proof {
        if b == a {
            assert(t.take(0) =~= Seq::<char>::empty());
        } else {
            assert(t.take(b - a)[b - a - 1] == s@[b - 1]);
        }
        assert(trim_back(t.take(b - a)) == t.take(b - a));
        assert(s@.subrange(a as int, b as int) =~= t.take(b - a));
    }
    let piece = s.substring_char(a, b);
    String::from_str(piece)
}

/// Each segment of `ts`, trimmed.
pub open spec fn trim_all(ts: Seq<Seq<char>>) -> Seq<Seq<char>> {
    ts.map_values(|t: Seq<char>| trim_spec(t))
}

/// Splits a raw corpus field on '/' and trims each component.
pub fn get_comps(text: &str) -> (r: Vec<String>)
    ensures
        r.deep_view() == trim_all(split_slash(text@)),
{
    let n = text.unicode_len();
    let mut out: Vec<String> = Vec::new();
    let mut start: usize = 0;
    let mut i: usize = 0;
    proof {
        assert(text@.skip(0) =~= text@);
        assert(out.deep_view() =~~= Seq::<Seq<char>>::empty());
        assert(Seq::<Seq<char>>::empty() + trim_all(split_slash(text@)) =~~= trim_all(
            split_slash(text@),
        ));
    }
    while i < n
        invariant
            n == text@.len(),
            start <= i <= n,
            forall|j: int| start <= j < i ==> text@[j] != '/',
            trim_all(split_slash(text@)) == out.deep_view() + trim_all(
                split_slash(text@.skip(start as int)),
            ),
        decreases n - i,
    {
        let c = text.get_char(i);
        if c == '/' {
            let piece = text.substring_char(start, i);
            let trimmed = trim_str(piece);
            let ghost dv0 = out.deep_view();
            out.push(trimmed);
            proof {
                let rest = text@.skip(start as int);
                lemma_split_at_first(rest, i - start);
                assert(rest[i - start] == '/');
                assert(rest.take(i - start) =~= text@.subrange(start as int, i as int));
                assert(rest.skip(i - start + 1) =~= text@.skip(i + 1));
                assert(trim_all(split_slash(rest)) =~= seq![trim_spec(rest.take(i - start))]
                    + trim_all(split_slash(text@.skip(i + 1))));
                assert(out.deep_view() =~= dv0.push(trimmed@));
                assert(dv0 + (seq![trim_spec(rest.take(i - start))] + trim_all(
                    split_slash(text@.skip(i + 1)),
                )) =~= out.deep_view() + trim_all(split_slash(text@.skip(i + 1))));
            }
            start = i + 1;
        }
        i = i + 1;
    }
    let piece = text.substring_char(start, n);
    let trimmed = trim_str(piece);
    let ghost dv0 = out.deep_view();
    out.push(trimmed);
    proof {
        let rest = text@.skip(start as int);
        lemma_split_at_first(rest, n - start);
        assert(rest.take(n - start) =~= rest);
        assert(rest =~= text@.subrange(start as int, n as int));
        assert(trim_all(split_slash(rest)) =~= seq![trim_spec(rest)]);
        assert(out.deep_view() =~= dv0.push(trimmed@));
        assert(dv0 + seq![trim_spec(rest)] =~= out.deep_view());
    }
    out
}

/// The characters of `s` that are not ASCII digits, in order.
pub open spec fn strip_digits(s: Seq<char>) -> Seq<char> {
    s.filter(|c: char| !digit_char(c))
}

/// Whether `s` holds at least one ASCII digit.
pub open spec fn has_digit(s: Seq<char>) -> bool {
    exists|i: int| 0 <= i < s.len() && digit_char(s[i])
}

/// The ASCII digits of `s`, in order.
pub open spec fn digits_of(s: Seq<char>) -> Seq<char> {
    s.filter(|c: char| digit_char(c))
}

/// The number denoted by a sequence of ASCII digits, most significant
/// first.
pub open spec fn digits_val(s: Seq<char>) -> int
    decreases s.len(),
{
    if s.len() == 0 {
        0
    } else {
        digits_val(s.drop_last()) * 10 + ((s.last() as u32) - 48)
    }
}

/// A digit string denotes a non-negative number.
proof fn lemma_digits_val_nonneg(s: Seq<char>)
    requires
        forall|i: int| 0 <= i < s.len() ==> digit_char(#[trigger] s[i]),
    ensures
        digits_val(s) >= 0,
    decreases s.len(),
{
    if s.len() > 0 {
        lemma_digits_val_nonneg(s.drop_last());
        assert(digits_val(s.drop_last()) * 10 >= 0) by (nonlinear_arith)
            requires
                digits_val(s.drop_last()) >= 0,
        ;
    }
}

/// Extending a digit string never lowers its value.
proof fn lemma_digits_val_prefix(s: Seq<char>, j: int)
    requires
        forall|i: int| 0 <= i < s.len() ==> digit_char(#[trigger] s[i]),
        0 <= j <= s.len(),
    ensures
        digits_val(s.take(j)) <= digits_val(s),
    decreases s.len() - j,
{
    if j == s.len() {
        assert(s.take(j) =~= s);
    } else {
        lemma_digits_val_prefix(s, j + 1);
        let t = s.take(j + 1);
        assert(t.drop_last() =~= s.take(j));
        assert(forall|i: int| 0 <= i < s.take(j).len() ==> digit_char(#[trigger] s.take(j)[i]));
        lemma_digits_val_nonneg(s.take(j));
        let v = digits_val(s.take(j));
        let d = (t.last() as u32) - 48;
        assert(v <= v * 10 + d) by (nonlinear_arith)
            requires
                v >= 0,
                d >= 0,
        ;
    }
}

/// Returns `string` with every ASCII digit removed, and whether any
/// digit was present.
pub fn remove_digits(string: &str) -> (r: (String, bool))
    ensures
        r.0@ == strip_digits(string@),
        r.1 == has_digit(string@),
{
    let n = string.unicode_len();
    let mut out = String::new();
    let mut found = false;
    let mut i: usize = 0;
    while i < n
        invariant
            n == string@.len(),
            i <= n,
            out@ == strip_digits(string@.take(i as int)),
            found == has_digit(string@.take(i as int)),
        decreases n - i,
    {
        let c = string.get_char(i);
        proof {
            reveal(Seq::filter);
            assert(string@.take(i + 1).drop_last() =~= string@.take(i as int));
            assert(string@.take(i + 1).last() == string@[i as int]);
        }
        let u = c as u32;
        if 48 <= u && u <= 57 {
            found = true;
            proof {
                assert(string@.take(i + 1)[i as int] == c);
            }
        } else {
            string_push(&mut out, c);
            proof {
                if has_digit(string@.take(i + 1)) {
                    let w = choose|w: int|
                        0 <= w < string@.take(i + 1).len() && digit_char(
                            #[trigger] string@.take(i + 1)[w],
                        );
                    assert(string@.take(i as int)[w] == string@.take(i + 1)[w] || w == i);
                }
            }
        }
        i = i + 1;
    }
    proof {
        assert(string@.take(n as int) =~= string@);
    }
    (out, found)
}

/// Keeps only the ASCII digits of `input` and reads them as a decimal
/// number: the result when at least one digit is present and the number
/// fits a u64, and nothing otherwise.
pub fn remove_non_digits(input: &str) -> (r: Option<u64>)
    ensures
        (r is Some) == (digits_of(input@).len() > 0 && digits_val(digits_of(input@))
            <= u64::MAX),
        r matches Some(v) ==> v == digits_val(digits_of(input@)),
{
    let n = input.unicode_len();
    let mut digits = String::new();
    let mut i: usize = 0;
    while i < n
        invariant
            n == input@.len(),
            i <= n,
            digits@ == digits_of(input@.take(i as int)),
        decreases n - i,
    {
        let c = input.get_char(i);
        proof {
            reveal(Seq::filter);
            assert(input@.take(i + 1).drop_last() =~= input@.take(i as int));
            assert(input@.take(i + 1).last() == input@[i as int]);
        }
        let u = c as u32;
        if 48 <= u && u <= 57 {
            string_push(&mut digits, c);
        }
        i = i + 1;
    }
    proof {
        assert(input@.take(n as int) =~= input@);
        assert forall|w: int| 0 <= w < digits@.len() implies digit_char(#[trigger] digits@[w]) by {
            let pred = |ch: char| digit_char(ch);
            input@.lemma_filter_pred(pred, w);
        }
    }
    let ghost ds = digits@;
    let m = digits.as_str().unicode_len();
    if m == 0 {
        return None;
    }
    let mut val: u64 = 0;
    let mut j: usize = 0;
    while j < m
        invariant
            m == ds.len(),
            ds == digits@,
            digits@ == digits_of(input@),
            forall|w: int| 0 <= w < ds.len() ==> digit_char(#[trigger] ds[w]),
            j <= m,
            val == digits_val(ds.take(j as int)),
        decreases m - j,
    {
        let c = digits.as_str().get_char(j);
        let u = c as u32;
        proof {
            assert(digit_char(ds[j as int]));
        }
        let d: u64 = (u - 48) as u64;
        if val > (u64::MAX - d) / 10 {
            proof {
                let t = ds.take(j + 1);
                assert(t.drop_last() =~= ds.take(j as int));
                assert(t.last() == ds[j as int]);
                lemma_digits_val_nonneg(ds.take(j as int));
                assert(val * 10 + d > u64::MAX) by (nonlinear_arith)
                    requires
                        val > (u64::MAX - d) / 10,
                        0 <= d <= 9,
                        val >= 0,
                ;
                lemma_digits_val_prefix(ds, j + 1);
            }
            return None;
        }
        proof {
            let t = ds.take(j + 1);
            assert(t.drop_last() =~= ds.take(j as int));
            assert(t.last() == ds[j as int]);
            assert(val * 10 + d <= u64::MAX) by (nonlinear_arith)
                requires
                    val <= (u64::MAX - d) / 10,
                    0 <= d <= 9,
                    val >= 0,
            ;
        }
        val = val * 10 + d;
        j = j + 1;
    }
    proof {
        assert(ds.take(m as int) =~= ds);
    }
    Some(val)
}

/// What the repair of one raw row yields: a row whose form carries a
/// disambiguating digit has the digit stripped and both frequency
/// fields replaced by the average for its proficiency level; any other
/// row is kept as it is.
pub open spec fn fix_row(e: EntryView, averages: Seq<u64>) -> EntryView {
    if has_digit(e.text) {
        EntryView {
            id: e.id,
            text: strip_digits(e.text),
            text_alt: e.text_alt,
            category: e.category,
            tocfl_level: e.tocfl_level,
            situation: e.situation,
            written_per_million: averages[e.tocfl_level as int],
            spoken_per_million: averages[e.tocfl_level as int],
            components: e.components,
            zhuyin: e.zhuyin,
            zhuyin_alt: e.zhuyin_alt,
            pinyin: e.pinyin,
            pinyin_alt: e.pinyin_alt,
        }
    } else {
        e
    }
}

/// Repairs rows whose form carries a disambiguating digit: strips the
/// digit from the form and replaces both frequency counts by the
/// average for the row's proficiency level.
pub fn normalize(rows: &mut Vec<Entry>, averages: &[u64])
    requires
        forall|i: int|
            0 <= i < old(rows)@.len() ==> (#[trigger] old(rows)@[i].tocfl_level) < averages@.len(),
    ensures
        final(rows)@.len() == old(rows)@.len(),
        forall|i: int|
            0 <= i < old(rows)@.len() ==> (#[trigger] final(rows)@[i]@) == fix_row(
                old(rows)@[i]@,
                averages@,
            ),
{
    let n = rows.len();
    let mut i: usize = 0;
    while i < n
        invariant
            n == rows@.len(),
            n == old(rows)@.len(),
            i <= n,
            forall|j: int| i <= j < n ==> (#[trigger] rows@[j]) == old(rows)@[j],
            forall|j: int|
                0 <= j < i ==> (#[trigger] rows@[j]@) == fix_row(old(rows)@[j]@, averages@),
            forall|j: int|
                0 <= j < old(rows)@.len() ==> (#[trigger] old(rows)@[j].tocfl_level)
                    < averages@.len(),
        decreases n - i,
    {
        let sr = remove_digits(rows[i].text.as_str());
        if sr.1 {
            let lvl = rows[i].tocfl_level;
            let freq = averages[lvl as usize];
            let e = &rows[i];
            let fixed = Entry {
                id: e.id,
                text: sr.0,
                text_alt: super::records::clone_strings(&e.text_alt),
                category: e.category.clone(),
                tocfl_level: e.tocfl_level,
                situation: e.situation.clone(),
                written_per_million: freq,
                spoken_per_million: freq,
                components: e.components.clone(),
                zhuyin: e.zhuyin.clone(),
                zhuyin_alt: super::records::clone_strings(&e.zhuyin_alt),
                pinyin: e.pinyin.clone(),
                pinyin_alt: super::records::clone_strings(&e.pinyin_alt),
            };
            proof {
                assert(fixed@ =~= fix_row(old(rows)@[i as int]@, averages@));
            }
            rows[i] = fixed;
        }
        i = i + 1;
    }
}

/// The written-frequency total of the level-`l` rows among the first
/// `i` rows; only the levels 1 through 7 are tallied.
pub open spec fn level_sum(rows: Seq<Entry>, l: int, i: int) -> int
    decreases i,
{
    if i <= 0 {
        0
    } else {
        level_sum(rows, l, i - 1) + (if rows[i - 1].tocfl_level as int == l && 1 <= l <= 7 {
            rows[i - 1].written_per_million as int
        } else {
            0
        })
    }
}

/// The number of level-`l` rows among the first `i` rows; only the
/// levels 1 through 7 are tallied.
pub open spec fn level_count(rows: Seq<Entry>, l: int, i: int) -> int
    decreases i,
{
    if i <= 0 {
        0
    } else {
        level_count(rows, l, i - 1) + (if rows[i - 1].tocfl_level as int == l && 1 <= l <= 7 {
            1int
        } else {
            0int
        })
    }
}

/// Level totals only grow as more rows are tallied.
proof fn lemma_level_sum_mono(rows: Seq<Entry>, l: int, i: int, j: int)
    requires
        0 <= i <= j,
    ensures
        level_sum(rows, l, i) <= level_sum(rows, l, j),
    decreases j,
{
    if i < j {
        lemma_level_sum_mono(rows, l, i, j - 1);
    }
}

/// Tallies, for each proficiency level 0 through 7, the total written
/// frequency and the number of rows of that level; rows outside the
/// level domain 1-7 are ignored.
pub fn written_sums_by_level(rows: &[Entry]) -> (r: (Vec<u64>, Vec<u64>))
    requires
        forall|l: int| 0 <= l < 8 ==> level_sum(rows@, l, rows@.len() as int) <= u64::MAX,
    ensures
        r.0@.len() == 8,
        r.1@.len() == 8,
        forall|l: int| 0 <= l < 8 ==> (#[trigger] r.0@[l]) as int == level_sum(
            rows@,
            l,
            rows@.len() as int,
        ),
        forall|l: int| 0 <= l < 8 ==> (#[trigger] r.1@[l]) as int == level_count(
            rows@,
            l,
            rows@.len() as int,
        ),
{
    let n = rows.len();
    let mut sums: Vec<u64> = vec![0u64; 8];
    let mut counts: Vec<u64> = vec![0u64; 8];
    let mut i: usize = 0;
    while i < n
        invariant
            n == rows@.len(),
            i <= n,
            sums@.len() == 8,
            counts@.len() == 8,
            forall|l: int| 0 <= l < 8 ==> level_sum(rows@, l, n as int) <= u64::MAX,
            forall|l: int| 0 <= l < 8 ==> (#[trigger] sums@[l]) as int == level_sum(
                rows@,
                l,
                i as int,
            ),
            forall|l: int| 0 <= l < 8 ==> (#[trigger] counts@[l]) as int == level_count(
                rows@,
                l,
                i as int,
            ),
            forall|l: int| 0 <= l < 8 ==> (#[trigger] counts@[l]) as int <= i,
        decreases n - i,
    {
        let row = &rows[i];
        let level = row.tocfl_level;
        if level >= 1 && level <= 7 {
            let l = level as usize;
            proof {
                lemma_level_sum_mono(rows@, l as int, i + 1, n as int);
            }
            let cur = sums[l];
            sums[l] = cur + row.written_per_million;
            let cur_c = counts[l];
            counts[l] = cur_c + 1;
        }
        i = i + 1;
    }
    (sums, counts)
}

} // verus!
