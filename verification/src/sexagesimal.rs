//! The shape test that decides how a coordinate string is read.

use vstd::prelude::*;

use crate::text::{
    blank, ends_with_word_start, is_blank, is_white_space, lemma_trimmed_empty_iff_blank,
    lemma_trimmed_keeps_words, lemma_two_words_iff_split, trimmed, white_space, word_count,
};

verus! {

/// A coordinate is read as sexagesimal when, once trimmed, it holds a `:` or
/// more than one white-space separated field; otherwise it is a plain decimal.
pub open spec fn spec_looks_sexagesimal(raw: Seq<char>) -> bool {
    trimmed(raw).contains(':') || word_count(trimmed(raw)) > 1
}

/// A text is read as sexagesimal exactly when it holds a `:` or two
/// characters that are not white space with white space between them (two
/// or more words, as in `12 30`); trimming changes neither.
pub proof fn lemma_sexagesimal_iff_colon_or_two_words(raw: Seq<char>)
    ensures
        spec_looks_sexagesimal(raw) <==> (trimmed(raw).contains(':') || word_count(trimmed(raw))
            >= 2),
        spec_looks_sexagesimal(raw) <==> (raw.contains(':') || exists|i: int, k: int, j: int|
            #![trigger raw[i], raw[k], raw[j]]
            0 <= i < k < j < raw.len() && !is_white_space(raw[i]) && is_white_space(raw[k])
                && !is_white_space(raw[j])),
{
    lemma_trimmed_keeps_words(raw, ':');
    lemma_two_words_iff_split(raw);
}

/// Whether `raw` is written in sexagesimal form (`D:M:S` or `D M S`) rather
/// than as a single decimal number.
pub fn looks_sexagesimal(raw: &str) -> (sexagesimal: bool)
    ensures
        sexagesimal == spec_looks_sexagesimal(raw@),
        sexagesimal == (trimmed(raw@).contains(':') || word_count(trimmed(raw@)) >= 2),
        sexagesimal == (raw@.contains(':') || exists|i: int, k: int, j: int|
            #![trigger raw@[i], raw@[k], raw@[j]]
            0 <= i < k < j < raw@.len() && !is_white_space(raw@[i]) && is_white_space(raw@[k])
                && !is_white_space(raw@[j])),
{
    proof {
        lemma_trimmed_keeps_words(raw@, ':');
        lemma_sexagesimal_iff_colon_or_two_words(raw@);
    }
    let n = raw.unicode_len();
    let mut i: usize = 0;
    let mut words: usize = 0;
    let mut colon = false;
    while i < n
        invariant
            n == raw@.len(),
            i <= n,
            words == word_count(raw@.subrange(0, i as int)),
            words <= i,
            colon == raw@.subrange(0, i as int).contains(':'),
        decreases n - i,
    {
        let ghost prefix = raw@.subrange(0, i + 1);
        assert(prefix.drop_last() =~= raw@.subrange(0, i as int));
        let c = raw.get_char(i);
        let space = white_space(c);
        let starts = !space && (i == 0 || white_space(raw.get_char(i - 1)));
        assert(starts == ends_with_word_start(prefix));
        if starts {
            words = words + 1;
        }
        if c == ':' {
            colon = true;
            assert(prefix[i as int] == ':');
        } else if colon {
            let ghost k = choose|k: int| 0 <= k < i && raw@.subrange(0, i as int)[k] == ':';
            assert(prefix[k] == ':');
        } else {
            assert forall|k: int| 0 <= k < prefix.len() implies prefix[k] != ':' by {
                if k < i {
                    assert(prefix[k] == raw@.subrange(0, i as int)[k]);
                }
            }
        }
        i = i + 1;
    }
    assert(raw@.subrange(0, n as int) =~= raw@);
    colon || words > 1
}

/// Characters that separate sexagesimal fields: white space and `:`.
pub open spec fn is_field_separator(c: char) -> bool {
    is_white_space(c) || c == ':'
}

/// The fields of a sexagesimal text: its maximal runs of characters that are
/// neither white space nor `:` (what splitting on white space gives once
/// every `:` is read as a space).
pub open spec fn fields(s: Seq<char>) -> Seq<Seq<char>>
    decreases s.len(),
{
    if s.len() == 0 {
        Seq::empty()
    } else {
        let earlier = fields(s.drop_last());
        if is_field_separator(s.last()) {
            earlier
        } else if s.len() == 1 || is_field_separator(s[s.len() - 2]) {
            earlier.push(seq![s.last()])
        } else {
            earlier.update(earlier.len() - 1, earlier.last().push(s.last()))
        }
    }
}

/// The texts held by a list of strings.
pub open spec fn texts(strings: Seq<String>) -> Seq<Seq<char>> {
    strings.map_values(|s: String| s@)
}

/// How a sexagesimal coordinate text splits into fields.
#[derive(Debug, Clone, PartialEq)]
pub enum SexagesimalSplit {
    /// The text is empty or white space only.
    Empty,
    /// The text's fields, leading field first.
    Fields {
        /// Whether the leading field starts with `-` (the sign of the whole
        /// value; minutes and seconds are unsigned).
        negative: bool,
        /// The fields in order; empty when the text holds only separators.
        fields: Vec<String>,
    },
}

/// Whether `fields` is led by a field that starts with a minus sign.
pub open spec fn leading_minus(fields: Seq<Seq<char>>) -> bool {
    fields.len() > 0 && fields[0].len() > 0 && fields[0][0] == '-'
}

/// Every field is non-empty, and a text that ends inside a field has one.
proof fn lemma_fields_nonempty(s: Seq<char>)
    ensures
        forall|k: int| 0 <= k < fields(s).len() ==> #[trigger] fields(s)[k].len() > 0,
        s.len() > 0 && !is_field_separator(s.last()) ==> fields(s).len() > 0,
    decreases s.len(),
{
    if s.len() > 0 {
        let t = s.drop_last();
        lemma_fields_nonempty(t);
        let earlier = fields(t);
        if !is_field_separator(s.last()) && !(s.len() == 1 || is_field_separator(s[s.len() - 2])) {
            assert(t.last() == s[s.len() - 2]);
            assert(earlier.len() > 0);
            let now = earlier.update(earlier.len() - 1, earlier.last().push(s.last()));
            assert forall|k: int| 0 <= k < now.len() implies #[trigger] now[k].len() > 0 by {
                if k < earlier.len() - 1 {
                    assert(now[k] == earlier[k]);
                }
            }
        } else if !is_field_separator(s.last()) {
            let now = earlier.push(seq![s.last()]);
            assert forall|k: int| 0 <= k < now.len() implies #[trigger] now[k].len() > 0 by {
                if k < earlier.len() {
                    assert(now[k] == earlier[k]);
                }
            }
        }
    }
}

/// A text has a field exactly when it holds a character that is not a
/// separator.
proof fn lemma_some_field_iff_non_separator(s: Seq<char>)
    ensures
        fields(s).len() > 0 <==> exists|p: int| 0 <= p < s.len() && !is_field_separator(#[trigger] s[p]),
    decreases s.len(),
{
    if s.len() > 0 {
        let t = s.drop_last();
        lemma_some_field_iff_non_separator(t);
        lemma_fields_nonempty(s);
        if exists|p: int| 0 <= p < s.len() && !is_field_separator(#[trigger] s[p]) {
            let p = choose|p: int| 0 <= p < s.len() && !is_field_separator(#[trigger] s[p]);
            if p < s.len() - 1 {
                assert(t[p] == s[p]);
            }
        }
        if fields(t).len() > 0 {
            let p = choose|p: int| 0 <= p < t.len() && !is_field_separator(#[trigger] t[p]);
            assert(s[p] == t[p]);
        }
    }
}

/// Whether `p` is the position of the first character of `s` that is not a
/// separator.
pub open spec fn first_non_separator(s: Seq<char>, p: int) -> bool {
    &&& 0 <= p < s.len()
    &&& !is_field_separator(s[p])
    &&& forall|q: int| 0 <= q < p ==> is_field_separator(#[trigger] s[q])
}

/// The first field of a text begins with its first character that is not a
/// separator.
proof fn lemma_first_field_lead(s: Seq<char>, p: int)
    requires
        first_non_separator(s, p),
    ensures
        fields(s).len() > 0,
        fields(s)[0].len() > 0,
        fields(s)[0][0] == s[p],
    decreases s.len(),
{
    let t = s.drop_last();
    let l = s.len() - 1;
    lemma_fields_nonempty(t);
    lemma_some_field_iff_non_separator(t);
    if p < l {
        assert(t[p] == s[p]);
        assert forall|q: int| 0 <= q < p implies is_field_separator(#[trigger] t[q]) by {
            assert(t[q] == s[q]);
        }
        lemma_first_field_lead(t, p);
        let earlier = fields(t);
        assert(earlier[0].len() > 0);
        assert(fields(s)[0][0] == earlier[0][0]);
    } else {
        assert forall|q: int| 0 <= q < t.len() implies is_field_separator(#[trigger] t[q]) by {
            assert(t[q] == s[q]);
        }
        assert(fields(t).len() == 0);
        if l > 0 {
            assert(s[l - 1] == t[l - 1]);
        }
        assert(fields(s) == fields(t).push(seq![s.last()]));
        assert(fields(s)[0] == seq![s.last()]);
    }
}

/// A text that holds a character that is not a separator has a first such
/// character.
proof fn lemma_first_non_separator_exists(s: Seq<char>, p: int)
    requires
        0 <= p < s.len(),
        !is_field_separator(s[p]),
    ensures
        exists|f: int| first_non_separator(s, f),
    decreases p,
{
    if exists|q: int| 0 <= q < p && !is_field_separator(#[trigger] s[q]) {
        let q = choose|q: int| 0 <= q < p && !is_field_separator(#[trigger] s[q]);
        lemma_first_non_separator_exists(s, q);
    } else {
        assert(first_non_separator(s, p));
    }
}

/// The sign of a sexagesimal text is that of its first character that is
/// neither white space nor `:`: the first field starts with `-` exactly when that
/// character is `-`, whatever digits follow it (`-00 30 00` is negative).
pub proof fn lemma_leading_minus_is_first_character(raw: Seq<char>)
    ensures
        leading_minus(fields(raw)) <==> (fields(raw).len() > 0 && fields(raw)[0].len() > 0
            && fields(raw)[0][0] == '-'),
        leading_minus(fields(raw)) <==> exists|p: int|
            0 <= p < raw.len() && raw[p] == '-' && forall|q: int|
                0 <= q < p ==> (is_white_space(#[trigger] raw[q]) || raw[q] == ':'),
{
    lemma_some_field_iff_non_separator(raw);
    if fields(raw).len() > 0 {
        let p0 = choose|p: int| 0 <= p < raw.len() && !(is_white_space(#[trigger] raw[p]) || raw[p] == ':');
        lemma_first_non_separator_exists(raw, p0);
        let f = choose|f: int| first_non_separator(raw, f);
        lemma_first_field_lead(raw, f);
        if exists|p: int|
            0 <= p < raw.len() && raw[p] == '-' && forall|q: int|
                0 <= q < p ==> (is_white_space(#[trigger] raw[q]) || raw[q] == ':') {
            let p = choose|p: int|
                0 <= p < raw.len() && raw[p] == '-' && forall|q: int|
                    0 <= q < p ==> (is_white_space(#[trigger] raw[q]) || raw[q] == ':');
            if p < f {
                assert(is_field_separator(raw[p]));
            } else if f < p {
                assert(is_field_separator(raw[f]));
            }
        }
    } else {
        if exists|p: int|
            0 <= p < raw.len() && raw[p] == '-' && forall|q: int|
                0 <= q < p ==> (is_white_space(#[trigger] raw[q]) || raw[q] == ':') {
            let p = choose|p: int|
                0 <= p < raw.len() && raw[p] == '-' && forall|q: int|
                    0 <= q < p ==> (is_white_space(#[trigger] raw[q]) || raw[q] == ':');
            assert(!is_field_separator(raw[p]));
        }
    }
}

/// `run` stands in `s` from position `start` as a maximal run of
/// characters that are neither white space nor `:`: it is non-empty, holds
/// no such character, and has one, or an end of the text, on either side.
pub open spec fn is_maximal_run_at(s: Seq<char>, start: int, run: Seq<char>) -> bool {
    &&& run.len() > 0
    &&& 0 <= start && start + run.len() <= s.len()
    &&& s.subrange(start, start + run.len()) == run
    &&& forall|m: int| 0 <= m < run.len() ==> !(is_white_space(#[trigger] run[m]) || run[m] == ':')
    &&& start == 0 || (is_white_space(s[start - 1]) || s[start - 1] == ':')
    &&& start + run.len() == s.len() || (is_white_space(s[start + run.len()]) || s[start
        + run.len()] == ':')
}

/// `runs` are the maximal runs of `s` that hold neither white space nor
/// `:`, in the order they stand, and `starts` gives where each begins.
pub open spec fn are_runs_at(s: Seq<char>, starts: Seq<int>, runs: Seq<Seq<char>>) -> bool {
    &&& starts.len() == runs.len()
    &&& forall|k: int| 0 <= k < runs.len() ==> is_maximal_run_at(s, #[trigger] starts[k], runs[k])
    &&& forall|a: int, b: int|
        #![trigger starts[a], starts[b]]
        0 <= a < b < runs.len() ==> starts[a] + runs[a].len() < starts[b]
    &&& forall|p: int|
        0 <= p < s.len() && !(is_white_space(#[trigger] s[p]) || s[p] == ':') ==> exists|k: int|
            0 <= k < runs.len() && #[trigger] starts[k] <= p < starts[k] + runs[k].len()
}

/// Where the fields of `s` begin.
proof fn lemma_field_starts(s: Seq<char>) -> (starts: Seq<int>)
    ensures
        are_runs_at(s, starts, fields(s)),
    decreases s.len(),
{
    if s.len() == 0 {
        Seq::empty()
    } else {
        let t = s.drop_last();
        let l = t.len() as int;
        let c = s.last();
        let st = lemma_field_starts(t);
        let ft = fields(t);
        let fs = fields(s);
        assert forall|k: int| 0 <= k < ft.len() implies s.subrange(st[k], st[k] + ft[k].len())
            == ft[k] by {
            assert(is_maximal_run_at(t, st[k], ft[k]));
            assert(s.subrange(st[k], st[k] + ft[k].len()) =~= t.subrange(st[k], st[k] + ft[k].len()));
        }
        assert forall|k: int| 0 <= k < ft.len() && st[k] > 0 implies is_field_separator(
            s[st[k] - 1],
        ) by {
            assert(is_maximal_run_at(t, st[k], ft[k]));
            assert(s[st[k] - 1] == t[st[k] - 1]);
        }
        if is_field_separator(c) {
            assert(fs == ft);
            assert forall|k: int| 0 <= k < fs.len() implies is_maximal_run_at(s, #[trigger] st[k], fs[k]) by {
                assert(is_maximal_run_at(t, st[k], ft[k]));
                if st[k] + ft[k].len() < l {
                    assert(s[st[k] + ft[k].len()] == t[st[k] + ft[k].len()]);
                }
            }
            assert forall|p: int| 0 <= p < s.len() && !is_field_separator(#[trigger] s[p]) implies exists|k: int|
                0 <= k < fs.len() && #[trigger] st[k] <= p < st[k] + fs[k].len() by {
                assert(p < l);
                assert(t[p] == s[p]);
            }
            st
        } else if l == 0 || is_field_separator(s[l - 1]) {
            let run = seq![c];
            assert(fs == ft.push(run));
            let starts = st.push(l);
            assert forall|k: int| 0 <= k < ft.len() implies st[k] + ft[k].len() < l by {
                assert(is_maximal_run_at(t, st[k], ft[k]));
                if st[k] + ft[k].len() == l {
                    let m = l - 1 - st[k];
                    assert(t.subrange(st[k], st[k] + ft[k].len())[m] == t[l - 1]);
                    assert(t[l - 1] == s[l - 1]);
                    assert(!is_field_separator(ft[k][m]));
                }
            }
            assert forall|k: int| 0 <= k < fs.len() implies is_maximal_run_at(s, #[trigger] starts[k], fs[k]) by {
                if k < ft.len() {
                    assert(starts[k] == st[k] && fs[k] == ft[k]);
                    assert(is_maximal_run_at(t, st[k], ft[k]));
                    assert(s[st[k] + ft[k].len()] == t[st[k] + ft[k].len()]);
                } else {
                    assert(starts[k] == l && fs[k] == run);
                    assert(s.subrange(l, l + 1) =~= run);
                }
            }
            assert forall|a: int, b: int|
                #![trigger starts[a], starts[b]]
                0 <= a < b < fs.len() implies starts[a] + fs[a].len() < starts[b] by {
                assert(starts[a] == st[a] && fs[a] == ft[a]);
                if b < ft.len() {
                    assert(starts[b] == st[b]);
                }
            }
            assert forall|p: int| 0 <= p < s.len() && !is_field_separator(#[trigger] s[p]) implies exists|k: int|
                0 <= k < fs.len() && #[trigger] starts[k] <= p < starts[k] + fs[k].len() by {
                if p == l {
                    assert(starts[ft.len() as int] <= p < starts[ft.len() as int] + fs[ft.len() as int].len());
                } else {
                    assert(t[p] == s[p]);
                    let k = choose|k: int| 0 <= k < ft.len() && #[trigger] st[k] <= p < st[k] + ft[k].len();
                    assert(starts[k] == st[k] && fs[k] == ft[k]);
                }
            }
            starts
        } else {
            assert(t[l - 1] == s[l - 1]);
            let k0 = choose|k: int| 0 <= k < ft.len() && #[trigger] st[k] <= l - 1 < st[k] + ft[k].len();
            let last = ft.len() - 1;
            assert(is_maximal_run_at(t, st[k0], ft[k0]));
            assert(st[k0] + ft[k0].len() == l);
            if k0 < last {
                assert(st[k0] + ft[k0].len() < st[last]);
                assert(is_maximal_run_at(t, st[last], ft[last]));
            }
            assert(k0 == last);
            let run = ft[last].push(c);
            assert(fs == ft.update(last, run));
            assert forall|k: int| 0 <= k < fs.len() implies is_maximal_run_at(s, #[trigger] st[k], fs[k]) by {
                assert(is_maximal_run_at(t, st[k], ft[k]));
                if k < last {
                    assert(fs[k] == ft[k]);
                    assert(st[k] + ft[k].len() < st[last]);
                    assert(s[st[k] + ft[k].len()] == t[st[k] + ft[k].len()]);
                } else {
                    assert(fs[k] == run);
                    assert(s.subrange(st[k], st[k] + run.len()) =~= t.subrange(st[k], l).push(c));
                    assert forall|m: int| 0 <= m < run.len() implies !is_field_separator(#[trigger] run[m]) by {
                        if m < ft[last].len() {
                            assert(run[m] == ft[last][m]);
                        }
                    }
                }
            }
            assert forall|a: int, b: int|
                #![trigger st[a], st[b]]
                0 <= a < b < fs.len() implies st[a] + fs[a].len() < st[b] by {
                assert(fs[a] == ft[a]);
            }
            assert forall|p: int| 0 <= p < s.len() && !is_field_separator(#[trigger] s[p]) implies exists|k: int|
                0 <= k < fs.len() && #[trigger] st[k] <= p < st[k] + fs[k].len() by {
                if p == l {
                    assert(st[last] <= p < st[last] + fs[last].len());
                } else {
                    assert(t[p] == s[p]);
                    let k = choose|k: int| 0 <= k < ft.len() && #[trigger] st[k] <= p < st[k] + ft[k].len();
                    assert(fs[k].len() >= ft[k].len());
                }
            }
            st
        }
    }
}

/// The fields of a text are its maximal runs of characters that are neither
/// white space nor `:`, in the order they stand, and every such character
/// lies in one of them.
pub proof fn lemma_fields_are_maximal_runs(s: Seq<char>)
    ensures
        exists|starts: Seq<int>| are_runs_at(s, starts, fields(s)),
{
    let starts = lemma_field_starts(s);
}

/// Split a sexagesimal coordinate text (`D:M:S`, `D M S`, with optional
/// fraction and sign) into its fields; the numbers themselves are read by
/// the caller.
pub fn split_sexagesimal(raw: &str) -> (split: SexagesimalSplit)
    ensures
        split is Empty <==> trimmed(raw@).len() == 0,
        split matches SexagesimalSplit::Fields { negative, fields: found } ==> texts(found@) == fields(
            raw@,
        ) && negative == leading_minus(fields(raw@)),
        split matches SexagesimalSplit::Fields { negative, fields: found } ==> (negative <==> (
        found@.len() > 0 && found@[0]@.len() > 0 && found@[0]@[0] == '-')),
        split matches SexagesimalSplit::Fields { fields: found, .. } ==> exists|starts: Seq<int>|
            are_runs_at(raw@, starts, texts(found@)),
        split matches SexagesimalSplit::Fields { negative, .. } ==> (negative <==> exists|p: int|
            0 <= p < raw@.len() && raw@[p] == '-' && forall|q: int|
                0 <= q < p ==> (is_white_space(#[trigger] raw@[q]) || raw@[q] == ':')),
{
    proof {
        lemma_leading_minus_is_first_character(raw@);
    }
    proof {
        lemma_trimmed_empty_iff_blank(raw@);
    }
    if blank(raw) {
        return SexagesimalSplit::Empty;
    }
    let n = raw.unicode_len();
    let mut found: Vec<String> = Vec::new();
    let mut open = false;
    let mut start: usize = 0;
    let mut i: usize = 0;
    while i < n
        invariant
            n == raw@.len(),
            i <= n,
            start <= i,
            open ==> start < i && (start == 0 || is_field_separator(raw@[start - 1]))
                && !is_field_separator(raw@[i - 1]),
            !open ==> i == 0 || is_field_separator(raw@[i - 1]),
            open ==> fields(raw@.subrange(0, i as int)) == texts(found@).push(
                raw@.subrange(start as int, i as int),
            ),
            !open ==> fields(raw@.subrange(0, i as int)) == texts(found@),
        decreases n - i,
    {
        let c = raw.get_char(i);
        let ghost prefix = raw@.subrange(0, i + 1);
        assert(prefix.drop_last() =~= raw@.subrange(0, i as int));
        assert(prefix.last() == c);
        let separator = white_space(c) || c == ':';
        if separator {
            if open {
                let piece = raw.substring_char(start, i);
                let field = String::from_str(piece);
                found.push(field);
                assert(texts(found@) =~= texts(found@.drop_last()).push(field@));
                open = false;
            }
        } else {
            if !open {
                if i > 0 {
                    assert(prefix[i - 1] == raw@[i - 1]);
                }
                assert(raw@.subrange(i as int, i + 1) =~= seq![c]);
                open = true;
                start = i;
            } else {
                assert(prefix[i - 1] == raw@[i - 1]);
                assert(raw@.subrange(start as int, i + 1) =~= raw@.subrange(start as int, i as int).push(c));
                let ghost earlier = fields(raw@.subrange(0, i as int));
                assert(earlier.update(earlier.len() - 1, earlier.last().push(c)) =~= texts(found@).push(
                    raw@.subrange(start as int, i + 1),
                ));
            }
        }
        i = i + 1;
    }
    if open {
        let piece = raw.substring_char(start, n);
        found.push(String::from_str(piece));
    }
    assert(raw@.subrange(0, n as int) =~= raw@);
    assert(texts(found@) =~= fields(raw@));
    proof {
        let starts = lemma_field_starts(raw@);
        assert(are_runs_at(raw@, starts, texts(found@)));
    }
    proof {
        lemma_fields_nonempty(raw@);
    }
    if found.len() > 0 {
        assert(texts(found@)[0] == found@[0]@);
        assert(found[0]@.len() > 0);
    }
    let negative = found.len() > 0 && found[0].as_str().get_char(0) == '-';
    SexagesimalSplit::Fields { negative, fields: found }
}

} // verus!
