//! Character-level facts about text: Unicode white space, trimming, word
//! counts and the lexicographic order of strings.

use vstd::prelude::*;

verus! {

/// Unicode `White_Space`: the characters that `char::is_whitespace`,
/// `str::trim` and `str::split_whitespace` treat as white space.
pub open spec fn is_white_space(c: char) -> bool {
    let u = c as u32;
    ||| 0x9 <= u <= 0xD
    ||| u == 0x20
    ||| u == 0x85
    ||| u == 0xA0
    ||| u == 0x1680
    ||| 0x2000 <= u <= 0x200A
    ||| u == 0x2028
    ||| u == 0x2029
    ||| u == 0x202F
    ||| u == 0x205F
    ||| u == 0x3000
}

/// Whether `c` is Unicode white space.
pub fn white_space(c: char) -> (b: bool)
    ensures
        b == is_white_space(c),
{
    let u = c as u32;
    (0x9 <= u && u <= 0xD) || u == 0x20 || u == 0x85 || u == 0xA0 || u == 0x1680 || (0x2000 <= u
        && u <= 0x200A) || u == 0x2028 || u == 0x2029 || u == 0x202F || u == 0x205F || u == 0x3000
}

/// The text with leading and trailing white space removed (`str::trim`).
pub open spec fn trimmed(s: Seq<char>) -> Seq<char>
    decreases s.len(),
{
    if s.len() == 0 {
        s
    } else if is_white_space(s[0]) {
        trimmed(s.drop_first())
    } else if is_white_space(s.last()) {
        trimmed(s.drop_last())
    } else {
        s
    }
}

/// Whether the last character of `s` starts a word (a maximal run of
/// non-white-space characters): it is not white space and the character
/// before it, if any, is.
pub open spec fn ends_with_word_start(s: Seq<char>) -> bool {
    &&& s.len() > 0
    &&& !is_white_space(s.last())
    &&& (s.len() == 1 || is_white_space(s[s.len() - 2]))
}

/// Number of white-space separated words (`str::split_whitespace().count()`).
pub open spec fn word_count(s: Seq<char>) -> nat
    decreases s.len(),
{
    if s.len() == 0 {
        0
    } else {
        word_count(s.drop_last()) + if ends_with_word_start(s) {
            1nat
        } else {
            0nat
        }
    }
}

/// Text made of white space only (empty text included).
pub open spec fn is_blank(s: Seq<char>) -> bool {
    forall|i: int| 0 <= i < s.len() ==> is_white_space(#[trigger] s[i])
}

/// Trimming leaves nothing exactly when the text is blank.
pub proof fn lemma_trimmed_empty_iff_blank(s: Seq<char>)
    ensures
        trimmed(s).len() == 0 <==> is_blank(s),
    decreases s.len(),
{
    if s.len() == 0 {
    } else if is_white_space(s[0]) {
        lemma_trimmed_empty_iff_blank(s.drop_first());
        if is_blank(s.drop_first()) {
            assert forall|i: int| 0 <= i < s.len() implies is_white_space(#[trigger] s[i]) by {
                if i > 0 {
                    assert(s[i] == s.drop_first()[i - 1]);
                }
            }
        }
        if is_blank(s) {
            assert forall|i: int| 0 <= i < s.drop_first().len() implies is_white_space(
                #[trigger] s.drop_first()[i],
            ) by {
                assert(s.drop_first()[i] == s[i + 1]);
            }
        }
    } else {
        assert(!is_blank(s)) by {
            assert(!is_white_space(s[0]));
        }
        if is_white_space(s.last()) {
            lemma_trimmed_empty_iff_blank(s.drop_last());
            assert(!is_blank(s.drop_last())) by {
                assert(s.drop_last()[0] == s[0]);
            }
        }
    }
}

/// Dropping leading white space does not change the word count.
proof fn lemma_word_count_drop_leading_space(s: Seq<char>)
    requires
        s.len() > 0,
        is_white_space(s[0]),
    ensures
        word_count(s.drop_first()) == word_count(s),
    decreases s.len(),
{
    let d = s.drop_first();
    if s.len() == 1 {
        assert(d.len() == 0);
        assert(s.drop_last().len() == 0);
        assert(!ends_with_word_start(s));
        assert(word_count(s) == word_count(s.drop_last()));
    } else {
        let t = s.drop_last();
        assert(t[0] == s[0]);
        lemma_word_count_drop_leading_space(t);
        assert(d.drop_last() =~= t.drop_first());
        assert(d.last() == s.last());
        if s.len() > 2 {
            assert(d[d.len() - 2] == s[s.len() - 2]);
        }
        assert(ends_with_word_start(d) == ends_with_word_start(s));
        assert(word_count(s) == word_count(t) + if ends_with_word_start(s) {
            1nat
        } else {
            0nat
        });
        assert(word_count(d) == word_count(d.drop_last()) + if ends_with_word_start(d) {
            1nat
        } else {
            0nat
        });
    }
}

/// A text holds a word exactly when it holds a character that is not white
/// space.
pub proof fn lemma_some_word_iff_non_space(s: Seq<char>)
    ensures
        word_count(s) >= 1 <==> exists|i: int| 0 <= i < s.len() && !is_white_space(#[trigger] s[i]),
    decreases s.len(),
{
    if s.len() > 0 {
        let t = s.drop_last();
        lemma_some_word_iff_non_space(t);
        if word_count(t) >= 1 {
            let i = choose|i: int| 0 <= i < t.len() && !is_white_space(#[trigger] t[i]);
            assert(s[i] == t[i]);
        }
        if exists|i: int| 0 <= i < s.len() && !is_white_space(#[trigger] s[i]) {
            let i = choose|i: int| 0 <= i < s.len() && !is_white_space(#[trigger] s[i]);
            if i < s.len() - 1 {
                assert(t[i] == s[i]);
            } else if s.len() > 1 && !is_white_space(s[s.len() - 2]) {
                assert(t[s.len() - 2] == s[s.len() - 2]);
            }
        }
    }
}

/// A text holds two or more words exactly when some white space stands
/// between two characters that are not white space.
pub proof fn lemma_two_words_iff_split(s: Seq<char>)
    ensures
        word_count(s) >= 2 <==> exists|i: int, k: int, j: int|
            #![trigger s[i], s[k], s[j]]
            0 <= i < k < j < s.len() && !is_white_space(s[i]) && is_white_space(s[k])
                && !is_white_space(s[j]),
    decreases s.len(),
{
    if s.len() > 0 {
        let t = s.drop_last();
        let l = s.len() - 1;
        lemma_two_words_iff_split(t);
        lemma_some_word_iff_non_space(t);
        if word_count(s) >= 2 {
            if word_count(t) >= 2 {
                let (i, k, j) = choose|i: int, k: int, j: int|
                    #![trigger t[i], t[k], t[j]]
                    0 <= i < k < j < t.len() && !is_white_space(t[i]) && is_white_space(t[k])
                        && !is_white_space(t[j]);
                assert(s[i] == t[i] && s[k] == t[k] && s[j] == t[j]);
            } else {
                assert(ends_with_word_start(s));
                let i = choose|i: int| 0 <= i < t.len() && !is_white_space(#[trigger] t[i]);
                assert(s[i] == t[i]);
                assert(i != l - 1);
                assert(!is_white_space(s[i]) && is_white_space(s[l - 1]) && !is_white_space(s[l]));
            }
        }
        if exists|i: int, k: int, j: int|
            #![trigger s[i], s[k], s[j]]
            0 <= i < k < j < s.len() && !is_white_space(s[i]) && is_white_space(s[k])
                && !is_white_space(s[j]) {
            let (i, k, j) = choose|i: int, k: int, j: int|
                #![trigger s[i], s[k], s[j]]
                0 <= i < k < j < s.len() && !is_white_space(s[i]) && is_white_space(s[k])
                    && !is_white_space(s[j]);
            assert(t[i] == s[i] && t[k] == s[k]);
            if j < l {
                assert(t[j] == s[j]);
            } else if is_white_space(s[l - 1]) {
                assert(ends_with_word_start(s));
            } else {
                assert(t[l - 1] == s[l - 1]);
                assert(k < l - 1);
                assert(!is_white_space(t[i]) && is_white_space(t[k]) && !is_white_space(t[l - 1]));
            }
        }
    }
}

/// Trimming keeps every word and every non-white-space character.
pub proof fn lemma_trimmed_keeps_words(s: Seq<char>, c: char)
    requires
        !is_white_space(c),
    ensures
        word_count(trimmed(s)) == word_count(s),
        trimmed(s).contains(c) <==> s.contains(c),
    decreases s.len(),
{
    if s.len() == 0 {
    } else if is_white_space(s[0]) {
        lemma_trimmed_keeps_words(s.drop_first(), c);
        lemma_word_count_drop_leading_space(s);
        if s.contains(c) {
            let k = choose|k: int| 0 <= k < s.len() && s[k] == c;
            assert(k != 0);
            assert(s.drop_first()[k - 1] == c);
        }
        if s.drop_first().contains(c) {
            let k = choose|k: int| 0 <= k < s.drop_first().len() && s.drop_first()[k] == c;
            assert(s[k + 1] == c);
        }
    } else if is_white_space(s.last()) {
        lemma_trimmed_keeps_words(s.drop_last(), c);
        if s.contains(c) {
            let k = choose|k: int| 0 <= k < s.len() && s[k] == c;
            assert(k != s.len() - 1);
            assert(s.drop_last()[k] == c);
        }
        if s.drop_last().contains(c) {
            let k = choose|k: int| 0 <= k < s.drop_last().len() && s.drop_last()[k] == c;
            assert(s[k] == c);
        }
    } else {
    }
}

/// Whether `text` is blank: empty, or white space only.
pub fn blank(text: &str) -> (b: bool)
    ensures
        b == is_blank(text@),
{
    let n = text.unicode_len();
    let mut i: usize = 0;
    while i < n
        invariant
            n == text@.len(),
            i <= n,
            forall|k: int| 0 <= k < i ==> is_white_space(#[trigger] text@[k]),
        decreases n - i,
    {
        let c = text.get_char(i);
        if !white_space(c) {
            return false;
        }
        i = i + 1;
    }
    true
}

/// Strict lexicographic order of texts, character by character by code
/// point (the order of `String`'s `Ord`, since UTF-8 keeps code-point order).
pub open spec fn lex_lt(a: Seq<char>, b: Seq<char>) -> bool
    decreases a.len(),
{
    if a.len() == 0 {
        b.len() > 0
    } else if b.len() == 0 {
        false
    } else if a[0] != b[0] {
        a[0] < b[0]
    } else {
        lex_lt(a.drop_first(), b.drop_first())
    }
}

/// Lexicographic order, equality included.
pub open spec fn lex_le(a: Seq<char>, b: Seq<char>) -> bool {
    lex_lt(a, b) || a == b
}

/// No text precedes itself.
pub proof fn lemma_lex_irreflexive(a: Seq<char>)
    ensures
        !lex_lt(a, a),
    decreases a.len(),
{
    if a.len() > 0 {
        lemma_lex_irreflexive(a.drop_first());
    }
}

/// The lexicographic order is transitive.
pub proof fn lemma_lex_transitive(a: Seq<char>, b: Seq<char>, c: Seq<char>)
    requires
        lex_lt(a, b),
        lex_lt(b, c),
    ensures
        lex_lt(a, c),
    decreases a.len(),
{
    if a.len() > 0 && b.len() > 0 && c.len() > 0 && a[0] == b[0] && b[0] == c[0] {
        lemma_lex_transitive(a.drop_first(), b.drop_first(), c.drop_first());
    }
}

/// Two different texts are ordered one way or the other.
pub proof fn lemma_lex_total(a: Seq<char>, b: Seq<char>)
    requires
        a != b,
    ensures
        lex_lt(a, b) || lex_lt(b, a),
    decreases a.len(),
{
    if a.len() > 0 && b.len() > 0 && a[0] == b[0] {
        if a.drop_first() == b.drop_first() {
            assert(a =~= seq![a[0]] + a.drop_first());
            assert(b =~= seq![b[0]] + b.drop_first());
        }
        lemma_lex_total(a.drop_first(), b.drop_first());
    } else if a.len() > 0 && b.len() > 0 {
        assert(a[0] < b[0] || b[0] < a[0]);
    } else if a.len() == 0 && b.len() == 0 {
        assert(a =~= b);
    }
}

/// The order is asymmetric.
pub proof fn lemma_lex_asymmetric(a: Seq<char>, b: Seq<char>)
    requires
        lex_lt(a, b),
    ensures
        !lex_lt(b, a),
{
    if lex_lt(b, a) {
        lemma_lex_transitive(a, b, a);
        lemma_lex_irreflexive(a);
    }
}

/// `a` precedes `b` exactly when, after a common beginning, `a` has the
/// smaller character at the first place where they differ, or `a` is a
/// proper prefix of `b`.
pub proof fn lemma_lex_lt_first_difference(a: Seq<char>, b: Seq<char>)
    ensures
        lex_lt(a, b) <==> (exists|k: int|
            #![trigger a[k], b[k]]
            0 <= k < a.len() && k < b.len() && a.subrange(0, k) == b.subrange(0, k) && a[k] < b[k])
            || (a.len() < b.len() && a == b.subrange(0, a.len() as int)),
    decreases a.len(),
{
    if a.len() == 0 {
        assert(a =~= b.subrange(0, 0));
    } else if b.len() == 0 {
    } else if a[0] != b[0] {
        if a[0] < b[0] {
            assert(a.subrange(0, 0) =~= b.subrange(0, 0));
        }
        if exists|k: int|
            #![trigger a[k], b[k]]
            0 <= k < a.len() && k < b.len() && a.subrange(0, k) == b.subrange(0, k) && a[k] < b[k] {
            let k = choose|k: int|
                #![trigger a[k], b[k]]
                0 <= k < a.len() && k < b.len() && a.subrange(0, k) == b.subrange(0, k) && a[k] < b[k];
            if k > 0 {
                assert(a.subrange(0, k)[0] == b.subrange(0, k)[0]);
            }
        }
        if a.len() < b.len() && a == b.subrange(0, a.len() as int) {
            assert(b.subrange(0, a.len() as int)[0] == b[0]);
        }
    } else {
        let a1 = a.drop_first();
        let b1 = b.drop_first();
        lemma_lex_lt_first_difference(a1, b1);
        if exists|k: int|
            #![trigger a1[k], b1[k]]
            0 <= k < a1.len() && k < b1.len() && a1.subrange(0, k) == b1.subrange(0, k) && a1[k] < b1[k] {
            let k = choose|k: int|
                #![trigger a1[k], b1[k]]
                0 <= k < a1.len() && k < b1.len() && a1.subrange(0, k) == b1.subrange(0, k) && a1[k] < b1[k];
            assert(a.subrange(0, k + 1) =~= seq![a[0]] + a1.subrange(0, k));
            assert(b.subrange(0, k + 1) =~= seq![b[0]] + b1.subrange(0, k));
            assert(a[k + 1] == a1[k] && b[k + 1] == b1[k]);
        }
        if exists|k: int|
            #![trigger a[k], b[k]]
            0 <= k < a.len() && k < b.len() && a.subrange(0, k) == b.subrange(0, k) && a[k] < b[k] {
            let k = choose|k: int|
                #![trigger a[k], b[k]]
                0 <= k < a.len() && k < b.len() && a.subrange(0, k) == b.subrange(0, k) && a[k] < b[k];
            assert(k > 0);
            assert(a1.subrange(0, k - 1) =~= a.subrange(0, k).drop_first());
            assert(b1.subrange(0, k - 1) =~= b.subrange(0, k).drop_first());
            assert(a1[k - 1] == a[k] && b1[k - 1] == b[k]);
        }
        if a1.len() < b1.len() && a1 == b1.subrange(0, a1.len() as int) {
            assert forall|i: int| 0 <= i < a.len() implies a[i] == b.subrange(0, a.len() as int)[i] by {
                if i > 0 {
                    assert(a[i] == a1[i - 1]);
                    assert(b1.subrange(0, a1.len() as int)[i - 1] == b1[i - 1]);
                }
            }
            assert(a =~= b.subrange(0, a.len() as int));
        }
        if a.len() < b.len() && a == b.subrange(0, a.len() as int) {
            assert(a1 =~= b1.subrange(0, a1.len() as int));
        }
    }
}

/// Whether `a` comes strictly before `b` in lexicographic order.
pub fn text_less(a: &str, b: &str) -> (less: bool)
    ensures
        less == lex_lt(a@, b@),
        less <==> (exists|k: int|
            #![trigger a@[k], b@[k]]
            0 <= k < a@.len() && k < b@.len() && a@.subrange(0, k) == b@.subrange(0, k) && a@[k]
                < b@[k]) || (a@.len() < b@.len() && a@ == b@.subrange(0, a@.len() as int)),
{
    proof {
        lemma_lex_lt_first_difference(a@, b@);
    }
    let la = a.unicode_len();
    let lb = b.unicode_len();
    let mut i: usize = 0;
    assert(a@.skip(0) =~= a@);
    assert(b@.skip(0) =~= b@);
    while i < la && i < lb
        invariant
            la == a@.len(),
            lb == b@.len(),
            i <= la,
            i <= lb,
            lex_lt(a@, b@) == lex_lt(a@.skip(i as int), b@.skip(i as int)),
        decreases la - i,
    {
        let ca = a.get_char(i);
        let cb = b.get_char(i);
        let ghost sa = a@.skip(i as int);
        let ghost sb = b@.skip(i as int);
        assert(sa[0] == ca);
        assert(sb[0] == cb);
        if ca != cb {
            proof {
                lemma_lex_lt_first_difference(a@, b@);
            }
            return ca < cb;
        }
        assert(sa.drop_first() =~= a@.skip(i + 1));
        assert(sb.drop_first() =~= b@.skip(i + 1));
        i = i + 1;
    }
    i < lb
}

} // verus!
