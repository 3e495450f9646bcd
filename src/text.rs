//! Trimming, validating and testing the endings of single words.
use vstd::prelude::*;
use crate::alphabet::{is_letter, English};
use crate::chars::char_vec;
use crate::rule::{is_max, is_min, len_ok, MAX_LEN, MIN_LEN};

verus! {

/// The suffix (or prefix) that sends a word to its own group; empty turns the rule off.
pub const MATCH: &'static str = "";

/// Whether [`MATCH`] is tested at the end of a word (else at its start).
pub const MATCHEND: bool = true;

/// `s` without the non-letters in front of its first letter.
pub open spec fn trim_start(s: Seq<char>) -> Seq<char>
    decreases s.len(),
{
    if s.len() == 0 {
        s
    } else if is_letter(s[0]) {
        s
    } else {
        trim_start(s.drop_first())
    }
}

/// `s` without the non-letters after its last letter.
pub open spec fn trim_end(s: Seq<char>) -> Seq<char>
    decreases s.len(),
{
    if s.len() == 0 {
        s
    } else if is_letter(s.last()) {
        s
    } else {
        trim_end(s.drop_last())
    }
}

/// `s` without non-letters at either end.
pub open spec fn trim(s: Seq<char>) -> Seq<char> {
    trim_end(trim_start(s))
}

/// Every character of `w` is a letter.
pub open spec fn all_letters(w: Seq<char>) -> bool {
    forall|i: int| 0 <= i < w.len() ==> is_letter(#[trigger] w[i])
}

/// `w` is a word: its length is within bounds and it holds letters only.
pub open spec fn valid_word(w: Seq<char>) -> bool {
    len_ok(w.len() as int) && all_letters(w)
}

/// `w` ends in "ing" and is longer than three characters.
pub open spec fn is_ing_word(w: Seq<char>) -> bool {
    w.len() > 3 && w[w.len() - 3] == 'i' && w[w.len() - 2] == 'n' && w[w.len() - 1] == 'g'
}

/// `w` ends in "ed" and is longer than two characters.
pub open spec fn is_ed_word(w: Seq<char>) -> bool {
    w.len() > 2 && w[w.len() - 2] == 'e' && w[w.len() - 1] == 'd'
}

/// `w` ends in one "s" but not in "ss", and is longer than two characters.
pub open spec fn is_plural_word(w: Seq<char>) -> bool {
    w.len() > 2 && w[w.len() - 1] == 's' && w[w.len() - 2] != 's'
}

/// `w` carries the configured affix `m` and has at least four characters.
pub open spec fn has_affix(w: Seq<char>, m: Seq<char>) -> bool {
    &&& w.len() >= 4
    &&& m.len() > 0
    &&& m.len() <= w.len()
    &&& if MATCHEND {
        w.skip(w.len() - m.len()) == m
    } else {
        w.take(m.len() as int) == m
    }
}

/// `w` falls under the affix rule with the configured [`MATCH`].
pub open spec fn is_match_word(w: Seq<char>) -> bool {
    has_affix(w, MATCH@)
}

/// Operations on single words.
pub struct Str;

impl Str {
    /// Drops the non-letters in front of the first letter.
    pub fn rm_start(input: &str) -> (r: &str)
        ensures
            r@ == trim_start(input@),
    {
        let v = char_vec(input);
        let mut i: usize = 0;
        assert(input@.skip(0) =~= input@);
        while i < v.len() && !English::is_range(v[i])
            invariant
                i <= v.len(),
                v@ == input@,
                trim_start(input@) == trim_start(input@.skip(i as int)),
            decreases v.len() - i,
        {
            assert(input@.skip(i as int).drop_first() =~= input@.skip(i + 1));
            i += 1;
        }
        input.substring_char(i, v.len())
    }

    /// Drops the non-letters after the last letter.
    pub fn rm_end(input: &str) -> (r: &str)
        ensures
            r@ == trim_end(input@),
    {
        let v = char_vec(input);
        let mut j: usize = v.len();
        assert(input@.take(j as int) =~= input@);
        while j > 0 && !English::is_range(v[j - 1])
            invariant
                j <= v.len(),
                v@ == input@,
                trim_end(input@) == trim_end(input@.take(j as int)),
            decreases j,
        {
            assert(input@.take(j as int).drop_last() =~= input@.take(j - 1));
            j -= 1;
        }
        assert(input@.take(j as int) =~= input@.subrange(0, j as int));
        input.substring_char(0, j)
    }

    /// Drops the non-letters at both ends.
    pub fn rm_start_end(input: &str) -> (r: &str)
        ensures
            r@ == trim(input@),
    {
        Str::rm_end(Str::rm_start(input))
    }

    /// True when `input` is not empty and holds letters only.
    pub fn valid_english(input: &str) -> (r: bool)
        ensures
            r == (input@.len() > 0 && all_letters(input@)),
    {
        let v = char_vec(input);
        let mut i: usize = 0;
        while i < v.len()
            invariant
                i <= v.len(),
                v@ == input@,
                forall|k: int| 0 <= k < i ==> is_letter(#[trigger] input@[k]),
            decreases v.len() - i,
        {
            if !English::is_range(v[i]) {
                return false;
            }
            i += 1;
        }
        v.len() > 0
    }

    /// True when `input` ends in "ing" and is longer than three characters.
    pub fn is_ing(input: &str) -> (r: bool)
        ensures
            r == is_ing_word(input@),
    {
        let v = char_vec(input);
        let n = v.len();
        if n <= 3 {
            return false;
        }
        v[n - 3] == 'i' && v[n - 2] == 'n' && v[n - 1] == 'g'
    }

    /// True when `input` ends in "ed" and is longer than two characters.
    pub fn is_ed(input: &str) -> (r: bool)
        ensures
            r == is_ed_word(input@),
    {
        let v = char_vec(input);
        let n = v.len();
        if n <= 2 {
            return false;
        }
        v[n - 2] == 'e' && v[n - 1] == 'd'
    }

    /// True when `input` ends in a single "s" and is longer than two characters.
    pub fn is_plural(input: &str) -> (r: bool)
        ensures
            r == is_plural_word(input@),
    {
        let v = char_vec(input);
        let n = v.len();
        if n <= 2 {
            return false;
        }
        v[n - 1] == 's' && v[n - 2] != 's'
    }

    /// True when `input` carries the configured affix [`MATCH`].
    pub fn is_match(input: &str) -> (r: bool)
        ensures
            r == is_match_word(input@),
    {
        let w = char_vec(input);
        let m = char_vec(MATCH);
        let n = w.len();
        let k = m.len();
        if n < 4 || k == 0 || k > n {
            return false;
        }
        let off: usize = if MATCHEND { n - k } else { 0 };
        let mut i: usize = 0;
        while i < k
            invariant
                i <= k,
                k <= n,
                off + k <= n,
                n == w.len(),
                k == m.len(),
                w@ == input@,
                m@ == MATCH@,
                off == (if MATCHEND { n - k } else { 0 }),
                forall|t: int| 0 <= t < i ==> w@[off + t] == #[trigger] m@[t],
            decreases k - i,
        {
            if w[off + i] != m[i] {
                assert(MATCHEND ==> w@.skip(n - k)[i as int] != m@[i as int]);
                assert(!MATCHEND ==> w@.take(k as int)[i as int] != m@[i as int]);
                return false;
            }
            i += 1;
        }
        assert(MATCHEND ==> w@.skip(n - k) =~= m@);
        assert(!MATCHEND ==> w@.take(k as int) =~= m@);
        true
    }

    /// The word when its length is within bounds.
    pub fn get_word(word: &str) -> (r: Option<&str>)
        ensures
            r == (if len_ok(word@.len() as int) { Some(word) } else { None::<&str> }),
    {
        if is_min(word) || is_max(word) {
            return None;
        }
        Some(word)
    }
}

/// The group a word is sent to by its shape.
#[derive(Clone, Copy, Debug, PartialEq, Eq, Structural)]
pub enum Category {
    /// Carries the configured affix.
    Matching,
    /// Ends in "ing".
    Participle,
    /// Ends in "ed".
    Past,
    /// Ends in a single "s".
    Plural,
    /// None of the above.
    Plain,
}

/// The first rule that `w` meets, in the order affix, "ing", "ed", "s".
pub open spec fn category(w: Seq<char>) -> Category {
    if is_match_word(w) {
        Category::Matching
    } else if is_ing_word(w) {
        Category::Participle
    } else if is_ed_word(w) {
        Category::Past
    } else if is_plural_word(w) {
        Category::Plural
    } else {
        Category::Plain
    }
}

/// Sends `word` to its group: the first of the affix, "ing", "ed" and
/// plural rules that holds, else the plain group.
pub fn classify(word: &str) -> (r: Category)
    ensures
        r == category(word@),
{
    if Str::is_match(word) {
        Category::Matching
    } else if Str::is_ing(word) {
        Category::Participle
    } else if Str::is_ed(word) {
        Category::Past
    } else if Str::is_plural(word) {
        Category::Plural
    } else {
        Category::Plain
    }
}

proof fn lemma_trim_start_shape(s: Seq<char>)
    ensures
        trim_start(s).len() == 0 || is_letter(trim_start(s)[0]),
    decreases s.len(),
{
    if s.len() > 0 && !is_letter(s[0]) {
        lemma_trim_start_shape(s.drop_first());
    }
}

proof fn lemma_trim_end_shape(s: Seq<char>)
    ensures
        trim_end(s).len() <= s.len(),
        trim_end(s) == s.take(trim_end(s).len() as int),
        trim_end(s).len() == 0 || is_letter(trim_end(s).last()),
        s.len() > 0 && is_letter(s[0]) ==> trim_end(s).len() > 0,
    decreases s.len(),
{
    if s.len() == 0 {
        assert(s.take(0) =~= s);
    } else if is_letter(s.last()) {
        assert(s.take(s.len() as int) =~= s);
    } else {
        let t = s.drop_last();
        lemma_trim_end_shape(t);
        assert(t.take(trim_end(t).len() as int) =~= s.take(trim_end(t).len() as int));
        if s.len() > 0 && is_letter(s[0]) {
            assert(t[0] == s[0]);
        }
    }
}

/// Trimming a word that is already trimmed leaves it as it is.
pub proof fn lemma_trim_idempotent(s: Seq<char>)
    ensures
        trim(trim(s)) == trim(s),
{
    let a = trim_start(s);
    let b = trim_end(a);
    lemma_trim_start_shape(s);
    lemma_trim_end_shape(a);
    if b.len() > 0 {
        assert(b[0] == a[0]);
        assert(trim_start(b) == b);
        assert(trim_end(b) == b);
    } else {
        assert(trim_start(b) == b);
    }
}

proof fn lemma_trim_end_empty(s: Seq<char>)
    ensures
        trim_end(s).len() == 0 <==> (forall|i: int| 0 <= i < s.len() ==> !is_letter(#[trigger] s[i])),
    decreases s.len(),
{
    if s.len() > 0 {
        let t = s.drop_last();
        lemma_trim_end_empty(t);
        if !is_letter(s.last()) {
            assert forall|i: int| 0 <= i < t.len() implies t[i] == #[trigger] s[i] by {}
        }
    }
}

proof fn lemma_trim_end_drop_first(s: Seq<char>)
    requires
        s.len() > 0,
        trim_end(s).len() > 0,
    ensures
        trim_end(s.drop_first()) == trim_end(s).drop_first(),
    decreases s.len(),
{
    let s1 = s.drop_first();
    if is_letter(s.last()) {
        if s.len() > 1 {
            assert(s1.last() == s.last());
        } else {
            assert(s1.len() == 0);
        }
    } else {
        let t = s.drop_last();
        lemma_trim_end_empty(s);
        lemma_trim_end_empty(t);
        assert(t.len() > 0);
        lemma_trim_end_drop_first(t);
        assert(s1.last() == s.last());
        assert(s1.drop_last() =~= t.drop_first());
    }
}

/// Trimming the start and then the end gives what trimming the end and
/// then the start gives.
pub proof fn lemma_trim_commutes(s: Seq<char>)
    ensures
        trim_start(trim_end(s)) == trim_end(trim_start(s)),
    decreases s.len(),
{
    if s.len() == 0 {
    } else if is_letter(s[0]) {
        lemma_trim_end_shape(s);
        let e = trim_end(s);
        assert(e[0] == s[0]);
    } else {
        let s1 = s.drop_first();
        lemma_trim_commutes(s1);
        let e = trim_end(s);
        if e.len() == 0 {
            lemma_trim_end_empty(s);
            lemma_trim_end_empty(s1);
            assert forall|i: int| 0 <= i < s1.len() implies !is_letter(#[trigger] s1[i]) by {
                assert(s1[i] == s[i + 1]);
            }
        } else {
            lemma_trim_end_shape(s);
            lemma_trim_end_drop_first(s);
            assert(e[0] == s[0]);
        }
    }
}

/// A word of letters is accepted at both length bounds and rejected just
/// outside them.
pub proof fn lemma_length_bounds(w: Seq<char>)
    requires
        all_letters(w),
    ensures
        w.len() == MAX_LEN ==> valid_word(w),
        w.len() == MAX_LEN + 1 ==> !valid_word(w),
        w.len() == MIN_LEN ==> valid_word(w),
        w.len() == MIN_LEN - 1 ==> !valid_word(w),
{
}

/// Every word is in exactly one group: the affix group when it carries
/// the affix, else the first of "ing", "ed" and plural that fits, else the
/// plain group. The three endings never hold together, and with no affix
/// configured the affix group stays empty.
pub proof fn lemma_one_category(w: Seq<char>)
    ensures
        (category(w) == Category::Matching) == is_match_word(w),
        (category(w) == Category::Participle) == (!is_match_word(w) && is_ing_word(w)),
        (category(w) == Category::Past) == (!is_match_word(w) && is_ed_word(w)),
        (category(w) == Category::Plural) == (!is_match_word(w) && is_plural_word(w)),
        (category(w) == Category::Plain) == (!is_match_word(w) && !is_ing_word(w) && !is_ed_word(w) && !is_plural_word(w)),
        !(is_ing_word(w) && is_ed_word(w)),
        !(is_ing_word(w) && is_plural_word(w)),
        !(is_ed_word(w) && is_plural_word(w)),
        MATCH@.len() == 0 ==> !is_match_word(w),
{
}

} // verus!
