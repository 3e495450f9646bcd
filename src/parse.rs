//! Turning raw text into a clean, duplicate-free list of words.
use vstd::prelude::*;
use vstd::hash_map::StringHashMap;
use vstd::hash_set::StringHashSet;
use vstd::seq_lib::{to_multiset_build, to_multiset_insert};
use crate::chars::{char_vec, push_char};
use crate::text::{trim, valid_word, Str};

verus! {

/// What `str::to_lowercase` makes of a string.
pub uninterp spec fn lower_of(s: Seq<char>) -> Seq<char>;

/// Relies on `str::to_lowercase`: the result depends on the characters alone.
#[verifier::external_body]
fn lowercase(s: &str) -> (r: String)
    ensures
        r@ == lower_of(s@),
{
    s.to_lowercase()
}

/// A white-space character, as Unicode's White_Space property lists them.
pub open spec fn is_space(c: char) -> bool {
    let u = c as u32;
    (0x9 <= u <= 0xd) || u == 0x20 || u == 0x85 || u == 0xa0 || u == 0x1680
        || (0x2000 <= u <= 0x200a) || u == 0x2028 || u == 0x2029 || u == 0x202f
        || u == 0x205f || u == 0x3000
}

/// The tokens of `s`, given that `cur` holds the unfinished token before it.
pub open spec fn split_from(s: Seq<char>, cur: Seq<char>) -> Seq<Seq<char>>
    decreases s.len(),
{
    if s.len() == 0 {
        if cur.len() > 0 { seq![cur] } else { Seq::empty() }
    } else if is_space(s[0]) {
        (if cur.len() > 0 { seq![cur] } else { Seq::empty() }) + split_from(s.drop_first(), Seq::empty())
    } else {
        split_from(s.drop_first(), cur.push(s[0]))
    }
}

/// The maximal runs of non-space characters of `s`, in order.
pub open spec fn tokens(s: Seq<char>) -> Seq<Seq<char>> {
    split_from(s, Seq::empty())
}

/// The characters of each string.
pub open spec fn views(v: Seq<String>) -> Seq<Seq<char>> {
    v.map_values(|t: String| t@)
}

/// Each token lowercased.
pub open spec fn lower_all(ts: Seq<Seq<char>>) -> Seq<Seq<char>> {
    ts.map_values(|t: Seq<char>| lower_of(t))
}

/// The trimmed tokens that are valid words, in order.
pub open spec fn clean_all(ts: Seq<Seq<char>>) -> Seq<Seq<char>>
    decreases ts.len(),
{
    if ts.len() == 0 {
        Seq::empty()
    } else {
        let rest = clean_all(ts.drop_last());
        if valid_word(trim(ts.last())) { rest.push(trim(ts.last())) } else { rest }
    }
}

/// `s` with every item that already occurred earlier left out.
pub open spec fn dedup(s: Seq<Seq<char>>) -> Seq<Seq<char>>
    decreases s.len(),
{
    if s.len() == 0 {
        s
    } else {
        let d = dedup(s.drop_last());
        if d.contains(s.last()) { d } else { d.push(s.last()) }
    }
}

/// The words kept from lowercased tokens.
pub open spec fn words_of(ts: Seq<Seq<char>>) -> Seq<Seq<char>> {
    dedup(clean_all(ts))
}

/// The words that the parser keeps from raw text, in text order (the
/// order it uses while [`SORT_BY_POPULAR`] is off).
pub open spec fn parsed(s: Seq<char>) -> Seq<Seq<char>> {
    words_of(lower_all(tokens(s)))
}

/// Whether tokens are taken most frequent first rather than in text order.
pub const SORT_BY_POPULAR: bool = false;

/// How often `x` occurs in `s`.
pub open spec fn count(s: Seq<Seq<char>>, x: Seq<char>) -> nat
    decreases s.len(),
{
    if s.len() == 0 {
        0
    } else {
        count(s.drop_last(), x) + if s.last() == x { 1nat } else { 0nat }
    }
}

proof fn lemma_count_bound(s: Seq<Seq<char>>, x: Seq<char>)
    ensures
        count(s, x) <= s.len(),
        count(s, x) > 0 <==> s.contains(x),
    decreases s.len(),
{
    if s.len() > 0 {
        let t = s.drop_last();
        lemma_count_bound(t, x);
        if s.contains(x) && s.last() != x {
            let k = choose|k: int| 0 <= k < s.len() && s[k] == x;
            assert(t[k] == x);
        }
        if t.contains(x) {
            let k = choose|k: int| 0 <= k < t.len() && t[k] == x;
            assert(s[k] == x);
        }
        if s.last() == x {
            assert(s[s.len() - 1] == x);
        }
    }
}

/// The line parser.
pub struct Parse;

impl Parse {
    /// Splits `input` into its runs of non-space characters.
    pub fn split(input: &str) -> (r: Vec<String>)
        ensures
            views(r@) == tokens(input@),
    {
        let v = char_vec(input);
        let mut out: Vec<String> = Vec::new();
        let mut cur = String::new();
        let mut i: usize = 0;
        assert(input@.skip(0) =~= input@);
        while i < v.len()
            invariant
                i <= v.len(),
                v@ == input@,
                views(out@) + split_from(input@.skip(i as int), cur@) == tokens(input@),
            decreases v.len() - i,
        {
            let c = v[i];
            let ghost rest = input@.skip(i as int);
            assert(rest.drop_first() =~= input@.skip(i + 1));
            if is_space_char(c) {
                if cur.unicode_len() > 0 {
                    let ghost before = out@;
                    out.push(cur);
                    assert(views(out@) =~= views(before) + seq![cur@]);
                }
                cur = String::new();
            } else {
                push_char(&mut cur, c);
            }
            i += 1;
        }
        if cur.unicode_len() > 0 {
            let ghost before = out@;
            out.push(cur);
            assert(views(out@) =~= views(before) + seq![cur@]);
        }
        assert(views(out@) =~= tokens(input@));
        out
    }

    /// The tokens unchanged; or, when ordering by frequency, the distinct
    /// tokens most frequent first (see [`Parse::by_popularity`]).
    pub fn sort_popular(list: Vec<String>) -> (r: Vec<String>)
        ensures
            !SORT_BY_POPULAR ==> r@ == list@,
            SORT_BY_POPULAR ==> views(r@).to_multiset() == dedup(views(list@)).to_multiset(),
            SORT_BY_POPULAR ==> forall|i: int, j: int|
                0 <= i < j < r.len() ==> count(views(list@), #[trigger] views(r@)[i]) >= count(views(list@), #[trigger] views(r@)[j]),
    {
        if SORT_BY_POPULAR {
            Parse::by_popularity(&list)
        } else {
            list
        }
    }

    /// Each distinct token once, most frequent first; tokens of equal
    /// count keep the order of their first occurrence.
    pub fn by_popularity(list: &Vec<String>) -> (r: Vec<String>)
        ensures
            views(r@).to_multiset() == dedup(views(list@)).to_multiset(),
            forall|i: int, j: int|
                0 <= i < j < r.len() ==> count(views(list@), #[trigger] views(r@)[i]) >= count(views(list@), #[trigger] views(r@)[j]),
    {
        let ghost l = views(list@);
        let mut counts: StringHashMap<usize> = StringHashMap::new();
        let mut uniq: Vec<String> = Vec::new();
        let mut i: usize = 0;
        while i < list.len()
            invariant
                i <= list.len(),
                l == views(list@),
                views(uniq@) == dedup(l.take(i as int)),
                forall|x: Seq<char>| #[trigger] counts@.contains_key(x) <==> l.take(i as int).contains(x),
                forall|x: Seq<char>| #[trigger] counts@.contains_key(x) ==> counts@[x] == count(l.take(i as int), x),
            decreases list.len() - i,
        {
            let ghost pre = l.take(i as int);
            let ghost cur = l.take(i + 1);
            let ghost t = list@[i as int]@;
            assert(cur.drop_last() =~= pre);
            assert(cur.last() == t);
            proof {
                lemma_count_bound(pre, t);
                lemma_dedup_first_occurrence(pre);
            }
            assert forall|x: Seq<char>| cur.contains(x) <==> (pre.contains(x) || x == t) by {
                if cur.contains(x) && x != t {
                    let k = choose|k: int| 0 <= k < cur.len() && cur[k] == x;
                    assert(pre[k] == x);
                }
                if x == t {
                    assert(cur[i as int] == x);
                }
                if pre.contains(x) {
                    let k = choose|k: int| 0 <= k < pre.len() && pre[k] == x;
                    assert(cur[k] == x);
                }
            }
            match counts.get(list[i].as_str()) {
                Some(c) => {
                    let c = *c;
                    counts.insert(list[i].clone(), c + 1);
                },
                None => {
                    counts.insert(list[i].clone(), 1);
                    let ghost before = uniq@;
                    uniq.push(list[i].clone());
                    assert(views(uniq@) =~= views(before).push(t));
                },
            }
            i += 1;
        }
        assert(l.take(i as int) =~= l);
        let mut out: Vec<String> = Vec::new();
        let mut outc: Vec<usize> = Vec::new();
        let mut k: usize = 0;
        assert(views(uniq@).take(0) =~= views(out@));
        while k < uniq.len()
            invariant
                k <= uniq.len(),
                l == views(list@),
                views(uniq@) == dedup(l),
                forall|x: Seq<char>| #[trigger] counts@.contains_key(x) <==> l.contains(x),
                forall|x: Seq<char>| #[trigger] counts@.contains_key(x) ==> counts@[x] == count(l, x),
                outc.len() == out.len(),
                forall|j: int| 0 <= j < out.len() ==> outc@[j] == count(l, #[trigger] views(out@)[j]),
                forall|a: int, b: int| 0 <= a < b < out.len() ==> outc@[a] >= outc@[b],
                views(out@).to_multiset() == views(uniq@).take(k as int).to_multiset(),
            decreases uniq.len() - k,
        {
            proof {
                lemma_dedup_first_occurrence(l);
            }
            let ghost u = uniq@[k as int]@;
            assert(views(uniq@)[k as int] == u);
            assert(dedup(l).contains(u));
            let c = match counts.get(uniq[k].as_str()) {
                Some(c) => *c,
                None => 0,
            };
            let mut p: usize = 0;
            while p < out.len() && outc[p] >= c
                invariant
                    p <= out.len(),
                    outc.len() == out.len(),
                    forall|j: int| 0 <= j < p ==> outc@[j] >= c,
                decreases out.len() - p,
            {
                p += 1;
            }
            let ghost ov = views(out@);
            let ghost oc = outc@;
            out.insert(p, uniq[k].clone());
            outc.insert(p, c);
            assert(views(out@) =~= ov.insert(p as int, u));
            assert(views(uniq@).take(k + 1) =~= views(uniq@).take(k as int).push(u));
            proof {
                to_multiset_insert(ov, p as int, u);
                to_multiset_build(views(uniq@).take(k as int), u);
            }
            assert forall|a: int, b: int| 0 <= a < b < out.len() implies outc@[a] >= outc@[b] by {
                if p < out.len() - 1 && b > p as int {
                    assert(oc[p as int] < c);
                }
            }
            k += 1;
        }
        assert(views(uniq@).take(k as int) =~= views(uniq@));
        out
    }

    /// Trims each lowercased token, keeps the valid words, and drops repeats.
    pub fn keep_words(lowered: &Vec<String>) -> (r: Vec<String>)
        ensures
            views(r@) == words_of(views(lowered@)),
    {
        let mut seen = StringHashSet::new();
        let mut list: Vec<String> = Vec::new();
        let mut i: usize = 0;
        while i < lowered.len()
            invariant
                i <= lowered.len(),
                views(list@) == words_of(views(lowered@).take(i as int)),
                forall|x: Seq<char>| seen@.contains(x) <==> views(list@).contains(x),
            decreases lowered.len() - i,
        {
            let ghost ts = views(lowered@).take(i + 1);
            let ghost c = clean_all(views(lowered@).take(i as int));
            assert(ts.drop_last() =~= views(lowered@).take(i as int));
            assert(ts.last() == lowered@[i as int]@);
            let word = Str::rm_start_end(lowered[i].as_str());
            let ok = Str::get_word(word).is_some() && Str::valid_english(word);
            assert(ok == valid_word(word@));
            if ok {
                assert(clean_all(ts) == c.push(word@));
                assert(c.push(word@).drop_last() =~= c);
                if !seen.contains(word) {
                    let ghost before = list@;
                    let ghost seen_before = seen@;
                    list.push(word.to_owned());
                    seen.insert(word.to_owned());
                    assert(views(list@) =~= views(before).push(word@));
                    assert forall|x: Seq<char>| seen@.contains(x) <==> views(list@).contains(x) by {
                        if x == word@ {
                            assert(views(list@)[views(list@).len() - 1] == x);
                        }
                        if seen@.contains(x) && x != word@ {
                            assert(seen_before.contains(x));
                            let k = choose|k: int| 0 <= k < views(before).len() && views(before)[k] == x;
                            assert(views(list@)[k] == x);
                        }
                        if views(list@).contains(x) && x != word@ {
                            let k = choose|k: int| 0 <= k < views(list@).len() && views(list@)[k] == x;
                            assert(views(before)[k] == x);
                        }
                    }
                }
            } else {
                assert(clean_all(ts) == c);
            }
            i += 1;
        }
        assert(views(lowered@).take(i as int) =~= views(lowered@));
        list
    }

    /// The words of `input`: split on white space, lowercased, trimmed of
    /// non-letters, checked, and with repeats dropped (first one kept).
    pub fn lines(input: &str) -> (r: Vec<String>)
        ensures
            views(r@) == parsed(input@),
    {
        let toks = Parse::sort_popular(Parse::split(input));
        let mut lowered: Vec<String> = Vec::new();
        let mut i: usize = 0;
        while i < toks.len()
            invariant
                i <= toks.len(),
                views(lowered@) == lower_all(views(toks@).take(i as int)),
            decreases toks.len() - i,
        {
            let ghost before = lowered@;
            let low = lowercase(toks[i].as_str());
            lowered.push(low);
            assert(views(toks@).take(i + 1) =~= views(toks@).take(i as int).push(toks@[i as int]@));
            assert(views(lowered@) =~= views(before).push(low@));
            assert(lower_all(views(toks@).take(i + 1)) =~= lower_all(views(toks@).take(i as int)).push(lower_of(toks@[i as int]@)));
            i += 1;
        }
        assert(views(toks@).take(i as int) =~= views(toks@));
        Parse::keep_words(&lowered)
    }
}

/// True when `c` is white space.
pub fn is_space_char(c: char) -> (r: bool)
    ensures
        r == is_space(c),
{
    let u = c as u32;
    (0x9 <= u && u <= 0xd) || u == 0x20 || u == 0x85 || u == 0xa0 || u == 0x1680
        || (0x2000 <= u && u <= 0x200a) || u == 0x2028 || u == 0x2029 || u == 0x202f
        || u == 0x205f || u == 0x3000
}

/// Builds the set of excluded words.
pub struct Forbid;

impl Forbid {
    /// The words of `content`, as a set.
    pub fn start(content: &str) -> (r: StringHashSet)
        ensures
            forall|x: Seq<char>| r@.contains(x) <==> parsed(content@).contains(x),
    {
        let words = Parse::lines(content);
        let mut store = StringHashSet::new();
        let mut i: usize = 0;
        while i < words.len()
            invariant
                i <= words.len(),
                views(words@) == parsed(content@),
                forall|x: Seq<char>| store@.contains(x) <==> views(words@).take(i as int).contains(x),
            decreases words.len() - i,
        {
            let ghost pre = views(words@).take(i as int);
            assert(views(words@).take(i + 1) =~= pre.push(words@[i as int]@));
            let ghost y = words@[i as int]@;
            store.insert(words[i].clone());
            assert forall|x: Seq<char>| store@.contains(x) <==> pre.push(y).contains(x) by {
                if x == y {
                    assert(pre.push(y)[pre.len() as int] == x);
                }
                if pre.push(y).contains(x) && x != y {
                    let k = choose|k: int| 0 <= k < pre.push(y).len() && pre.push(y)[k] == x;
                    assert(pre[k] == x);
                }
            }
            i += 1;
        }
        assert(views(words@).take(i as int) =~= views(words@));
        store
    }
}

/// Where `x` first occurs in `s`, or -1.
pub open spec fn first_index(s: Seq<Seq<char>>, x: Seq<char>) -> int
    decreases s.len(),
{
    if s.len() == 0 {
        -1
    } else if s.drop_last().contains(x) {
        first_index(s.drop_last(), x)
    } else if s.last() == x {
        s.len() - 1
    } else {
        -1
    }
}

proof fn lemma_first_index_bound(s: Seq<Seq<char>>, x: Seq<char>)
    requires
        s.contains(x),
    ensures
        0 <= first_index(s, x) < s.len(),
    decreases s.len(),
{
    let t = s.drop_last();
    if t.contains(x) {
        lemma_first_index_bound(t, x);
    } else {
        let k = choose|k: int| 0 <= k < s.len() && s[k] == x;
        if k < s.len() - 1 {
            assert(t[k] == x);
        }
    }
}

/// Dropping repeats keeps each item once, loses none, and keeps the items
/// in the order of their first occurrence.
pub proof fn lemma_dedup_first_occurrence(s: Seq<Seq<char>>)
    ensures
        dedup(s).no_duplicates(),
        forall|x: Seq<char>| dedup(s).contains(x) <==> s.contains(x),
        forall|i: int, j: int|
            0 <= i < j < dedup(s).len() ==> first_index(s, #[trigger] dedup(s)[i]) < first_index(s, #[trigger] dedup(s)[j]),
    decreases s.len(),
{
    if s.len() > 0 {
        let t = s.drop_last();
        let l = s.last();
        let d = dedup(t);
        lemma_dedup_first_occurrence(t);
        assert forall|x: Seq<char>| s.contains(x) <==> (t.contains(x) || x == l) by {
            if s.contains(x) && x != l {
                let k = choose|k: int| 0 <= k < s.len() && s[k] == x;
                assert(t[k] == x);
            }
            if x == l {
                assert(s[s.len() - 1] == x);
            }
            if t.contains(x) {
                let k = choose|k: int| 0 <= k < t.len() && t[k] == x;
                assert(s[k] == x);
            }
        }
        assert forall|i: int| 0 <= i < d.len() implies first_index(s, #[trigger] d[i]) == first_index(t, d[i]) by {
            assert(d.contains(d[i]));
        }
        if !d.contains(l) {
            let e = d.push(l);
            assert forall|x: Seq<char>| e.contains(x) <==> (d.contains(x) || x == l) by {
                if e.contains(x) && x != l {
                    let k = choose|k: int| 0 <= k < e.len() && e[k] == x;
                    assert(d[k] == x);
                }
                if x == l {
                    assert(e[d.len() as int] == x);
                }
                if d.contains(x) {
                    let k = choose|k: int| 0 <= k < d.len() && d[k] == x;
                    assert(e[k] == x);
                }
            }
            assert forall|i: int, j: int| 0 <= i < j < e.len() implies first_index(s, #[trigger] e[i]) < first_index(s, #[trigger] e[j]) by {
                assert(e[i] == d[i]);
                assert(d.contains(d[i]));
                lemma_first_index_bound(t, d[i]);
                if j < d.len() {
                    assert(e[j] == d[j]);
                }
            }
            assert forall|i: int, j: int| 0 <= i < e.len() && 0 <= j < e.len() && i != j implies e[i] != e[j] by {
                if i < d.len() && j < d.len() {
                } else if i < d.len() {
                    assert(d.contains(e[i]));
                } else {
                    assert(d.contains(e[j]));
                }
            }
        }
    }
}

/// The parser keeps each cleaned word once, in the order in which it
/// first occurs among the cleaned tokens.
pub proof fn lemma_words_first_occurrence(ts: Seq<Seq<char>>)
    ensures
        words_of(ts).no_duplicates(),
        forall|x: Seq<char>| words_of(ts).contains(x) <==> clean_all(ts).contains(x),
        forall|i: int, j: int|
            0 <= i < j < words_of(ts).len() ==> first_index(clean_all(ts), #[trigger] words_of(ts)[i]) < first_index(clean_all(ts), #[trigger] words_of(ts)[j]),
{
    lemma_dedup_first_occurrence(clean_all(ts));
}

} // verus!
