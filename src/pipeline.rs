//! Filtering the candidate words and sending each to its group.
use vstd::prelude::*;
use vstd::hash_set::StringHashSet;
use crate::parse::{clean_all, dedup, lower_all, parsed, tokens, views, Forbid, Parse};
use crate::output::{layout, lengths_ok, writer_views, Writer};
use crate::text::{category, classify, valid_word, Category};

verus! {

/// Whether every excluded word must also be among the candidates.
pub const MUST_CONTAINS_WORDS: bool = false;

/// The words of `ws` that `ex` does not hold, in order.
pub open spec fn without(ws: Seq<Seq<char>>, ex: Set<Seq<char>>) -> Seq<Seq<char>>
    decreases ws.len(),
{
    if ws.len() == 0 {
        Seq::empty()
    } else {
        let rest = without(ws.drop_last(), ex);
        if ex.contains(ws.last()) { rest } else { rest.push(ws.last()) }
    }
}

/// The excluded words of `off` that the candidate text `on` lacks, in order.
pub open spec fn absent_words(on: Seq<char>, off: Seq<char>) -> Seq<Seq<char>> {
    without(parsed(off), parsed(on).to_set())
}

/// The words of `ws` in group `c`, in order.
pub open spec fn of_category(ws: Seq<Seq<char>>, c: Category) -> Seq<Seq<char>>
    decreases ws.len(),
{
    if ws.len() == 0 {
        Seq::empty()
    } else {
        let rest = of_category(ws.drop_last(), c);
        if category(ws.last()) == c { rest.push(ws.last()) } else { rest }
    }
}

/// Every word of `ws` is valid.
pub open spec fn all_valid(ws: Seq<Seq<char>>) -> bool {
    forall|i: int| 0 <= i < ws.len() ==> valid_word(#[trigger] ws[i])
}

/// The cleaned candidate words of `on` less the words of `off`.
pub open spec fn vocabulary(on: Seq<char>, off: Seq<char>) -> Seq<Seq<char>> {
    without(parsed(on), parsed(off).to_set())
}

proof fn lemma_clean_all_valid(ts: Seq<Seq<char>>)
    ensures
        all_valid(clean_all(ts)),
    decreases ts.len(),
{
    if ts.len() > 0 {
        lemma_clean_all_valid(ts.drop_last());
    }
}

proof fn lemma_dedup_valid(s: Seq<Seq<char>>)
    requires
        all_valid(s),
    ensures
        all_valid(dedup(s)),
    decreases s.len(),
{
    if s.len() > 0 {
        assert(all_valid(s.drop_last()));
        lemma_dedup_valid(s.drop_last());
    }
}

proof fn lemma_without_valid(ws: Seq<Seq<char>>, ex: Set<Seq<char>>)
    requires
        all_valid(ws),
    ensures
        all_valid(without(ws, ex)),
    decreases ws.len(),
{
    if ws.len() > 0 {
        assert(all_valid(ws.drop_last()));
        lemma_without_valid(ws.drop_last(), ex);
    }
}

proof fn lemma_of_category_valid(ws: Seq<Seq<char>>, c: Category)
    requires
        all_valid(ws),
    ensures
        all_valid(of_category(ws, c)),
        lengths_ok(of_category(ws, c)),
    decreases ws.len(),
{
    if ws.len() > 0 {
        assert(all_valid(ws.drop_last()));
        lemma_of_category_valid(ws.drop_last(), c);
    }
}

/// The five groups share out the words of `ws`: each group holds only
/// words of its kind, and together they hold exactly as many words as `ws`.
pub proof fn lemma_groups_partition(ws: Seq<Seq<char>>)
    ensures
        forall|c: Category, i: int| 0 <= i < of_category(ws, c).len() ==> category(#[trigger] of_category(ws, c)[i]) == c,
        of_category(ws, Category::Matching).len() + of_category(ws, Category::Participle).len()
            + of_category(ws, Category::Past).len() + of_category(ws, Category::Plural).len()
            + of_category(ws, Category::Plain).len() == ws.len(),
    decreases ws.len(),
{
    if ws.len() > 0 {
        lemma_groups_partition(ws.drop_last());
        assert forall|c: Category, i: int| 0 <= i < of_category(ws, c).len() implies category(#[trigger] of_category(ws, c)[i]) == c by {
            if i < of_category(ws.drop_last(), c).len() {
                assert(of_category(ws, c)[i] == of_category(ws.drop_last(), c)[i]);
            }
        }
    }
}

/// Every word that the parser keeps is valid.
pub proof fn lemma_parsed_valid(s: Seq<char>)
    ensures
        all_valid(parsed(s)),
{
    lemma_clean_all_valid(lower_all(tokens(s)));
    lemma_dedup_valid(clean_all(lower_all(tokens(s))));
}

/// The set of the words of `ws`.
pub fn set_of(ws: &Vec<String>) -> (r: StringHashSet)
    ensures
        forall|x: Seq<char>| r@.contains(x) <==> views(ws@).contains(x),
{
    let mut store = StringHashSet::new();
    let mut i: usize = 0;
    while i < ws.len()
        invariant
            i <= ws.len(),
            forall|x: Seq<char>| store@.contains(x) <==> views(ws@).take(i as int).contains(x),
        decreases ws.len() - i,
    {
        let ghost pre = views(ws@).take(i as int);
        let ghost y = ws@[i as int]@;
        assert(views(ws@).take(i + 1) =~= pre.push(y));
        store.insert(ws[i].clone());
        assert forall|x: Seq<char>| store@.contains(x) <==> pre.push(y).contains(x) by {
            if x == y {
                assert(pre.push(y)[pre.len() as int] == x);
            }
            if pre.push(y).contains(x) && x != y {
                let k = choose|k: int| 0 <= k < pre.push(y).len() && pre.push(y)[k] == x;
                assert(pre[k] == x);
            }
        }
        i += 1;
    }
    assert(views(ws@).take(i as int) =~= views(ws@));
    store
}

/// The words of `ws` that `ex` does not hold, in order.
pub fn drop_listed(ws: &Vec<String>, ex: &StringHashSet) -> (r: Vec<String>)
    ensures
        views(r@) == without(views(ws@), ex@),
{
    let mut out: Vec<String> = Vec::new();
    let mut i: usize = 0;
    while i < ws.len()
        invariant
            i <= ws.len(),
            views(out@) == without(views(ws@).take(i as int), ex@),
        decreases ws.len() - i,
    {
        let ghost pre = views(ws@).take(i as int);
        assert(views(ws@).take(i + 1).drop_last() =~= pre);
        assert(views(ws@).take(i + 1).last() == ws@[i as int]@);
        if !ex.contains(ws[i].as_str()) {
            let ghost before = out@;
            out.push(ws[i].clone());
            assert(views(out@) =~= views(before).push(ws@[i as int]@));
        }
        i += 1;
    }
    assert(views(ws@).take(i as int) =~= views(ws@));
    out
}

/// The candidate words, their groups, and the files made of them.
pub struct Voc {
    /// Every kept word, in order.
    pub list: Vec<String>,
    /// Words ending in "ing".
    pub ing: Vec<String>,
    /// Words ending in "ed".
    pub ed: Vec<String>,
    /// Words ending in a single "s".
    pub plural: Vec<String>,
    /// Words of no other group.
    pub simple: Vec<String>,
    /// Words carrying the configured affix.
    pub matching: Vec<String>,
    /// The files to write, once [`Voc::compose`] has run.
    pub writer: Vec<Option<Writer>>,
}

impl Voc {
    /// A vocabulary of `list` with empty groups.
    pub fn new(list: Vec<String>) -> (r: Voc)
        ensures
            r.list@ == list@,
            r.ing@.len() == 0,
            r.ed@.len() == 0,
            r.plural@.len() == 0,
            r.simple@.len() == 0,
            r.matching@.len() == 0,
            r.writer@.len() == 0,
    {
        Voc {
            list,
            ing: Vec::new(),
            ed: Vec::new(),
            plural: Vec::new(),
            simple: Vec::new(),
            matching: Vec::new(),
            writer: Vec::new(),
        }
    }

    /// The parsed words of `content` that `store` does not exclude, in order.
    pub fn start(store: &StringHashSet, content: &str) -> (r: Vec<String>)
        ensures
            views(r@) == without(parsed(content@), store@),
    {
        let data = Parse::lines(content);
        drop_listed(&data, store)
    }

    /// The excluded words that are not among the candidates, in order.
    pub fn missing(excluded: &Vec<String>, candidates: &Vec<String>) -> (r: Vec<String>)
        ensures
            views(r@) == without(views(excluded@), views(candidates@).to_set()),
    {
        let pool = set_of(candidates);
        assert(pool@ =~= views(candidates@).to_set());
        drop_listed(excluded, &pool)
    }

    /// Appends each word of the list to its group, keeping their order.
    pub fn direct_data(&mut self)
        ensures
            final(self).list@ == old(self).list@,
            final(self).writer@ == old(self).writer@,
            views(final(self).matching@) == views(old(self).matching@) + of_category(views(old(self).list@), Category::Matching),
            views(final(self).ing@) == views(old(self).ing@) + of_category(views(old(self).list@), Category::Participle),
            views(final(self).ed@) == views(old(self).ed@) + of_category(views(old(self).list@), Category::Past),
            views(final(self).plural@) == views(old(self).plural@) + of_category(views(old(self).list@), Category::Plural),
            views(final(self).simple@) == views(old(self).simple@) + of_category(views(old(self).list@), Category::Plain),
    {
        let ghost m0 = views(self.matching@);
        let ghost i0 = views(self.ing@);
        let ghost e0 = views(self.ed@);
        let ghost p0 = views(self.plural@);
        let ghost s0 = views(self.simple@);
        let n = self.list.len();
        let mut i: usize = 0;
        while i < n
            invariant
                i <= n,
                n == self.list.len(),
                self.list@ == old(self).list@,
                self.writer@ == old(self).writer@,
                views(self.matching@) == m0 + of_category(views(self.list@).take(i as int), Category::Matching),
                views(self.ing@) == i0 + of_category(views(self.list@).take(i as int), Category::Participle),
                views(self.ed@) == e0 + of_category(views(self.list@).take(i as int), Category::Past),
                views(self.plural@) == p0 + of_category(views(self.list@).take(i as int), Category::Plural),
                views(self.simple@) == s0 + of_category(views(self.list@).take(i as int), Category::Plain),
            decreases n - i,
        {
            let ghost pre = views(self.list@).take(i as int);
            let ghost cur = views(self.list@).take(i + 1);
            assert(cur.drop_last() =~= pre);
            assert(cur.last() == self.list@[i as int]@);
            let word = self.list[i].clone();
            let ghost w = word@;
            match classify(word.as_str()) {
                Category::Matching => {
                    let ghost b = views(self.matching@);
                    self.matching.push(word);
                    assert(views(self.matching@) =~= b.push(w));
                },
                Category::Participle => {
                    let ghost b = views(self.ing@);
                    self.ing.push(word);
                    assert(views(self.ing@) =~= b.push(w));
                },
                Category::Past => {
                    let ghost b = views(self.ed@);
                    self.ed.push(word);
                    assert(views(self.ed@) =~= b.push(w));
                },
                Category::Plural => {
                    let ghost b = views(self.plural@);
                    self.plural.push(word);
                    assert(views(self.plural@) =~= b.push(w));
                },
                Category::Plain => {
                    let ghost b = views(self.simple@);
                    self.simple.push(word);
                    assert(views(self.simple@) =~= b.push(w));
                },
            }
            i += 1;
        }
        assert(views(self.list@).take(n as int) =~= views(self.list@));
    }
}

/// The two raw sources and the set of excluded words.
pub struct App {
    /// The candidate text.
    pub on_content: String,
    /// The excluded text.
    pub off_content: String,
    /// The excluded words, once [`App::forbid`] has run.
    pub store: StringHashSet,
}

impl App {
    /// An application over the candidate and the excluded text, with nothing excluded yet.
    pub fn new(on_content: String, off_content: String) -> (r: App)
        ensures
            r.on_content@ == on_content@,
            r.off_content@ == off_content@,
            r.store@ == Set::<Seq<char>>::empty(),
    {
        App { on_content, off_content, store: StringHashSet::new() }
    }

    /// Builds the set of excluded words from the excluded text.
    pub fn forbid(&mut self)
        ensures
            final(self).on_content@ == old(self).on_content@,
            final(self).off_content@ == old(self).off_content@,
            forall|x: Seq<char>| final(self).store@.contains(x) <==> parsed(old(self).off_content@).contains(x),
    {
        self.store = Forbid::start(self.off_content.as_str());
    }

    /// The candidate words that are not excluded. When every excluded word
    /// must be a candidate too, the excluded words that are not fail the run.
    pub fn start(&self) -> (r: Result<Vec<String>, Vec<String>>)
        ensures
            match r {
                Ok(v) => {
                    &&& !(MUST_CONTAINS_WORDS && absent_words(self.on_content@, self.off_content@).len() > 0)
                    &&& views(v@) == without(parsed(self.on_content@), self.store@)
                },
                Err(e) => {
                    &&& MUST_CONTAINS_WORDS
                    &&& absent_words(self.on_content@, self.off_content@).len() > 0
                    &&& views(e@) == absent_words(self.on_content@, self.off_content@)
                },
            },
    {
        if MUST_CONTAINS_WORDS {
            let excluded = Parse::lines(self.off_content.as_str());
            let candidates = Parse::lines(self.on_content.as_str());
            let missing = Voc::missing(&excluded, &candidates);
            if missing.len() > 0 {
                return Err(missing);
            }
        }
        Ok(Voc::start(&self.store, self.on_content.as_str()))
    }

    /// The whole run on the two texts: the excluded words, the filtered
    /// vocabulary, its groups, and every file to write.
    pub fn run(self) -> (r: Result<Voc, Vec<String>>)
        ensures
            match r {
                Ok(voc) => {
                    &&& !(MUST_CONTAINS_WORDS && absent_words(self.on_content@, self.off_content@).len() > 0)
                    &&& views(voc.list@) == vocabulary(self.on_content@, self.off_content@)
                    &&& writer_views(voc.writer@) == layout(views(voc.list@))
                },
                Err(e) => {
                    &&& MUST_CONTAINS_WORDS
                    &&& absent_words(self.on_content@, self.off_content@).len() > 0
                    &&& views(e@) == absent_words(self.on_content@, self.off_content@)
                },
            },
    {
        let mut app = self;
        app.forbid();
        assert(app.store@ =~= parsed(app.off_content@).to_set());
        match app.start() {
            Err(e) => Err(e),
            Ok(list) => {
                let mut voc = Voc::new(list);
                voc.direct_data();
                proof {
                    let ws = views(voc.list@);
                    lemma_parsed_valid(app.on_content@);
                    lemma_without_valid(parsed(app.on_content@), app.store@);
                    lemma_of_category_valid(ws, Category::Past);
                    lemma_of_category_valid(ws, Category::Participle);
                    lemma_of_category_valid(ws, Category::Plural);
                    lemma_of_category_valid(ws, Category::Plain);
                    assert(views(voc.matching@) =~= of_category(ws, Category::Matching));
                    assert(views(voc.ed@) =~= of_category(ws, Category::Past));
                    assert(views(voc.ing@) =~= of_category(ws, Category::Participle));
                    assert(views(voc.plural@) =~= of_category(ws, Category::Plural));
                    assert(views(voc.simple@) =~= of_category(ws, Category::Plain));
                }
                voc.compose();
                assert(writer_views(voc.writer@) =~= layout(views(voc.list@)));
                Ok(voc)
            },
        }
    }
}

} // verus!
