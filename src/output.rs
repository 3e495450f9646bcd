//! Grouping words by length and laying out the files that hold them.
use vstd::prelude::*;
use std::collections::HashMap;
use crate::chars::{char_vec, push_char};
use crate::parse::views;
use crate::rule::{len_ok, MAX_LEN, MIN_LEN};
use crate::text::Category;
use crate::pipeline::{of_category, Voc};

verus! {

broadcast use vstd::std_specs::hash::group_hash_axioms;

/// The file of candidate words, which also receives the whole cleaned list.
pub const ON: &'static str = "word.on";

/// The file of excluded words.
pub const OFF: &'static str = "word.off";

/// One file to write: where, what, and how many words it holds.
pub struct Writer {
    /// Where the file goes.
    pub path: String,
    /// How many words it holds.
    pub len: usize,
    /// What it holds.
    pub content: String,
}

/// A file as path, content and number of words.
pub open spec fn writer_view(o: Option<Writer>) -> Option<(Seq<char>, Seq<char>, nat)> {
    match o {
        Some(w) => Some((w.path@, w.content@, w.len as nat)),
        None => None,
    }
}

/// Each file as path, content and number of words.
pub open spec fn writer_views(v: Seq<Option<Writer>>) -> Seq<Option<(Seq<char>, Seq<char>, nat)>> {
    v.map_values(|o: Option<Writer>| writer_view(o))
}

/// The words of `ws` one per line, with no newline after the last.
pub open spec fn joined(ws: Seq<Seq<char>>) -> Seq<char>
    decreases ws.len(),
{
    if ws.len() == 0 {
        Seq::empty()
    } else if ws.len() == 1 {
        ws[0]
    } else {
        joined(ws.drop_last()) + seq!['\n'] + ws.last()
    }
}

/// Where the file called `name` goes: the whole list at the top, the rest under `parts/`.
pub open spec fn path_of(name: Seq<char>) -> Seq<char> {
    if name == ON@ { name } else { "parts/"@ + name }
}

/// The file called `name` for the words `ws`: written when it has words, and always for the whole list.
pub open spec fn unit(name: Seq<char>, ws: Seq<Seq<char>>) -> Option<(Seq<char>, Seq<char>, nat)> {
    if ws.len() > 0 || name == ON@ {
        Some((path_of(name), joined(ws).push('\n'), ws.len()))
    } else {
        None
    }
}

/// The decimal digit of `d`, which is below ten.
pub open spec fn digit(d: nat) -> char {
    ((48 + d) as u8) as char
}

/// `n` in decimal.
pub open spec fn decimal(n: nat) -> Seq<char>
    decreases n,
{
    if n < 10 { seq![digit(n)] } else { decimal(n / 10).push(digit(n % 10)) }
}

/// The name of the file of group `letter` for words of length `rank`.
pub open spec fn bucket_name(letter: Seq<char>, rank: nat) -> Seq<char> {
    letter + "-"@ + decimal(rank) + ".on"@
}

/// The words of `ws` with `rank` characters, in order.
pub open spec fn bucket(ws: Seq<Seq<char>>, rank: nat) -> Seq<Seq<char>>
    decreases ws.len(),
{
    if ws.len() == 0 {
        Seq::empty()
    } else {
        let rest = bucket(ws.drop_last(), rank);
        if ws.last().len() == rank { rest.push(ws.last()) } else { rest }
    }
}

/// Number of lengths that a word may have.
pub open spec fn n_ranks() -> nat {
    (MAX_LEN - MIN_LEN + 1) as nat
}

/// The files of group `letter`: one per length, shortest first, each present when it has words.
pub open spec fn bucket_units(ws: Seq<Seq<char>>, letter: Seq<char>) -> Seq<Option<(Seq<char>, Seq<char>, nat)>> {
    Seq::new(n_ranks(), |i: int| unit(bucket_name(letter, (MIN_LEN + i) as nat), bucket(ws, (MIN_LEN + i) as nat)))
}

/// Every file for the vocabulary `ws`, in the order they are laid out.
pub open spec fn layout(ws: Seq<Seq<char>>) -> Seq<Option<(Seq<char>, Seq<char>, nat)>> {
    seq![unit(ON@, ws), unit("match.on"@, of_category(ws, Category::Matching))]
        + bucket_units(of_category(ws, Category::Past), "N"@)
        + bucket_units(of_category(ws, Category::Participle), "O"@)
        + bucket_units(of_category(ws, Category::Plural), "P"@)
        + bucket_units(of_category(ws, Category::Plain), "F"@)
}

/// The store holds one list for each length a word may have, and nothing else.
pub open spec fn store_shape(m: Map<usize, Vec<String>>) -> bool {
    forall|k: usize| #[trigger] m.contains_key(k) <==> len_ok(k as int)
}

/// Every word of `ws` has a length that a word may have.
pub open spec fn lengths_ok(ws: Seq<Seq<char>>) -> bool {
    forall|i: int| 0 <= i < ws.len() ==> len_ok(#[trigger] ws[i].len() as int)
}

/// True when `a` and `b` hold the same characters.
pub fn same_chars(a: &str, b: &str) -> (r: bool)
    ensures
        r == (a@ == b@),
{
    let x = char_vec(a);
    let y = char_vec(b);
    if x.len() != y.len() {
        return false;
    }
    let mut i: usize = 0;
    while i < x.len()
        invariant
            i <= x.len(),
            x.len() == y.len(),
            x@ == a@,
            y@ == b@,
            forall|k: int| 0 <= k < i ==> x@[k] == y@[k],
        decreases x.len() - i,
    {
        if x[i] != y[i] {
            return false;
        }
        i += 1;
    }
    assert(x@ =~= y@);
    true
}

/// `n` in decimal.
pub fn decimal_string(n: usize) -> (r: String)
    ensures
        r@ == decimal(n as nat),
    decreases n,
{
    if n < 10 {
        let mut s = String::new();
        push_char(&mut s, ((48 + n) as u8) as char);
        assert(s@ =~= seq![digit(n as nat)]);
        s
    } else {
        let mut s = decimal_string(n / 10);
        push_char(&mut s, ((48 + n % 10) as u8) as char);
        s
    }
}

/// The words of `list` one per line, with no newline after the last.
pub fn join_lines(list: &Vec<String>) -> (r: String)
    ensures
        r@ == joined(views(list@)),
{
    let mut out = String::new();
    let mut i: usize = 0;
    while i < list.len()
        invariant
            i <= list.len(),
            out@ == joined(views(list@).take(i as int)),
        decreases list.len() - i,
    {
        let ghost pre = views(list@).take(i as int);
        let ghost cur = views(list@).take(i + 1);
        assert(cur.drop_last() =~= pre);
        assert(cur.last() == list@[i as int]@);
        if i > 0 {
            push_char(&mut out, '\n');
        } else {
            assert(cur.len() == 1);
        }
        out.append(list[i].as_str());
        i += 1;
    }
    assert(views(list@).take(i as int) =~= views(list@));
    out
}

impl Writer {
    /// A file at `path` holding `content`, which has `len` words.
    pub fn new(path: String, content: String, len: usize) -> (r: Writer)
        ensures
            r.path@ == path@,
            r.content@ == content@,
            r.len == len,
    {
        Writer { path, len, content }
    }
}

impl Voc {
    /// The file called `name` for `list`: `None` when the list is empty,
    /// unless `name` is the file of the whole list.
    pub fn write(name: &str, list: &Vec<String>) -> (r: Option<Writer>)
        ensures
            writer_view(r) == unit(name@, views(list@)),
    {
        let whole = same_chars(name, ON);
        let path = if !whole {
            let mut p = String::from_str("parts/");
            p.append(name);
            p
        } else {
            String::from_str(name)
        };
        if list.len() > 0 || whole {
            let mut content = join_lines(list);
            push_char(&mut content, '\n');
            return Some(Writer::new(path, content, list.len()));
        }
        None
    }

    /// One empty list for each length a word may have.
    pub fn store() -> (r: HashMap<usize, Vec<String>>)
        ensures
            store_shape(r@),
            forall|k: usize| #[trigger] r@.contains_key(k) ==> r@[k]@.len() == 0,
    {
        let mut store: HashMap<usize, Vec<String>> = HashMap::new();
        let mut start: usize = MIN_LEN;
        while start <= MAX_LEN
            invariant
                MIN_LEN <= start <= MAX_LEN + 1,
                forall|k: usize| #[trigger] store@.contains_key(k) <==> (MIN_LEN <= k < start),
                forall|k: usize| #[trigger] store@.contains_key(k) ==> store@[k]@.len() == 0,
            decreases MAX_LEN + 1 - start,
        {
            store.insert(start, Vec::new());
            start += 1;
        }
        store
    }

    /// The files of group `letter`, one per length from the shortest, for the lists of `store`.
    pub fn collect(store: &HashMap<usize, Vec<String>>, letter: &str) -> (r: Vec<Option<Writer>>)
        requires
            store_shape(store@),
        ensures
            writer_views(r@) == Seq::new(n_ranks(), |i: int| unit(bucket_name(letter@, (MIN_LEN + i) as nat), views(store@[(MIN_LEN + i) as usize]@))),
    {
        let ghost want = Seq::new(n_ranks(), |i: int| unit(bucket_name(letter@, (MIN_LEN + i) as nat), views(store@[(MIN_LEN + i) as usize]@)));
        let mut inner: Vec<Option<Writer>> = Vec::new();
        let mut rank: usize = MIN_LEN;
        while rank <= MAX_LEN
            invariant
                MIN_LEN <= rank <= MAX_LEN + 1,
                store_shape(store@),
                want == Seq::new(n_ranks(), |i: int| unit(bucket_name(letter@, (MIN_LEN + i) as nat), views(store@[(MIN_LEN + i) as usize]@))),
                writer_views(inner@) == want.take(rank - MIN_LEN),
            decreases MAX_LEN + 1 - rank,
        {
            assert(store@.contains_key(rank));
            let mut name = String::from_str(letter);
            name.append("-");
            let digits = decimal_string(rank);
            name.append(digits.as_str());
            name.append(".on");
            match store.get(&rank) {
                Some(list) => {
                    let ghost before = inner@;
                    let w = Voc::write(name.as_str(), list);
                    inner.push(w);
                    assert(writer_views(inner@) =~= writer_views(before).push(writer_view(w)));
                    assert(want.take(rank + 1 - MIN_LEN) =~= want.take(rank - MIN_LEN).push(want[rank - MIN_LEN]));
                },
                None => {},
            }
            rank += 1;
        }
        assert(want.take(rank - MIN_LEN) =~= want);
        inner
    }

    /// The files of group `letter` for `list`: its words sorted by length,
    /// one file per length, shortest first.
    pub fn insert(list: &Vec<String>, letter: &str) -> (r: Vec<Option<Writer>>)
        requires
            lengths_ok(views(list@)),
        ensures
            writer_views(r@) == bucket_units(views(list@), letter@),
    {
        let mut store = Voc::store();
        let mut i: usize = 0;
        while i < list.len()
            invariant
                i <= list.len(),
                lengths_ok(views(list@)),
                store_shape(store@),
                forall|k: usize| #[trigger] store@.contains_key(k) ==> views(store@[k]@) == bucket(views(list@).take(i as int), k as nat),
            decreases list.len() - i,
        {
            let ghost pre = views(list@).take(i as int);
            let ghost cur = views(list@).take(i + 1);
            let ghost w = list@[i as int]@;
            assert(cur.drop_last() =~= pre);
            assert(cur.last() == w);
            assert(views(list@)[i as int] == w);
            let n = list[i].unicode_len();
            assert(len_ok(n as int));
            assert(store@.contains_key(n));
            let ghost old_store = store@;
            match store.remove(&n) {
                Some(mut b) => {
                    let ghost bb = views(b@);
                    b.push(list[i].clone());
                    assert(views(b@) =~= bb.push(w));
                    store.insert(n, b);
                    assert forall|k: usize| #[trigger] store@.contains_key(k) implies views(store@[k]@) == bucket(cur, k as nat) by {
                        if k != n {
                            assert(old_store.contains_key(k));
                        }
                    }
                },
                None => {},
            }
            i += 1;
        }
        assert(views(list@).take(i as int) =~= views(list@));
        let r = Voc::collect(&store, letter);
        assert forall|j: int| 0 <= j < n_ranks() implies views(store@[(MIN_LEN + j) as usize]@) == #[trigger] bucket(views(list@), (MIN_LEN + j) as nat) by {
            let k = (MIN_LEN + j) as usize;
            assert(store@.contains_key(k));
        }
        assert(writer_views(r@) =~= bucket_units(views(list@), letter@));
        r
    }

    /// Lays out every file: the whole list, the affix group, then the
    /// "ed", "ing", plural and plain groups by length.
    pub fn compose(&mut self)
        requires
            lengths_ok(views(old(self).ed@)),
            lengths_ok(views(old(self).ing@)),
            lengths_ok(views(old(self).plural@)),
            lengths_ok(views(old(self).simple@)),
        ensures
            final(self).list@ == old(self).list@,
            final(self).ing@ == old(self).ing@,
            final(self).ed@ == old(self).ed@,
            final(self).plural@ == old(self).plural@,
            final(self).simple@ == old(self).simple@,
            final(self).matching@ == old(self).matching@,
            writer_views(final(self).writer@) == writer_views(old(self).writer@)
                + seq![unit(ON@, views(old(self).list@)), unit("match.on"@, views(old(self).matching@))]
                + bucket_units(views(old(self).ed@), "N"@)
                + bucket_units(views(old(self).ing@), "O"@)
                + bucket_units(views(old(self).plural@), "P"@)
                + bucket_units(views(old(self).simple@), "F"@),
    {
        let ghost w0 = writer_views(self.writer@);
        let a = Voc::write(ON, &self.list);
        self.writer.push(a);
        let b = Voc::write("match.on", &self.matching);
        self.writer.push(b);
        let mut n = Voc::insert(&self.ed, "N");
        let mut o = Voc::insert(&self.ing, "O");
        let mut p = Voc::insert(&self.plural, "P");
        let mut f = Voc::insert(&self.simple, "F");
        let ghost (nv, ov, pv, fv) = (writer_views(n@), writer_views(o@), writer_views(p@), writer_views(f@));
        let ghost w1 = self.writer@;
        self.writer.append(&mut n);
        self.writer.append(&mut o);
        self.writer.append(&mut p);
        self.writer.append(&mut f);
        assert(writer_views(w1) =~= w0 + seq![writer_view(a), writer_view(b)]);
        assert(writer_views(self.writer@) =~= writer_views(w1) + nv + ov + pv + fv);
    }
}

} // verus!
