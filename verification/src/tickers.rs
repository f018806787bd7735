//! The set of tickers a server quotes, and the ticker lists read from files.
use vstd::prelude::*;
use crate::text::{Sep, split, tokens, views, chars_of, split_chars, trimmed_tokens, join, trim, free_of, lemma_split_join, lemma_tokens_keep};

verus! {

/// `std::io::Error`, the error of a line that could not be read; carried as
/// an opaque value.
#[verifier::external_type_specification]
#[verifier::external_body]
pub struct ExIoError(std::io::Error);

/// A ticker name that the server does not quote.
#[derive(Debug)]
pub enum TickerError {
    UnknownName(String),
}

/// Why no ticker list could be read.
#[derive(Debug)]
pub enum ReadTickerError {
    /// Reading a line failed.
    File(std::io::Error),
    /// The lines hold no ticker.
    EmptyFile,
    /// The ticker file does not exist.
    FileNotFound,
}

/// `s` with every repeated element after its first occurrence left out.
pub open spec fn dedup(s: Seq<Seq<char>>) -> Seq<Seq<char>>
    decreases s.len(),
{
    if s.len() == 0 {
        Seq::empty()
    } else if s.drop_last().contains(s.last()) {
        dedup(s.drop_last())
    } else {
        dedup(s.drop_last()).push(s.last())
    }
}

/// The elements of `s` that are not in `known`, in order, repetitions kept.
pub open spec fn unknown(s: Seq<Seq<char>>, known: Set<Seq<char>>) -> Seq<Seq<char>>
    decreases s.len(),
{
    if s.len() == 0 {
        Seq::empty()
    } else if known.contains(s.last()) {
        unknown(s.drop_last(), known)
    } else {
        unknown(s.drop_last(), known).push(s.last())
    }
}

/// `dedup` keeps exactly the elements of `s`, each once.
pub proof fn lemma_dedup(s: Seq<Seq<char>>)
    ensures
        dedup(s).no_duplicates(),
        forall|x: Seq<char>| #[trigger] dedup(s).contains(x) <==> s.contains(x),
        dedup(s).to_set() == s.to_set(),
    decreases s.len(),
{
    if s.len() > 0 {
        lemma_dedup(s.drop_last());
        assert forall|x: Seq<char>| #[trigger] s.contains(x) <==> (s.drop_last().contains(x) || x
            == s.last()) by {
            if s.contains(x) {
                let k = choose|k: int| 0 <= k < s.len() && s[k] == x;
                if k < s.len() - 1 {
                    assert(s.drop_last()[k] == x);
                }
            }
            if s.drop_last().contains(x) {
                let k = choose|k: int| 0 <= k < s.drop_last().len() && s.drop_last()[k] == x;
                assert(s[k] == x);
            }
            if x == s.last() {
                assert(s[s.len() - 1] == x);
            }
        }
        let d = dedup(s.drop_last());
        if !s.drop_last().contains(s.last()) {
            assert forall|x: Seq<char>| #[trigger] d.push(s.last()).contains(x) <==> (d.contains(x)
                || x == s.last()) by {
                if d.push(s.last()).contains(x) {
                    let k = choose|k: int| 0 <= k < d.len() + 1 && d.push(s.last())[k] == x;
                    if k < d.len() {
                        assert(d[k] == x);
                    }
                }
                if d.contains(x) {
                    let k = choose|k: int| 0 <= k < d.len() && d[k] == x;
                    assert(d.push(s.last())[k] == x);
                }
                if x == s.last() {
                    assert(d.push(s.last())[d.len() as int] == x);
                }
            }
            assert forall|i: int, j: int|
                0 <= i < d.len() + 1 && 0 <= j < d.len() + 1 && i != j implies d.push(
                s.last(),
            )[i] != d.push(s.last())[j] by {
                if i == d.len() {
                    assert(d.contains(d[j]));
                } else if j == d.len() {
                    assert(d.contains(d[i]));
                }
            }
        }
    }
    assert(dedup(s).to_set() =~= s.to_set());
}

/// `unknown` keeps an element exactly when it is not known.
pub proof fn lemma_unknown(s: Seq<Seq<char>>, known: Set<Seq<char>>)
    ensures
        unknown(s, known).len() == 0 <==> (forall|i: int|
            0 <= i < s.len() ==> known.contains(#[trigger] s[i])),
    decreases s.len(),
{
    if s.len() > 0 {
        lemma_unknown(s.drop_last(), known);
        if known.contains(s.last()) {
            assert forall|i: int| 0 <= i < s.drop_last().len() && known.contains(
                #[trigger] s.drop_last()[i],
            ) implies known.contains(s[i]) by {}
            if forall|i: int| 0 <= i < s.drop_last().len() ==> known.contains(
                #[trigger] s.drop_last()[i],
            ) {
                assert forall|i: int| 0 <= i < s.len() implies known.contains(#[trigger] s[i]) by {
                    if i < s.len() - 1 {
                        assert(s.drop_last()[i] == s[i]);
                    }
                }
            }
        } else {
            assert(!known.contains(s[s.len() - 1]));
        }
    }
}

/// Whether `v` holds a string with the view `t`.
fn holds(v: &Vec<String>, t: &String) -> (b: bool)
    ensures
        b == views(v@).contains(t@),
{
    let n = v.len();
    for i in 0..n
        invariant
            n == v.len(),
            forall|k: int| 0 <= k < i ==> #[trigger] views(v@)[k] != t@,
    {
        if v[i] == *t {
            assert(views(v@)[i as int] == t@);
            return true;
        }
    }
    false
}

/// The strings of `v`, each once, in the order of their first occurrence.
pub fn dedup_strings(v: Vec<String>) -> (r: Vec<String>)
    ensures
        views(r@) == dedup(views(v@)),
{
    let ghost all = views(v@);
    let mut r: Vec<String> = Vec::new();
    assert(all.take(0) =~= Seq::<Seq<char>>::empty());
    for s in it: v.into_iter()
        invariant
            all == views(it.seq()),
            views(r@) == dedup(all.take(it.index() as int)),
    {
        let ghost i = it.index();
        let ghost pre = all.take(i as int);
        assert(all.take(i + 1).drop_last() =~= pre);
        assert(all.take(i + 1).last() == s@);
        proof {
            lemma_dedup(pre);
        }
        if !holds(&r, &s) {
            let ghost old_r = r@;
            r.push(s);
            assert(views(r@) =~= views(old_r).push(s@));
        }
    }
    assert(all.take(all.len() as int) =~= all);
    r
}

/// The tickers a server quotes: a set of names, kept as a list without
/// repetitions.
#[derive(Debug)]
pub struct Tickers {
    pub tickers: Vec<String>,
}

/// Whether every string of `a` is held by `b`.
fn all_held(a: &Vec<String>, b: &Vec<String>) -> (r: bool)
    ensures
        r == forall|i: int| 0 <= i < a@.len() ==> views(b@).contains(#[trigger] views(a@)[i]),
{
    let n = a.len();
    for i in 0..n
        invariant
            n == a.len(),
            forall|k: int| 0 <= k < i ==> views(b@).contains(#[trigger] views(a@)[k]),
    {
        if !holds(b, &a[i]) {
            assert(!views(b@).contains(views(a@)[i as int]));
            return false;
        }
    }
    true
}

/// Two sets of tickers are equal when they know the same names.
impl PartialEq for Tickers {
    fn eq(&self, other: &Self) -> (r: bool) {
        let r = all_held(&self.tickers, &other.tickers) && all_held(&other.tickers, &self.tickers);
        proof {
            let a = views(self.tickers@);
            let b = views(other.tickers@);
            if r {
                assert forall|x: Seq<char>| a.to_set().contains(x) <==> b.to_set().contains(x) by {
                    if a.contains(x) {
                        let i = choose|i: int| 0 <= i < a.len() && a[i] == x;
                    }
                    if b.contains(x) {
                        let i = choose|i: int| 0 <= i < b.len() && b[i] == x;
                    }
                }
                assert(a.to_set() =~= b.to_set());
            } else {
                if a.to_set() == b.to_set() {
                    assert forall|i: int| 0 <= i < a.len() implies b.contains(#[trigger] a[i]) by {
                        assert(a.to_set().contains(a[i]));
                    }
                    assert forall|i: int| 0 <= i < b.len() implies a.contains(#[trigger] b[i]) by {
                        assert(b.to_set().contains(b[i]));
                    }
                }
            }
        }
        r
    }
}

impl Eq for Tickers {
}

impl vstd::std_specs::cmp::PartialEqSpecImpl for Tickers {
    open spec fn obeys_eq_spec() -> bool {
        true
    }

    open spec fn eq_spec(&self, other: &Tickers) -> bool {
        self.known() == other.known()
    }
}

impl Tickers {
    /// The names, as a set.
    pub open spec fn known(&self) -> Set<Seq<char>> {
        views(self.tickers@).to_set()
    }

    /// No name is listed twice.
    pub open spec fn wf(&self) -> bool {
        views(self.tickers@).no_duplicates()
    }

    /// The set of the given names.
    pub fn new(ticks: Vec<String>) -> (r: Self)
        ensures
            r.wf(),
            r.known() == views(ticks@).to_set(),
            views(r.tickers@) == dedup(views(ticks@)),
    {
        let ghost given = views(ticks@);
        let tickers = dedup_strings(ticks);
        proof {
            lemma_dedup(given);
        }
        Tickers { tickers }
    }

    /// The names of `ticker` that are not quoted, in order; `None` when every
    /// name is quoted.
    pub fn find_unknown(&self, ticker: &Vec<String>) -> (r: Option<Vec<String>>)
        ensures
            (forall|i: int| 0 <= i < ticker@.len() ==> self.known().contains(#[trigger] views(ticker@)[i]))
                <==> r is None,
            r matches Some(v) ==> views(v@) == unknown(views(ticker@), self.known()) && v@.len() > 0,
    {
        let mut not_included: Vec<String> = Vec::new();
        let n = ticker.len();
        let ghost all = views(ticker@);
        assert(all.take(0) =~= Seq::<Seq<char>>::empty());
        for i in 0..n
            invariant
                n == ticker.len(),
                all == views(ticker@),
                views(not_included@) == unknown(all.take(i as int), self.known()),
        {
            assert(all.take(i + 1).drop_last() =~= all.take(i as int));
            assert(all.take(i + 1).last() == ticker@[i as int]@);
            let found = holds(&self.tickers, &ticker[i]);
            if !found {
                let ghost old_n = not_included@;
                not_included.push(ticker[i].clone());
                assert(views(not_included@) =~= views(old_n).push(ticker@[i as int]@));
            }
        }
        assert(all.take(n as int) =~= all);
        proof {
            lemma_unknown(all, self.known());
        }
        if not_included.len() == 0 {
            return None;
        }
        Some(not_included)
    }
}

/// Every name a set of tickers was made from is known to it: asking for the
/// same names finds none unknown.
pub proof fn law_new_knows_its_names(ticks: Seq<Seq<char>>)
    ensures
        unknown(ticks, ticks.to_set()).len() == 0,
{
    lemma_unknown(ticks, ticks.to_set());
    assert forall|i: int| 0 <= i < ticks.len() implies ticks.to_set().contains(#[trigger] ticks[i]) by {
        assert(ticks.contains(ticks[i]));
    }
}

/// The tickers of one line: its comma-separated names, trimmed, empty ones
/// left out.
pub open spec fn line_tickers(line: Seq<char>) -> Seq<Seq<char>> {
    tokens(split(line, Sep::Char(',')))
}

/// The tickers of all lines, in order.
pub open spec fn all_tickers(lines: Seq<Seq<char>>) -> Seq<Seq<char>>
    decreases lines.len(),
{
    if lines.len() == 0 {
        Seq::empty()
    } else {
        all_tickers(lines.drop_last()) + line_tickers(lines.last())
    }
}

/// A line that lists names separated by commas gives all of them, in order,
/// however many there are; so does a file of that one line.
pub proof fn law_line_lists_all_names(names: Seq<Seq<char>>)
    requires
        names.len() >= 1,
        forall|i: int|
            0 <= i < names.len() ==> (#[trigger] names[i]).len() > 0 && free_of(names[i], Sep::Char(','))
                && trim(names[i]) == names[i],
    ensures
        line_tickers(join(names, ',')) == names,
        all_tickers(seq![join(names, ',')]) == names,
{
    assert forall|i: int| 0 <= i < names.len() implies free_of(#[trigger] names[i], Sep::Char(',')) by {}
    lemma_split_join(names, ',', Sep::Char(','));
    lemma_tokens_keep(names);
    let lines = seq![join(names, ',')];
    assert(lines.drop_last() =~= Seq::<Seq<char>>::empty());
    assert(all_tickers(lines) == all_tickers(lines.drop_last()) + line_tickers(join(names, ',')));
    assert(Seq::<Seq<char>>::empty() + names =~= names);
}

/// The tickers of several lines are the tickers of each line, one line after
/// the other.
pub proof fn law_lines_in_order(lines: Seq<Seq<char>>, more: Seq<Seq<char>>)
    ensures
        all_tickers(lines + more) == all_tickers(lines) + all_tickers(more),
    decreases more.len(),
{
    if more.len() == 0 {
        assert(lines + more =~= lines);
        assert(all_tickers(lines) + Seq::<Seq<char>>::empty() =~= all_tickers(lines));
    } else {
        law_lines_in_order(lines, more.drop_last());
        assert((lines + more).drop_last() =~= lines + more.drop_last());
        assert((lines + more).last() == more.last());
        assert(all_tickers(lines) + all_tickers(more) =~= all_tickers(lines) + all_tickers(more.drop_last())
            + line_tickers(more.last()));
    }
}

/// The position of the first line that could not be read, if any.
pub open spec fn first_failure(lines: Seq<Result<String, std::io::Error>>) -> Option<int>
    decreases lines.len(),
{
    if lines.len() == 0 {
        None
    } else {
        match first_failure(lines.drop_last()) {
            Some(k) => Some(k),
            None => if lines.last() is Err {
                Some(lines.len() - 1)
            } else {
                None
            },
        }
    }
}

/// The text of each line that was read (an empty text for a failed one).
pub open spec fn line_texts(lines: Seq<Result<String, std::io::Error>>) -> Seq<Seq<char>> {
    lines.map_values(
        |l: Result<String, std::io::Error>|
            match l {
                Ok(s) => s@,
                Err(_) => Seq::empty(),
            },
    )
}

/// Once a prefix holds a failed line, the first failure of the whole is the
/// prefix's.
pub proof fn lemma_first_failure_prefix(lines: Seq<Result<String, std::io::Error>>, i: int)
    requires
        0 <= i <= lines.len(),
        first_failure(lines.take(i)) is Some,
    ensures
        first_failure(lines) == first_failure(lines.take(i)),
    decreases lines.len() - i,
{
    if i < lines.len() {
        assert(lines.take(i + 1).drop_last() =~= lines.take(i));
        lemma_first_failure_prefix(lines, i + 1);
    } else {
        assert(lines.take(i) =~= lines);
    }
}

/// The tickers listed by the lines of a ticker file, in order: each line holds
/// comma-separated names around which spaces do not count. The first line
/// that could not be read ends the reading with its error; lines that hold no
/// name at all give `EmptyFile`.
pub fn read_tickers_from(lines: Vec<Result<String, std::io::Error>>) -> (r: Result<
    Vec<String>,
    ReadTickerError,
>)
    ensures
        match first_failure(lines@) {
            Some(k) => r matches Err(ReadTickerError::File(e)) && lines@[k] == Err::<String, std::io::Error>(e),
            None => {
                let t = all_tickers(line_texts(lines@));
                &&& t.len() == 0 ==> (r matches Err(ReadTickerError::EmptyFile))
                &&& t.len() > 0 ==> (r matches Ok(v) && views(v@) == t)
            },
        },
{
    let ghost all = lines@;
    let mut tickers: Vec<String> = Vec::new();
    assert(all.take(0) =~= Seq::<Result<String, std::io::Error>>::empty());
    assert(line_texts(all.take(0)) =~= Seq::<Seq<char>>::empty());
    for line in it: lines.into_iter()
        invariant
            all == it.seq(),
            first_failure(all.take(it.index() as int)) is None,
            views(tickers@) == all_tickers(line_texts(all.take(it.index() as int))),
    {
        let ghost i = it.index();
        assert(all.take(i + 1).drop_last() =~= all.take(i as int));
        assert(all.take(i + 1).last() == line);
        match line {
            Err(e) => {
                proof {
                    lemma_first_failure_prefix(all, i + 1);
                }
                return Err(ReadTickerError::File(e));
            },
            Ok(text) => {
                let chars = chars_of(text.as_str());
                let parts = split_chars(&chars, Sep::Char(','));
                let found = trimmed_tokens(&parts);
                assert(line_texts(all.take(i + 1)).drop_last() =~= line_texts(all.take(i as int)));
                assert(line_texts(all.take(i + 1)).last() == text@);
                let ghost old_t = tickers@;
                let mut rest = found;
                tickers.append(&mut rest);
                assert(views(tickers@) =~= views(old_t) + line_tickers(text@));
            },
        }
    }
    assert(all.take(all.len() as int) =~= all);
    if tickers.len() == 0 {
        return Err(ReadTickerError::EmptyFile);
    }
    Ok(tickers)
}

} // verus!
