//! Character-level text handling shared by the wire protocol and the ticker
//! files: whitespace, trimming, splitting, joining and decimal numbers.
//!
//! Every operation works on the `Seq<char>` view of a string, the same way the
//! `str` methods of the standard library do (`trim`, `split`, `split_whitespace`,
//! `join`, `u32::from_str`, ...), and states its result exactly.
use vstd::prelude::*;

verus! {

/// The characters with the Unicode `White_Space` property: what
/// `char::is_whitespace`, `str::trim` and `str::split_whitespace` treat as space.
pub open spec fn is_space(c: char) -> bool {
    let v = c as u32;
    ||| 0x09 <= v <= 0x0D
    ||| v == 0x20
    ||| v == 0x85
    ||| v == 0xA0
    ||| v == 0x1680
    ||| 0x2000 <= v <= 0x200A
    ||| v == 0x2028
    ||| v == 0x2029
    ||| v == 0x202F
    ||| v == 0x205F
    ||| v == 0x3000
}

/// Executable test for [`is_space`].
pub fn is_space_char(c: char) -> (b: bool)
    ensures
        b == is_space(c),
{
    let v = c as u32;
    (0x09 <= v && v <= 0x0D) || v == 0x20 || v == 0x85 || v == 0xA0 || v == 0x1680 || (0x2000
        <= v && v <= 0x200A) || v == 0x2028 || v == 0x2029 || v == 0x202F || v == 0x205F || v
        == 0x3000
}

/// `s` without its leading space characters.
pub open spec fn trim_start(s: Seq<char>) -> Seq<char>
    decreases s.len(),
{
    if s.len() > 0 && is_space(s[0]) {
        trim_start(s.drop_first())
    } else {
        s
    }
}

/// `s` without its trailing space characters.
pub open spec fn trim_end(s: Seq<char>) -> Seq<char>
    decreases s.len(),
{
    if s.len() > 0 && is_space(s.last()) {
        trim_end(s.drop_last())
    } else {
        s
    }
}

/// `s` without leading and trailing space characters, as `str::trim` gives it.
pub open spec fn trim(s: Seq<char>) -> Seq<char> {
    trim_end(trim_start(s))
}

/// The views of a sequence of strings.
pub open spec fn views(v: Seq<String>) -> Seq<Seq<char>> {
    v.map_values(|s: String| s@)
}

/// What separates the pieces of a split: one given character, or any space
/// character.
#[derive(Clone, Copy, Debug, PartialEq, Eq)]
pub enum Sep {
    Char(char),
    Space,
}

impl Sep {
    /// Whether `c` separates pieces.
    pub open spec fn accepts(self, c: char) -> bool {
        match self {
            Sep::Char(d) => c == d,
            Sep::Space => is_space(c),
        }
    }

    /// Executable test for [`Sep::accepts`].
    pub fn is_sep(&self, c: char) -> (b: bool)
        ensures
            b == self.accepts(c),
    {
        match self {
            Sep::Char(d) => c == *d,
            Sep::Space => is_space_char(c),
        }
    }
}

/// Whether no character of `s` satisfies `sep`.
pub open spec fn free_of(s: Seq<char>, sep: Sep) -> bool {
    forall|i: int| 0 <= i < s.len() ==> !sep.accepts(#[trigger] s[i])
}

/// Appends one character: calls `String::push`. Trusted: the text afterwards
/// is the text before with `c` at its end.
#[verifier::external_body]
pub fn push_char(s: &mut String, c: char)
    ensures
        final(s)@ == old(s)@.push(c),
{
    s.push(c);
}

/// The characters of a string, in order.
pub fn chars_of(s: &str) -> (v: Vec<char>)
    ensures
        v@ == s@,
{
    let mut v: Vec<char> = Vec::new();
    for c in it: s.chars()
        invariant
            v@ == it.seq().take(it.index() as int),
    {
        v.push(c);
    }
    v
}

/// The string made of `v[lo..hi]`.
pub fn string_of_range(v: &Vec<char>, lo: usize, hi: usize) -> (s: String)
    requires
        lo <= hi <= v.len(),
    ensures
        s@ == v@.subrange(lo as int, hi as int),
{
    let mut s = String::new();
    let mut i = lo;
    while i < hi
        invariant
            lo <= i <= hi <= v.len(),
            s@ == v@.subrange(lo as int, i as int),
        decreases hi - i,
    {
        push_char(&mut s, v[i]);
        assert(v@.subrange(lo as int, i + 1) =~= v@.subrange(lo as int, i as int).push(v[i as int]));
        i = i + 1;
    }
    s
}

/// The bounds of `v` once leading and trailing spaces are cut off.
pub fn trim_bounds(v: &Vec<char>) -> (r: (usize, usize))
    ensures
        r.0 <= r.1 <= v.len(),
        trim(v@) == v@.subrange(r.0 as int, r.1 as int),
{
    let n = v.len();
    let mut i: usize = 0;
    assert(v@.subrange(0, n as int) =~= v@);
    while i < n && is_space_char(v[i])
        invariant
            i <= n == v.len(),
            trim_start(v@) == trim_start(v@.subrange(i as int, n as int)),
        decreases n - i,
    {
        assert(v@.subrange(i as int, n as int).drop_first() =~= v@.subrange(i + 1, n as int));
        i = i + 1;
    }
    let mut j: usize = n;
    while j > i && is_space_char(v[j - 1])
        invariant
            i <= j <= n == v.len(),
            trim_start(v@) == v@.subrange(i as int, n as int),
            trim(v@) == trim_end(v@.subrange(i as int, j as int)),
        decreases j - i,
    {
        assert(v@.subrange(i as int, j as int).drop_last() =~= v@.subrange(i as int, j - 1));
        j = j - 1;
    }
    (i, j)
}

/// `str::trim`: the string without leading and trailing spaces.
pub fn trim_str(s: &str) -> (r: String)
    ensures
        r@ == trim(s@),
{
    let v = chars_of(s);
    let (lo, hi) = trim_bounds(&v);
    string_of_range(&v, lo, hi)
}

/// The pieces of `s` between separators, as `str::split` gives them: one more
/// piece than there are separators, empty pieces included.
pub open spec fn split(s: Seq<char>, sep: Sep) -> Seq<Seq<char>>
    decreases s.len(),
{
    if s.len() == 0 {
        seq![Seq::empty()]
    } else {
        let init = split(s.drop_last(), sep);
        if sep.accepts(s.last()) {
            init.push(Seq::empty())
        } else {
            init.update(init.len() - 1, init.last().push(s.last()))
        }
    }
}

/// The trimmed pieces that are not empty, in order: what
/// `.map(|p| p.trim()).filter(|p| !p.is_empty())` keeps of `parts`.
pub open spec fn tokens(parts: Seq<Seq<char>>) -> Seq<Seq<char>>
    decreases parts.len(),
{
    if parts.len() == 0 {
        Seq::empty()
    } else {
        let init = tokens(parts.drop_last());
        let t = trim(parts.last());
        if t.len() > 0 {
            init.push(t)
        } else {
            init
        }
    }
}

/// The pieces that are not empty, in order.
pub open spec fn nonempty(parts: Seq<Seq<char>>) -> Seq<Seq<char>>
    decreases parts.len(),
{
    if parts.len() == 0 {
        Seq::empty()
    } else {
        let init = nonempty(parts.drop_last());
        if parts.last().len() > 0 {
            init.push(parts.last())
        } else {
            init
        }
    }
}

/// The words of `s`, as `str::split_whitespace` gives them.
pub open spec fn words(s: Seq<char>) -> Seq<Seq<char>> {
    nonempty(split(s, Sep::Space))
}

/// The pieces put back together with `sep` between them, as `[String]::join`
/// gives them.
pub open spec fn join(parts: Seq<Seq<char>>, sep: char) -> Seq<char>
    decreases parts.len(),
{
    if parts.len() == 0 {
        Seq::empty()
    } else if parts.len() == 1 {
        parts[0]
    } else {
        join(parts.drop_last(), sep).push(sep) + parts.last()
    }
}

/// A split always has at least one piece.
pub proof fn lemma_split_nonempty(s: Seq<char>, sep: Sep)
    ensures
        split(s, sep).len() >= 1,
    decreases s.len(),
{
    if s.len() > 0 {
        lemma_split_nonempty(s.drop_last(), sep);
    }
}

/// `str::split`: the pieces of `v` between separators.
pub fn split_chars(v: &Vec<char>, sep: Sep) -> (parts: Vec<String>)
    ensures
        views(parts@) == split(v@, sep),
{
    let mut parts: Vec<String> = Vec::new();
    let mut cur = String::new();
    let n = v.len();
    assert(v@.take(0) =~= Seq::<char>::empty());
    assert(views(parts@).push(cur@) =~= split(v@.take(0), sep));
    for i in 0..n
        invariant
            n == v.len(),
            views(parts@).push(cur@) == split(v@.take(i as int), sep),
    {
        let c = v[i];
        assert(v@.take(i + 1).drop_last() =~= v@.take(i as int));
        proof {
            lemma_split_nonempty(v@.take(i as int), sep);
        }
        if sep.is_sep(c) {
            let ghost old_parts = parts@;
            parts.push(cur);
            cur = String::new();
            assert(views(parts@) =~= views(old_parts).push(views(old_parts).push(
                views(parts@).last(),
            ).last()));
            assert(views(parts@).push(cur@) =~= split(v@.take(i + 1), sep));
        } else {
            let ghost old_cur = cur@;
            push_char(&mut cur, c);
            assert(views(parts@).push(cur@) =~= views(parts@).push(old_cur).update(
                views(parts@).len() as int,
                old_cur.push(c),
            ));
        }
    }
    assert(v@.take(n as int) =~= v@);
    let ghost old_parts = parts@;
    parts.push(cur);
    assert(views(parts@) =~= views(old_parts).push(cur@));
    parts
}

/// The trimmed non-empty pieces of `parts`.
pub fn trimmed_tokens(parts: &Vec<String>) -> (r: Vec<String>)
    ensures
        views(r@) == tokens(views(parts@)),
{
    let mut r: Vec<String> = Vec::new();
    let n = parts.len();
    assert(views(parts@).take(0) =~= Seq::<Seq<char>>::empty());
    for i in 0..n
        invariant
            n == parts.len(),
            views(r@) == tokens(views(parts@).take(i as int)),
    {
        let t = trim_str(parts[i].as_str());
        assert(views(parts@).take(i + 1).drop_last() =~= views(parts@).take(i as int));
        assert(views(parts@).take(i + 1).last() == parts@[i as int]@);
        if !t.as_str().is_empty() {
            let ghost old_r = r@;
            r.push(t);
            assert(views(r@) =~= views(old_r).push(t@));
        }
    }
    assert(views(parts@).take(n as int) =~= views(parts@));
    r
}

/// The non-empty pieces of `parts`.
pub fn nonempty_pieces(parts: Vec<String>) -> (r: Vec<String>)
    ensures
        views(r@) == nonempty(views(parts@)),
{
    let mut r: Vec<String> = Vec::new();
    let ghost all = views(parts@);
    assert(all.take(0) =~= Seq::<Seq<char>>::empty());
    for p in it: parts.into_iter()
        invariant
            all == views(it.seq()),
            views(r@) == nonempty(all.take(it.index() as int)),
    {
        let ghost i = it.index();
        assert(all.take(i + 1).drop_last() =~= all.take(i as int));
        assert(all.take(i + 1).last() == p@);
        if !p.as_str().is_empty() {
            let ghost old_r = r@;
            r.push(p);
            assert(views(r@) =~= views(old_r).push(p@));
        }
    }
    assert(all.take(all.len() as int) =~= all);
    r
}

/// `str::split_whitespace`: the words of `s`.
pub fn split_words(s: &str) -> (r: Vec<String>)
    ensures
        views(r@) == words(s@),
{
    let v = chars_of(s);
    nonempty_pieces(split_chars(&v, Sep::Space))
}

/// Appends a whole string.
pub fn push_str(s: &mut String, t: &str)
    ensures
        final(s)@ == old(s)@ + t@,
{
    let v = chars_of(t);
    let n = v.len();
    let ghost start = s@;
    for i in 0..n
        invariant
            n == v.len(),
            v@ == t@,
            s@ == start + v@.take(i as int),
    {
        push_char(s, v[i]);
        assert(v@.take(i + 1) =~= v@.take(i as int).push(v[i as int]));
    }
    assert(v@.take(n as int) =~= v@);
}

/// `[String]::join`: the pieces with `sep` between them.
pub fn join_strings(parts: &Vec<String>, sep: char) -> (r: String)
    ensures
        r@ == join(views(parts@), sep),
{
    let mut r = String::new();
    let n = parts.len();
    assert(views(parts@).take(0) =~= Seq::<Seq<char>>::empty());
    for i in 0..n
        invariant
            n == parts.len(),
            r@ == join(views(parts@).take(i as int), sep),
    {
        let ghost vs = views(parts@).take(i + 1);
        assert(vs.drop_last() =~= views(parts@).take(i as int));
        if i > 0 {
            push_char(&mut r, sep);
        } else {
            assert(vs.len() == 1);
        }
        push_str(&mut r, parts[i].as_str());
    }
    assert(views(parts@).take(n as int) =~= views(parts@));
    r
}

/// Whether two texts are equal.
pub fn same_text(a: &str, b: &str) -> (r: bool)
    ensures
        r == (a@ == b@),
{
    let x = chars_of(a);
    let y = chars_of(b);
    if x.len() != y.len() {
        return false;
    }
    let n = x.len();
    for i in 0..n
        invariant
            n == x.len() == y.len(),
            x@ == a@,
            y@ == b@,
            forall|k: int| 0 <= k < i ==> x@[k] == y@[k],
    {
        if x[i] != y[i] {
            return false;
        }
    }
    assert(x@ =~= y@);
    true
}

/// A text whose ends are not spaces is its own trim.
pub proof fn lemma_trim_keeps(s: Seq<char>)
    requires
        s.len() == 0 || (!is_space(s[0]) && !is_space(s.last())),
    ensures
        trim(s) == s,
{
}

/// A text that is its own trim does not start or end with a space.
pub proof fn lemma_trim_fixed(s: Seq<char>)
    requires
        trim(s) == s,
        s.len() > 0,
    ensures
        !is_space(s[0]) && !is_space(s.last()),
{
    lemma_trim_shorter(s);
    if is_space(s[0]) {
        lemma_trim_start_shorter(s.drop_first());
        lemma_trim_end_shorter(trim_start(s));
    }
    if is_space(s.last()) {
        lemma_trim_start_shorter(s);
        if trim_start(s).len() > 0 {
            assert(trim_start(s).last() == s.last()) by {
                lemma_trim_start_suffix(s);
            }
            lemma_trim_end_shorter(trim_start(s).drop_last());
        }
    }
}

proof fn lemma_trim_start_shorter(s: Seq<char>)
    ensures
        trim_start(s).len() <= s.len(),
    decreases s.len(),
{
    if s.len() > 0 && is_space(s[0]) {
        lemma_trim_start_shorter(s.drop_first());
    }
}

proof fn lemma_trim_end_shorter(s: Seq<char>)
    ensures
        trim_end(s).len() <= s.len(),
    decreases s.len(),
{
    if s.len() > 0 && is_space(s.last()) {
        lemma_trim_end_shorter(s.drop_last());
    }
}

proof fn lemma_trim_shorter(s: Seq<char>)
    ensures
        trim(s).len() <= s.len(),
{
    lemma_trim_start_shorter(s);
    lemma_trim_end_shorter(trim_start(s));
}

/// What `trim_start` leaves is a suffix of the text.
proof fn lemma_trim_start_suffix(s: Seq<char>)
    ensures
        trim_start(s) == s.skip(s.len() - trim_start(s).len()),
        trim_start(s).len() <= s.len(),
    decreases s.len(),
{
    lemma_trim_start_shorter(s);
    if s.len() > 0 && is_space(s[0]) {
        lemma_trim_start_suffix(s.drop_first());
        assert(s.drop_first().skip(s.drop_first().len() - trim_start(s).len()) =~= s.skip(
            s.len() - trim_start(s).len(),
        ));
    } else {
        assert(s.skip(0) =~= s);
    }
}

/// A text without spaces is its own trim.
pub proof fn lemma_trim_free(s: Seq<char>)
    requires
        free_of(s, Sep::Space),
    ensures
        trim(s) == s,
{
    if s.len() > 0 {
        assert(!Sep::Space.accepts(s[0]));
        assert(!Sep::Space.accepts(s[s.len() - 1]));
    }
}

/// Appending a piece without separators lengthens the last piece of a split.
pub proof fn lemma_split_extend(x: Seq<char>, b: Seq<char>, sep: Sep)
    requires
        free_of(b, sep),
    ensures
        split(x + b, sep) == split(x, sep).update(
            split(x, sep).len() - 1,
            split(x, sep).last() + b,
        ),
    decreases b.len(),
{
    lemma_split_nonempty(x, sep);
    if b.len() == 0 {
        assert(x + b =~= x);
        assert(split(x, sep).last() + b =~= split(x, sep).last());
        assert(split(x, sep).update(split(x, sep).len() - 1, split(x, sep).last()) =~= split(x, sep));
    } else {
        let b0 = b.drop_last();
        assert(free_of(b0, sep)) by {
            assert forall|i: int| 0 <= i < b0.len() implies !sep.accepts(#[trigger] b0[i]) by {
                assert(b0[i] == b[i]);
            }
        }
        lemma_split_extend(x, b0, sep);
        assert((x + b).drop_last() =~= x + b0);
        assert((x + b).last() == b.last());
        assert(!sep.accepts(b[b.len() - 1]));
        let p = split(x, sep);
        assert((p.last() + b0).push(b.last()) =~= p.last() + b);
        assert(p.update(p.len() - 1, p.last() + b0).update(p.len() - 1, (p.last() + b0).push(b.last()))
            =~= p.update(p.len() - 1, p.last() + b));
    }
}

/// Joining pieces free of a separator and splitting at it gives the pieces
/// back.
pub proof fn lemma_split_join(ps: Seq<Seq<char>>, c: char, sep: Sep)
    requires
        sep.accepts(c),
        ps.len() >= 1,
        forall|i: int| 0 <= i < ps.len() ==> free_of(#[trigger] ps[i], sep),
    ensures
        split(join(ps, c), sep) == ps,
    decreases ps.len(),
{
    let e = Seq::<char>::empty();
    if ps.len() == 1 {
        assert(free_of(ps[0], sep));
        lemma_split_extend(e, ps[0], sep);
        assert(e + ps[0] =~= ps[0]);
        assert(split(e, sep) == seq![e]);
        assert(e + ps[0] =~= ps[0]);
        assert(seq![e].update(0, e + ps[0]) =~= ps);
    } else {
        let init = ps.drop_last();
        assert forall|i: int| 0 <= i < init.len() implies free_of(#[trigger] init[i], sep) by {
            assert(init[i] == ps[i]);
        }
        lemma_split_join(init, c, sep);
        let j = join(init, c).push(c);
        assert(free_of(ps[ps.len() - 1], sep));
        lemma_split_extend(j, ps.last(), sep);
        assert(j.drop_last() =~= join(init, c));
        assert(split(j, sep) == init.push(e));
        assert(init.push(e).update(init.len() as int, e + ps.last()) =~= ps);
    }
}

/// Pieces free of a set of characters, joined with a character outside the
/// set, are free of the set.
pub proof fn lemma_join_free(ps: Seq<Seq<char>>, c: char, sep: Sep)
    requires
        !sep.accepts(c),
        forall|i: int| 0 <= i < ps.len() ==> free_of(#[trigger] ps[i], sep),
    ensures
        free_of(join(ps, c), sep),
    decreases ps.len(),
{
    if ps.len() > 1 {
        let init = ps.drop_last();
        assert forall|i: int| 0 <= i < init.len() implies free_of(#[trigger] init[i], sep) by {
            assert(init[i] == ps[i]);
        }
        lemma_join_free(init, c, sep);
        assert(free_of(ps[ps.len() - 1], sep));
        let j = join(ps, c);
        let a = join(init, c).push(c);
        assert forall|i: int| 0 <= i < j.len() implies !sep.accepts(#[trigger] j[i]) by {
            if i < a.len() - 1 {
                assert(j[i] == join(init, c)[i]);
            } else if i == a.len() - 1 {
                assert(j[i] == c);
            } else {
                assert(j[i] == ps.last()[i - a.len()]);
            }
        }
    } else if ps.len() == 1 {
        assert(free_of(ps[0], sep));
    }
}

/// A join is at least as long as its first piece.
pub proof fn lemma_join_len(ps: Seq<Seq<char>>, c: char)
    requires
        ps.len() >= 1,
    ensures
        join(ps, c).len() >= ps[0].len(),
    decreases ps.len(),
{
    if ps.len() > 1 {
        lemma_join_len(ps.drop_last(), c);
    }
}

/// Pieces that are non-empty and their own trim are their own tokens.
pub proof fn lemma_tokens_keep(ps: Seq<Seq<char>>)
    requires
        forall|i: int| 0 <= i < ps.len() ==> (#[trigger] ps[i]).len() > 0 && trim(ps[i]) == ps[i],
    ensures
        tokens(ps) == ps,
    decreases ps.len(),
{
    if ps.len() > 0 {
        let init = ps.drop_last();
        assert forall|i: int| 0 <= i < init.len() implies (#[trigger] init[i]).len() > 0 && trim(
            init[i],
        ) == init[i] by {
            assert(init[i] == ps[i]);
        }
        lemma_tokens_keep(init);
        assert(ps[ps.len() - 1].len() > 0);
        assert(init.push(ps.last()) =~= ps);
    }
}

/// Non-empty pieces are all kept.
pub proof fn lemma_nonempty_keep(ps: Seq<Seq<char>>)
    requires
        forall|i: int| 0 <= i < ps.len() ==> (#[trigger] ps[i]).len() > 0,
    ensures
        nonempty(ps) == ps,
    decreases ps.len(),
{
    if ps.len() > 0 {
        let init = ps.drop_last();
        assert forall|i: int| 0 <= i < init.len() implies (#[trigger] init[i]).len() > 0 by {
            assert(init[i] == ps[i]);
        }
        lemma_nonempty_keep(init);
        assert(ps[ps.len() - 1].len() > 0);
        assert(init.push(ps.last()) =~= ps);
    }
}

/// Every piece trimmed.
pub open spec fn trim_all(parts: Seq<Seq<char>>) -> Seq<Seq<char>> {
    parts.map_values(|p: Seq<char>| trim(p))
}

/// Each piece of `parts`, trimmed.
pub fn trimmed_all(parts: &Vec<String>) -> (r: Vec<String>)
    ensures
        views(r@) == trim_all(views(parts@)),
{
    let mut r: Vec<String> = Vec::new();
    let n = parts.len();
    for i in 0..n
        invariant
            n == parts.len(),
            views(r@) == trim_all(views(parts@)).take(i as int),
    {
        let t = trim_str(parts[i].as_str());
        let ghost old_r = r@;
        r.push(t);
        assert(views(parts@)[i as int] == parts@[i as int]@);
        assert(trim_all(views(parts@))[i as int] == t@);
        assert(views(r@) =~= views(old_r).push(t@));
        assert(views(r@) =~= trim_all(views(parts@)).take(i + 1));
    }
    assert(trim_all(views(parts@)).take(n as int) =~= trim_all(views(parts@)));
    r
}

/// A join of two or more pieces is the first piece, the separator, and the
/// join of the others.
pub proof fn lemma_join_first(ps: Seq<Seq<char>>, c: char)
    requires
        ps.len() >= 2,
    ensures
        join(ps, c) == ps[0] + seq![c] + join(ps.drop_first(), c),
    decreases ps.len(),
{
    if ps.len() == 2 {
        assert(ps.drop_first() =~= seq![ps[1]]);
        assert(ps.drop_last() =~= seq![ps[0]]);
        assert(join(ps.drop_last(), c) == ps[0]);
        assert(join(ps.drop_first(), c) == ps[1]);
        assert(join(ps, c) == join(ps.drop_last(), c).push(c) + ps.last());
        assert(join(ps, c) =~= ps[0] + seq![c] + join(ps.drop_first(), c));
    } else {
        let init = ps.drop_last();
        lemma_join_first(init, c);
        assert(init.drop_first() =~= ps.drop_first().drop_last());
        assert(ps.drop_first().last() == ps.last());
        assert(join(ps, c) == join(init, c).push(c) + ps.last());
        assert(join(ps.drop_first(), c) == join(ps.drop_first().drop_last(), c).push(c) + ps.last());
        assert(join(ps, c) =~= ps[0] + seq![c] + join(ps.drop_first(), c));
    }
}

/// Two texts free of a set of characters make a text free of it.
pub proof fn lemma_free_concat(a: Seq<char>, b: Seq<char>, sep: Sep)
    requires
        free_of(a, sep),
        free_of(b, sep),
    ensures
        free_of(a + b, sep),
{
    assert forall|i: int| 0 <= i < (a + b).len() implies !sep.accepts(#[trigger] (a + b)[i]) by {
        if i < a.len() {
            assert((a + b)[i] == a[i]);
        } else {
            assert((a + b)[i] == b[i - a.len()]);
        }
    }
}

/// A text that does not start with a space keeps its first character when
/// trimmed.
pub proof fn lemma_trim_keeps_first(s: Seq<char>)
    requires
        s.len() > 0,
        !is_space(s[0]),
    ensures
        trim(s).len() > 0,
        trim(s)[0] == s[0],
{
    lemma_trim_end_keeps_first(s);
}

proof fn lemma_trim_end_keeps_first(s: Seq<char>)
    requires
        s.len() > 0,
        !is_space(s[0]),
    ensures
        trim_end(s).len() > 0,
        trim_end(s)[0] == s[0],
    decreases s.len(),
{
    if is_space(s.last()) {
        assert(s.len() > 1);
        assert(s.drop_last()[0] == s[0]);
        lemma_trim_end_keeps_first(s.drop_last());
    }
}

} // verus!
