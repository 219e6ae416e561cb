//! Utilities over character sequences: substring search, splitting on line
//! ends and separators, and counting occurrences, each with a spec-level
//! definition and a verified executable counterpart.

use vstd::prelude::*;

verus! {

/// The pattern `p` occurs in `t` starting at position `i`.
pub open spec fn match_at(t: Seq<char>, p: Seq<char>, i: int) -> bool {
    0 <= i && i + p.len() <= t.len() && t.subrange(i, i + p.len()) == p
}

/// `t` contains `p` as a contiguous run of characters.
pub open spec fn contains_seq(t: Seq<char>, p: Seq<char>) -> bool {
    exists|i: int| match_at(t, p, i)
}

/// Index of the first occurrence of `p` in `t`. When there is none the
/// result is `t.len()`, which no occurrence of a nonempty `p` can have,
/// since an occurrence at `i` needs `i + p.len() <= t.len()`.
pub open spec fn first_match(t: Seq<char>, p: Seq<char>) -> nat
    decreases t.len(),
{
    if p.len() == 0 {
        0
    } else if t.len() < p.len() {
        t.len()
    } else if t.take(p.len() as int) == p {
        0
    } else {
        1 + first_match(t.drop_first(), p)
    }
}

/// Index of the first character of `t` satisfying `f`; `t.len()` if none does.
pub open spec fn first_idx(t: Seq<char>, f: spec_fn(char) -> bool) -> nat
    decreases t.len(),
{
    if t.len() == 0 {
        0
    } else if f(t[0]) {
        0
    } else {
        1 + first_idx(t.drop_first(), f)
    }
}

/// Shifting an occurrence across the removal of the first character.
proof fn lemma_match_shift(t: Seq<char>, p: Seq<char>, j: int)
    requires
        t.len() > 0,
        0 <= j,
    ensures
        match_at(t, p, j + 1) <==> match_at(t.drop_first(), p, j),
{
    if match_at(t, p, j + 1) {
        assert(t.drop_first().subrange(j, j + p.len()) =~= t.subrange(j + 1, j + 1 + p.len()));
    }
    if match_at(t.drop_first(), p, j) {
        assert(t.subrange(j + 1, j + 1 + p.len()) =~= t.drop_first().subrange(j, j + p.len()));
    }
}

/// `first_match` is an occurrence when in range, nothing matches before it,
/// and an out-of-range result means `p` does not occur at all.
pub proof fn lemma_first_match_props(t: Seq<char>, p: Seq<char>)
    requires
        p.len() > 0,
    ensures
        first_match(t, p) <= t.len(),
        first_match(t, p) + p.len() <= t.len() ==> match_at(t, p, first_match(t, p) as int),
        forall|j: int| 0 <= j < first_match(t, p) ==> !match_at(t, p, j),
        first_match(t, p) + p.len() > t.len() ==> !contains_seq(t, p),
    decreases t.len(),
{
    if t.len() < p.len() {
        assert forall|j: int| 0 <= j < first_match(t, p) implies !match_at(t, p, j) by {}
        if contains_seq(t, p) {
            let i = choose|i: int| match_at(t, p, i);
            assert(i + p.len() <= t.len());
            assert(false);
        }
    } else if t.take(p.len() as int) == p {
        assert(t.subrange(0, p.len() as int) =~= t.take(p.len() as int));
    } else {
        let tt = t.drop_first();
        lemma_first_match_props(tt, p);
        let fm = first_match(t, p) as int;
        assert(fm == 1 + first_match(tt, p));
        if fm + p.len() <= t.len() {
            lemma_match_shift(t, p, fm - 1);
        }
        assert forall|j: int| 0 <= j < fm implies !match_at(t, p, j) by {
            if j == 0 {
                if match_at(t, p, 0) {
                    assert(t.subrange(0, p.len() as int) =~= t.take(p.len() as int));
                }
            } else {
                lemma_match_shift(t, p, j - 1);
            }
        }
        if fm + p.len() > t.len() {
            if contains_seq(t, p) {
                let i = choose|i: int| match_at(t, p, i);
                if i == 0 {
                    assert(t.subrange(0, p.len() as int) =~= t.take(p.len() as int));
                } else {
                    lemma_match_shift(t, p, i - 1);
                    assert(match_at(tt, p, i - 1));
                }
                assert(false);
            }
        }
    }
}

/// A position that matches, with no match before it, is `first_match`.
pub proof fn lemma_first_match_unique(t: Seq<char>, p: Seq<char>, i: int)
    requires
        p.len() > 0,
        match_at(t, p, i),
        forall|j: int| 0 <= j < i ==> !match_at(t, p, j),
    ensures
        first_match(t, p) == i,
{
    lemma_first_match_props(t, p);
    let fm = first_match(t, p) as int;
    if fm + p.len() > t.len() {
        assert(contains_seq(t, p));
        assert(false);
    }
    if fm < i {
        assert(!match_at(t, p, fm));
        assert(false);
    }
    if i < fm {
        assert(!match_at(t, p, i));
        assert(false);
    }
}

/// `first_idx` points at a satisfying character when in range, and no
/// earlier character satisfies `f`.
pub proof fn lemma_first_idx_props(t: Seq<char>, f: spec_fn(char) -> bool)
    ensures
        first_idx(t, f) <= t.len(),
        first_idx(t, f) < t.len() ==> f(t[first_idx(t, f) as int]),
        forall|j: int| 0 <= j < first_idx(t, f) ==> !f(t[j]),
    decreases t.len(),
{
    if t.len() == 0 {
    } else if f(t[0]) {
    } else {
        lemma_first_idx_props(t.drop_first(), f);
        assert forall|j: int| 0 <= j < first_idx(t, f) implies !f(t[j]) by {
            if j > 0 {
                assert(t.drop_first()[j - 1] == t[j]);
            }
        }
    }
}

/// A position whose character satisfies `f`, with none before, is `first_idx`.
pub proof fn lemma_first_idx_unique(t: Seq<char>, f: spec_fn(char) -> bool, i: int)
    requires
        0 <= i <= t.len(),
        i < t.len() ==> f(t[i]),
        i == t.len() ==> forall|j: int| 0 <= j < t.len() ==> !f(t[j]),
        forall|j: int| 0 <= j < i ==> !f(t[j]),
    ensures
        first_idx(t, f) == i,
{
    lemma_first_idx_props(t, f);
    let fi = first_idx(t, f) as int;
    if fi < i {
        assert(!f(t[fi]));
        assert(false);
    }
    if i < fi {
        assert(!f(t[i]));
        assert(false);
    }
}

/// The characters of `s`, one by one, as a vector.
pub fn chars_of(s: &str) -> (v: Vec<char>)
    ensures
        v@ == s@,
{
    let n: usize = s.unicode_len();
    let mut v: Vec<char> = Vec::new();
    let mut i: usize = 0;
    while i < n
        invariant
            n == s@.len(),
            i <= n,
            v@ == s@.take(i as int),
        decreases n - i,
    {
        let c = s.get_char(i);
        v.push(c);
        i = i + 1;
        assert(v@ =~= s@.take(i as int));
    }
    assert(v@ =~= s@);
    v
}

/// A copy of `v[a..b]`.
pub fn subvec(v: &Vec<char>, a: usize, b: usize) -> (r: Vec<char>)
    requires
        a <= b <= v@.len(),
    ensures
        r@ == v@.subrange(a as int, b as int),
{
    let mut r: Vec<char> = Vec::new();
    let mut i: usize = a;
    while i < b
        invariant
            a <= i <= b <= v@.len(),
            r@ == v@.subrange(a as int, i as int),
        decreases b - i,
    {
        r.push(v[i]);
        i = i + 1;
        assert(r@ =~= v@.subrange(a as int, i as int));
    }
    r
}

/// Whether `pat` occurs in `hay` starting at position `i`.
fn match_at_exec(hay: &Vec<char>, pat: &Vec<char>, i: usize) -> (b: bool)
    requires
        i + pat@.len() <= hay@.len(),
    ensures
        b == match_at(hay@, pat@, i as int),
{
    let n: usize = hay.len();
    let m: usize = pat.len();
    let mut j: usize = 0;
    while j < m
        invariant
            n == hay@.len(),
            m == pat@.len(),
            i + m <= n,
            j <= m,
            forall|k: int| 0 <= k < j ==> hay@[i + k] == pat@[k],
        decreases m - j,
    {
        if hay[i + j] != pat[j] {
            assert(hay@.subrange(i as int, i + m) != pat@) by {
                assert(hay@.subrange(i as int, i + m)[j as int] != pat@[j as int]);
            }
            return false;
        }
        j = j + 1;
    }
    assert(hay@.subrange(i as int, i + m) =~= pat@);
    true
}

/// First occurrence of `pat` in `hay`, as `str::find` reports it.
pub fn find_sub(hay: &Vec<char>, pat: &Vec<char>) -> (r: Option<usize>)
    requires
        pat@.len() > 0,
    ensures
        match r {
            Some(i) => i == first_match(hay@, pat@) && match_at(hay@, pat@, i as int),
            None => !contains_seq(hay@, pat@) && first_match(hay@, pat@) + pat@.len() > hay@.len(),
        },
{
    proof {
        lemma_first_match_props(hay@, pat@);
    }
    let n: usize = hay.len();
    let m: usize = pat.len();
    if n < m {
        return None;
    }
    let mut i: usize = 0;
    while i <= n - m
        invariant
            n == hay@.len(),
            m == pat@.len(),
            0 < m <= n,
            i <= n - m + 1,
            forall|j: int| 0 <= j < i ==> !match_at(hay@, pat@, j),
        decreases n - i,
    {
        if match_at_exec(hay, pat, i) {
            proof {
                lemma_first_match_unique(hay@, pat@, i as int);
            }
            return Some(i);
        }
        i = i + 1;
    }
    proof {
        assert forall|j: int| match_at(hay@, pat@, j) implies false by {
            assert(j + pat@.len() <= hay@.len());
            assert(j < i);
        }
        if first_match(hay@, pat@) + pat@.len() <= hay@.len() {
            assert(match_at(hay@, pat@, first_match(hay@, pat@) as int));
            assert(false);
        }
    }
    None
}

/// Whether `pat` occurs anywhere in `hay`.
pub fn contains_exec(hay: &Vec<char>, pat: &Vec<char>) -> (b: bool)
    requires
        pat@.len() > 0,
    ensures
        b == contains_seq(hay@, pat@),
{
    match find_sub(hay, pat) {
        Some(i) => {
            assert(contains_seq(hay@, pat@)) by {
                assert(match_at(hay@, pat@, i as int));
            }
            true
        },
        None => false,
    }
}

/// How many times `p` occurs in `t`, counting from the left without overlap,
/// as `str::matches` counts.
pub open spec fn count_occ(t: Seq<char>, p: Seq<char>) -> nat
    decreases t.len(),
{
    if p.len() == 0 {
        0
    } else {
        let i = first_match(t, p);
        if i + p.len() > t.len() {
            0
        } else {
            1 + count_occ(t.skip((i + p.len()) as int), p)
        }
    }
}

/// Occurrences of `pat` in `hay`, counted from the left without overlap.
pub fn count_occ_exec(hay: &Vec<char>, pat: &Vec<char>) -> (c: usize)
    requires
        pat@.len() > 0,
    ensures
        c == count_occ(hay@, pat@),
{
    let n: usize = hay.len();
    let mut pos: usize = 0;
    let mut c: usize = 0;
    assert(hay@.skip(0) =~= hay@);
    while pos < n
        invariant
            n == hay@.len(),
            pos <= n,
            pat@.len() > 0,
            c <= pos,
            count_occ(hay@, pat@) == c + count_occ(hay@.skip(pos as int), pat@),
        decreases n - pos,
    {
        let rest = subvec(hay, pos, n);
        assert(rest@ =~= hay@.skip(pos as int));
        match find_sub(&rest, pat) {
            Some(i) => {
                proof {
                    lemma_first_match_props(rest@, pat@);
                }
                let step: usize = i + pat.len();
                assert(count_occ(rest@, pat@) == 1 + count_occ(rest@.skip(step as int), pat@));
                assert(rest@.skip(step as int) =~= hay@.skip(pos + step));
                pos = pos + step;
                c = c + 1;
            },
            None => {
                assert(count_occ(hay@.skip(pos as int), pat@) == 0);
                return c;
            },
        }
    }
    assert(hay@.skip(pos as int) =~= Seq::<char>::empty());
    assert(count_occ(hay@.skip(pos as int), pat@) == 0) by {
        lemma_first_match_props(hay@.skip(pos as int), pat@);
    }
    c
}

/// The views of a sequence of character vectors.
pub open spec fn views(ls: Seq<Vec<char>>) -> Seq<Seq<char>> {
    Seq::new(ls.len(), |i: int| ls[i]@)
}

/// A line with its trailing carriage return removed, as `str::lines` strips
/// it from a segment that a line feed ended.
pub open spec fn strip_cr(l: Seq<char>) -> Seq<char> {
    if l.len() > 0 && l.last() == '\r' {
        l.drop_last()
    } else {
        l
    }
}

/// The lines of `t`, split as `str::lines` splits them: segments end at a
/// line feed, a carriage return before the line feed is stripped, and a
/// final empty segment after a closing line feed is dropped.
pub open spec fn split_lines(t: Seq<char>) -> Seq<Seq<char>>
    decreases t.len(),
{
    if t.len() == 0 {
        Seq::empty()
    } else {
        let i = first_idx(t, |c: char| c == '\n');
        if i >= t.len() {
            seq![t]
        } else {
            seq![strip_cr(t.take(i as int))] + split_lines(t.skip((i + 1) as int))
        }
    }
}

/// The segments of `t` between occurrences of `sep`, as `str::split` yields
/// them for a nonempty separator.
pub open spec fn split_sep(t: Seq<char>, sep: Seq<char>) -> Seq<Seq<char>>
    decreases t.len(),
{
    if sep.len() == 0 {
        seq![t]
    } else {
        let i = first_match(t, sep);
        if i + sep.len() > t.len() {
            seq![t]
        } else {
            seq![t.take(i as int)] + split_sep(t.skip((i + sep.len()) as int), sep)
        }
    }
}

/// The first element of `ls` satisfying `f`, if any.
pub open spec fn first_where(ls: Seq<Seq<char>>, f: spec_fn(Seq<char>) -> bool) -> Option<
    Seq<char>,
>
    decreases ls.len(),
{
    if ls.len() == 0 {
        None
    } else if f(ls[0]) {
        Some(ls[0])
    } else {
        first_where(ls.drop_first(), f)
    }
}

/// The first `Some` that `f` yields on an element of `ls`, if any.
pub open spec fn first_some(ls: Seq<Seq<char>>, f: spec_fn(Seq<char>) -> Option<u64>) -> Option<
    u64,
>
    decreases ls.len(),
{
    if ls.len() == 0 {
        None
    } else if f(ls[0]) is Some {
        f(ls[0])
    } else {
        first_some(ls.drop_first(), f)
    }
}

/// Skipping one non-satisfying element leaves `first_where` unchanged.
pub proof fn lemma_first_where_step(ls: Seq<Seq<char>>, f: spec_fn(Seq<char>) -> bool, i: int)
    requires
        0 <= i < ls.len(),
        !f(ls[i]),
    ensures
        first_where(ls.skip(i), f) == first_where(ls.skip(i + 1), f),
{
    assert(ls.skip(i)[0] == ls[i]);
    assert(ls.skip(i).drop_first() =~= ls.skip(i + 1));
}

/// A satisfying element ends the search.
pub proof fn lemma_first_where_found(ls: Seq<Seq<char>>, f: spec_fn(Seq<char>) -> bool, i: int)
    requires
        0 <= i < ls.len(),
        f(ls[i]),
    ensures
        first_where(ls.skip(i), f) == Some(ls[i]),
{
    assert(ls.skip(i)[0] == ls[i]);
}

/// Skipping one element on which `f` is `None` leaves `first_some` unchanged.
pub proof fn lemma_first_some_step(ls: Seq<Seq<char>>, f: spec_fn(Seq<char>) -> Option<u64>, i: int)
    requires
        0 <= i < ls.len(),
        f(ls[i]) is None,
    ensures
        first_some(ls.skip(i), f) == first_some(ls.skip(i + 1), f),
{
    assert(ls.skip(i)[0] == ls[i]);
    assert(ls.skip(i).drop_first() =~= ls.skip(i + 1));
}

/// An element on which `f` yields a value ends the search.
pub proof fn lemma_first_some_found(
    ls: Seq<Seq<char>>,
    f: spec_fn(Seq<char>) -> Option<u64>,
    i: int,
)
    requires
        0 <= i < ls.len(),
        f(ls[i]) is Some,
    ensures
        first_some(ls.skip(i), f) == f(ls[i]),
{
    assert(ls.skip(i)[0] == ls[i]);
}

/// The lines of `v`, split as `str::lines` splits them.
pub fn split_lines_exec(v: &Vec<char>) -> (ls: Vec<Vec<char>>)
    ensures
        views(ls@) == split_lines(v@),
{
    let n: usize = v.len();
    let mut ls: Vec<Vec<char>> = Vec::new();
    let mut pos: usize = 0;
    assert(v@.skip(0) =~= v@);
    while pos < n
        invariant
            n == v@.len(),
            pos <= n,
            split_lines(v@) == views(ls@) + split_lines(v@.skip(pos as int)),
        decreases n - pos,
    {
        let ghost rest = v@.skip(pos as int);
        let mut j: usize = pos;
        while j < n && v[j] != '\n'
            invariant
                n == v@.len(),
                pos <= j <= n,
                forall|k: int| pos <= k < j ==> v@[k] != '\n',
            decreases n - j,
        {
            j = j + 1;
        }
        proof {
            assert forall|k: int| 0 <= k < j - pos implies !((|c: char| c == '\n')(rest[k])) by {
                assert(rest[k] == v@[pos + k]);
            }
            if j < n {
                assert(rest[j - pos] == v@[j as int]);
            }
            lemma_first_idx_unique(rest, |c: char| c == '\n', j - pos);
        }
        if j == n {
            let line = subvec(v, pos, n);
            assert(line@ =~= rest);
            assert(split_lines(rest) == seq![rest]);
            ls.push(line);
            proof {
                assert(views(ls@) + split_lines(v@.skip(n as int)) =~= split_lines(v@)) by {
                    assert(v@.skip(n as int) =~= Seq::<char>::empty());
                    assert(views(ls@) =~= views(ls@) + split_lines(v@.skip(n as int)));
                }
            }
            pos = n;
        } else {
            let line = if j > pos && v[j - 1] == '\r' {
                subvec(v, pos, j - 1)
            } else {
                subvec(v, pos, j)
            };
            proof {
                let raw = rest.take(j - pos);
                assert(raw =~= v@.subrange(pos as int, j as int));
                if j > pos && v@[j - 1] == '\r' {
                    assert(raw.last() == '\r');
                    assert(line@ =~= raw.drop_last());
                } else {
                    if raw.len() > 0 {
                        assert(raw.last() == v@[j - 1]);
                    }
                    assert(line@ =~= raw);
                }
                assert(line@ == strip_cr(raw));
                assert(split_lines(rest) == seq![strip_cr(raw)] + split_lines(
                    rest.skip(j - pos + 1),
                ));
                assert(rest.skip(j - pos + 1) =~= v@.skip(j + 1));
            }
            let ghost old_dv = views(ls@);
            ls.push(line);
            proof {
                assert(views(ls@) =~= old_dv.push(line@));
                assert(old_dv.push(line@) + split_lines(v@.skip(j + 1)) =~= old_dv + (seq![line@]
                    + split_lines(v@.skip(j + 1))));
            }
            pos = j + 1;
        }
    }
    proof {
        assert(v@.skip(pos as int) =~= Seq::<char>::empty());
        assert(views(ls@) =~= views(ls@) + split_lines(v@.skip(pos as int)));
    }
    ls
}

/// The segments of `v` between occurrences of `sep`.
pub fn split_sep_exec(v: &Vec<char>, sep: &Vec<char>) -> (ls: Vec<Vec<char>>)
    requires
        sep@.len() > 0,
    ensures
        views(ls@) == split_sep(v@, sep@),
{
    let n: usize = v.len();
    let mut ls: Vec<Vec<char>> = Vec::new();
    let mut pos: usize = 0;
    assert(v@.skip(0) =~= v@);
    loop
        invariant
            n == v@.len(),
            pos <= n,
            sep@.len() > 0,
            split_sep(v@, sep@) == views(ls@) + split_sep(v@.skip(pos as int), sep@),
        decreases n - pos,
    {
        let rest = subvec(v, pos, n);
        assert(rest@ =~= v@.skip(pos as int));
        match find_sub(&rest, sep) {
            Some(i) => {
                let token = subvec(v, pos, pos + i);
                proof {
                    assert(rest@.take(i as int) =~= v@.subrange(pos as int, pos + i));
                    assert(split_sep(rest@, sep@) == seq![rest@.take(i as int)] + split_sep(
                        rest@.skip(i + sep@.len()),
                        sep@,
                    ));
                    assert(rest@.skip(i + sep@.len()) =~= v@.skip(pos + i + sep@.len()));
                }
                let ghost old_dv = views(ls@);
                ls.push(token);
                proof {
                    assert(views(ls@) =~= old_dv.push(token@));
                    assert(old_dv.push(token@) + split_sep(v@.skip(pos + i + sep@.len()), sep@)
                        =~= old_dv + (seq![token@] + split_sep(
                        v@.skip(pos + i + sep@.len()),
                        sep@,
                    )));
                }
                pos = pos + i + sep.len();
            },
            None => {
                assert(split_sep(rest@, sep@) == seq![rest@]);
                let ghost old_dv = views(ls@);
                ls.push(rest);
                proof {
                    assert(views(ls@) =~= old_dv.push(rest@));
                    assert(old_dv.push(rest@) =~= old_dv + seq![rest@]);
                }
                return ls;
            },
        }
    }
}

} // verus!
