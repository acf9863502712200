use itertools::{EitherOrBoth, Itertools};
use vstd::prelude::*;

verus! {

/// One aligned position of two sequences: the shared value, or what each side holds.
#[derive(Debug, PartialEq, Eq, Structural)]
pub enum Diff<T> {
    Same(T),
    Different(T, T),
}

/// One position of two sequences walked side by side to the end of the longer.
pub enum Paired<T> {
    Both(T, T),
    Left(T),
    Right(T),
}

pub open spec fn longer<A, B>(a: Seq<A>, b: Seq<B>) -> nat {
    if a.len() >= b.len() {
        a.len()
    } else {
        b.len()
    }
}

/// What position `i` of the two sequences holds when the shorter is padded with nothing.
pub open spec fn paired_at<T>(a: Seq<T>, b: Seq<T>, i: int) -> Paired<T> {
    if i < a.len() && i < b.len() {
        Paired::Both(a[i], b[i])
    } else if i < a.len() {
        Paired::Left(a[i])
    } else {
        Paired::Right(b[i])
    }
}

/// The aligned unit of a position: equal items are `Same`, anything else `Different`.
pub open spec fn unit_of<T>(p: Paired<T>) -> Diff<Option<T>> {
    match p {
        Paired::Both(l, r) => if l == r {
            Diff::Same(Some(l))
        } else {
            Diff::Different(Some(l), Some(r))
        },
        Paired::Left(l) => Diff::Different(Some(l), None),
        Paired::Right(r) => Diff::Different(None, Some(r)),
    }
}

/// Positional alignment of two sequences.
pub open spec fn align<T>(a: Seq<T>, b: Seq<T>) -> Seq<Diff<Option<T>>> {
    Seq::new(longer(a, b), |i: int| unit_of(paired_at(a, b, i)))
}

/// The alignment of two sequences is as long as the longer one, and where both
/// have an item it is `Same` exactly when the two items are equal.
pub proof fn lemma_align_totality<T>(a: Seq<T>, b: Seq<T>)
    ensures
        align(a, b).len() == if a.len() >= b.len() {
            a.len()
        } else {
            b.len()
        },
        forall|i: int|
            0 <= i < a.len() && i < b.len() ==> (#[trigger] align(a, b)[i] is Same <==> a[i] == b[i]),
{
}

/// Relies on itertools::Itertools::zip_longest: it yields `Both` while both sides
/// have an item, then the remaining items of the longer side as `Left` or `Right`.
#[verifier::external_body]
fn zip_longest<T>(left: Vec<T>, right: Vec<T>) -> (r: Vec<Paired<T>>)
    ensures
        r@.len() == longer(left@, right@),
        forall|i: int| 0 <= i < r@.len() ==> r@[i] == paired_at(left@, right@, i),
{
    left.into_iter().zip_longest(right).map(|p| match p {
        EitherOrBoth::Both(l, r) => Paired::Both(l, r),
        EitherOrBoth::Left(l) => Paired::Left(l),
        EitherOrBoth::Right(r) => Paired::Right(r),
    }).collect()
}

/// Collects the characters of a string.
pub fn char_vec(s: &str) -> (r: Vec<char>)
    ensures
        r@ == s@,
{
    let mut r: Vec<char> = Vec::new();
    for c in it: s.chars()
        invariant
            it.seq() == s@,
            r@ == it.seq().take(it.index() as int),
    {
        r.push(c);
    }
    r
}

/// Character alignment of two lines.
pub fn align_chars(left: Vec<char>, right: Vec<char>) -> (r: Vec<Diff<Option<char>>>)
    ensures
        r@ == align(left@, right@),
{
    let ghost a = left@;
    let ghost b = right@;
    let zipped = zip_longest(left, right);
    let ghost zs = zipped@;
    let mut r: Vec<Diff<Option<char>>> = Vec::new();
    for p in it: zipped.into_iter()
        invariant
            it.seq() == zs,
            zs.len() == longer(a, b),
            forall|i: int| 0 <= i < zs.len() ==> zs[i] == paired_at(a, b, i),
            r@.len() == it.index(),
            forall|i: int| 0 <= i < it.index() ==> r@[i] == unit_of(paired_at(a, b, i)),
    {
        let unit = match p {
            Paired::Both(l, c) => if l == c {
                Diff::Same(Some(l))
            } else {
                Diff::Different(Some(l), Some(c))
            },
            Paired::Left(l) => Diff::Different(Some(l), None),
            Paired::Right(c) => Diff::Different(None, Some(c)),
        };
        r.push(unit);
    }
    assert(r@ =~= align(a, b));
    r
}

/// A line without the carriage return that ends a `\r\n` terminator.
pub open spec fn strip_cr(l: Seq<char>) -> Seq<char> {
    if l.len() > 0 && l.last() == '\r' {
        l.drop_last()
    } else {
        l
    }
}

/// After the first `n` characters: the finished lines and the line being read.
pub open spec fn split_state(s: Seq<char>, n: nat) -> (Seq<Seq<char>>, Seq<char>)
    decreases n,
{
    if n == 0 {
        (seq![], seq![])
    } else {
        let prev = split_state(s, (n - 1) as nat);
        if s[n - 1] == '\n' {
            (prev.0.push(strip_cr(prev.1)), seq![])
        } else {
            (prev.0, prev.1.push(s[n - 1]))
        }
    }
}

/// The lines of a text: split at `\n` or `\r\n`; a last line without terminator
/// counts when it is not empty.
pub open spec fn split_lines(s: Seq<char>) -> Seq<Seq<char>> {
    let st = split_state(s, s.len());
    if st.1.len() == 0 {
        st.0
    } else {
        st.0.push(st.1)
    }
}

pub open spec fn lines_view(v: Seq<Vec<char>>) -> Seq<Seq<char>> {
    v.map_values(|l: Vec<char>| l@)
}

/// Splits a text into its lines.
pub fn split_lines_of(s: &Vec<char>) -> (r: Vec<Vec<char>>)
    ensures
        lines_view(r@) == split_lines(s@),
{
    let mut done: Vec<Vec<char>> = Vec::new();
    let mut cur: Vec<char> = Vec::new();
    let mut i: usize = 0;
    while i < s.len()
        invariant
            i <= s@.len(),
            lines_view(done@) == split_state(s@, i as nat).0,
            cur@ == split_state(s@, i as nat).1,
        decreases s@.len() - i,
    {
        let c = s[i];
        if c == '\n' {
            let n = cur.len();
            if n > 0 && cur[n - 1] == '\r' {
                cur.pop();
            }
            let ghost before = lines_view(done@);
            done.push(cur);
            assert(lines_view(done@) =~= before.push(cur@));
            cur = Vec::new();
        } else {
            cur.push(c);
        }
        i = i + 1;
    }
    if cur.len() > 0 {
        let ghost before = lines_view(done@);
        done.push(cur);
        assert(lines_view(done@) =~= before.push(cur@));
    }
    done
}

/// Whether two lines hold the same characters.
pub fn same_chars(a: &Vec<char>, b: &Vec<char>) -> (r: bool)
    ensures
        r == (a@ == b@),
{
    if a.len() != b.len() {
        return false;
    }
    let mut i: usize = 0;
    while i < a.len()
        invariant
            a@.len() == b@.len(),
            i <= a@.len(),
            forall|j: int| 0 <= j < i ==> a@[j] == b@[j],
        decreases a@.len() - i,
    {
        if a[i] != b[i] {
            return false;
        }
        i = i + 1;
    }
    assert(a@ =~= b@);
    true
}

pub open spec fn opt_line(o: Option<Vec<char>>) -> Option<Seq<char>> {
    match o {
        Some(l) => Some(l@),
        None => None,
    }
}

pub open spec fn line_unit_view(d: Diff<Option<Vec<char>>>) -> Diff<Option<Seq<char>>> {
    match d {
        Diff::Same(l) => Diff::Same(opt_line(l)),
        Diff::Different(l, r) => Diff::Different(opt_line(l), opt_line(r)),
    }
}

/// Line alignment of two texts, each position numbered from 1.
fn lines(left: &str, right: &str) -> (r: Vec<(usize, Diff<Option<Vec<char>>>)>)
    ensures
        r@.len() == align(split_lines(left@), split_lines(right@)).len(),
        forall|i: int|
            0 <= i < r@.len() ==> r@[i].0 == i + 1 && line_unit_view(r@[i].1) == align(
                split_lines(left@),
                split_lines(right@),
            )[i],
        r@.len() == longer(split_lines(left@), split_lines(right@)),
        forall|i: int|
            0 <= i < split_lines(left@).len() && i < split_lines(right@).len() ==> (
            #[trigger] r@[i].1 is Same <==> split_lines(left@)[i] == split_lines(right@)[i]),
{
    let ghost la = split_lines(left@);
    let ghost lb = split_lines(right@);
    proof {
        lemma_align_totality(la, lb);
    }
    let left = split_lines_of(&char_vec(left));
    let right = split_lines_of(&char_vec(right));
    let ghost a = left@;
    let ghost b = right@;
    let zipped = zip_longest(left, right);
    let ghost zs = zipped@;
    let ghost units = align(lines_view(a), lines_view(b));
    let count = zipped.len();
    let mut r: Vec<(usize, Diff<Option<Vec<char>>>)> = Vec::new();
    for p in it: zipped.into_iter()
        invariant
            it.seq() == zs,
            zs.len() == longer(a, b),
            forall|i: int| 0 <= i < zs.len() ==> zs[i] == paired_at(a, b, i),
            units == align(lines_view(a), lines_view(b)),
            zs.len() == count,
            r@.len() == it.index(),
            forall|i: int|
                0 <= i < it.index() ==> r@[i].0 == i + 1 && line_unit_view(r@[i].1) == units[i],
    {
        let unit = match p {
            Paired::Both(l, c) => if same_chars(&l, &c) {
                Diff::Same(Some(l))
            } else {
                Diff::Different(Some(l), Some(c))
            },
            Paired::Left(l) => Diff::Different(Some(l), None),
            Paired::Right(c) => Diff::Different(None, Some(c)),
        };
        r.push((r.len() + 1, unit));
    }
    assert forall|i: int| 0 <= i < la.len() && i < lb.len() implies (#[trigger] r@[i].1 is Same
        <==> la[i] == lb[i]) by {
        assert(line_unit_view(r@[i].1) == align(la, lb)[i]);
    }
    r
}

pub open spec fn opt_chars(o: Option<Seq<char>>) -> Seq<char> {
    match o {
        Some(l) => l,
        None => seq![],
    }
}

/// Character alignment of a line pair; a missing side aligns as an empty line.
pub open spec fn line_pair_units(l: Option<Seq<char>>, r: Option<Seq<char>>) -> Seq<
    Diff<Option<char>>,
> {
    align(opt_chars(l), opt_chars(r))
}

pub open spec fn opt_str(o: Option<&str>) -> Option<Seq<char>> {
    match o {
        Some(s) => Some(s@),
        None => None,
    }
}

/// Character alignment of one line pair, at least one side present.
pub fn chars(left: Option<&str>, right: Option<&str>) -> (r: Vec<Diff<Option<char>>>)
    requires
        !(left is None && right is None),
    ensures
        r@ == line_pair_units(opt_str(left), opt_str(right)),
{
    let l = match left {
        Some(s) => char_vec(s),
        None => Vec::new(),
    };
    let c = match right {
        Some(s) => char_vec(s),
        None => Vec::new(),
    };
    align_chars(l, c)
}

fn line_chars(left: Option<Vec<char>>, right: Option<Vec<char>>) -> (r: Vec<Diff<Option<char>>>)
    ensures
        r@ == line_pair_units(opt_line(left), opt_line(right)),
{
    let l = match left {
        Some(s) => s,
        None => Vec::new(),
    };
    let c = match right {
        Some(s) => s,
        None => Vec::new(),
    };
    align_chars(l, c)
}

/// The differing positions among the first `n` aligned lines, each with its line
/// number and its character alignment.
pub open spec fn differing(units: Seq<Diff<Option<Seq<char>>>>, n: nat) -> Seq<
    (int, Seq<Diff<Option<char>>>),
>
    decreases n,
{
    if n == 0 {
        seq![]
    } else {
        let prev = differing(units, (n - 1) as nat);
        match units[n - 1] {
            Diff::Same(_) => prev,
            Diff::Different(l, r) => prev.push((n as int, line_pair_units(l, r))),
        }
    }
}

/// A unit that alignment can produce: `Same` carries a character, and a
/// `Different` has at least one side.
pub open spec fn well_formed(u: Diff<Option<char>>) -> bool {
    match u {
        Diff::Same(c) => c is Some,
        Diff::Different(l, r) => l is Some || r is Some,
    }
}

proof fn lemma_differing_well_formed(units: Seq<Diff<Option<Seq<char>>>>, n: nat)
    requires
        n <= units.len(),
    ensures
        forall|k: int, i: int|
            0 <= k < differing(units, n).len() && 0 <= i < differing(units, n)[k].1.len()
                ==> well_formed(#[trigger] differing(units, n)[k].1[i]),
    decreases n,
{
    if n > 0 {
        let prev = differing(units, (n - 1) as nat);
        lemma_differing_well_formed(units, (n - 1) as nat);
        if let Diff::Different(l, r) = units[n - 1] {
            let added = line_pair_units(l, r);
            assert(forall|i: int| 0 <= i < added.len() ==> well_formed(#[trigger] added[i]));
            assert(differing(units, n) == prev.push((n as int, added)));
            assert forall|k: int, i: int|
                0 <= k < differing(units, n).len() && 0 <= i < differing(units, n)[k].1.len()
                    implies well_formed(#[trigger] differing(units, n)[k].1[i]) by {
                if k < prev.len() {
                    assert(differing(units, n)[k] == prev[k]);
                }
            }
        }
    }
}

/// Every character alignment in the report on two texts is well formed.
pub proof fn lemma_diff_units_well_formed(left: Seq<char>, right: Seq<char>)
    ensures
        forall|k: int, i: int|
            0 <= k < diff_spec(left, right).len() && 0 <= i < diff_spec(left, right)[k].1.len()
                ==> well_formed(#[trigger] diff_spec(left, right)[k].1[i]),
{
    let units = align(split_lines(left), split_lines(right));
    lemma_differing_well_formed(units, units.len());
}

/// The line pairs in which two texts differ, numbered by position.
pub open spec fn diff_spec(left: Seq<char>, right: Seq<char>) -> Seq<
    (int, Seq<Diff<Option<char>>>),
> {
    let units = align(split_lines(left), split_lines(right));
    differing(units, units.len())
}

/// The differing line pairs of two texts: each with its 1-based line number and
/// the character alignment of its two sides.
pub fn diff(left: &str, right: &str) -> (r: Vec<(usize, Vec<Diff<Option<char>>>)>)
    ensures
        r@.len() == diff_spec(left@, right@).len(),
        forall|k: int|
            0 <= k < r@.len() ==> r@[k].0 == diff_spec(left@, right@)[k].0 && r@[k].1@
                == diff_spec(left@, right@)[k].1,
{
    let numbered = lines(left, right);
    let ghost units = align(split_lines(left@), split_lines(right@));
    let ghost ns = numbered@;
    let mut r: Vec<(usize, Vec<Diff<Option<char>>>)> = Vec::new();
    for item in it: numbered.into_iter()
        invariant
            it.seq() == ns,
            ns.len() == units.len(),
            forall|i: int| 0 <= i < ns.len() ==> ns[i].0 == i + 1 && line_unit_view(ns[i].1) == units[i],
            r@.len() == differing(units, it.index() as nat).len(),
            forall|k: int|
                0 <= k < r@.len() ==> r@[k].0 == differing(units, it.index() as nat)[k].0
                    && r@[k].1@ == differing(units, it.index() as nat)[k].1,
    {
        let ghost i = it.index();
        assert(item == ns[i]);
        let (number, unit) = item;
        match unit {
            Diff::Same(_) => {},
            Diff::Different(l, c) => {
                r.push((number, line_chars(l, c)));
            },
        }
    }
    r
}

} // verus!
