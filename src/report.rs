use crate::colored_char::{
    closing, column, digit_char, one_sided, placeholder, placeholder_if, left_prefix, line_number_units, line_to_colored_chars, placeholder_due,
    rendered, right_prefix, rows_view, ColoredChar,
};
use crate::diff::{diff, diff_spec, lemma_diff_units_well_formed, well_formed, Diff};
use vstd::prelude::*;
use vstd::seq_lib::lemma_flatten_concat;

verus! {

/// The units of a line pair's left rows, in order.
pub open spec fn left_side(rows: Seq<(Seq<ColoredChar>, Seq<ColoredChar>)>) -> Seq<ColoredChar> {
    rows.map_values(|p: (Seq<ColoredChar>, Seq<ColoredChar>)| p.0).flatten()
}

/// The units of a line pair's right rows, in order.
pub open spec fn right_side(rows: Seq<(Seq<ColoredChar>, Seq<ColoredChar>)>) -> Seq<ColoredChar> {
    rows.map_values(|p: (Seq<ColoredChar>, Seq<ColoredChar>)| p.1).flatten()
}

/// A line pair printed as its left side followed by its right side.
pub open spec fn block(rows: Seq<(Seq<ColoredChar>, Seq<ColoredChar>)>) -> Seq<ColoredChar> {
    left_side(rows) + right_side(rows)
}

pub open spec fn pair_block(e: (int, Seq<Diff<Option<char>>>)) -> Seq<ColoredChar> {
    block(rendered(e.0 as nat, e.1))
}

/// The blocks of all differing line pairs, one after the other.
pub open spec fn blocks(pairs: Seq<(int, Seq<Diff<Option<char>>>)>) -> Seq<ColoredChar> {
    pairs.map_values(|e: (int, Seq<Diff<Option<char>>>)| pair_block(e)).flatten()
}

/// The sequence without its last unit, when it has one.
pub open spec fn trimmed(s: Seq<ColoredChar>) -> Seq<ColoredChar> {
    if s.len() > 0 {
        s.drop_last()
    } else {
        s
    }
}

/// The whole report on two texts.
pub open spec fn report(left: Seq<char>, right: Seq<char>) -> Seq<ColoredChar> {
    trimmed(blocks(diff_spec(left, right)))
}

proof fn lemma_map_push<A, B>(s: Seq<A>, x: A, f: spec_fn(A) -> B)
    ensures
        s.push(x).map_values(f) =~= s.map_values(f).push(f(x)),
{
    assert forall|i: int| 0 <= i < s.len() + 1 implies s.push(x).map_values(f)[i] == s.map_values(
        f,
    ).push(f(x))[i] by {
        if i < s.len() {
            assert(s.push(x)[i] == s[i]);
        }
    }
}

/// Appends the units of a line pair's rows: all left units, then all right units.
pub fn stack_sides(rows: Vec<(Vec<ColoredChar>, Vec<ColoredChar>)>, out: &mut Vec<ColoredChar>)
    ensures
        final(out)@ == old(out)@ + block(rows_view(rows@)),
{
    let ghost rs = rows_view(rows@);
    let ghost all = rows@;
    let mut left: Vec<ColoredChar> = Vec::new();
    let mut right: Vec<ColoredChar> = Vec::new();
    for row in it: rows.into_iter()
        invariant
            it.seq() == all,
            rs == rows_view(all),
            left@ == left_side(rs.take(it.index() as int)),
            right@ == right_side(rs.take(it.index() as int)),
    {
        let ghost i = it.index() as int;
        let (mut l, mut c) = row;
        proof {
            let fl = |p: (Seq<ColoredChar>, Seq<ColoredChar>)| p.0;
            let fr = |p: (Seq<ColoredChar>, Seq<ColoredChar>)| p.1;
            assert(rs.take(i + 1) =~= rs.take(i).push(rs[i]));
            lemma_map_push(rs.take(i), rs[i], fl);
            lemma_map_push(rs.take(i), rs[i], fr);
            rs.take(i).map_values(fl).lemma_flatten_push(rs[i].0);
            rs.take(i).map_values(fr).lemma_flatten_push(rs[i].1);
        }
        left.append(&mut l);
        right.append(&mut c);
    }
    assert(rs.take(rs.len() as int) =~= rs);
    out.append(&mut left);
    out.append(&mut right);
    assert(final(out)@ =~= old(out)@ + block(rs));
}

proof fn lemma_block_ends_with_newline(n: nat, units: Seq<Diff<Option<char>>>)
    ensures
        block(rendered(n, units)).len() > 0,
        block(rendered(n, units)).last() == ColoredChar::Newline,
{
    let rows = rendered(n, units);
    let fr = |p: (Seq<ColoredChar>, Seq<ColoredChar>)| p.1;
    let init = rows.drop_last();
    assert(rows =~= init.push(rows.last()));
    lemma_map_push(init, rows.last(), fr);
    init.map_values(fr).lemma_flatten_push(rows.last().1);
    assert(rows.last().1 == seq![ColoredChar::Newline]);
}

proof fn lemma_blocks_end_with_newline(pairs: Seq<(int, Seq<Diff<Option<char>>>)>)
    ensures
        pairs.len() > 0 ==> blocks(pairs).len() > 0 && blocks(pairs).last()
            == ColoredChar::Newline,
{
    if pairs.len() > 0 {
        let f = |e: (int, Seq<Diff<Option<char>>>)| pair_block(e);
        let init = pairs.drop_last();
        assert(pairs =~= init.push(pairs.last()));
        lemma_map_push(init, pairs.last(), f);
        init.map_values(f).lemma_flatten_push(pair_block(pairs.last()));
        lemma_block_ends_with_newline(pairs.last().0 as nat, pairs.last().1);
    }
}

proof fn lemma_flatten_avoids(s: Seq<Seq<ColoredChar>>, x: ColoredChar)
    requires
        forall|i: int, j: int| 0 <= i < s.len() && 0 <= j < s[i].len() ==> #[trigger] s[i][j] != x,
    ensures
        forall|k: int| 0 <= k < s.flatten().len() ==> #[trigger] s.flatten()[k] != x,
    decreases s.len(),
{
    if s.len() > 0 {
        let rest = s.drop_first();
        assert forall|i: int, j: int| 0 <= i < rest.len() && 0 <= j < rest[i].len() implies #[trigger] rest[i][j] != x by {
            assert(rest[i] == s[i + 1]);
        }
        lemma_flatten_avoids(rest, x);
        assert(s.flatten() == s[0] + rest.flatten());
        assert forall|k: int| 0 <= k < s.flatten().len() implies #[trigger] s.flatten()[k] != x by {
            if k < s[0].len() {
                assert(s[0][k] != x);
            } else {
                assert(s.flatten()[k] == rest.flatten()[k - s[0].len()]);
            }
        }
    }
}

proof fn lemma_line_number_units_kind(n: nat)
    ensures
        forall|k: int| 0 <= k < line_number_units(n).len() ==> #[trigger] line_number_units(n)[k] is LineNumber,
    decreases n,
{
    if n >= 10 {
        lemma_line_number_units_kind(n / 10);
    }
}

proof fn lemma_one_unit_side(side: Seq<ColoredChar>, x: ColoredChar)
    requires
        side == seq![x],
        x != ColoredChar::Newline,
    ensures
        forall|j: int| 0 <= j < side.len() ==> #[trigger] side[j] != ColoredChar::Newline,
{
}

proof fn lemma_column_right(u: Diff<Option<char>>, due: bool)
    ensures
        forall|j: int| 0 <= j < column(u, due).1.len() ==> #[trigger] column(u, due).1[j]
            != ColoredChar::Newline,
{
    let p = placeholder();
    let side = column(u, due).1;
    match u {
        Diff::Same(Some(c)) => lemma_one_unit_side(side, ColoredChar::Same(c)),
        Diff::Different(Some(l), None) => {
            assert forall|j: int| 0 <= j < side.len() implies #[trigger] side[j]
                != ColoredChar::Newline by {
                assert(side[j] == p[j]);
                assert(p[j] is Unimportant);
            }
        },
        Diff::Different(None, Some(r)) => lemma_one_unit_side(side, ColoredChar::Same(r)),
        Diff::Different(Some(l), Some(r)) => lemma_one_unit_side(
            side,
            ColoredChar::DifferentRight(r),
        ),
        _ => {},
    }
}

/// The right side of a line pair's rows up to the closing rows: not empty, and
/// free of line breaks.
proof fn lemma_right_body(n: nat, units: Seq<Diff<Option<char>>>)
    ensures
        right_side(rendered(n, units).drop_last().drop_last()).len() > 0,
        forall|k: int|
            0 <= k < right_side(rendered(n, units).drop_last().drop_last()).len()
                ==> #[trigger] right_side(rendered(n, units).drop_last().drop_last())[k]
                != ColoredChar::Newline,
{
    let rows = rendered(n, units);
    let body = rows.drop_last().drop_last();
    let fr = |p: (Seq<ColoredChar>, Seq<ColoredChar>)| p.1;
    let s = body.map_values(fr);
    let hl = left_prefix(n).len();
    lemma_line_number_units_kind(n);
    assert(right_prefix(n).len() == hl);
    assert forall|i: int, j: int| 0 <= i < s.len() && 0 <= j < s[i].len() implies #[trigger] s[i][j]
        != ColoredChar::Newline by {
        let a = Seq::new(hl, |k: int| (seq![left_prefix(n)[k]], seq![right_prefix(n)[k]]));
        let b = Seq::new(units.len(), |k: int| column(units[k], placeholder_due(units, k)));
        assert(rows == a + b + closing());
        assert(s[i] == rows[i].1);
        if i < hl {
            assert(rows[i] == a[i]);
            let ln = line_number_units(n);
            if i >= ln.len() {
                assert(right_prefix(n)[i] == seq![
                    ColoredChar::Unimportant(':'),
                    ColoredChar::Space,
                    ColoredChar::Unimportant('('),
                    ColoredChar::HookRight('>'),
                    ColoredChar::Unimportant(')'),
                    ColoredChar::Space,
                ][i - ln.len()]);
            } else {
                assert(right_prefix(n)[i] == ln[i]);
            }
        } else {
            assert(rows[i] == b[i - hl]);
            lemma_column_right(units[i - hl], placeholder_due(units, i - hl));
        }
    }
    lemma_flatten_avoids(s, ColoredChar::Newline);
    assert(line_number_units(n).len() > 0);
    assert(s[0] == seq![right_prefix(n)[0]]);
    assert(s.flatten() == s[0] + s.drop_first().flatten());
}

/// A report that is not empty ends with a single line break: line pairs are
/// separated by a blank line, and none follows the last one.
pub proof fn lemma_report_ends_with_one_line_break(left: Seq<char>, right: Seq<char>)
    ensures
        report(left, right).len() > 0 ==> report(left, right).len() >= 2 && report(
            left,
            right,
        ).last() == ColoredChar::Newline && report(left, right)[report(left, right).len() - 2]
            != ColoredChar::Newline,
{
    let ds = diff_spec(left, right);
    if ds.len() > 0 {
        let f = |e: (int, Seq<Diff<Option<char>>>)| pair_block(e);
        let init = ds.drop_last();
        let e = ds.last();
        assert(ds =~= init.push(e));
        lemma_map_push(init, e, f);
        init.map_values(f).lemma_flatten_push(pair_block(e));
        let rows = rendered(e.0 as nat, e.1);
        let body = rows.drop_last().drop_last();
        let fr = |p: (Seq<ColoredChar>, Seq<ColoredChar>)| p.1;
        assert(rows =~= body.push(closing()[0]).push(closing()[1]));
        lemma_map_push(body, closing()[0], fr);
        lemma_map_push(body.push(closing()[0]), closing()[1], fr);
        body.map_values(fr).lemma_flatten_push(seq![ColoredChar::Newline]);
        body.map_values(fr).push(seq![ColoredChar::Newline]).lemma_flatten_push(
            seq![ColoredChar::Newline],
        );
        lemma_right_body(e.0 as nat, e.1);
        let rb = right_side(body);
        assert(right_side(rows) == rb + seq![ColoredChar::Newline] + seq![ColoredChar::Newline]);
        let all = blocks(ds);
        assert(all == blocks(init) + left_side(rows) + rb + seq![ColoredChar::Newline]
            + seq![ColoredChar::Newline]);
        let r = report(left, right);
        assert(r =~= blocks(init) + left_side(rows) + rb + seq![ColoredChar::Newline]);
        assert(r[r.len() - 2] == rb[rb.len() - 1]);
    } else {
        assert(ds.map_values(|e: (int, Seq<Diff<Option<char>>>)| pair_block(e)) =~= seq![]);
    }
}

/// The number of structural units in a sequence.
pub open spec fn unimportant_count(s: Seq<ColoredChar>) -> nat
    decreases s.len(),
{
    if s.len() == 0 {
        0
    } else {
        unimportant_count(s.drop_last()) + if s.last() is Unimportant {
            1nat
        } else {
            0nat
        }
    }
}

proof fn lemma_count_concat(a: Seq<ColoredChar>, b: Seq<ColoredChar>)
    ensures
        unimportant_count(a + b) == unimportant_count(a) + unimportant_count(b),
    decreases b.len(),
{
    if b.len() > 0 {
        lemma_count_concat(a, b.drop_last());
        assert((a + b).drop_last() =~= a + b.drop_last());
    } else {
        assert(a + b =~= a);
    }
}

proof fn lemma_count_single(side: Seq<ColoredChar>, x: ColoredChar)
    requires
        side == seq![x],
        !(x is Unimportant),
    ensures
        unimportant_count(side) == 0,
{
    assert(side.len() == 1);
    assert(side.last() == x);
    assert(side.drop_last() =~= Seq::<ColoredChar>::empty());
    assert(unimportant_count(side.drop_last()) == 0);
}

proof fn lemma_line_number_count(n: nat)
    ensures
        unimportant_count(line_number_units(n)) == 0,
    decreases n,
{
    if n >= 10 {
        lemma_line_number_count(n / 10);
        let s = line_number_units(n);
        assert(s.drop_last() =~= line_number_units(n / 10));
        assert(s.last() is LineNumber);
    } else {
        lemma_count_single(line_number_units(n), ColoredChar::LineNumber(digit_char(n)));
    }
}

proof fn lemma_count_placeholder()
    ensures
        unimportant_count(placeholder()) == 10,
{
    let p = placeholder();
    assert(p.drop_last().drop_last().drop_last().drop_last().drop_last().drop_last().drop_last().drop_last().drop_last().drop_last() =~= seq![]);
    reveal_with_fuel(unimportant_count, 11);
}

/// Where the right side of a line pair runs out before the left, its rows hold
/// the placeholder once: the right side has the three structural units of its
/// prefix and the ten of the placeholder, however many characters are missing.
pub proof fn lemma_right_side_shows_placeholder_once(n: nat, units: Seq<Diff<Option<char>>>)
    requires
        forall|i: int| 0 <= i < units.len() ==> well_formed(#[trigger] units[i]),
        exists|i: int| 0 <= i < units.len() && #[trigger] units[i] matches Diff::Different(Some(_), None),
        forall|i: int| 0 <= i < units.len() ==> !(#[trigger] units[i] matches Diff::Different(None, Some(_))),
    ensures
        unimportant_count(right_side(rendered(n, units))) == 13,
{
    let rows = rendered(n, units);
    let hl = left_prefix(n).len();
    let a = Seq::new(hl, |k: int| (seq![left_prefix(n)[k]], seq![right_prefix(n)[k]]));
    let b = Seq::new(units.len(), |k: int| column(units[k], placeholder_due(units, k)));
    let fr = |p: (Seq<ColoredChar>, Seq<ColoredChar>)| p.1;
    assert(rows == a + b + closing());
    assert((a + b + closing()).map_values(fr) =~= a.map_values(fr) + b.map_values(fr) + closing().map_values(fr));
    lemma_flatten_concat(a.map_values(fr) + b.map_values(fr), closing().map_values(fr));
    lemma_flatten_concat(a.map_values(fr), b.map_values(fr));
    // the prefix rows
    lemma_singletons_flatten(right_prefix(n));
    assert(a.map_values(fr) =~= right_prefix(n).map_values(|c: ColoredChar| seq![c]));
    lemma_line_number_count(n);
    let tail = seq![
        ColoredChar::Unimportant(':'),
        ColoredChar::Space,
        ColoredChar::Unimportant('('),
        ColoredChar::HookRight('>'),
        ColoredChar::Unimportant(')'),
        ColoredChar::Space,
    ];
    lemma_count_concat(line_number_units(n), tail);
    assert(tail.drop_last().drop_last().drop_last().drop_last().drop_last().drop_last() =~= seq![]);
    reveal_with_fuel(unimportant_count, 7);
    assert(unimportant_count(tail) == 3);
    // the closing rows
    assert(closing().map_values(fr) =~= seq![seq![ColoredChar::Newline], seq![ColoredChar::Newline]]);
    let cl = closing().map_values(fr);
    assert(cl.flatten() =~= seq![ColoredChar::Newline, ColoredChar::Newline]) by {
        reveal_with_fuel(Seq::flatten, 3);
    }
    assert(unimportant_count(cl.flatten()) == 0) by {
        assert(cl.flatten().drop_last().drop_last() =~= seq![]);
    }
    // the columns
    lemma_columns_count(units, units.len() as int);
    assert(b.map_values(fr) =~= Seq::new(units.len(), |k: int| column(units[k], placeholder_due(units, k))).take(units.len() as int).map_values(fr));
    lemma_count_concat(right_prefix(n), b.map_values(fr).flatten());
    lemma_count_concat(right_prefix(n) + b.map_values(fr).flatten(), cl.flatten());
}

proof fn lemma_singletons_flatten(s: Seq<ColoredChar>)
    ensures
        s.map_values(|c: ColoredChar| seq![c]).flatten() =~= s,
    decreases s.len(),
{
    if s.len() > 0 {
        let f = |c: ColoredChar| seq![c];
        lemma_singletons_flatten(s.drop_last());
        assert(s =~= s.drop_last().push(s.last()));
        lemma_map_push(s.drop_last(), s.last(), f);
        s.drop_last().map_values(f).lemma_flatten_push(seq![s.last()]);
    }
}

proof fn lemma_columns_count(units: Seq<Diff<Option<char>>>, k: int)
    requires
        0 <= k <= units.len(),
        forall|i: int| 0 <= i < units.len() ==> well_formed(#[trigger] units[i]),
        forall|i: int| 0 <= i < units.len() ==> !(#[trigger] units[i] matches Diff::Different(None, Some(_))),
    ensures
        unimportant_count(Seq::new(units.len(), |i: int| column(units[i], placeholder_due(units, i))).take(k).map_values(|p: (Seq<ColoredChar>, Seq<ColoredChar>)| p.1).flatten())
            == if exists|j: int| 0 <= j < k && one_sided(units[j]) { 10nat } else { 0nat },
    decreases k,
{
    let cols = Seq::new(units.len(), |i: int| column(units[i], placeholder_due(units, i)));
    let fr = |p: (Seq<ColoredChar>, Seq<ColoredChar>)| p.1;
    if k == 0 {
        assert(cols.take(0).map_values(fr) =~= seq![]);
    } else {
        lemma_columns_count(units, k - 1);
        assert(cols.take(k) =~= cols.take(k - 1).push(cols[k - 1]));
        lemma_map_push(cols.take(k - 1), cols[k - 1], fr);
        cols.take(k - 1).map_values(fr).lemma_flatten_push(cols[k - 1].1);
        lemma_count_concat(cols.take(k - 1).map_values(fr).flatten(), cols[k - 1].1);
        let u = units[k - 1];
        let side = cols[k - 1].1;
        lemma_count_placeholder();
        if exists|j: int| 0 <= j < k - 1 && one_sided(units[j]) {
            assert(!placeholder_due(units, k - 1));
        }
        match u {
            Diff::Same(Some(c)) => {
                lemma_count_single(side, ColoredChar::Same(c));
            },
            Diff::Different(Some(l), Some(r)) => {
                lemma_count_single(side, ColoredChar::DifferentRight(r));
            },
            Diff::Different(Some(l), None) => {
                assert(one_sided(u));
                assert(side == placeholder_if(placeholder_due(units, k - 1)));
            },
            _ => {
                assert(well_formed(units[k - 1]));
            },
        }
    }
}

/// Drops the line break that closes the last line pair.
pub fn remove_last_newline(chars: &mut Vec<ColoredChar>)
    requires
        old(chars)@.len() > 0 ==> old(chars)@.last() == ColoredChar::Newline,
    ensures
        final(chars)@ == trimmed(old(chars)@),
{
    if chars.len() > 0 {
        let _ = chars.pop();
    }
}

/// The styled report on two texts: each differing line pair as its left rows
/// then its right rows, without the final line break.
pub fn render(left: &str, right: &str) -> (r: Vec<ColoredChar>)
    ensures
        r@ == report(left@, right@),
        r@.len() > 0 ==> r@.len() >= 2 && r@.last() == ColoredChar::Newline && r@[r@.len() - 2]
            != ColoredChar::Newline,
{
    proof {
        lemma_report_ends_with_one_line_break(left@, right@);
    }
    let pairs = diff(left, right);
    let ghost ds = diff_spec(left@, right@);
    let ghost ps = pairs@;
    let mut chars: Vec<ColoredChar> = Vec::new();
    let ghost f = |e: (int, Seq<Diff<Option<char>>>)| pair_block(e);
    for pair in it: pairs.into_iter()
        invariant
            it.seq() == ps,
            ps.len() == ds.len(),
            forall|k: int| 0 <= k < ps.len() ==> ps[k].0 == ds[k].0 && ps[k].1@ == ds[k].1,
            ds == diff_spec(left@, right@),
            f == (|e: (int, Seq<Diff<Option<char>>>)| pair_block(e)),
            chars@ == ds.take(it.index() as int).map_values(f).flatten(),
    {
        let ghost i = it.index() as int;
        let (number, units) = pair;
        proof {
            assert(ds[i].1 == units@);
            lemma_diff_units_well_formed(left@, right@);
            assert(ds.take(i + 1) =~= ds.take(i).push(ds[i]));
            lemma_map_push(ds.take(i), ds[i], f);
            ds.take(i).map_values(f).lemma_flatten_push(pair_block(ds[i]));
        }
        let rows = line_to_colored_chars(number, units);
        stack_sides(rows, &mut chars);
    }
    assert(ds.take(ds.len() as int) =~= ds);
    proof {
        lemma_blocks_end_with_newline(ds);
    }
    remove_last_newline(&mut chars);
    chars
}

} // verus!
