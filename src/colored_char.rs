use crate::diff::{well_formed, Diff};
use vstd::prelude::*;

verus! {

/// One styled unit of the report.
#[derive(Clone, Copy, Debug, PartialEq, Eq, Structural)]
pub enum ColoredChar {
    Unimportant(char),
    LineNumber(char),
    Same(char),
    HookLeft(char),
    HookRight(char),
    DifferentLeft(char),
    DifferentRight(char),
    Space,
    Newline,
    Blank,
}

impl ColoredChar {
    pub fn wrap(self) -> (r: Vec<Self>)
        ensures
            r@ == seq![self],
    {
        vec![self]
    }
}

pub open spec fn digit_char(d: nat) -> char {
    if d == 0 {
        '0'
    } else if d == 1 {
        '1'
    } else if d == 2 {
        '2'
    } else if d == 3 {
        '3'
    } else if d == 4 {
        '4'
    } else if d == 5 {
        '5'
    } else if d == 6 {
        '6'
    } else if d == 7 {
        '7'
    } else if d == 8 {
        '8'
    } else {
        '9'
    }
}

/// The decimal digits of a number as line-number units, most significant first.
pub open spec fn line_number_units(n: nat) -> Seq<ColoredChar>
    decreases n,
{
    if n < 10 {
        seq![ColoredChar::LineNumber(digit_char(n))]
    } else {
        line_number_units(n / 10).push(ColoredChar::LineNumber(digit_char(n % 10)))
    }
}

/// The prefix of one side of a line pair: `<number>: (<hook>) `.
pub open spec fn prefix(n: nat, hook: ColoredChar) -> Seq<ColoredChar> {
    line_number_units(n) + seq![
        ColoredChar::Unimportant(':'),
        ColoredChar::Space,
        ColoredChar::Unimportant('('),
        hook,
        ColoredChar::Unimportant(')'),
        ColoredChar::Space,
    ]
}

fn digit_of(d: usize) -> (c: char)
    requires
        d < 10,
    ensures
        c == digit_char(d as nat),
{
    if d == 0 {
        '0'
    } else if d == 1 {
        '1'
    } else if d == 2 {
        '2'
    } else if d == 3 {
        '3'
    } else if d == 4 {
        '4'
    } else if d == 5 {
        '5'
    } else if d == 6 {
        '6'
    } else if d == 7 {
        '7'
    } else if d == 8 {
        '8'
    } else {
        '9'
    }
}

fn push_line_number(n: usize, out: &mut Vec<ColoredChar>)
    ensures
        final(out)@ == old(out)@ + line_number_units(n as nat),
    decreases n,
{
    if n >= 10 {
        push_line_number(n / 10, out);
    }
    out.push(ColoredChar::LineNumber(digit_of(n % 10)));
}

/// One side's prefix, one unit per entry.
pub fn prepare_buffer(line_number: usize, hook: ColoredChar) -> (r: Vec<Vec<ColoredChar>>)
    ensures
        r@.len() == prefix(line_number as nat, hook).len(),
        forall|k: int| 0 <= k < r@.len() ==> r@[k]@ == seq![prefix(line_number as nat, hook)[k]],
{
    let mut units: Vec<ColoredChar> = Vec::new();
    push_line_number(line_number, &mut units);
    units.push(ColoredChar::Unimportant(':'));
    units.push(ColoredChar::Space);
    units.push(ColoredChar::Unimportant('('));
    units.push(hook);
    units.push(ColoredChar::Unimportant(')'));
    units.push(ColoredChar::Space);
    assert(units@ =~= prefix(line_number as nat, hook));
    let mut r: Vec<Vec<ColoredChar>> = Vec::new();
    for k in 0..units.len()
        invariant
            units@ == prefix(line_number as nat, hook),
            r@.len() == k,
            forall|j: int| 0 <= j < k ==> r@[j]@ == seq![units@[j]],
    {
        r.push(units[k].wrap());
    }
    r
}

/// A position where exactly one side has a character.
pub open spec fn one_sided(u: Diff<Option<char>>) -> bool {
    match u {
        Diff::Different(Some(_), None) => true,
        Diff::Different(None, Some(_)) => true,
        _ => false,
    }
}

/// The placeholder shown once per line pair where one side has no character.
pub open spec fn placeholder() -> Seq<ColoredChar> {
    seq![
        ColoredChar::Unimportant('e'),
        ColoredChar::Unimportant('m'),
        ColoredChar::Unimportant('p'),
        ColoredChar::Unimportant('t'),
        ColoredChar::Unimportant('y'),
        ColoredChar::Unimportant(' '),
        ColoredChar::Unimportant('l'),
        ColoredChar::Unimportant('i'),
        ColoredChar::Unimportant('n'),
        ColoredChar::Unimportant('e'),
    ]
}

/// Whether position `i` is the first one-sided position of the line pair.
pub open spec fn placeholder_due(units: Seq<Diff<Option<char>>>, i: int) -> bool {
    one_sided(units[i]) && forall|j: int| 0 <= j < i ==> !one_sided(units[j])
}

/// Within one line pair the placeholder is due at one position at most, and at
/// one position exactly when some position has a character on one side only.
pub proof fn lemma_placeholder_once(units: Seq<Diff<Option<char>>>)
    ensures
        forall|i: int, j: int|
            0 <= i < units.len() && 0 <= j < units.len() && placeholder_due(units, i)
                && placeholder_due(units, j) ==> i == j,
        (exists|i: int| 0 <= i < units.len() && one_sided(units[i])) ==> (exists|i: int|
            0 <= i < units.len() && placeholder_due(units, i)),
{
    assert forall|i: int, j: int|
        0 <= i < units.len() && 0 <= j < units.len() && placeholder_due(units, i)
            && placeholder_due(units, j) implies i == j by {
        if i < j {
            assert(!one_sided(units[i]));
        } else if j < i {
            assert(!one_sided(units[j]));
        }
    }
    if exists|i: int| 0 <= i < units.len() && one_sided(units[i]) {
        let w = choose|i: int| 0 <= i < units.len() && one_sided(units[i]);
        let first = first_one_sided(units, w);
        assert(placeholder_due(units, first));
    }
}

proof fn first_one_sided(units: Seq<Diff<Option<char>>>, w: int) -> (f: int)
    requires
        0 <= w < units.len(),
        one_sided(units[w]),
    ensures
        0 <= f <= w,
        placeholder_due(units, f),
    decreases w,
{
    if exists|j: int| 0 <= j < w && one_sided(units[j]) {
        let v = choose|j: int| 0 <= j < w && one_sided(units[j]);
        first_one_sided(units, v)
    } else {
        w
    }
}

pub open spec fn placeholder_if(due: bool) -> Seq<ColoredChar> {
    if due {
        placeholder()
    } else {
        seq![]
    }
}

/// The left and right units of one aligned position.
pub open spec fn column(u: Diff<Option<char>>, due: bool) -> (Seq<ColoredChar>, Seq<ColoredChar>) {
    match u {
        Diff::Same(Some(c)) => (seq![ColoredChar::Same(c)], seq![ColoredChar::Same(c)]),
        Diff::Different(Some(l), None) => (seq![ColoredChar::Same(l)], placeholder_if(due)),
        Diff::Different(None, Some(r)) => (placeholder_if(due), seq![ColoredChar::Same(r)]),
        Diff::Different(Some(l), Some(r)) => (
            seq![ColoredChar::DifferentLeft(l)],
            seq![ColoredChar::DifferentRight(r)],
        ),
        _ => (seq![], seq![]),
    }
}

pub open spec fn left_prefix(n: nat) -> Seq<ColoredChar> {
    prefix(n, ColoredChar::HookLeft('<'))
}

pub open spec fn right_prefix(n: nat) -> Seq<ColoredChar> {
    prefix(n, ColoredChar::HookRight('>'))
}

/// The closing rows: a line break on both sides, then a blank on the left and a
/// second line break on the right.
pub open spec fn closing() -> Seq<(Seq<ColoredChar>, Seq<ColoredChar>)> {
    seq![
        (seq![ColoredChar::Newline], seq![ColoredChar::Newline]),
        (seq![ColoredChar::Blank], seq![ColoredChar::Newline]),
    ]
}

/// The rows of one line pair: prefixes in lockstep, one row per aligned
/// position, then the closing rows.
pub open spec fn rendered(n: nat, units: Seq<Diff<Option<char>>>) -> Seq<
    (Seq<ColoredChar>, Seq<ColoredChar>),
> {
    Seq::new(left_prefix(n).len(), |k: int| (seq![left_prefix(n)[k]], seq![right_prefix(n)[k]]))
        + Seq::new(units.len(), |i: int| column(units[i], placeholder_due(units, i)))
        + closing()
}

/// Hands out the placeholder the first time it is asked for, nothing afterwards.
pub fn empty_line_once(should_appear: &mut bool) -> (r: Vec<ColoredChar>)
    ensures
        !*final(should_appear),
        r@ == placeholder_if(*old(should_appear)),
{
    if *should_appear {
        *should_appear = false;
        let r = vec![
            ColoredChar::Unimportant('e'),
            ColoredChar::Unimportant('m'),
            ColoredChar::Unimportant('p'),
            ColoredChar::Unimportant('t'),
            ColoredChar::Unimportant('y'),
            ColoredChar::Unimportant(' '),
            ColoredChar::Unimportant('l'),
            ColoredChar::Unimportant('i'),
            ColoredChar::Unimportant('n'),
            ColoredChar::Unimportant('e'),
        ];
        assert(r@ =~= placeholder());
        r
    } else {
        Vec::new()
    }
}

pub open spec fn rows_view(rows: Seq<(Vec<ColoredChar>, Vec<ColoredChar>)>) -> Seq<
    (Seq<ColoredChar>, Seq<ColoredChar>),
> {
    rows.map_values(|p: (Vec<ColoredChar>, Vec<ColoredChar>)| (p.0@, p.1@))
}

proof fn lemma_rows_view_push(
    rows: Seq<(Vec<ColoredChar>, Vec<ColoredChar>)>,
    row: (Vec<ColoredChar>, Vec<ColoredChar>),
)
    ensures
        rows_view(rows.push(row)) =~= rows_view(rows).push((row.0@, row.1@)),
{
    assert forall|i: int| 0 <= i < rows.len() + 1 implies rows_view(rows.push(row))[i] == rows_view(rows).push((row.0@, row.1@))[i] by {
        if i < rows.len() {
            assert(rows.push(row)[i] == rows[i]);
        }
    }
}

/// Renders one differing line pair as rows of left and right units.
pub fn line_to_colored_chars(line_number: usize, line: Vec<Diff<Option<char>>>) -> (r: Vec<
    (Vec<ColoredChar>, Vec<ColoredChar>),
>)
    requires
        forall|i: int| 0 <= i < line@.len() ==> well_formed(#[trigger] line@[i]),
    ensures
        rows_view(r@) == rendered(line_number as nat, line@),
{
    let ghost n = line_number as nat;
    let left_buffer = prepare_buffer(line_number, ColoredChar::HookLeft('<'));
    let right_buffer = prepare_buffer(line_number, ColoredChar::HookRight('>'));
    let mut r: Vec<(Vec<ColoredChar>, Vec<ColoredChar>)> = Vec::new();
    let ghost head = Seq::new(
        left_prefix(n).len(),
        |k: int| (seq![left_prefix(n)[k]], seq![right_prefix(n)[k]]),
    );
    for k in 0..left_buffer.len()
        invariant
            left_buffer@.len() == left_prefix(n).len(),
            right_buffer@.len() == right_prefix(n).len(),
            left_prefix(n).len() == right_prefix(n).len(),
            forall|j: int| 0 <= j < left_buffer@.len() ==> left_buffer@[j]@ == seq![left_prefix(n)[j]],
            forall|j: int| 0 <= j < right_buffer@.len() ==> right_buffer@[j]@ == seq![right_prefix(n)[j]],
            head == Seq::new(
                left_prefix(n).len(),
                |k: int| (seq![left_prefix(n)[k]], seq![right_prefix(n)[k]]),
            ),
            rows_view(r@) =~= head.take(k as int),
    {
        let row = (left_buffer[k][0].wrap(), right_buffer[k][0].wrap());
        proof {
            lemma_rows_view_push(r@, row);
        }
        r.push(row);
        assert(rows_view(r@) =~= head.take(k + 1));
    }
    let ghost units = line@;
    let ghost cols = Seq::new(units.len(), |i: int| column(units[i], placeholder_due(units, i)));
    let mut empty_line_should_appear = true;
    for diff in it: line.into_iter()
        invariant
            it.seq() == units,
            forall|i: int| 0 <= i < units.len() ==> well_formed(#[trigger] units[i]),
            empty_line_should_appear == (forall|j: int| 0 <= j < it.index() ==> !one_sided(units[j])),
            cols == Seq::new(units.len(), |i: int| column(units[i], placeholder_due(units, i))),
            head.len() == left_prefix(n).len(),
            rows_view(r@) =~= head + cols.take(it.index() as int),
    {
        let ghost i = it.index() as int;
        let ghost shown = empty_line_should_appear;
        let row = match diff {
            Diff::Same(Some(c)) => (ColoredChar::Same(c).wrap(), ColoredChar::Same(c).wrap()),
            Diff::Different(Some(l), None) => (
                ColoredChar::Same(l).wrap(),
                empty_line_once(&mut empty_line_should_appear),
            ),
            Diff::Different(None, Some(c)) => (
                empty_line_once(&mut empty_line_should_appear),
                ColoredChar::Same(c).wrap(),
            ),
            Diff::Different(Some(l), Some(c)) => (
                ColoredChar::DifferentLeft(l).wrap(),
                ColoredChar::DifferentRight(c).wrap(),
            ),
            Diff::Same(None) | Diff::Different(None, None) => {
                assert(well_formed(units[i]));
                (Vec::new(), Vec::new())
            },
        };
        assert(placeholder_due(units, i) == (one_sided(units[i]) && shown));
        assert((row.0@, row.1@) == cols[i]);
        proof {
            lemma_rows_view_push(r@, row);
        }
        r.push(row);
        assert(rows_view(r@) =~= head + cols.take(i + 1));
    }
    let row = (ColoredChar::Newline.wrap(), ColoredChar::Newline.wrap());
    proof {
        lemma_rows_view_push(r@, row);
    }
    r.push(row);
    let row = (ColoredChar::Blank.wrap(), ColoredChar::Newline.wrap());
    proof {
        lemma_rows_view_push(r@, row);
    }
    r.push(row);
    assert(rows_view(r@) =~= rendered(n, units));
    r
}

/// The visual style of a unit.
#[derive(Clone, Copy, Debug, PartialEq, Eq, Structural)]
pub enum Style {
    White,
    Yellow,
    BrightWhite,
    Red,
    Green,
    BlackOnRed,
    BlackOnGreen,
}

/// The text that a unit stands for.
pub open spec fn unit_text(c: ColoredChar) -> Seq<char> {
    match c {
        ColoredChar::Unimportant(x) => seq![x],
        ColoredChar::LineNumber(x) => seq![x],
        ColoredChar::Same(x) => seq![x],
        ColoredChar::HookLeft(x) => seq![x],
        ColoredChar::HookRight(x) => seq![x],
        ColoredChar::DifferentLeft(x) => seq![x],
        ColoredChar::DifferentRight(x) => seq![x],
        ColoredChar::Space => seq![' '],
        ColoredChar::Newline => seq!['\n'],
        ColoredChar::Blank => seq![],
    }
}

/// The style that a unit is shown in.
pub open spec fn unit_style(c: ColoredChar) -> Style {
    match c {
        ColoredChar::Unimportant(_) => Style::White,
        ColoredChar::LineNumber(_) => Style::Yellow,
        ColoredChar::Same(_) => Style::BrightWhite,
        ColoredChar::HookLeft(_) => Style::Red,
        ColoredChar::HookRight(_) => Style::Green,
        ColoredChar::DifferentLeft(_) => Style::BlackOnRed,
        ColoredChar::DifferentRight(_) => Style::BlackOnGreen,
        ColoredChar::Space => Style::White,
        ColoredChar::Newline => Style::White,
        ColoredChar::Blank => Style::White,
    }
}

/// The text and style of one unit.
pub fn styled_unit(c: ColoredChar) -> (r: (Vec<char>, Style))
    ensures
        r.0@ == unit_text(c),
        r.1 == unit_style(c),
{
    match c {
        ColoredChar::Unimportant(x) => (vec![x], Style::White),
        ColoredChar::LineNumber(x) => (vec![x], Style::Yellow),
        ColoredChar::Same(x) => (vec![x], Style::BrightWhite),
        ColoredChar::HookLeft(x) => (vec![x], Style::Red),
        ColoredChar::HookRight(x) => (vec![x], Style::Green),
        ColoredChar::DifferentLeft(x) => (vec![x], Style::BlackOnRed),
        ColoredChar::DifferentRight(x) => (vec![x], Style::BlackOnGreen),
        ColoredChar::Space => (vec![' '], Style::White),
        ColoredChar::Newline => (vec!['\n'], Style::White),
        ColoredChar::Blank => (Vec::new(), Style::White),
    }
}

/// Each unit's text and style, in order.
pub fn style_units(chars: &Vec<ColoredChar>) -> (r: Vec<(Vec<char>, Style)>)
    ensures
        r@.len() == chars@.len(),
        forall|i: int|
            0 <= i < chars@.len() ==> r@[i].0@ == unit_text(chars@[i]) && r@[i].1 == unit_style(
                chars@[i],
            ),
{
    let mut r: Vec<(Vec<char>, Style)> = Vec::new();
    for k in 0..chars.len()
        invariant
            r@.len() == k,
            forall|i: int|
                0 <= i < k ==> r@[i].0@ == unit_text(chars@[i]) && r@[i].1 == unit_style(
                    chars@[i],
                ),
    {
        r.push(styled_unit(chars[k]));
    }
    r
}

} // verus!
