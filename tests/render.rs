use camper_diff::colored_char::{
    empty_line_once, line_to_colored_chars, prepare_buffer, style_units, ColoredChar, Style,
};
use camper_diff::diff::{chars, Diff};
use camper_diff::report::{remove_last_newline, render, stack_sides};

use ColoredChar::{
    Blank, DifferentLeft, DifferentRight, HookLeft, HookRight, LineNumber, Newline, Same, Space,
    Unimportant,
};

fn prefix(number: &str, hook: ColoredChar) -> Vec<ColoredChar> {
    let mut v: Vec<ColoredChar> = number.chars().map(LineNumber).collect();
    v.extend([Unimportant(':'), Space, Unimportant('('), hook, Unimportant(')'), Space]);
    v
}

fn placeholder() -> Vec<ColoredChar> {
    "empty line".chars().map(Unimportant).collect()
}

fn count_placeholders(units: &[ColoredChar]) -> usize {
    let p = placeholder();
    units.windows(p.len()).filter(|w| *w == p.as_slice()).count()
}

#[test]
fn wrap_gives_one_unit() {
    assert_eq!(Space.wrap(), vec![Space]);
    assert_eq!(Same('q').wrap(), vec![Same('q')]);
}

#[test]
fn buffer_holds_number_and_hook() {
    let b = prepare_buffer(12, HookLeft('<'));
    let expected: Vec<Vec<ColoredChar>> =
        prefix("12", HookLeft('<')).into_iter().map(|c| vec![c]).collect();
    assert_eq!(b, expected);
    let b = prepare_buffer(0, HookRight('>'));
    assert_eq!(b[0], vec![LineNumber('0')]);
    assert_eq!(b.len(), 7);
    let b = prepare_buffer(907, HookRight('>'));
    assert_eq!(b[0], vec![LineNumber('9')]);
    assert_eq!(b[1], vec![LineNumber('0')]);
    assert_eq!(b[2], vec![LineNumber('7')]);
}

#[test]
fn placeholder_is_handed_out_once() {
    let mut flag = true;
    assert_eq!(empty_line_once(&mut flag), placeholder());
    assert!(!flag);
    assert_eq!(empty_line_once(&mut flag), vec![]);
    assert!(!flag);
}

#[test]
fn shorter_right_side_shows_one_placeholder() {
    let rows = line_to_colored_chars(4, chars(Some("abcdef"), Some("abc")));
    let right: Vec<ColoredChar> = rows.iter().flat_map(|r| r.1.clone()).collect();
    assert_eq!(count_placeholders(&right), 1);
    let unimportant = right.iter().filter(|c| matches!(c, Unimportant(_))).count();
    assert_eq!(unimportant, 3 + 10);
    let left: Vec<ColoredChar> = rows.iter().flat_map(|r| r.0.clone()).collect();
    assert_eq!(count_placeholders(&left), 0);
}

#[test]
fn shorter_left_side_shows_one_placeholder() {
    let rows = line_to_colored_chars(1, chars(None, Some("xyz")));
    let left: Vec<ColoredChar> = rows.iter().flat_map(|r| r.0.clone()).collect();
    let right: Vec<ColoredChar> = rows.iter().flat_map(|r| r.1.clone()).collect();
    let mut expected_left = prefix("1", HookLeft('<'));
    expected_left.extend(placeholder());
    expected_left.extend([Newline, Blank]);
    assert_eq!(left, expected_left);
    let mut expected_right = prefix("1", HookRight('>'));
    expected_right.extend([Same('x'), Same('y'), Same('z'), Newline, Newline]);
    assert_eq!(right, expected_right);
}

#[test]
fn rows_of_a_line_pair() {
    let line = vec![
        Diff::Same(Some('a')),
        Diff::Different(Some('b'), Some('c')),
        Diff::Different(Some('d'), None),
    ];
    let rows = line_to_colored_chars(3, line);
    assert_eq!(rows.len(), 7 + 3 + 2);
    assert_eq!(rows[0], (vec![LineNumber('3')], vec![LineNumber('3')]));
    assert_eq!(rows[4], (vec![HookLeft('<')], vec![HookRight('>')]));
    assert_eq!(rows[7], (vec![Same('a')], vec![Same('a')]));
    assert_eq!(rows[8], (vec![DifferentLeft('b')], vec![DifferentRight('c')]));
    assert_eq!(rows[9], (vec![Same('d')], placeholder()));
    assert_eq!(rows[10], (vec![Newline], vec![Newline]));
    assert_eq!(rows[11], (vec![Blank], vec![Newline]));
}

#[test]
fn sides_are_stacked_left_then_right() {
    let rows = vec![
        (vec![Same('a')], vec![Same('b')]),
        (vec![Blank], vec![Newline, Newline]),
    ];
    let mut out = vec![Space];
    stack_sides(rows, &mut out);
    assert_eq!(out, vec![Space, Same('a'), Blank, Same('b'), Newline, Newline]);
}

#[test]
fn last_newline_is_removed() {
    let mut v = vec![Same('a'), Newline];
    remove_last_newline(&mut v);
    assert_eq!(v, vec![Same('a')]);
    let mut e: Vec<ColoredChar> = vec![];
    remove_last_newline(&mut e);
    assert!(e.is_empty());
}

#[test]
fn report_ends_with_one_line_break() {
    let r = render("a", "b");
    assert_eq!(r.last(), Some(&Newline));
    assert_ne!(r[r.len() - 2], Newline);
    assert!(render("same", "same").is_empty());
}

#[test]
fn end_to_end_report() {
    let r = render("aaaaa\n000aaa000\nbbbaaaCCC", "aaaaa\n000bbb000\naaaaaa");
    let mut expected = prefix("2", HookLeft('<'));
    expected.extend([Same('0'); 3]);
    expected.extend([DifferentLeft('a'); 3]);
    expected.extend([Same('0'); 3]);
    expected.extend([Newline, Blank]);
    expected.extend(prefix("2", HookRight('>')));
    expected.extend([Same('0'); 3]);
    expected.extend([DifferentRight('b'); 3]);
    expected.extend([Same('0'); 3]);
    expected.extend([Newline, Newline]);
    expected.extend(prefix("3", HookLeft('<')));
    expected.extend([DifferentLeft('b'); 3]);
    expected.extend([Same('a'); 3]);
    expected.extend([Same('C'); 3]);
    expected.extend([Newline, Blank]);
    expected.extend(prefix("3", HookRight('>')));
    expected.extend([DifferentRight('a'); 3]);
    expected.extend([Same('a'); 3]);
    expected.extend(placeholder());
    expected.extend([Newline]);
    assert_eq!(r, expected);
    assert_eq!(count_placeholders(&r), 1);
}

#[test]
fn every_unit_has_its_text_and_style() {
    let units = vec![
        Unimportant(':'),
        LineNumber('7'),
        Same('s'),
        HookLeft('<'),
        HookRight('>'),
        DifferentLeft('l'),
        DifferentRight('r'),
        Space,
        Newline,
        Blank,
    ];
    let styled = style_units(&units);
    assert_eq!(
        styled,
        vec![
            (vec![':'], Style::White),
            (vec!['7'], Style::Yellow),
            (vec!['s'], Style::BrightWhite),
            (vec!['<'], Style::Red),
            (vec!['>'], Style::Green),
            (vec!['l'], Style::BlackOnRed),
            (vec!['r'], Style::BlackOnGreen),
            (vec![' '], Style::White),
            (vec!['\n'], Style::White),
            (vec![], Style::White),
        ]
    );
    assert!(style_units(&vec![]).is_empty());
}
