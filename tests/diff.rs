use camper_diff::diff::{align_chars, char_vec, chars, diff, same_chars, split_lines_of, Diff};

#[test]
fn equal_lines_align_as_same() {
    let r = chars(Some("abc"), Some("abc"));
    assert_eq!(
        r,
        vec![Diff::Same(Some('a')), Diff::Same(Some('b')), Diff::Same(Some('c'))]
    );
    assert!(r.iter().all(|u| matches!(u, Diff::Same(_))));
}

#[test]
fn longer_right_side_is_padded() {
    let r = chars(Some("ab"), Some("abcd"));
    assert_eq!(
        r,
        vec![
            Diff::Same(Some('a')),
            Diff::Same(Some('b')),
            Diff::Different(None, Some('c')),
            Diff::Different(None, Some('d')),
        ]
    );
}

#[test]
fn longer_left_side_is_padded() {
    let r = chars(Some("xyz"), Some("xa"));
    assert_eq!(
        r,
        vec![
            Diff::Same(Some('x')),
            Diff::Different(Some('y'), Some('a')),
            Diff::Different(Some('z'), None),
        ]
    );
}

#[test]
fn missing_side_aligns_every_character_alone() {
    assert_eq!(
        chars(Some("ab"), None),
        vec![Diff::Different(Some('a'), None), Diff::Different(Some('b'), None)]
    );
    assert_eq!(chars(None, Some("q")), vec![Diff::Different(None, Some('q'))]);
    assert_eq!(chars(Some(""), None), vec![]);
}

#[test]
fn alignment_length_is_the_longer_length() {
    let r = align_chars(vec!['a', 'b', 'c', 'd', 'e'], vec!['a', 'x']);
    assert_eq!(r.len(), 5);
    assert_eq!(r[0], Diff::Same(Some('a')));
    assert_eq!(r[1], Diff::Different(Some('b'), Some('x')));
    assert_eq!(align_chars(vec![], vec![]), vec![]);
}

#[test]
fn only_differing_lines_are_reported() {
    let r = diff("x\ny\nz", "x\nY\nz");
    assert_eq!(r.len(), 1);
    assert_eq!(r[0].0, 2);
    assert_eq!(r[0].1, vec![Diff::Different(Some('y'), Some('Y'))]);
}

#[test]
fn identical_texts_report_nothing() {
    assert!(diff("same\ntext\n", "same\ntext\n").is_empty());
    assert!(diff("", "").is_empty());
}

#[test]
fn extra_lines_are_numbered_by_position() {
    let r = diff("a", "a\nbc\n");
    assert_eq!(r.len(), 1);
    assert_eq!(r[0].0, 2);
    assert_eq!(
        r[0].1,
        vec![Diff::Different(None, Some('b')), Diff::Different(None, Some('c'))]
    );
}

#[test]
fn end_to_end_line_pairs() {
    let r = diff("aaaaa\n000aaa000\nbbbaaaCCC", "aaaaa\n000bbb000\naaaaaa");
    assert_eq!(r.len(), 2);
    assert_eq!(r[0].0, 2);
    assert_eq!(r[1].0, 3);
    let line2 = &r[0].1;
    assert_eq!(line2.len(), 9);
    for (k, u) in line2.iter().enumerate() {
        if (3..6).contains(&k) {
            assert_eq!(*u, Diff::Different(Some('a'), Some('b')));
        } else {
            assert_eq!(*u, Diff::Same(Some('0')));
        }
    }
    let line3 = &r[1].1;
    assert_eq!(line3.len(), 9);
    assert_eq!(line3[0], Diff::Different(Some('b'), Some('a')));
    assert_eq!(line3[3], Diff::Same(Some('a')));
    for u in &line3[6..] {
        assert_eq!(*u, Diff::Different(Some('C'), None));
    }
}

#[test]
fn crlf_terminators_are_not_content() {
    assert!(diff("a\r\nb\r\n", "a\nb").is_empty());
    let lines = split_lines_of(&char_vec("one\r\ntwo\n\nthree"));
    assert_eq!(
        lines,
        vec![
            vec!['o', 'n', 'e'],
            vec!['t', 'w', 'o'],
            vec![],
            vec!['t', 'h', 'r', 'e', 'e'],
        ]
    );
    assert_eq!(split_lines_of(&char_vec("x\r")), vec![vec!['x', '\r']]);
}

#[test]
fn same_chars_compares_contents() {
    assert!(same_chars(&vec!['a', 'b'], &vec!['a', 'b']));
    assert!(!same_chars(&vec!['a', 'b'], &vec!['a', 'c']));
    assert!(!same_chars(&vec!['a'], &vec!['a', 'a']));
    assert_eq!(char_vec("héllo"), vec!['h', 'é', 'l', 'l', 'o']);
}
