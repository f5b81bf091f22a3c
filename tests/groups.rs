use adonais::keats::groups_parser::{list, parse_group_range, part, range, single, tree, Part, Range};

fn chars(s: &str) -> Vec<char> {
    s.chars().collect()
}

fn all_groups() -> Vec<u32> {
    (200..300).collect()
}

#[test]
fn keats_test_parse_group_range() {
    // Single item
    assert_eq!(parse_group_range("0"), vec![0]);
    // Range of items, inclusive
    assert_eq!(parse_group_range("0-2"), vec![0, 1, 2]);
    // Multiple spec, separated by comma
    assert_eq!(parse_group_range("0, 7"), vec![0, 7]);
    assert_eq!(parse_group_range("0, 7-10"), vec![0, 7, 8, 9, 10]);
    // A bound that is not a number discards the whole specification
    assert_eq!(parse_group_range("0, 297-spam"), all_groups());
    assert_eq!(parse_group_range("0, spam-201"), all_groups());
    // When in doubt, default to everyone
    assert_eq!(parse_group_range(""), all_groups());
    assert_eq!(parse_group_range("250, spam"), all_groups());
}

#[test]
fn groups_parser_test_parse_group_range() {
    assert_eq!(parse_group_range("0"), vec![0]);
    assert_eq!(parse_group_range("0-2"), vec![0, 1, 2]);
    assert_eq!(parse_group_range("0, 7"), vec![0, 7]);
    assert_eq!(parse_group_range("0, 7-10"), vec![0, 7, 8, 9, 10]);
    assert_eq!(parse_group_range("0, 297-spam"), all_groups());
    assert_eq!(parse_group_range("0, spam-201"), all_groups());
    assert_eq!(parse_group_range(""), all_groups());
    assert_eq!(parse_group_range("250, spam"), all_groups());
    assert_eq!(
        parse_group_range("121,123 - 125   , 121"),
        vec![121, 123, 124, 125],
    );
    assert_eq!(parse_group_range("261 "), vec![261]);
}

#[test]
fn mod_test_parse_group_range() {
    assert_eq!(parse_group_range("0"), vec![0]);
    assert_eq!(parse_group_range("0-2"), vec![0, 1, 2]);
    assert_eq!(parse_group_range("0, 7"), vec![0, 7]);
    assert_eq!(parse_group_range("0, 7-10"), vec![0, 7, 8, 9, 10]);
    assert_eq!(parse_group_range("0, 297-spam"), all_groups());
    assert_eq!(parse_group_range("0, spam-201"), all_groups());
    assert_eq!(parse_group_range(""), all_groups());
    assert_eq!(parse_group_range("250, spam"), all_groups());
    assert_eq!(
        parse_group_range("121,123 - 125   , 121"),
        vec![121, 123, 124, 125],
    );
    assert_eq!(parse_group_range("261 "), vec![261]);
}

#[test]
fn groups_parser_parse_single() {
    let t = chars("123");
    assert_eq!(single(&t, 0), Some((123, t.len())));
}

#[test]
fn groups_parser_parse_range() {
    let t = chars("123 - 125");
    assert_eq!(range(&t, 0), Some((Range { start: 123, end: 125 }, t.len())));
}

#[test]
fn groups_parser_parse_part() {
    let t = chars("123 - 125");
    assert_eq!(
        part(&t, 0),
        Some((Part::Range(Range { start: 123, end: 125 }), t.len()))
    );
    let t = chars("121");
    assert_eq!(part(&t, 0), Some((Part::Single(121), t.len())));
}

#[test]
fn groups_parser_parse_groups() {
    let expected = vec![
        Part::Single(121),
        Part::Range(Range { start: 123, end: 125 }),
        Part::Single(121),
    ];
    // delimiter includes comma
    assert_eq!(list(&chars("121,123 - 125   , 121"), 0), Some(expected.clone()));
    // delimiter does not include comma
    assert_eq!(list(&chars("121 123 - 125 121"), 0), Some(expected));
}

#[test]
fn parser_nom_parse_single() {
    let t = chars("123");
    assert_eq!(single(&t, 0), Some((123, t.len())));
}

#[test]
fn parser_nom_parse_range() {
    let t = chars("123 - 125");
    assert_eq!(range(&t, 0), Some((Range { start: 123, end: 125 }, t.len())));
}

#[test]
fn parser_nom_parse_part() {
    let t = chars("123 - 125");
    assert_eq!(
        part(&t, 0),
        Some((Part::Range(Range { start: 123, end: 125 }), t.len()))
    );
    let t = chars("121");
    assert_eq!(part(&t, 0), Some((Part::Single(121), t.len())));
}

#[test]
fn parser_nom_parse_groups() {
    let expected = vec![
        Part::Single(121),
        Part::Range(Range { start: 123, end: 125 }),
        Part::Single(121),
    ];
    assert_eq!(list(&chars("121,123 - 125   , 121"), 0), Some(expected.clone()));
    assert_eq!(list(&chars("121 123 - 125 121"), 0), Some(expected));
}

#[test]
fn single_stops_at_first_non_digit() {
    let t = chars("42-7");
    assert_eq!(single(&t, 0), Some((42, 2)));
    assert_eq!(single(&t, 2), None);
    assert_eq!(single(&t, 3), Some((7, 4)));
}

#[test]
fn single_rejects_values_beyond_u32() {
    assert_eq!(single(&chars("4294967295"), 0), Some((u32::MAX, 10)));
    assert_eq!(single(&chars("4294967296"), 0), None);
    assert_eq!(parse_group_range("1, 4294967296"), all_groups());
}

#[test]
fn range_needs_a_second_bound() {
    assert_eq!(range(&chars("5 -"), 0), None);
    assert_eq!(part(&chars("5 -"), 0), Some((Part::Single(5), 1)));
}

#[test]
fn list_rejects_leftover_text() {
    assert_eq!(list(&chars("1-2-3"), 0), None);
    assert_eq!(list(&chars("1  2"), 0), None);
    assert_eq!(list(&chars("1,"), 0), None);
}

#[test]
fn dash_range_names_exactly_its_bounds() {
    assert_eq!(parse_group_range("5-9"), vec![5, 6, 7, 8, 9]);
    assert_eq!(parse_group_range("007-9"), vec![7, 8, 9]);
    assert_eq!(parse_group_range("253-256"), vec![253, 254, 255, 256]);
    assert_eq!(parse_group_range("3-3"), vec![3]);
}

#[test]
fn stray_text_names_default_groups() {
    assert_eq!(parse_group_range("spam"), all_groups());
    assert_eq!(parse_group_range("1-2x"), all_groups());
    assert_eq!(parse_group_range("1;2"), all_groups());
    assert_eq!(parse_group_range("   "), all_groups());
}

#[test]
fn reversed_range_names_nothing() {
    assert_eq!(parse_group_range("9-5"), Vec::<u32>::new());
    assert_eq!(parse_group_range("9-5, 1"), vec![1]);
}

#[test]
fn separators_and_trimming() {
    assert_eq!(parse_group_range("1 ,\t2"), vec![1, 2]);
    assert_eq!(parse_group_range("3\n-\r4"), vec![3, 4]);
    assert_eq!(parse_group_range("\u{a0}12\u{3000}"), vec![12]);
    assert_eq!(parse_group_range("2 1 2"), vec![1, 2]);
}

#[test]
fn largest_group_is_listed() {
    assert_eq!(parse_group_range("4294967294-4294967295"), vec![u32::MAX - 1, u32::MAX]);
}

#[test]
fn tree_falls_back_to_default_range() {
    assert_eq!(tree("spam"), vec![Part::Range(Range { start: 200, end: 299 })]);
    assert_eq!(tree(" 4, 5-6 "), vec![Part::Single(4), Part::Range(Range { start: 5, end: 6 })]);
}

#[test]
fn padded_dash_range_names_exactly_its_bounds() {
    assert_eq!(parse_group_range("  5 -\t7\n"), vec![5, 6, 7]);
    assert_eq!(parse_group_range("\u{2003}10 - 12"), vec![10, 11, 12]);
}

#[test]
fn oversized_bound_names_default_groups() {
    assert_eq!(parse_group_range("99999999999"), all_groups());
    assert_eq!(parse_group_range("0, 1-99999999999"), all_groups());
}
