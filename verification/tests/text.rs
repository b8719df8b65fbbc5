use easier_tag::filecolumnview::{column_label, columns};
use easier_tag::taggablefile::{TagFields, TaggableFile};
use easier_tag::text::{
    has_id, has_text, integer_to_text, join, name_less, natural_to_text, same_text,
};

#[test]
fn names_are_ordered_byte_by_byte() {
    assert!(name_less("a", "b"));
    assert!(!name_less("b", "a"));
    assert!(!name_less("a", "a"));
    assert!(name_less("", "a"));
    assert!(!name_less("a", ""));
    assert!(!name_less("", ""));
    assert!(name_less("ab", "abc"));
    assert!(!name_less("abc", "ab"));
    // capitals sort before small letters, digits before both
    assert!(name_less("Z", "a"));
    assert!(name_less("9", "A"));
    assert!(name_less("a10", "a9"));
    // beyond ASCII the order is that of the code points
    assert!(name_less("z", "\u{e9}"));
    assert!(name_less("\u{e9}", "\u{4e2d}"));
    assert!(name_less("\u{ffff}", "\u{10000}"));
}

#[test]
fn the_order_of_names_is_that_of_str() {
    let names = ["", "a", "A", "ab", "b", "\u{e9}", "e\u{301}", "10", "9", "~", "\u{10348}"];
    for x in names {
        for y in names {
            assert_eq!(name_less(x, y), x < y);
            assert_eq!(same_text(x, y), x == y);
        }
    }
}

#[test]
fn numbers_are_written_in_decimal() {
    assert_eq!(natural_to_text(0), "0");
    assert_eq!(natural_to_text(7), "7");
    assert_eq!(natural_to_text(10), "10");
    assert_eq!(natural_to_text(65535), "65535");
    assert_eq!(natural_to_text(1234567890), "1234567890");
    assert_eq!(natural_to_text(u64::MAX), "18446744073709551615");
    assert_eq!(integer_to_text(0), "0");
    assert_eq!(integer_to_text(2024), "2024");
    assert_eq!(integer_to_text(-1), "-1");
    assert_eq!(integer_to_text(-350), "-350");
    assert_eq!(integer_to_text(i32::MAX), "2147483647");
    assert_eq!(integer_to_text(i32::MIN), "-2147483648");
}

#[test]
fn items_are_joined_with_the_separator_between_them() {
    assert_eq!(join(&vec![], ", "), "");
    assert_eq!(join(&vec![String::from("a")], ", "), "a");
    assert_eq!(join(&vec![String::from("a"), String::from("b")], ", "), "a, b");
    assert_eq!(
        join(&vec![String::from("a"), String::new(), String::from("c")], ";"),
        "a;;c"
    );
    assert_eq!(join(&vec![String::from("x"), String::from("y")], ""), "xy");
}

#[test]
fn membership_is_by_value() {
    let items = vec![String::from("a"), String::from("b")];
    assert!(has_text(&items, &String::from("b")));
    assert!(!has_text(&items, &String::from("c")));
    assert!(!has_text(&vec![], &String::new()));
    assert!(has_id(&vec![3, 5], 5));
    assert!(!has_id(&vec![3, 5], 4));
    assert!(!has_id(&vec![], 0));
}

#[test]
fn the_columns_stand_in_display_order() {
    assert_eq!(
        columns(),
        vec!["Filename", "Title", "Artist", "Album", "Year", "Disc", "Track", "Genre"]
    );
}

#[test]
fn a_column_shows_its_field() {
    let record = TaggableFile::new(
        "/a/1.mp3",
        Some(String::from("One")),
        Some(String::from("First")),
        Some(String::from("Someone")),
        Some(String::from("Jazz")),
        Some(String::from("61.5")),
        Some(1987),
        Some(2),
        Some(3),
        Some(11),
        Some(12),
        vec![String::from("X"), String::from("Y"), String::from("Z")],
        vec![String::from("V")],
        None,
    );
    assert_eq!(column_label(&record, "Filename"), "/a/1.mp3");
    assert_eq!(column_label(&record, "Title"), "One");
    assert_eq!(column_label(&record, "Artist"), "X, Y, Z");
    assert_eq!(column_label(&record, "Album"), "First");
    assert_eq!(column_label(&record, "Year"), "1987");
    assert_eq!(column_label(&record, "Disc"), "2");
    assert_eq!(column_label(&record, "Track"), "11");
    assert_eq!(column_label(&record, "Genre"), "Jazz");
    assert_eq!(column_label(&record, "Composer"), "");
    assert_eq!(column_label(&record, "title"), "");
    assert_eq!(column_label(&record, ""), "");
}

#[test]
fn a_missing_field_shows_as_nothing() {
    let record = TaggableFile::from_tag(String::from("/a/2.mp3"), TagFields::empty());
    for title in columns() {
        let expected = if title == "Filename" { "/a/2.mp3" } else { "" };
        assert_eq!(column_label(&record, &title), expected);
    }
    let mut tag = TagFields::empty();
    tag.year = Some(-44);
    tag.track = Some(0);
    tag.disc = Some(65535);
    let record = TaggableFile::from_tag(String::from("/a/3.mp3"), tag);
    assert_eq!(column_label(&record, "Year"), "-44");
    assert_eq!(column_label(&record, "Track"), "0");
    assert_eq!(column_label(&record, "Disc"), "65535");
}
