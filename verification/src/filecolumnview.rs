//! What the columns of the file view show of a tag record.

use crate::taggablefile::{TaggableFile, TaggableFileView};
use crate::text::{
    integer_to_text, join, joined, natural_to_text, same_text, decimal_text, signed_decimal_text,
    text_views,
};
use vstd::prelude::*;

verus! {

/// The text of an optional string: empty where there is none.
pub open spec fn text_or_empty(s: Option<Seq<char>>) -> Seq<char> {
    match s {
        Some(t) => t,
        None => Seq::empty(),
    }
}

/// The decimal text of an optional count: empty where there is none.
pub open spec fn count_or_empty(n: Option<u16>) -> Seq<char> {
    match n {
        Some(v) => decimal_text(v as nat),
        None => Seq::empty(),
    }
}

/// The titles of the columns in display order.
pub open spec fn column_titles() -> Seq<Seq<char>> {
    seq![
        "Filename"@,
        "Title"@,
        "Artist"@,
        "Album"@,
        "Year"@,
        "Disc"@,
        "Track"@,
        "Genre"@,
    ]
}

/// What the column titled `title` shows of `record`. The artists stand in a
/// row with a comma and a space between them; a field that the file does not
/// have shows as nothing, and so does everything in a column of another
/// title.
pub open spec fn label_text(record: TaggableFileView, title: Seq<char>) -> Seq<char> {
    if title == "Filename"@ {
        record.filename
    } else if title == "Title"@ {
        text_or_empty(record.tag.title)
    } else if title == "Artist"@ {
        joined(record.tag.artists, ", "@)
    } else if title == "Album"@ {
        text_or_empty(record.tag.album)
    } else if title == "Year"@ {
        match record.tag.year {
            Some(y) => signed_decimal_text(y as int),
            None => Seq::empty(),
        }
    } else if title == "Disc"@ {
        count_or_empty(record.tag.disc)
    } else if title == "Track"@ {
        count_or_empty(record.tag.track)
    } else if title == "Genre"@ {
        text_or_empty(record.tag.genre)
    } else {
        Seq::empty()
    }
}

/// The titles of the columns in display order.
pub fn columns() -> (r: Vec<String>)
    ensures
        text_views(r@) == column_titles(),
{
    let mut r: Vec<String> = Vec::new();
    r.push("Filename".to_owned());
    r.push("Title".to_owned());
    r.push("Artist".to_owned());
    r.push("Album".to_owned());
    r.push("Year".to_owned());
    r.push("Disc".to_owned());
    r.push("Track".to_owned());
    r.push("Genre".to_owned());
    assert(text_views(r@) =~= column_titles());
    r
}

/// The text of an optional string.
fn shown(s: &Option<String>) -> (r: String)
    ensures
        r@ == text_or_empty(crate::directorywatch::opt_text(*s)),
{
    match s {
        Some(t) => t.clone(),
        None => String::new(),
    }
}

/// The text of an optional count.
fn counted(n: Option<u16>) -> (r: String)
    ensures
        r@ == count_or_empty(n),
{
    match n {
        Some(v) => natural_to_text(v as u64),
        None => String::new(),
    }
}

/// What the column titled `title` shows of `record`.
pub fn column_label(record: &TaggableFile, title: &str) -> (r: String)
    ensures
        r@ == label_text(record@, title@),
{
    let tag = record.tag();
    if same_text(title, "Filename") {
        record.filename().clone()
    } else if same_text(title, "Title") {
        shown(&tag.title)
    } else if same_text(title, "Artist") {
        join(&tag.artists, ", ")
    } else if same_text(title, "Album") {
        shown(&tag.album)
    } else if same_text(title, "Year") {
        match tag.year {
            Some(y) => integer_to_text(y),
            None => String::new(),
        }
    } else if same_text(title, "Disc") {
        counted(tag.disc)
    } else if same_text(title, "Track") {
        counted(tag.track)
    } else if same_text(title, "Genre") {
        shown(&tag.genre)
    } else {
        String::new()
    }
}

} // verus!
