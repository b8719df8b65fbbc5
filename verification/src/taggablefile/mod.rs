//! The tag record: what is known of the metadata of one audio file.

pub mod taggablefilelist;

use crate::directorywatch::{clone_opt_text, opt_text};
use crate::text::text_views;
use vstd::prelude::*;

verus! {

/// An embedded cover picture: the bytes as stored in the file and the
/// content type that the file declares for them.
#[derive(Debug, PartialEq, Eq)]
pub struct CoverImage {
    pub mime_type: String,
    pub data: Vec<u8>,
}

/// The mathematical value of a [`CoverImage`].
pub ghost struct CoverImageView {
    pub mime_type: Seq<char>,
    pub data: Seq<u8>,
}

impl View for CoverImage {
    type V = CoverImageView;

    open spec fn view(&self) -> CoverImageView {
        CoverImageView { mime_type: self.mime_type@, data: self.data@ }
    }
}

impl Clone for CoverImage {
    fn clone(&self) -> (r: Self)
        ensures
            r@ == self@,
    {
        let data = self.data.clone();
        assert(data@ =~= self.data@);
        CoverImage { mime_type: self.mime_type.clone(), data }
    }
}

/// The value of an optional cover.
pub open spec fn opt_cover(c: Option<CoverImage>) -> Option<CoverImageView> {
    match c {
        Some(i) => Some(i@),
        None => None,
    }
}

/// Clones a list of strings.
pub fn clone_texts(items: &Vec<String>) -> (r: Vec<String>)
    ensures
        text_views(r@) == text_views(items@),
{
    let mut r: Vec<String> = Vec::new();
    let mut i: usize = 0;
    while i < items.len()
        invariant
            i <= items.len(),
            r.len() == i,
            forall|j: int| 0 <= j < i ==> r[j]@ == items[j]@,
        decreases items.len() - i,
    {
        r.push(items[i].clone());
        i += 1;
    }
    assert(text_views(r@) =~= text_views(items@));
    r
}

/// What a metadata reader found in one file. Every field stands alone: what
/// the file does not say is `None` or empty.
#[derive(Debug, PartialEq, Eq)]
pub struct TagFields {
    pub title: Option<String>,
    pub album: Option<String>,
    pub composer: Option<String>,
    pub genre: Option<String>,
    /// The playing time in seconds, as decimal text.
    pub duration: Option<String>,
    pub year: Option<i32>,
    pub disc: Option<u16>,
    pub total_discs: Option<u16>,
    pub track: Option<u16>,
    pub total_tracks: Option<u16>,
    pub artists: Vec<String>,
    pub album_artists: Vec<String>,
    pub cover: Option<CoverImage>,
}

/// The mathematical value of [`TagFields`].
pub ghost struct TagFieldsView {
    pub title: Option<Seq<char>>,
    pub album: Option<Seq<char>>,
    pub composer: Option<Seq<char>>,
    pub genre: Option<Seq<char>>,
    pub duration: Option<Seq<char>>,
    pub year: Option<i32>,
    pub disc: Option<u16>,
    pub total_discs: Option<u16>,
    pub track: Option<u16>,
    pub total_tracks: Option<u16>,
    pub artists: Seq<Seq<char>>,
    pub album_artists: Seq<Seq<char>>,
    pub cover: Option<CoverImageView>,
}

impl View for TagFields {
    type V = TagFieldsView;

    open spec fn view(&self) -> TagFieldsView {
        TagFieldsView {
            title: opt_text(self.title),
            album: opt_text(self.album),
            composer: opt_text(self.composer),
            genre: opt_text(self.genre),
            duration: opt_text(self.duration),
            year: self.year,
            disc: self.disc,
            total_discs: self.total_discs,
            track: self.track,
            total_tracks: self.total_tracks,
            artists: text_views(self.artists@),
            album_artists: text_views(self.album_artists@),
            cover: opt_cover(self.cover),
        }
    }
}

impl TagFieldsView {
    /// The fields of a file that says nothing about itself.
    pub open spec fn empty() -> TagFieldsView {
        TagFieldsView {
            title: None,
            album: None,
            composer: None,
            genre: None,
            duration: None,
            year: None,
            disc: None,
            total_discs: None,
            track: None,
            total_tracks: None,
            artists: Seq::empty(),
            album_artists: Seq::empty(),
            cover: None,
        }
    }
}

impl Clone for TagFields {
    fn clone(&self) -> (r: Self)
        ensures
            r@ == self@,
    {
        TagFields {
            title: clone_opt_text(&self.title),
            album: clone_opt_text(&self.album),
            composer: clone_opt_text(&self.composer),
            genre: clone_opt_text(&self.genre),
            duration: clone_opt_text(&self.duration),
            year: self.year,
            disc: self.disc,
            total_discs: self.total_discs,
            track: self.track,
            total_tracks: self.total_tracks,
            artists: clone_texts(&self.artists),
            album_artists: clone_texts(&self.album_artists),
            cover: match &self.cover {
                Some(c) => Some(c.clone()),
                None => None,
            },
        }
    }
}

impl TagFields {
    /// The fields of a file that says nothing about itself.
    pub fn empty() -> (r: Self)
        ensures
            r@ == TagFieldsView::empty(),
    {
        let r = TagFields {
            title: None,
            album: None,
            composer: None,
            genre: None,
            duration: None,
            year: None,
            disc: None,
            total_discs: None,
            track: None,
            total_tracks: None,
            artists: Vec::new(),
            album_artists: Vec::new(),
            cover: None,
        };
        assert(r@.artists =~= Seq::empty() && r@.album_artists =~= Seq::empty());
        r
    }
}

/// The tag record of one file: its path and the metadata read from it. A
/// record never changes; reading the file again makes a new one.
#[derive(Debug, PartialEq, Eq)]
pub struct TaggableFile {
    filename: String,
    tag: TagFields,
}

/// The mathematical value of a [`TaggableFile`].
pub ghost struct TaggableFileView {
    /// The file's path, by which the record is known.
    pub filename: Seq<char>,
    pub tag: TagFieldsView,
}

impl View for TaggableFile {
    type V = TaggableFileView;

    closed spec fn view(&self) -> TaggableFileView {
        TaggableFileView { filename: self.filename@, tag: self.tag@ }
    }
}

impl Clone for TaggableFile {
    fn clone(&self) -> (r: Self)
        ensures
            r@ == self@,
    {
        TaggableFile { filename: self.filename.clone(), tag: self.tag.clone() }
    }
}

impl TaggableFile {
    /// The record of the file at `filename` with the given metadata.
    pub fn new(
        filename: &str,
        title: Option<String>,
        album: Option<String>,
        composer: Option<String>,
        genre: Option<String>,
        duration: Option<String>,
        year: Option<i32>,
        disc: Option<u16>,
        total_discs: Option<u16>,
        track: Option<u16>,
        total_tracks: Option<u16>,
        artists: Vec<String>,
        album_artists: Vec<String>,
        cover: Option<CoverImage>,
    ) -> (r: Self)
        ensures
            r@ == (TaggableFileView {
                filename: filename@,
                tag: TagFieldsView {
                    title: opt_text(title),
                    album: opt_text(album),
                    composer: opt_text(composer),
                    genre: opt_text(genre),
                    duration: opt_text(duration),
                    year,
                    disc,
                    total_discs,
                    track,
                    total_tracks,
                    artists: text_views(artists@),
                    album_artists: text_views(album_artists@),
                    cover: opt_cover(cover),
                },
            }),
    {
        TaggableFile {
            filename: filename.to_owned(),
            tag: TagFields {
                title,
                album,
                composer,
                genre,
                duration,
                year,
                disc,
                total_discs,
                track,
                total_tracks,
                artists,
                album_artists,
                cover,
            },
        }
    }

    /// The record of the file at `filename` with what a reader found in it.
    pub fn from_tag(filename: String, tag: TagFields) -> (r: Self)
        ensures
            r@ == (TaggableFileView { filename: filename@, tag: tag@ }),
    {
        TaggableFile { filename, tag }
    }

    /// The file's path.
    pub fn filename(&self) -> (r: &String)
        ensures
            r@ == self@.filename,
    {
        &self.filename
    }

    /// The metadata.
    pub fn tag(&self) -> (r: &TagFields)
        ensures
            r@ == self@.tag,
    {
        &self.tag
    }
}

} // verus!
