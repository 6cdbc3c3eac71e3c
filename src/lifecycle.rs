//! The lifecycle of a discussion: when it was opened and closed, and what is
//! to be done with it.
use vstd::prelude::*;
use crate::calendar::{date_header, date_header_of};
use crate::document::Document;
use crate::signatures::{find_signatures, parse_timestamp, signature_time_of, signatures_in};
use crate::text::{contains, contains_text};

verus! {

/// Seconds after its opening from which an open discussion counts as old:
/// eight days.
pub const AGING_SECONDS: i64 = 691200;

/// Seconds after its closing from which a closed discussion is archived:
/// eighteen hours.
pub const ARCHIVE_DELAY_SECONDS: i64 = 64800;

/// What is to be done with a discussion.
#[derive(Clone, Copy, Debug, PartialEq, Eq, Structural)]
pub enum Lifecycle {
    /// Open and recent: nothing.
    Open,
    /// Open for eight days or more: it moves to "Old business".
    Aging,
    /// Closed less than eighteen hours ago: nothing yet.
    ClosedPendingArchive,
    /// Closed eighteen hours ago or more: it moves to the archive.
    ToArchive,
}

/// Opened at `start`, the discussion is old at `now`.
pub open spec fn is_old_at(start: int, now: int) -> bool {
    now - start >= AGING_SECONDS
}

/// Closed at `close` (if at all), the discussion is due for the archive at
/// `now`.
pub open spec fn archive_due(close: Option<int>, now: int) -> bool {
    match close {
        Some(c) => now - c >= ARCHIVE_DELAY_SECONDS,
        None => false,
    }
}

/// The state of a discussion opened at `start` and closed at `close` (if at
/// all), at `now`.
pub open spec fn lifecycle_of(start: int, close: Option<int>, now: int) -> Lifecycle {
    match close {
        None => if is_old_at(start, now) {
            Lifecycle::Aging
        } else {
            Lifecycle::Open
        },
        Some(c) => if archive_due(close, now) {
            Lifecycle::ToArchive
        } else {
            Lifecycle::ClosedPendingArchive
        },
    }
}

/// The view of an optional timestamp.
pub open spec fn opt_int(o: Option<i64>) -> Option<int> {
    match o {
        Some(t) => Some(t as int),
        None => None,
    }
}

/// Whether a discussion opened at `start` is old at `now`.
pub fn is_old(start: i64, now: i64) -> (r: bool)
    ensures
        r == is_old_at(start as int, now as int),
{
    (now as i128) - (start as i128) >= AGING_SECONDS as i128
}

/// Whether a discussion closed at `close` (if at all) is due for the archive
/// at `now`.
pub fn should_archive(close: Option<i64>, now: i64) -> (r: bool)
    ensures
        r == archive_due(opt_int(close), now as int),
{
    match close {
        Some(c) => (now as i128) - (c as i128) >= ARCHIVE_DELAY_SECONDS as i128,
        None => false,
    }
}

/// The state of a discussion opened at `start` and closed at `close` (if at
/// all), at `now`.
pub fn classify(start: i64, close: Option<i64>, now: i64) -> (r: Lifecycle)
    ensures
        r == lifecycle_of(start as int, opt_int(close), now as int),
{
    match close {
        None => if is_old(start, now) {
            Lifecycle::Aging
        } else {
            Lifecycle::Open
        },
        Some(_) => if should_archive(close, now) {
            Lifecycle::ToArchive
        } else {
            Lifecycle::ClosedPendingArchive
        },
    }
}

/// The opening and closing times read off the first two signature
/// timestamps: a closed discussion's first one is its closing, the second
/// its opening; an open one's first is its opening.
pub fn assign_times(first: i64, second: i64, closed: bool) -> (r: (i64, Option<i64>))
    ensures
        closed ==> r == (second, Some(first)),
        !closed ==> r == (first, None::<i64>),
{
    if closed {
        (second, Some(first))
    } else {
        (first, None)
    }
}

/// Why a discussion's times could not be read.
#[derive(Debug)]
pub enum ExtractError {
    /// Fewer than two signature timestamps.
    Malformed,
    /// A signature timestamp that does not read as a date.
    BadTimestamp(String),
}

/// The phrase that the banner of a closed discussion holds.
pub open spec fn closed_banner() -> Seq<char> {
    "The following discussion is an archived debate"@
}

/// A deletion discussion: its page title, its document, and when it was
/// opened and closed.
pub struct MfD {
    pub title: String,
    pub doc: Document,
    pub start: i64,
    pub close: Option<i64>,
}

impl MfD {
    pub open spec fn text(&self) -> Seq<char> {
        self.doc.text_of(self.doc.root as int)
    }

    /// Reads a discussion off its page: the first two signature timestamps
    /// of its text give its times (see `assign_times`), the closing banner
    /// tells whether it is closed.
    pub fn new(title: String, doc: Document) -> (r: Result<MfD, ExtractError>)
        requires
            doc.wf(),
        ensures
            ({
                let text = doc.text_of(doc.root as int);
                let sigs = signatures_in(text);
                let closed = contains_text(text, closed_banner());
                match r {
                    Err(ExtractError::Malformed) => sigs.len() < 2,
                    Err(ExtractError::BadTimestamp(ts)) => sigs.len() >= 2 && (
                    (signature_time_of(sigs[0]) is None && ts@ == sigs[0]) || (closed
                        && signature_time_of(sigs[0]) is Some && signature_time_of(sigs[1]) is None
                        && ts@ == sigs[1])),
                    Ok(m) => {
                        &&& sigs.len() >= 2
                        &&& m.title == title
                        &&& m.doc == doc
                        &&& signature_time_of(sigs[0]) == Some(
                            if closed {
                                m.close.unwrap() as int
                            } else {
                                m.start as int
                            },
                        )
                        &&& closed ==> m.close is Some && signature_time_of(sigs[1]) == Some(
                            m.start as int,
                        )
                        &&& !closed ==> m.close is None
                    },
                }
            }),
    {
        let text = doc.text_contents(doc.root);
        let found = find_signatures(text.as_str());
        if found.len() < 2 {
            return Err(ExtractError::Malformed);
        }
        let first = match parse_timestamp(found[0].as_str()) {
            Some(t) => t,
            None => {
                return Err(ExtractError::BadTimestamp(found[0].clone()));
            },
        };
        let closed = contains(text.as_str(), "The following discussion is an archived debate");
        let second = if closed {
            match parse_timestamp(found[1].as_str()) {
                Some(t) => t,
                None => {
                    return Err(ExtractError::BadTimestamp(found[1].clone()));
                },
            }
        } else {
            first
        };
        let (start, close) = assign_times(first, second, closed);
        Ok(MfD { title, doc, start, close })
    }

    /// Whether the discussion carries the closing banner.
    pub fn is_closed(&self) -> (r: bool)
        requires
            self.doc.wf(),
        ensures
            r == contains_text(self.text(), closed_banner()),
    {
        let text = self.doc.text_contents(self.doc.root);
        contains(text.as_str(), "The following discussion is an archived debate")
    }

    /// Whether the discussion is old at `now`.
    pub fn is_old(&self, now: i64) -> (r: bool)
        ensures
            r == is_old_at(self.start as int, now as int),
    {
        is_old(self.start, now)
    }

    /// Whether the discussion is due for the archive at `now`.
    pub fn should_archive(&self, now: i64) -> (r: bool)
        ensures
            r == archive_due(opt_int(self.close), now as int),
    {
        should_archive(self.close, now)
    }

    /// The state of the discussion at `now`.
    pub fn lifecycle(&self, now: i64) -> (r: Lifecycle)
        ensures
            r == lifecycle_of(self.start as int, opt_int(self.close), now as int),
    {
        classify(self.start, self.close, now)
    }

    /// The result of the close: the text of the second bold element of the
    /// discussion, where there are two.
    pub fn extract_result(&self) -> (r: Option<String>)
        requires
            self.doc.wf(),
        ensures
            ({
                let bold = self.doc.bold_among(self.doc.preorder(self.doc.root as int));
                match r {
                    Some(t) => bold.len() >= 2 && t@ == self.doc.text_of(bold[1] as int),
                    None => bold.len() < 2,
                }
            }),
    {
        let bold = self.doc.select_bold(self.doc.root);
        if bold.len() < 2 {
            return None;
        }
        proof {
            self.doc.lemma_bold_in_range(self.doc.preorder(self.doc.root as int));
        }
        let b = bold[1];
        if b >= self.doc.nodes.len() {
            return None;
        }
        Some(self.doc.text_contents(b))
    }

    /// The heading text of the day on which the discussion opened.
    pub fn date_header(&self) -> (r: Option<String>)
        ensures
            match r {
                Some(h) => date_header_of(self.start as int) == Some(h@),
                None => date_header_of(self.start as int) is None,
            },
    {
        date_header(self.start)
    }
}

} // verus!
