//! The values that travel through the library: novels, chapters and their states.

use vstd::prelude::*;

use crate::text;

verus! {

/// What a site says about a novel. Only ever a hint.
#[derive(Debug, Clone, Copy, PartialEq, Eq, Structural)]
pub enum NovelStatus {
    Ongoing,
    Completed,
    Unknown,
}

impl NovelStatus {
    pub open spec fn name(self) -> Seq<char> {
        match self {
            NovelStatus::Ongoing => "ongoing"@,
            NovelStatus::Completed => "completed"@,
            NovelStatus::Unknown => "unknown"@,
        }
    }

    pub open spec fn named(s: Seq<char>) -> NovelStatus {
        if s == "ongoing"@ {
            NovelStatus::Ongoing
        } else if s == "completed"@ {
            NovelStatus::Completed
        } else {
            NovelStatus::Unknown
        }
    }

    pub fn as_str(&self) -> (r: &'static str)
        ensures
            r@ == self.name(),
    {
        match self {
            NovelStatus::Ongoing => "ongoing",
            NovelStatus::Completed => "completed",
            NovelStatus::Unknown => "unknown",
        }
    }

    /// The status a stored name stands for; an unknown name is `Unknown`.
    pub fn from_str(s: &str) -> (r: Self)
        ensures
            r == NovelStatus::named(s@),
    {
        if text::same(s, "ongoing") {
            NovelStatus::Ongoing
        } else if text::same(s, "completed") {
            NovelStatus::Completed
        } else {
            NovelStatus::Unknown
        }
    }
}

/// A status survives being stored under its name.
pub proof fn law_status_round_trip(status: NovelStatus)
    ensures
        NovelStatus::named(status.name()) == status,
{
    reveal_strlit("ongoing");
    reveal_strlit("completed");
    reveal_strlit("unknown");
    assert("completed"@.len() != "ongoing"@.len());
    assert("unknown"@[0] != "ongoing"@[0]);
    assert("unknown"@.len() != "completed"@.len());
}

/// Where the library stands with a novel.
#[derive(Debug, Clone, Copy, PartialEq, Eq, Structural)]
pub enum DerivedState {
    /// Chapters the sources list are still missing.
    Backfilling,
    /// Caught up; only new chapters are looked for.
    Live,
    /// Labelled complete, and quiet for long enough to believe it.
    LikelyComplete,
}

impl DerivedState {
    pub open spec fn name(self) -> Seq<char> {
        match self {
            DerivedState::Backfilling => "backfilling"@,
            DerivedState::Live => "live"@,
            DerivedState::LikelyComplete => "likely_complete"@,
        }
    }

    pub open spec fn named(s: Seq<char>) -> DerivedState {
        if s == "live"@ {
            DerivedState::Live
        } else if s == "likely_complete"@ {
            DerivedState::LikelyComplete
        } else {
            DerivedState::Backfilling
        }
    }

    pub fn as_str(&self) -> (r: &'static str)
        ensures
            r@ == self.name(),
    {
        match self {
            DerivedState::Backfilling => "backfilling",
            DerivedState::Live => "live",
            DerivedState::LikelyComplete => "likely_complete",
        }
    }

    /// The state a stored name stands for; an unknown name is `Backfilling`.
    pub fn from_str(s: &str) -> (r: Self)
        ensures
            r == DerivedState::named(s@),
    {
        if text::same(s, "live") {
            DerivedState::Live
        } else if text::same(s, "likely_complete") {
            DerivedState::LikelyComplete
        } else {
            DerivedState::Backfilling
        }
    }
}

/// A state survives being stored under its name.
pub proof fn law_state_round_trip(state: DerivedState)
    ensures
        DerivedState::named(state.name()) == state,
{
    reveal_strlit("backfilling");
    reveal_strlit("live");
    reveal_strlit("likely_complete");
    assert("backfilling"@.len() != "live"@.len());
    assert("backfilling"@.len() != "likely_complete"@.len());
    assert("likely_complete"@.len() != "live"@.len());
}

/// What a novel's page says about it.
#[derive(Debug)]
pub struct NovelMeta {
    pub title: String,
    pub author: Option<String>,
    pub cover_url: Option<String>,
    pub genre: Option<String>,
    pub status_hint: NovelStatus,
    pub source_url: String,
}

/// A [`NovelMeta`] as plain values.
#[verifier::ext_equal]
pub struct MetaView {
    pub title: Seq<char>,
    pub author: Option<Seq<char>>,
    pub cover_url: Option<Seq<char>>,
    pub genre: Option<Seq<char>>,
    pub status_hint: NovelStatus,
    pub source_url: Seq<char>,
}

impl View for NovelMeta {
    type V = MetaView;

    open spec fn view(&self) -> MetaView {
        MetaView {
            title: self.title@,
            author: text::opt(self.author),
            cover_url: text::opt(self.cover_url),
            genre: text::opt(self.genre),
            status_hint: self.status_hint,
            source_url: self.source_url@,
        }
    }
}

impl Clone for NovelMeta {
    fn clone(&self) -> (r: Self)
        ensures
            r@ == self@,
    {
        NovelMeta {
            title: self.title.clone(),
            author: text::copy_opt(&self.author),
            cover_url: text::copy_opt(&self.cover_url),
            genre: text::copy_opt(&self.genre),
            status_hint: self.status_hint,
            source_url: self.source_url.clone(),
        }
    }
}

/// A chapter as a table of contents lists it.
#[derive(Debug)]
pub struct ChapterRef {
    pub number: u32,
    pub title: String,
    pub url: String,
}

/// A [`ChapterRef`] as plain values.
#[verifier::ext_equal]
pub struct RefView {
    pub number: u32,
    pub title: Seq<char>,
    pub url: Seq<char>,
}

impl View for ChapterRef {
    type V = RefView;

    open spec fn view(&self) -> RefView {
        RefView { number: self.number, title: self.title@, url: self.url@ }
    }
}

impl Clone for ChapterRef {
    fn clone(&self) -> (r: Self)
        ensures
            r@ == self@,
    {
        ChapterRef { number: self.number, title: self.title.clone(), url: self.url.clone() }
    }
}

/// A chapter with its text.
#[derive(Debug)]
pub struct Chapter {
    pub number: u32,
    pub title: String,
    pub paragraphs: Vec<String>,
}

/// A [`Chapter`] as plain values.
#[verifier::ext_equal]
pub struct ChapterView {
    pub number: u32,
    pub title: Seq<char>,
    pub paragraphs: Seq<Seq<char>>,
}

impl View for Chapter {
    type V = ChapterView;

    open spec fn view(&self) -> ChapterView {
        ChapterView {
            number: self.number,
            title: self.title@,
            paragraphs: text::texts(self.paragraphs@),
        }
    }
}

impl Clone for Chapter {
    fn clone(&self) -> (r: Self)
        ensures
            r@ == self@,
    {
        Chapter {
            number: self.number,
            title: self.title.clone(),
            paragraphs: text::copy_texts(&self.paragraphs),
        }
    }
}

/// What a site and its chapters say is seen as it is.
pub proof fn law_pages_are_seen_whole(m: NovelMeta, r: ChapterRef, c: Chapter, i: int)
    requires
        0 <= i < c.paragraphs@.len(),
    ensures
        m@.title == m.title@,
        m@.author == text::opt(m.author),
        m@.cover_url == text::opt(m.cover_url),
        m@.genre == text::opt(m.genre),
        m@.status_hint == m.status_hint,
        m@.source_url == m.source_url@,
        r@.number == r.number,
        r@.title == r.title@,
        r@.url == r.url@,
        c@.number == c.number,
        c@.title == c.title@,
        c@.paragraphs.len() == c.paragraphs@.len(),
        c@.paragraphs[i] == c.paragraphs@[i]@,
{
}

/// Each status and each state has a word of its own.
pub proof fn law_words_for_states()
    ensures
        NovelStatus::Ongoing.name() == "ongoing"@,
        NovelStatus::Completed.name() == "completed"@,
        NovelStatus::Unknown.name() == "unknown"@,
        DerivedState::Backfilling.name() == "backfilling"@,
        DerivedState::Live.name() == "live"@,
        DerivedState::LikelyComplete.name() == "likely_complete"@,
{
}

} // verus!
