//! What a pass over a novel's chapters asks of the world, and what it is answered.

use vstd::prelude::*;

use crate::fetch::{Failure, FailureView};
use crate::model::{Chapter, ChapterRef, ChapterView, RefView};
use crate::source;

verus! {

/// What a pass needs next. A source is named by its position among the novel's sources.
#[derive(Debug)]
pub enum Action {
    /// List the chapters of a source, all of them.
    Discover { source: usize },
    /// Tell the user which chapter is up, as the `position`-th of `total`.
    Announce { number: u32, position: usize, total: usize },
    /// Fetch a chapter from a source.
    Fetch { source: usize, chapter: ChapterRef },
    /// Nothing: the pass is over.
    Finish,
}

/// An [`Action`] as plain values.
#[verifier::ext_equal]
pub enum ActionView {
    Discover { source: int },
    Announce { number: u32, position: int, total: int },
    Fetch { source: int, chapter: RefView },
    Finish,
}

impl View for Action {
    type V = ActionView;

    open spec fn view(&self) -> ActionView {
        match *self {
            Action::Discover { source } => ActionView::Discover { source: source as int },
            Action::Announce { number, position, total } => ActionView::Announce {
                number,
                position: position as int,
                total: total as int,
            },
            Action::Fetch { source, chapter } => ActionView::Fetch {
                source: source as int,
                chapter: chapter@,
            },
            Action::Finish => ActionView::Finish,
        }
    }
}

/// What a source answered to a request for its chapter list, as plain values.
pub open spec fn list_answer(r: Result<Vec<ChapterRef>, Failure>) -> Result<
    Seq<RefView>,
    Seq<char>,
> {
    match r {
        Ok(refs) => Ok(source::ref_views(refs@)),
        Err(f) => Err(f@.message),
    }
}

/// What a source answered to a request for a chapter, as plain values.
pub open spec fn chapter_answer(r: Result<Chapter, Failure>) -> Result<ChapterView, FailureView> {
    match r {
        Ok(c) => Ok(c@),
        Err(f) => Err(f@),
    }
}

/// What a pass asks for and is answered is seen as it is.
pub proof fn law_requests_and_answers_are_seen_whole(
    source: usize,
    number: u32,
    position: usize,
    total: usize,
    r: ChapterRef,
    refs: Vec<ChapterRef>,
    c: Chapter,
    f: Failure,
)
    ensures
        (Action::Discover { source })@ == (ActionView::Discover { source: source as int }),
        (Action::Announce { number, position, total })@ == (ActionView::Announce {
            number,
            position: position as int,
            total: total as int,
        }),
        (Action::Fetch { source, chapter: r })@ == (ActionView::Fetch {
            source: source as int,
            chapter: r@,
        }),
        Action::Finish@ == ActionView::Finish,
        list_answer(Ok(refs)) == Ok::<Seq<RefView>, Seq<char>>(source::ref_views(refs@)),
        list_answer(Err(f)) == Err::<Seq<RefView>, Seq<char>>(f.message@),
        chapter_answer(Ok(c)) == Ok::<ChapterView, FailureView>(c@),
        chapter_answer(Err(f)) == Err::<ChapterView, FailureView>(f@),
{
}

} // verus!
