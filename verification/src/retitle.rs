//! Re-read the titles of stored chapters from their source.
//!
//! A sync never revisits a chapter it already has, so a title that an adapter once got
//! wrong stays wrong. This pass asks for each stored chapter's page again and keeps
//! nothing of it but the title. It costs one request per chapter.

use vstd::prelude::*;

use crate::fetch::{Failure, FailureView};
use crate::job;
use crate::library::Library;
use crate::model::{Chapter, ChapterRef, ChapterView, RefView};
use crate::numbers;
use crate::source;
use crate::store::Store;
use crate::sync::SyncProgress;
use crate::table::Key;

verus! {

/// The listed chapters that are stored, in listing order.
pub open spec fn stored_among(refs: Seq<RefView>, stored: Set<u32>) -> Seq<RefView>
    decreases refs.len(),
{
    if refs.len() == 0 {
        seq![]
    } else if stored.contains(refs.last().number) {
        stored_among(refs.drop_last(), stored).push(refs.last())
    } else {
        stored_among(refs.drop_last(), stored)
    }
}

/// A pass over one novel's titles.
pub struct RetitleJob {
    novel_id: i64,
    stored: usize,
    queue: Vec<ChapterRef>,
    at: usize,
    fixed: usize,
}

/// A [`RetitleJob`] as plain values.
#[verifier::ext_equal]
pub struct RetitleView {
    pub novel: i64,
    /// How many chapters are stored.
    pub stored: int,
    /// The chapters to ask for.
    pub queue: Seq<RefView>,
    /// How many of them have been asked for.
    pub at: int,
    /// How many titles differed.
    pub fixed: int,
}

impl View for RetitleJob {
    type V = RetitleView;

    closed spec fn view(&self) -> RetitleView {
        RetitleView {
            novel: self.novel_id,
            stored: self.stored as int,
            queue: source::ref_views(self.queue@),
            at: self.at as int,
            fixed: self.fixed as int,
        }
    }
}

impl RetitleView {
    pub open spec fn wf(self) -> bool {
        0 <= self.fixed <= self.at <= self.queue.len() <= usize::MAX && 0 <= self.stored
            <= usize::MAX
    }

    /// What an answer does to the library: a page that came through gives its title to
    /// the stored chapter of its number; one that did not leaves everything as it is.
    pub open spec fn library_after(
        self,
        lib: Library,
        answer: Result<ChapterView, FailureView>,
    ) -> Library {
        match answer {
            Ok(c) => lib.with_title((self.novel, c.number), c.title),
            Err(_) => lib,
        }
    }

    /// What an answer does to the pass: the next chapter is up, and a title that
    /// differed is counted.
    pub open spec fn after(
        self,
        lib: Library,
        answer: Result<ChapterView, FailureView>,
    ) -> RetitleView {
        RetitleView {
            at: self.at + 1,
            fixed: self.fixed + (if answer matches Ok(c) && lib.title_differs(
                (self.novel, c.number),
                c.title,
            ) {
                1int
            } else {
                0int
            }),
            ..self
        }
    }
}

impl RetitleJob {
    /// A pass over the stored chapters of a novel, as its source lists them.
    pub fn start(store: &Store, novel_id: i64, refs: Vec<ChapterRef>) -> (r: RetitleJob)
        requires
            store.wf(),
        ensures
            r@.wf(),
            r@ == (RetitleView {
                novel: novel_id,
                stored: numbers::listing(store@.stored(novel_id)).len() as int,
                queue: stored_among(source::ref_views(refs@), store@.stored(novel_id)),
                at: 0,
                fixed: 0,
            }),
    {
        let have = store.stored_list(novel_id);
        let ghost stored = store@.stored(novel_id);
        let ghost all = source::ref_views(refs@);
        proof {
            numbers::lemma_listing(have@, stored);
        }
        let mut queue: Vec<ChapterRef> = Vec::new();
        let mut i: usize = 0;
        assert(source::ref_views(queue@) =~= stored_among(all.take(0), stored));
        while i < refs.len()
            invariant
                queue@.len() <= i <= refs@.len(),
                all == source::ref_views(refs@),
                numbers::lists(have@, stored),
                source::ref_views(queue@) == stored_among(all.take(i as int), stored),
            decreases refs@.len() - i,
        {
            let c = &refs[i];
            proof {
                assert(all.take(i + 1).drop_last() =~= all.take(i as int));
                assert(all.take(i + 1).last() == c@);
            }
            if numbers::in_list(&have, c.number) {
                let ghost before = queue@;
                queue.push(c.clone());
                proof {
                    assert(source::ref_views(queue@) =~= source::ref_views(before).push(c@));
                }
            }
            i += 1;
        }
        proof {
            assert(all.take(all.len() as int) =~= all);
        }
        RetitleJob { novel_id, stored: have.len(), queue, at: 0, fixed: 0 }
    }

    /// The chapter to ask for next.
    pub fn next(&self) -> (r: Option<ChapterRef>)
        requires
            self@.wf(),
        ensures
            r is Some == (self@.at < self@.queue.len()),
            r matches Some(c) ==> c@ == self@.queue[self@.at],
    {
        if self.at < self.queue.len() {
            Some(self.queue[self.at].clone())
        } else {
            None
        }
    }

    /// How far the pass is once the next chapter has been asked for.
    pub fn progress(&self) -> (r: SyncProgress)
        requires
            self@.wf(),
            self@.at < self@.queue.len(),
        ensures
            r matches SyncProgress::Upgrading { done, total } && done == self@.at + 1 && total
                == self@.stored,
    {
        SyncProgress::Upgrading { done: self.at + 1, total: self.stored }
    }

    /// Takes what the source answered for the next chapter.
    pub fn on_fetched(&mut self, store: &mut Store, answer: Result<Chapter, Failure>)
        requires
            old(self)@.wf(),
            old(self)@.at < old(self)@.queue.len(),
            old(store).wf(),
        ensures
            final(self)@.wf(),
            final(store).wf(),
            final(self)@ == old(self)@.after(old(store)@, job::chapter_answer(answer)),
            final(store)@ == old(self)@.library_after(old(store)@, job::chapter_answer(answer)),
    {
        if let Ok(c) = answer {
            if store.update_chapter_title(self.novel_id, c.number, c.title.as_str()) {
                self.fixed = self.fixed + 1;
            }
        }
        self.at = self.at + 1;
    }

    /// How many titles the pass corrected.
    pub fn fixed(&self) -> (r: usize)
        requires
            self@.wf(),
        ensures
            r == self@.fixed,
    {
        self.fixed
    }
}

/// Re-reading titles costs no text: whatever a source answers, the same chapters stay
/// stored, with the same bodies, credited to the same sources.
pub proof fn law_retitling_keeps_the_text(
    job: RetitleView,
    lib: Library,
    answer: Result<ChapterView, FailureView>,
    k: Key,
)
    ensures
        ({
            let after = job.library_after(lib, answer);
            &&& after.chapters.contains_key(k) == lib.chapters.contains_key(k)
            &&& lib.chapters.contains_key(k) ==> after.chapters[k].body == lib.chapters[k].body
                && after.chapters[k].source_id == lib.chapters[k].source_id
            &&& after.novels == lib.novels
            &&& after.sources == lib.sources
            &&& after.gaps == lib.gaps
        }),
{
}

/// A title that was corrected is not corrected again: the same answer a second time
/// changes nothing.
pub proof fn law_retitling_settles(
    job: RetitleView,
    lib: Library,
    answer: Result<ChapterView, FailureView>,
)
    ensures
        ({
            let after = job.library_after(lib, answer);
            &&& job.library_after(after, answer) == after
            &&& job.after(after, answer).fixed == job.fixed
        }),
{
}

/// The chapters whose titles are re-read are the listed ones that are stored, in the order of the
/// list.
pub proof fn law_stored_chapters_are_asked_for(refs: Seq<RefView>, r: RefView, stored: Set<u32>)
    ensures
        stored_among(seq![], stored).len() == 0,
        stored.contains(r.number) ==> stored_among(refs.push(r), stored) == stored_among(
            refs,
            stored,
        ).push(r),
        !stored.contains(r.number) ==> stored_among(refs.push(r), stored) == stored_among(
            refs,
            stored,
        ),
{
    assert(refs.push(r).drop_last() =~= refs);
}

/// A page that comes through gives its title to the stored chapter of its number, and counts where
/// that title was another; one that does not come through changes nothing.
pub proof fn law_a_page_gives_its_title(
    pass: RetitleView,
    lib: Library,
    c: ChapterView,
    f: FailureView,
)
    ensures
        lib.chapters.contains_key((pass.novel, c.number)) ==> {
            let with = pass.library_after(lib, Ok(c));
            &&& with.chapters[(pass.novel, c.number)].title == c.title
            &&& with.chapters[(pass.novel, c.number)].body == lib.chapters[(
                pass.novel,
                c.number,
            )].body
            &&& pass.after(lib, Ok(c)).fixed == pass.fixed + (if lib.chapters[(
                pass.novel,
                c.number,
            )].title != c.title {
                1int
            } else {
                0
            })
        },
        !lib.chapters.contains_key((pass.novel, c.number)) ==> pass.library_after(lib, Ok(c)) == lib
            && pass.after(lib, Ok(c)).fixed == pass.fixed,
        pass.library_after(lib, Err(f)) == lib,
        pass.after(lib, Err(f)).fixed == pass.fixed,
        pass.after(lib, Err(f)).at == pass.at + 1,
        pass.after(lib, Ok(c)).at == pass.at + 1,
        pass.after(lib, Ok(c)).queue == pass.queue,
{
}

} // verus!
