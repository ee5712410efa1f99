//! Strip site watermarks from chapters that are already stored.
//!
//! The adapter filters these out at fetch time, but a stored chapter is never revisited,
//! so everything downloaded before the filter existed still carries them. Re-downloading
//! a novel to fix its text is thousands of requests for prose already on disk; this
//! rewrites what is in the library instead, and touches the network not at all.

use vstd::prelude::*;

use crate::freewebnovel;
use crate::library::Library;
use crate::library;
use crate::numbers;
use crate::store::Store;
use crate::store;
use crate::table::Key;
use crate::text;

verus! {

/// What a scrub pass did.
#[derive(Debug)]
pub struct ScrubReport {
    /// Chapter numbers whose text changed (or would, on a dry run).
    pub chapters: Vec<u32>,
    /// How many marks came out across those chapters.
    pub marks: usize,
}

impl Default for ScrubReport {
    fn default() -> (r: Self)
        ensures
            r.chapters@.len() == 0,
            r.marks == 0,
    {
        ScrubReport { chapters: Vec::new(), marks: 0 }
    }
}

impl ScrubReport {
    pub fn is_empty(&self) -> (r: bool)
        ensures
            r == (self.chapters@.len() == 0),
    {
        self.chapters.len() == 0
    }
}

/// Whether a paragraph carries a mark, or is nothing but one.
pub open spec fn is_marked(paragraph: Seq<char>) -> bool {
    match freewebnovel::without_promo(paragraph) {
        None => true,
        Some(kept) => kept != text::trimmed(paragraph),
    }
}

/// How many of the paragraphs carry a mark.
pub open spec fn mark_count(paragraphs: Seq<Seq<char>>) -> nat
    decreases paragraphs.len(),
{
    if paragraphs.len() == 0 {
        0
    } else {
        mark_count(paragraphs.drop_last()) + (if is_marked(paragraphs.last()) {
            1nat
        } else {
            0nat
        })
    }
}

/// Whether a chapter is to be rewritten: it carries marks, and they are not all of it.
pub open spec fn needs_scrub(paragraphs: Seq<Seq<char>>) -> bool {
    mark_count(paragraphs) > 0 && freewebnovel::survivors(paragraphs).len() > 0
}

/// The library with these of a novel's chapters scrubbed.
pub open spec fn scrubbed(lib: Library, novel: i64, ns: Seq<u32>) -> Library
    decreases ns.len(),
{
    if ns.len() == 0 {
        lib
    } else {
        let before = scrubbed(lib, novel, ns.drop_last());
        let p = lib.chapter(novel, ns.last()).paragraphs;
        if needs_scrub(p) {
            before.with_body((novel, ns.last()), library::body_of(freewebnovel::survivors(p)))
        } else {
            before
        }
    }
}

/// Which of the chapters are to be rewritten.
pub open spec fn marked_among(lib: Library, novel: i64, ns: Seq<u32>) -> Seq<u32>
    decreases ns.len(),
{
    if ns.len() == 0 {
        seq![]
    } else if needs_scrub(lib.chapter(novel, ns.last()).paragraphs) {
        marked_among(lib, novel, ns.drop_last()).push(ns.last())
    } else {
        marked_among(lib, novel, ns.drop_last())
    }
}

/// How many marks the chapters to be rewritten carry.
pub open spec fn marks_among(lib: Library, novel: i64, ns: Seq<u32>) -> nat
    decreases ns.len(),
{
    if ns.len() == 0 {
        0
    } else {
        let p = lib.chapter(novel, ns.last()).paragraphs;
        marks_among(lib, novel, ns.drop_last()) + (if needs_scrub(p) {
            mark_count(p)
        } else {
            0
        })
    }
}

/// A count as a `usize` holds it.
pub open spec fn capped(n: nat) -> usize {
    if n <= usize::MAX {
        n as usize
    } else {
        usize::MAX
    }
}

/// The chapter's paragraphs without their marks, and how many carried one.
fn clean(paragraphs: &Vec<String>) -> (r: (Vec<String>, usize))
    ensures
        text::texts(r.0@) == freewebnovel::survivors(text::texts(paragraphs@)),
        r.1 as nat == mark_count(text::texts(paragraphs@)),
{
    let ghost all = text::texts(paragraphs@);
    let mut kept: Vec<String> = Vec::new();
    let mut marks: usize = 0;
    let mut i: usize = 0;
    assert(text::texts(kept@) =~= freewebnovel::survivors(all.take(0)));
    while i < paragraphs.len()
        invariant
            i <= paragraphs@.len(),
            all == text::texts(paragraphs@),
            text::texts(kept@) == freewebnovel::survivors(all.take(i as int)),
            marks as nat == mark_count(all.take(i as int)),
            marks <= i,
        decreases paragraphs@.len() - i,
    {
        proof {
            let t = all.take(i + 1);
            assert(t.drop_last() =~= all.take(i as int));
            assert(t.last() == paragraphs@[i as int]@);
        }
        let ghost before = kept@;
        match freewebnovel::strip_promo(paragraphs[i].as_str()) {
            None => {
                marks += 1;
            },
            Some(p) => {
                let v = text::to_chars(paragraphs[i].as_str());
                let plain = text::to_text(text::trim(&v));
                if !text::same(p.as_str(), plain.as_str()) {
                    marks += 1;
                }
                kept.push(p);
                assert(text::texts(kept@) =~= text::texts(before).push(p@));
            },
        }
        i += 1;
    }
    assert(all.take(all.len() as int) =~= all);
    (kept, marks)
}

/// Remove injected site adverts from a novel's stored chapters.
///
/// Runs over every chapter whatever supplied it: the marks travel with the text, so a
/// chapter gap-filled from freewebnovel carries them into a novel whose primary is
/// elsewhere.
pub fn scrub_novel(store: &mut Store, novel_id: i64, dry_run: bool) -> (r: ScrubReport)
    requires
        old(store).wf(),
    ensures
        final(store).wf(),
        ({
            let lib = old(store)@;
            let all = numbers::listing(lib.stored(novel_id));
            &&& final(store)@ == (if dry_run {
                lib
            } else {
                scrubbed(lib, novel_id, all)
            })
            &&& r.chapters@ == marked_among(lib, novel_id, all)
            &&& r.marks == capped(marks_among(lib, novel_id, all))
        }),
{
    let ghost lib = store@;
    let chapters = store.load_chapters(novel_id);
    let ghost all = store::chapter_numbers(chapters@);
    let mut report = ScrubReport::default();
    let mut i: usize = 0;
    assert(report.chapters@ =~= marked_among(lib, novel_id, all.take(0)));
    while i < chapters.len()
        invariant
            i <= chapters@.len(),
            store.wf(),
            all == store::chapter_numbers(chapters@),
            forall|j: int|
                0 <= j < chapters@.len() ==> (#[trigger] chapters@[j])@ == lib.chapter(
                    novel_id,
                    chapters@[j].number,
                ),
            store@ == (if dry_run {
                lib
            } else {
                scrubbed(lib, novel_id, all.take(i as int))
            }),
            report.chapters@ == marked_among(lib, novel_id, all.take(i as int)),
            report.marks == capped(marks_among(lib, novel_id, all.take(i as int))),
        decreases chapters@.len() - i,
    {
        let number: u32 = chapters[i].number;
        proof {
            let t = all.take(i + 1);
            assert(t.drop_last() =~= all.take(i as int));
            assert(t.last() == number);
            assert(chapters@[i as int]@ == lib.chapter(novel_id, number));
        }
        let (kept, marks) = clean(&chapters[i].paragraphs);
        assert(text::texts(kept@).len() == kept@.len());
        if marks > 0 && kept.len() > 0 {
            if !dry_run {
                store.update_chapter_body(novel_id, number, &kept);
            }
            report.chapters.push(number);
            report.marks = report.marks.saturating_add(marks);
        }
        i += 1;
    }
    proof {
        assert(all.take(all.len() as int) =~= all);
        numbers::lemma_listing(all, lib.stored(novel_id));
    }
    report
}

/// A dry run reports without writing, and reports what a real run would.
pub proof fn law_scrub_reports_what_it_rewrites(lib: Library, novel: i64, ns: Seq<u32>, n: u32)
    ensures
        marked_among(lib, novel, ns).contains(n) <==> (ns.contains(n) && needs_scrub(
            lib.chapter(novel, n).paragraphs,
        )),
    decreases ns.len(),
{
    if ns.len() > 0 {
        let rest = ns.drop_last();
        law_scrub_reports_what_it_rewrites(lib, novel, rest, n);
        let before = marked_among(lib, novel, rest);
        let m = marked_among(lib, novel, ns);
        if rest.contains(n) {
            let k = choose|k: int| 0 <= k < rest.len() && rest[k] == n;
            assert(ns[k] == n);
        }
        if ns.contains(n) && n != ns.last() {
            let k = choose|k: int| 0 <= k < ns.len() && ns[k] == n;
            assert(rest[k] == n);
        }
        assert(ns[ns.len() - 1] == ns.last());
        if before.contains(n) {
            let k = choose|k: int| 0 <= k < before.len() && before[k] == n;
            assert(m[k] == n);
        }
        if m.contains(n) && m != before {
            let k = choose|k: int| 0 <= k < m.len() && m[k] == n;
            if k < before.len() {
                assert(before[k] == n);
            }
        }
        if m != before {
            assert(m[m.len() - 1] == ns.last());
        }
    }
}

/// Scrubbing touches nothing but the text of the chapters that carry marks: no chapter is
/// lost, and a chapter that is clean, or nothing but marks, stays as it is.
pub proof fn law_scrub_leaves_the_rest_alone(lib: Library, novel: i64, ns: Seq<u32>, k: Key)
    ensures
        ({
            let after = scrubbed(lib, novel, ns);
            &&& after == (Library { chapters: after.chapters, ..lib })
            &&& after.chapters.dom() == lib.chapters.dom()
            &&& lib.chapters.contains_key(k) && !(k.0 == novel && needs_scrub(
                lib.chapter(novel, k.1).paragraphs,
            )) ==> after.chapters[k] == lib.chapters[k]
        }),
    decreases ns.len(),
{
    if ns.len() > 0 {
        law_scrub_leaves_the_rest_alone(lib, novel, ns.drop_last(), k);
        let after = scrubbed(lib, novel, ns);
        assert(after.chapters.dom() =~= lib.chapters.dom());
    }
}

/// A chapter is scrubbed where some paragraph carries a mark and something else is left; it then
/// holds what is left of its paragraphs, and its marks are counted one by one.
pub proof fn law_marked_chapters_are_rewritten(
    lib: Library,
    novel: i64,
    ns: Seq<u32>,
    n: u32,
    paragraphs: Seq<Seq<char>>,
    p: Seq<char>,
)
    requires
        !ns.contains(n),
        lib.chapters.contains_key((novel, n)),
    ensures
        mark_count(seq![]) == 0,
        mark_count(paragraphs.push(p)) == mark_count(paragraphs) + (if freewebnovel::without_promo(
            p,
        ) == Some(text::trimmed(p)) {
            0nat
        } else {
            1nat
        }),
        needs_scrub(paragraphs) <==> mark_count(paragraphs) > 0 && freewebnovel::survivors(
            paragraphs,
        ).len() > 0,
        needs_scrub(lib.chapter(novel, n).paragraphs) ==> {
            &&& scrubbed(lib, novel, ns.push(n)).chapters[(novel, n)].body == text::join(
                freewebnovel::survivors(lib.chapter(novel, n).paragraphs),
                seq!['\n', '\n'],
            )
            &&& marked_among(lib, novel, ns.push(n)) == marked_among(lib, novel, ns).push(n)
            &&& marks_among(lib, novel, ns.push(n)) == marks_among(lib, novel, ns) + mark_count(
                lib.chapter(novel, n).paragraphs,
            )
        },
        !needs_scrub(lib.chapter(novel, n).paragraphs) ==> {
            &&& scrubbed(lib, novel, ns.push(n)) == scrubbed(lib, novel, ns)
            &&& marked_among(lib, novel, ns.push(n)) == marked_among(lib, novel, ns)
            &&& marks_among(lib, novel, ns.push(n)) == marks_among(lib, novel, ns)
        },
{
    reveal_strlit("\n\n");
    assert("\n\n"@ =~= seq!['\n', '\n']);
    assert(paragraphs.push(p).drop_last() =~= paragraphs);
    assert(ns.push(n).drop_last() =~= ns);
    lemma_scrubbed_keeps_keys(lib, novel, ns);
}

proof fn lemma_scrubbed_keeps_keys(lib: Library, novel: i64, ns: Seq<u32>)
    ensures
        scrubbed(lib, novel, ns).chapters.dom() == lib.chapters.dom(),
    decreases ns.len(),
{
    if ns.len() > 0 {
        lemma_scrubbed_keeps_keys(lib, novel, ns.drop_last());
        assert(scrubbed(lib, novel, ns).chapters.dom() =~= lib.chapters.dom());
    }
}

} // verus!
