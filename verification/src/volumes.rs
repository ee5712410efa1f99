//! Which EPUB files a novel is exported to.

use vstd::prelude::*;

use crate::config::Config;
use crate::epub::Cover;
use crate::epub;
use crate::model::{Chapter, NovelMeta};
use crate::paths::LibraryPath;
use crate::paths;
use crate::web;

verus! {

/// One EPUB file: the chapters from `from` up to `to`, and the numbers missing among them.
#[derive(Debug)]
pub struct Volume {
    pub path: LibraryPath,
    pub from: usize,
    pub to: usize,
    pub gaps: Vec<u32>,
}

/// A [`Volume`] as plain values.
#[verifier::ext_equal]
pub struct VolumeView {
    pub root: Seq<char>,
    pub parts: Seq<Seq<char>>,
    pub from: int,
    pub to: int,
    pub gaps: Seq<u32>,
}

impl View for Volume {
    type V = VolumeView;

    open spec fn view(&self) -> VolumeView {
        VolumeView {
            root: self.path.root@,
            parts: self.path.components(),
            from: self.from as int,
            to: self.to as int,
            gaps: self.gaps@,
        }
    }
}

pub open spec fn volume_views(v: Seq<Volume>) -> Seq<VolumeView> {
    v.map_values(|x: Volume| x@)
}

/// Whether a number lies after `after` and not beyond `upto`, as far as there are such bounds.
pub open spec fn lies_within(n: u32, after: Option<u32>, upto: Option<u32>) -> bool {
    (after matches Some(a) ==> a < n) && (upto matches Some(b) ==> n <= b)
}

/// The gaps after `after` up to `upto`.
pub open spec fn gaps_within(gaps: Seq<u32>, after: Option<u32>, upto: Option<u32>) -> Seq<u32>
    decreases gaps.len(),
{
    if gaps.len() == 0 {
        seq![]
    } else {
        let before = gaps_within(gaps.drop_last(), after, upto);
        if lies_within(gaps.last(), after, upto) {
            before.push(gaps.last())
        } else {
            before
        }
    }
}

/// The chapter that the one at `from` follows, if any.
pub open spec fn chapter_before(numbers: Seq<u32>, from: int) -> Option<u32> {
    if from > 0 {
        Some(numbers[from - 1])
    } else {
        None
    }
}

/// The last chapter before `to`, unless nothing follows it.
pub open spec fn last_before(numbers: Seq<u32>, to: int) -> Option<u32> {
    if to < numbers.len() {
        Some(numbers[to - 1])
    } else {
        None
    }
}

/// The number of the volume that starts at a chapter.
pub open spec fn volume_number(from: int, size: int) -> u32 {
    ((from / size + 1) % 0x1_0000_0000) as u32
}

/// One volume of `size` chapters, or of what is left. It lists the gaps since the volume before
/// it, and the last one those after its chapters too.
pub open spec fn volume_at(
    root: Seq<char>,
    author: Option<Seq<char>>,
    title: Seq<char>,
    numbers: Seq<u32>,
    gaps: Seq<u32>,
    from: int,
    size: int,
) -> VolumeView {
    let to = if from + size < numbers.len() {
        from + size
    } else {
        numbers.len() as int
    };
    VolumeView {
        root,
        parts: paths::epub_parts(author, title, Some(volume_number(from, size))),
        from,
        to,
        gaps: gaps_within(gaps, chapter_before(numbers, from), last_before(numbers, to)),
    }
}

/// The volumes of the chapters up to `upto`.
pub open spec fn volumes_upto(
    root: Seq<char>,
    author: Option<Seq<char>>,
    title: Seq<char>,
    numbers: Seq<u32>,
    gaps: Seq<u32>,
    size: int,
    count: int,
) -> Seq<VolumeView>
    decreases count,
{
    if count <= 0 {
        seq![]
    } else {
        volumes_upto(root, author, title, numbers, gaps, size, count - 1).push(
            volume_at(root, author, title, numbers, gaps, (count - 1) * size, size),
        )
    }
}

/// How many volumes of `size` chapters it takes.
pub open spec fn volume_count(chapters: int, size: int) -> int {
    (chapters + size - 1) / size
}

/// The files a novel is exported to: none without chapters, one for all of them, or one
/// for every `split` chapters. Each gap is listed in one of them.
pub open spec fn export_plan(
    root: Seq<char>,
    author: Option<Seq<char>>,
    title: Seq<char>,
    numbers: Seq<u32>,
    gaps: Seq<u32>,
    split: u32,
) -> Seq<VolumeView> {
    if numbers.len() == 0 {
        seq![]
    } else if split == 0 {
        seq![
            VolumeView {
                root,
                parts: paths::epub_parts(author, title, None),
                from: 0,
                to: numbers.len() as int,
                gaps,
            },
        ]
    } else {
        volumes_upto(
            root,
            author,
            title,
            numbers,
            gaps,
            split as int,
            volume_count(numbers.len() as int, split as int),
        )
    }
}

fn pick_gaps(gaps: &[u32], after: Option<u32>, upto: Option<u32>) -> (r: Vec<u32>)
    ensures
        r@ == gaps_within(gaps@, after, upto),
{
    let mut out: Vec<u32> = Vec::new();
    let mut i: usize = 0;
    while i < gaps.len()
        invariant
            i <= gaps@.len(),
            out@ == gaps_within(gaps@.take(i as int), after, upto),
        decreases gaps@.len() - i,
    {
        proof {
            let t = gaps@.take(i + 1);
            assert(t.drop_last() =~= gaps@.take(i as int));
            assert(t.last() == gaps@[i as int]);
        }
        let late = match after {
            Some(a) => a < gaps[i],
            None => true,
        };
        let early = match upto {
            Some(b) => gaps[i] <= b,
            None => true,
        };
        if late && early {
            out.push(gaps[i]);
        }
        i += 1;
    }
    assert(gaps@.take(gaps@.len() as int) =~= gaps@);
    out
}

fn copy_gaps(gaps: &[u32]) -> (r: Vec<u32>)
    ensures
        r@ == gaps@,
{
    let mut out: Vec<u32> = Vec::new();
    let mut i: usize = 0;
    while i < gaps.len()
        invariant
            i <= gaps@.len(),
            out@ == gaps@.take(i as int),
        decreases gaps@.len() - i,
    {
        out.push(gaps[i]);
        assert(out@ =~= gaps@.take(i + 1));
        i += 1;
    }
    assert(gaps@.take(gaps@.len() as int) =~= gaps@);
    out
}

pub open spec fn numbers_of(chapters: Seq<Chapter>) -> Seq<u32> {
    chapters.map_values(|c: Chapter| c.number)
}

proof fn lemma_volume_start(k: int, n: int, size: int)
    requires
        size > 0,
        k >= 0,
    ensures
        (k * size) / size == k,
        k < volume_count(n, size) <==> k * size < n,
{
    assert((k * size) / size == k && (k < (n + size - 1) / size <==> k * size < n))
        by (nonlinear_arith)
        requires
            size > 0,
            k >= 0,
    ;
}

fn plan_split(
    output_dir: &str,
    author: Option<&str>,
    title: &str,
    chapters: &[Chapter],
    gaps: &[u32],
    split: u32,
) -> (r: Vec<Volume>)
    requires
        split > 0,
    ensures
        volume_views(r@) == volumes_upto(
            output_dir@,
            paths::opt_str(author),
            title@,
            numbers_of(chapters@),
            gaps@,
            split as int,
            volume_count(chapters@.len() as int, split as int),
        ),
{
    let ghost numbers = numbers_of(chapters@);
    let ghost who = paths::opt_str(author);
    let ghost n = chapters@.len() as int;
    let ghost size = split as int;
    let total: usize = chapters.len();
    let mut out: Vec<Volume> = Vec::new();
    let mut from: usize = 0;
    let mut k: usize = 0;
    proof {
        lemma_volume_start(0, n, size);
    }
    while from < total
        invariant
            split > 0,
            size == split as int,
            total == n,
            n == chapters@.len(),
            numbers == numbers_of(chapters@),
            who == paths::opt_str(author),
            k <= from,
            from < total ==> from == k * size,
            from >= total ==> k == volume_count(n, size) && from == total,
            volume_views(out@) == volumes_upto(
                output_dir@,
                who,
                title@,
                numbers,
                gaps@,
                size,
                k as int,
            ),
        decreases total - from,
    {
        let left: usize = total - from;
        let to: usize = if (split as u64) < left as u64 {
            from + split as usize
        } else {
            total
        };
        let number: u32 = ((k as u64 + 1) % 0x1_0000_0000) as u32;
        proof {
            lemma_volume_start(k as int, n, size);
            lemma_volume_start(k + 1, n, size);
            assert((k + 1) * size == k * size + size) by (nonlinear_arith);
            assert(number == volume_number(from as int, size));
        }
        let after: Option<u32> = if from > 0 {
            Some(chapters[from - 1].number)
        } else {
            None
        };
        let upto: Option<u32> = if to < total {
            Some(chapters[to - 1].number)
        } else {
            None
        };
        assert(after == chapter_before(numbers, from as int));
        assert(upto == last_before(numbers, to as int));
        let v = Volume {
            path: paths::epub_path(output_dir, author, title, Some(number)),
            from,
            to,
            gaps: pick_gaps(gaps, after, upto),
        };
        let ghost before = out@;
        out.push(v);
        proof {
            assert(v@ =~= volume_at(output_dir@, who, title@, numbers, gaps@, k * size, size));
            assert(volume_views(out@) =~= volume_views(before).push(v@));
            if to == total {
                assert(k + 1 == volume_count(n, size)) by {
                    assert(!(k + 1 < volume_count(n, size)));
                    assert(k < volume_count(n, size));
                }
            }
        }
        from = to;
        k += 1;
    }
    out
}

/// Lay out the files of a novel's export, honouring the split setting.
pub fn plan_export(config: &Config, meta: &NovelMeta, chapters: &[Chapter], gaps: &[u32]) -> (r: Vec<
    Volume,
>)
    ensures
        volume_views(r@) == export_plan(
            config@.output_dir,
            meta@.author,
            meta@.title,
            numbers_of(chapters@),
            gaps@,
            config@.split_every_chapters,
        ),
{
    let author: Option<&str> = match &meta.author {
        Some(a) => Some(a.as_str()),
        None => None,
    };
    assert(paths::opt_str(author) == meta@.author);
    if chapters.len() == 0 {
        let none: Vec<Volume> = Vec::new();
        assert(volume_views(none@) =~= Seq::<VolumeView>::empty());
        return none;
    }
    if config.split_every_chapters == 0 {
        let mut out: Vec<Volume> = Vec::new();
        let v = Volume {
            path: paths::epub_path(config.output_dir.as_str(), author, meta.title.as_str(), None),
            from: 0,
            to: chapters.len(),
            gaps: copy_gaps(gaps),
        };
        out.push(v);
        assert(volume_views(out@) =~= seq![v@]);
        return out;
    }
    plan_split(
        config.output_dir.as_str(),
        author,
        meta.title.as_str(),
        chapters,
        gaps,
        config.split_every_chapters,
    )
}

/// Build one of the planned files: its bytes.
pub fn build_volume(meta: &NovelMeta, chapters: &[Chapter], volume: &Volume, cover: Option<&Cover>) -> (
r: Result<Vec<u8>, String>)
    requires
        volume.from <= volume.to <= chapters@.len(),
    ensures
        match r {
            Ok(bytes) => epub::packed(
                bytes@,
                epub::book(
                    meta@,
                    web::host_of(meta@.source_url),
                    epub::chapter_views(chapters@).subrange(volume@.from, volume@.to),
                    epub::cover_view(cover),
                    volume@.gaps,
                ),
            ),
            Err(e) => epub::packing_error(e@),
        },
        epub::is_regular(
            web::host_of(meta@.source_url),
            epub::chapter_views(chapters@).subrange(volume@.from, volume@.to),
            epub::cover_view(cover),
            volume@.gaps,
        ) && epub::is_modest(
            epub::book(
                meta@,
                web::host_of(meta@.source_url),
                epub::chapter_views(chapters@).subrange(volume@.from, volume@.to),
                epub::cover_view(cover),
                volume@.gaps,
            ),
        ) ==> r is Ok,
        !epub::numbers_differ(
            epub::chapter_views(chapters@).subrange(volume@.from, volume@.to),
        ) ==> r is Err,
{
    let part = vstd::slice::slice_subrange(chapters, volume.from, volume.to);
    assert(epub::chapter_views(part@) =~= epub::chapter_views(chapters@).subrange(
        volume@.from,
        volume@.to,
    ));
    epub::build_epub(meta, part, cover, &volume.gaps)
}

/// Whether volumes follow each other without a gap, from `from` to `to`, none of them
/// empty or longer than `size`.
pub open spec fn covers(plan: Seq<VolumeView>, from: int, to: int, size: int) -> bool {
    &&& plan.len() > 0
    &&& plan[0].from == from
    &&& plan.last().to == to
    &&& forall|i: int|
        0 <= i < plan.len() ==> (#[trigger] plan[i]).from < plan[i].to <= plan[i].from + size
    &&& forall|i: int| 0 <= i < plan.len() - 1 ==> (#[trigger] plan[i]).to == plan[i + 1].from
}

proof fn lemma_volumes(
    root: Seq<char>,
    author: Option<Seq<char>>,
    title: Seq<char>,
    numbers: Seq<u32>,
    gaps: Seq<u32>,
    size: int,
    count: int,
)
    requires
        size > 0,
        0 < count <= volume_count(numbers.len() as int, size),
    ensures
        ({
            let plan = volumes_upto(root, author, title, numbers, gaps, size, count);
            &&& plan.len() == count
            &&& covers(
                plan,
                0,
                if count * size < numbers.len() {
                    count * size
                } else {
                    numbers.len() as int
                },
                size,
            )
        }),
    decreases count,
{
    let n = numbers.len() as int;
    let plan = volumes_upto(root, author, title, numbers, gaps, size, count);
    lemma_volume_start(count - 1, n, size);
    assert(count * size == (count - 1) * size + size) by (nonlinear_arith);
    if count == 1 {
        assert(volumes_upto(root, author, title, numbers, gaps, size, 0) =~= Seq::<
            VolumeView,
        >::empty());
        assert((count - 1) * size == 0) by (nonlinear_arith)
            requires
                count == 1,
        ;
    } else {
        lemma_volumes(root, author, title, numbers, gaps, size, count - 1);
        let before = volumes_upto(root, author, title, numbers, gaps, size, count - 1);
        assert forall|i: int| 0 <= i < plan.len() implies (#[trigger] plan[i]).from < plan[i].to
            <= plan[i].from + size by {
            if i < before.len() {
                assert(plan[i] == before[i]);
            }
        }
        assert forall|i: int| 0 <= i < plan.len() - 1 implies (#[trigger] plan[i]).to == plan[i
            + 1].from by {
            assert(plan[i] == before[i]);
            if i + 1 < before.len() {
                assert(plan[i + 1] == before[i + 1]);
            } else {
                assert(before.last() == before[i]);
            }
        }
        assert(plan[0] == before[0]);
    }
}

/// The volumes of an export hold every chapter just once, in their order, and none is
/// longer than the split setting allows.
pub proof fn law_volumes_cover_the_novel(
    root: Seq<char>,
    author: Option<Seq<char>>,
    title: Seq<char>,
    numbers: Seq<u32>,
    gaps: Seq<u32>,
    split: u32,
)
    requires
        numbers.len() > 0,
    ensures
        covers(
            export_plan(root, author, title, numbers, gaps, split),
            0,
            numbers.len() as int,
            if split == 0 {
                numbers.len() as int
            } else {
                split as int
            },
        ),
{
    if split > 0 {
        let size = split as int;
        let n = numbers.len() as int;
        let count = volume_count(n, size);
        lemma_volume_start(0, n, size);
        assert(0 < count) by {
            assert(0 * size < n);
        }
        lemma_volume_start(count, n, size);
        lemma_volumes(root, author, title, numbers, gaps, size, count);
    }
}

proof fn lemma_volumes_at(
    root: Seq<char>,
    author: Option<Seq<char>>,
    title: Seq<char>,
    numbers: Seq<u32>,
    gaps: Seq<u32>,
    size: int,
    count: int,
    i: int,
)
    requires
        0 <= i < count,
    ensures
        volumes_upto(root, author, title, numbers, gaps, size, count).len() == count,
        volumes_upto(root, author, title, numbers, gaps, size, count)[i] == volume_at(
            root,
            author,
            title,
            numbers,
            gaps,
            i * size,
            size,
        ),
    decreases count,
{
    if i < count - 1 {
        lemma_volumes_at(root, author, title, numbers, gaps, size, count - 1, i);
    } else if count > 1 {
        lemma_volumes_at(root, author, title, numbers, gaps, size, count - 1, 0);
    } else {
        assert(volumes_upto(root, author, title, numbers, gaps, size, 0).len() == 0);
    }
}

/// New chapters change only the volume in progress: one that is full stays the same file
/// with the same chapters, and once another has begun after it, with the same list of
/// missing chapters.
pub proof fn law_full_volumes_do_not_change(
    root: Seq<char>,
    author: Option<Seq<char>>,
    title: Seq<char>,
    numbers: Seq<u32>,
    more: Seq<u32>,
    gaps: Seq<u32>,
    split: u32,
    i: int,
)
    requires
        split > 0,
        0 <= i,
        (i + 1) * split <= numbers.len(),
    ensures
        ({
            let before = export_plan(root, author, title, numbers, gaps, split);
            let after = export_plan(root, author, title, numbers + more, gaps, split);
            &&& i < before.len()
            &&& i < after.len()
            &&& after[i].root == before[i].root
            &&& after[i].parts == before[i].parts
            &&& after[i].from == before[i].from
            &&& after[i].to == before[i].to
            &&& (i + 1) * split < numbers.len() ==> after[i].gaps == before[i].gaps
        }),
{
    let size = split as int;
    let n = numbers.len() as int;
    let m = (numbers + more).len() as int;
    let full = (i + 1) * size;
    assert(full == i * size + size) by (nonlinear_arith)
        requires
            full == (i + 1) * size,
    ;
    assert(0 <= i * size) by (nonlinear_arith)
        requires
            0 <= i,
            0 < size,
    ;
    assert(i < volume_count(n, size)) by (nonlinear_arith)
        requires
            0 < size,
            (i + 1) * size <= n,
            volume_count(n, size) == (n + size - 1) / size,
    ;
    assert(i < volume_count(m, size)) by (nonlinear_arith)
        requires
            0 < size,
            (i + 1) * size <= n,
            n <= m,
            volume_count(m, size) == (m + size - 1) / size,
    ;
    lemma_volumes_at(root, author, title, numbers, gaps, size, volume_count(n, size), i);
    lemma_volumes_at(root, author, title, numbers + more, gaps, size, volume_count(m, size), i);
    if i * size > 0 {
        assert((numbers + more)[i * size - 1] == numbers[i * size - 1]);
    }
    assert((numbers + more)[full - 1] == numbers[full - 1]);
}

proof fn lemma_gaps_within(gaps: Seq<u32>, after: Option<u32>, upto: Option<u32>, g: u32)
    ensures
        gaps_within(gaps, after, upto).contains(g) <==> gaps.contains(g) && lies_within(
            g,
            after,
            upto,
        ),
    decreases gaps.len(),
{
    let r = gaps_within(gaps, after, upto);
    if gaps.len() > 0 {
        let t = gaps.drop_last();
        let before = gaps_within(t, after, upto);
        lemma_gaps_within(t, after, upto, g);
        if gaps.contains(g) {
            let j = choose|j: int| 0 <= j < gaps.len() && gaps[j] == g;
            if j < t.len() {
                assert(t[j] == g);
            }
        }
        if t.contains(g) {
            let j = choose|j: int| 0 <= j < t.len() && t[j] == g;
            assert(gaps[j] == g);
        }
        if before.contains(g) {
            let j = choose|j: int| 0 <= j < before.len() && before[j] == g;
            assert(r[j] == g);
        }
        if r.contains(g) {
            let j = choose|j: int| 0 <= j < r.len() && r[j] == g;
            if j < before.len() {
                assert(before[j] == g);
            } else {
                assert(gaps[gaps.len() - 1] == g);
            }
        }
        if g == gaps.last() {
            assert(gaps[gaps.len() - 1] == g);
            if lies_within(g, after, upto) {
                assert(r[r.len() - 1] == g);
            }
        }
    }
}

/// The volume whose list a gap belongs in: the first whose chapters reach it, or the last.
proof fn lemma_volume_of(numbers: Seq<u32>, size: int, count: int, g: u32) -> (k: int)
    requires
        size > 0,
        0 < count,
        (count - 1) * size < numbers.len(),
        forall|i: int, j: int| 0 <= i < j < numbers.len() ==> numbers[i] < numbers[j],
        count * size < numbers.len() ==> g <= numbers[count * size - 1],
    ensures
        0 <= k < count,
        k > 0 ==> numbers[k * size - 1] < g,
        (k + 1) * size < numbers.len() ==> g <= numbers[(k + 1) * size - 1],
    decreases count,
{
    assert(count * size == (count - 1) * size + size) by (nonlinear_arith);
    if count > 1 && g <= numbers[(count - 1) * size - 1] {
        assert((count - 1) * size == (count - 2) * size + size) by (nonlinear_arith);
        lemma_volume_of(numbers, size, count - 1, g)
    } else {
        count - 1
    }
}

/// Every missing chapter is listed, and in one volume alone: an export of at least one
/// chapter passes none of them over.
pub proof fn law_every_gap_is_listed_once(
    root: Seq<char>,
    author: Option<Seq<char>>,
    title: Seq<char>,
    numbers: Seq<u32>,
    gaps: Seq<u32>,
    split: u32,
    g: u32,
)
    requires
        numbers.len() > 0,
        forall|i: int, j: int| 0 <= i < j < numbers.len() ==> numbers[i] < numbers[j],
    ensures
        ({
            let plan = export_plan(root, author, title, numbers, gaps, split);
            &&& gaps.contains(g) <==> exists|i: int|
                0 <= i < plan.len() && (#[trigger] plan[i]).gaps.contains(g)
            &&& forall|i: int, j: int|
                0 <= i < plan.len() && 0 <= j < plan.len() && (#[trigger] plan[i]).gaps.contains(g)
                    && (#[trigger] plan[j]).gaps.contains(g) ==> i == j
        }),
{
    let plan = export_plan(root, author, title, numbers, gaps, split);
    if split == 0 {
        assert(plan[0].gaps == gaps);
    } else {
        let size = split as int;
        let n = numbers.len() as int;
        let count = volume_count(n, size);
        lemma_volume_start(0, n, size);
        assert(0 < count) by {
            assert(0 * size < n);
        }
        lemma_volume_start(count - 1, n, size);
        lemma_volume_start(count, n, size);
        lemma_volumes_at(root, author, title, numbers, gaps, size, count, 0);
        assert(plan.len() == count);
        assert forall|i: int| 0 <= i < count implies (#[trigger] plan[i]).gaps.contains(g) == (
        gaps.contains(g) && (i > 0 ==> numbers[i * size - 1] < g) && ((i + 1) * size < n ==> g
            <= numbers[(i + 1) * size - 1])) by {
            lemma_volumes_at(root, author, title, numbers, gaps, size, count, i);
            assert((i + 1) * size == i * size + size) by (nonlinear_arith);
            assert(i > 0 ==> i * size > 0) by (nonlinear_arith)
                requires
                    size > 0,
            ;
            lemma_volume_start(i, n, size);
            let to = if i * size + size < n {
                i * size + size
            } else {
                n
            };
            lemma_gaps_within(gaps, chapter_before(numbers, i * size), last_before(numbers, to), g);
        }
        let k = lemma_volume_of(numbers, size, count, g);
        if gaps.contains(g) {
            assert(plan[k].gaps.contains(g));
        }
        assert forall|i: int, j: int|
            0 <= i < plan.len() && 0 <= j < plan.len() && (#[trigger] plan[i]).gaps.contains(g) && (
            #[trigger] plan[j]).gaps.contains(g) implies i == j by {
            lemma_volume_start(i, n, size);
            lemma_volume_start(j, n, size);
            lemma_apart(numbers, size, i, j, g);
            lemma_apart(numbers, size, j, i, g);
        }
    }
}

proof fn lemma_apart(numbers: Seq<u32>, size: int, i: int, j: int, g: u32)
    requires
        size > 0,
        0 <= i,
        0 <= j,
        j * size < numbers.len(),
        forall|a: int, b: int| 0 <= a < b < numbers.len() ==> numbers[a] < numbers[b],
        (i + 1) * size < numbers.len() ==> g <= numbers[(i + 1) * size - 1],
        j > 0 ==> numbers[j * size - 1] < g,
    ensures
        j <= i,
{
    if i < j {
        assert((i + 1) * size <= j * size) by (nonlinear_arith)
            requires
                i + 1 <= j,
                size > 0,
        ;
        assert(0 < (i + 1) * size) by (nonlinear_arith)
            requires
                0 <= i,
                size > 0,
        ;
        assert(numbers[(i + 1) * size - 1] <= numbers[j * size - 1]);
    }
}

/// A novel is exported whole to one file that lists all its gaps, or in volumes of the size asked
/// for: the volume at place `i` starts behind the `i` before it and is named by its number.
pub proof fn law_volumes_are_cut_and_named_in_order(
    root: Seq<char>,
    author: Option<Seq<char>>,
    title: Seq<char>,
    numbers: Seq<u32>,
    gaps: Seq<u32>,
    split: u32,
    i: int,
)
    requires
        numbers.len() > 0,
    ensures
        ({
            let plan = export_plan(root, author, title, numbers, gaps, split);
            &&& export_plan(root, author, title, seq![], gaps, split).len() == 0
            &&& split == 0 ==> plan.len() == 1 && plan[0].from == 0 && plan[0].to == numbers.len()
                && plan[0].gaps == gaps && plan[0].root == root && plan[0].parts
                == paths::epub_parts(author, title, None)
            &&& split > 0 && 0 <= i && i * split < numbers.len() && i < u32::MAX ==> {
                &&& i < plan.len()
                &&& plan[i].from == i * split
                &&& plan[i].to == if (i + 1) * split < numbers.len() {
                    (i + 1) * split
                } else {
                    numbers.len() as int
                }
                &&& plan[i].root == root
                &&& plan[i].parts == paths::epub_parts(author, title, Some((i + 1) as u32))
            }
        }),
{
    if split > 0 && 0 <= i && i * split < numbers.len() && i < u32::MAX {
        let size = split as int;
        let n = numbers.len() as int;
        lemma_volume_start(i, n, size);
        lemma_volumes_at(root, author, title, numbers, gaps, size, volume_count(n, size), i);
        assert((i + 1) * size == i * size + size) by (nonlinear_arith);
    }
}

/// A volume lists the gaps behind the chapters before it, up to its last chapter; the last volume
/// lists those behind its chapters too.
pub proof fn law_a_volume_lists_its_gaps(
    root: Seq<char>,
    author: Option<Seq<char>>,
    title: Seq<char>,
    numbers: Seq<u32>,
    gaps: Seq<u32>,
    from: int,
    size: int,
    g: u32,
)
    requires
        0 <= from < numbers.len(),
        size > 0,
    ensures
        volume_at(root, author, title, numbers, gaps, from, size).gaps.contains(g) <==> gaps.contains(
            g,
        ) && (from > 0 ==> numbers[from - 1] < g) && (from + size < numbers.len() ==> g
            <= numbers[from + size - 1]),
{
    let to = if from + size < numbers.len() {
        from + size
    } else {
        numbers.len() as int
    };
    lemma_gaps_within(gaps, chapter_before(numbers, from), last_before(numbers, to), g);
}

/// Volumes and chapter numbers are seen as they are.
pub proof fn law_volumes_are_seen_whole(v: Seq<Volume>, c: Seq<Chapter>, i: int)
    requires
        0 <= i < v.len(),
        0 <= i < c.len(),
    ensures
        volume_views(v).len() == v.len(),
        volume_views(v)[i].root == v[i].path.root@,
        volume_views(v)[i].parts == v[i].path.components(),
        volume_views(v)[i].from == v[i].from,
        volume_views(v)[i].to == v[i].to,
        volume_views(v)[i].gaps == v[i].gaps@,
        numbers_of(c).len() == c.len(),
        numbers_of(c)[i] == c[i].number,
{
}

} // verus!
