//! When a novel is looked at, exported, and reopened.

use vstd::prelude::*;

use crate::config::{Config, ConfigView};
use crate::library::Library;
use crate::library;
use crate::model::DerivedState;
use crate::numbers;
use crate::store::{SourceView, Store, StoredSource};
use crate::store;
use crate::sync::{ReportView, SyncReport};
use crate::text;

verus! {

/// Whether a finished novel was looked at so recently that a sync leaves it out.
pub open spec fn is_resting(state: DerivedState, last: Option<i64>, now: i64, days: u32) -> bool {
    &&& state == DerivedState::LikelyComplete
    &&& last matches Some(t) && now - t < days * 86_400
}

/// Poll finished novels less often: whether a novel is left out of this sync.
pub fn rests(state: DerivedState, last_synced: Option<i64>, now: i64, recheck_days: u32) -> (r: bool)
    ensures
        r == is_resting(state, last_synced, now, recheck_days),
{
    match state {
        DerivedState::LikelyComplete => match last_synced {
            Some(t) => (now as i128) - (t as i128) < recheck_days as i128 * 86_400,
            None => false,
        },
        _ => false,
    }
}

/// Only a novel that is judged complete is ever left out of a sync.
pub proof fn law_only_finished_novels_rest(state: DerivedState, last: Option<i64>, now: i64, days: u32)
    requires
        is_resting(state, last, now, days),
    ensures
        state == DerivedState::LikelyComplete,
{
}

/// Whether an export is due after a sync: once a backfill has caught up, when a caught-up
/// novel has gained or changed chapters, or when an earlier export is still owed.
pub open spec fn export_due(
    config: ConfigView,
    before: DerivedState,
    report: ReportView,
    pending: bool,
) -> bool {
    ||| config.auto_export && before == DerivedState::Backfilling && report.new_state
        == DerivedState::Live
    ||| config.auto_append && before != DerivedState::Backfilling && (report.newly_fetched > 0
        || report.upgraded > 0)
    ||| pending
}

pub fn should_export(config: &Config, before: DerivedState, report: &SyncReport, pending: bool) -> (r:
    bool)
    ensures
        r == export_due(config@, before, report@, pending),
{
    let was_filling = match before {
        DerivedState::Backfilling => true,
        _ => false,
    };
    let is_live = match report.new_state {
        DerivedState::Live => true,
        _ => false,
    };
    // New chapters and content upgrades both make an existing EPUB stale.
    let changed = report.newly_fetched > 0 || report.upgraded > 0;
    (config.auto_export && was_filling && is_live) || (config.auto_append && !was_filling
        && changed) || pending
}

/// What follows from a pass over a novel.
pub struct Conclusion {
    /// The novel's state from now on.
    pub state: DerivedState,
    /// Whether its books are to be written.
    pub export: bool,
}

/// After a pass over a novel that was in state `before`: judge whether it is complete by
/// now, and whether an export is due.
pub fn conclude_pass(
    store: &mut Store,
    config: &Config,
    novel_id: i64,
    before: DerivedState,
    report: &SyncReport,
    now: i64,
) -> (r: Result<Conclusion, String>)
    requires
        old(store).wf(),
    ensures
        final(store).wf(),
        r is Ok == old(store)@.novels.contains_key(novel_id),
        r matches Err(e) ==> e@ == library::broken_reference() && final(store)@ == old(store)@,
        r matches Ok(c) ==> {
            let lib = old(store)@;
            &&& c.state == lib.reevaluated_state(novel_id, now, config@.quiet_grace_days)
            &&& final(store)@ == (if c.state == lib.novels[novel_id].derived_state {
                lib
            } else {
                lib.with_state(novel_id, c.state, now)
            })
            &&& c.export == export_due(
                config@,
                before,
                report@,
                lib.novels[novel_id].export_pending,
            )
        },
{
    let pending = match store.load_novel_by_id(novel_id) {
        Some(n) => n.export_pending,
        None => false,
    };
    match store.reevaluate_completion_at(novel_id, config.quiet_grace_days, now) {
        Ok(state) => Ok(
            Conclusion { state, export: should_export(config, before, report, pending) },
        ),
        Err(e) => Err(e),
    }
}

/// While a backfill is under way nothing is exported on its own account.
pub proof fn law_no_export_while_filling(config: ConfigView, report: ReportView)
    requires
        report.new_state == DerivedState::Backfilling,
    ensures
        !export_due(config, DerivedState::Backfilling, report, false),
{
}

/// With both settings off, only an export that is still owed is made.
pub proof fn law_exports_are_opt_in(
    config: ConfigView,
    before: DerivedState,
    report: ReportView,
    pending: bool,
)
    requires
        !config.auto_export,
        !config.auto_append,
    ensures
        export_due(config, before, report, pending) == pending,
{
}

/// Keep the result of an export that was due: one that failed, likely because the file is
/// open elsewhere, is owed and made again after the next sync. `files` is how many files
/// were written, or `None` for a failure.
pub fn settle_export(store: &mut Store, novel_id: i64, files: Option<usize>)
    requires
        old(store).wf(),
    ensures
        final(store).wf(),
        final(store)@ == (match files {
            None => old(store)@.with_pending(novel_id, true),
            Some(n) => if n > 0 {
                old(store)@.with_pending(novel_id, false)
            } else {
                old(store)@
            },
        }),
{
    match files {
        None => store.set_export_pending(novel_id, true),
        Some(n) => if n > 0 {
            store.set_export_pending(novel_id, false);
        },
    }
}

/// Whether a novel has chapters that no source has supplied.
pub open spec fn has_unfilled_gaps(lib: Library, novel: i64) -> bool {
    exists|n: u32| #[trigger] lib.gap_numbers(novel).contains(n) && !lib.stored(novel).contains(n)
}

/// Reopen the backfill of a novel with unfilled gaps, so that the next sync does a full
/// walk and tries to fill them from its new source. `true` if it was reopened.
pub fn reopen_for_gaps(store: &mut Store, novel_id: i64, now: i64) -> (r: bool)
    requires
        old(store).wf(),
    ensures
        final(store).wf(),
        r == has_unfilled_gaps(old(store)@, novel_id),
        final(store)@ == (if r {
            old(store)@.with_state(novel_id, DerivedState::Backfilling, now)
        } else {
            old(store)@
        }),
{
    let ghost lib = store@;
    let gaps = store.gap_list(novel_id);
    let stored = store.stored_list(novel_id);
    let open = numbers::without(&gaps, &stored);
    proof {
        assert forall|n: u32| #[trigger] open@.contains(n) <==> (lib.gap_numbers(novel_id).contains(
            n,
        ) && !lib.stored(novel_id).contains(n)) by {
            assert(gaps@.contains(n) <==> lib.gap_numbers(novel_id).contains(n));
            assert(stored@.contains(n) <==> lib.stored(novel_id).contains(n));
        }
        if open@.len() > 0 {
            assert(open@.contains(open@[0]));
            assert(lib.gap_numbers(novel_id).contains(open@[0]));
        }
        if has_unfilled_gaps(lib, novel_id) {
            let n = choose|n: u32| #[trigger]
                lib.gap_numbers(novel_id).contains(n) && !lib.stored(novel_id).contains(n);
            assert(open@.contains(n));
        }
    }
    if open.len() > 0 {
        store.set_derived_state_at(novel_id, DerivedState::Backfilling, now);
        true
    } else {
        false
    }
}

// ---------------------------------------------------------------------------
// Naming a source
// ---------------------------------------------------------------------------

/// The positions of the sources with this name.
pub open spec fn named(sources: Seq<SourceView>, name: Seq<char>) -> Seq<int>
    decreases sources.len(),
{
    if sources.len() == 0 {
        seq![]
    } else {
        let before = named(sources.drop_last(), name);
        if text::eq_ci(sources.last().name, name) {
            before.push(sources.len() - 1)
        } else {
            before
        }
    }
}

/// The position of the first source with this URL, or their count.
pub open spec fn url_at(sources: Seq<SourceView>, url: Seq<char>) -> int
    decreases sources.len(),
{
    if sources.len() > 0 && sources[0].url != url {
        1 + url_at(sources.drop_first(), url)
    } else {
        0
    }
}

/// The source that a URL or a site's name stands for, or why there is none.
pub open spec fn meant(sources: Seq<SourceView>, wanted: Seq<char>) -> Result<i64, Seq<char>> {
    let at = url_at(sources, wanted);
    let hits = named(sources, wanted);
    if at < sources.len() {
        Ok(sources[at].id)
    } else if hits.len() == 1 {
        Ok(sources[hits[0]].id)
    } else if hits.len() == 0 {
        Err("no source matches \""@ + wanted + "\""@)
    } else {
        Err("\""@ + wanted + "\" is attached more than once; give the URL instead"@)
    }
}

/// Resolve the way a source is named in the list of subscriptions: its site's name or its
/// URL. A name that stands for two sources is refused.
pub fn find_source(sources: &[StoredSource], wanted: &str) -> (r: Result<i64, String>)
    ensures
        match meant(store::source_views(sources@), wanted@) {
            Ok(id) => r == Ok::<i64, String>(id),
            Err(e) => r matches Err(m) && m@ == e,
        },
{
    let ghost views = store::source_views(sources@);
    let w = text::to_chars(wanted);
    let mut i: usize = 0;
    assert(views.skip(0) =~= views);
    while i < sources.len() && !text::same(sources[i].url.as_str(), wanted)
        invariant
            i <= sources@.len(),
            views == store::source_views(sources@),
            url_at(views, wanted@) == i + url_at(views.skip(i as int), wanted@),
        decreases sources@.len() - i,
    {
        let ghost rest = views.skip(i as int);
        assert(rest[0] == sources@[i as int]@);
        assert(rest.drop_first() =~= views.skip(i + 1));
        i += 1;
    }
    if i < sources.len() {
        assert(views.skip(i as int)[0] == sources@[i as int]@);
        return Ok(sources[i].id);
    }
    let mut count: usize = 0;
    let mut id: i64 = 0;
    let mut j: usize = 0;
    assert(views.take(0) =~= Seq::<SourceView>::empty());
    while j < sources.len()
        invariant
            j <= sources@.len(),
            views == store::source_views(sources@),
            w@ == wanted@,
            count <= j,
            named(views.take(j as int), wanted@).len() == count,
            count > 0 ==> 0 <= named(views.take(j as int), wanted@)[0] < j && id
                == views[named(views.take(j as int), wanted@)[0]].id,
        decreases sources@.len() - j,
    {
        proof {
            let t = views.take(j + 1);
            assert(t.drop_last() =~= views.take(j as int));
            assert(t.last() == sources@[j as int]@);
        }
        let name = text::to_chars(sources[j].name.as_str());
        if text::same_ci(&name, &w) {
            if count == 0 {
                id = sources[j].id;
            }
            count += 1;
        }
        j += 1;
    }
    assert(views.take(views.len() as int) =~= views);
    if count == 1 {
        Ok(id)
    } else if count == 0 {
        let mut v = text::to_chars("no source matches \"");
        text::push_str(&mut v, wanted);
        text::push_str(&mut v, "\"");
        Err(text::to_text(&v))
    } else {
        let mut v = text::to_chars("\"");
        text::push_str(&mut v, wanted);
        text::push_str(&mut v, "\" is attached more than once; give the URL instead");
        Err(text::to_text(&v))
    }
}

/// An export that failed is owed, and made after the next pass whatever that brings and
/// whatever the settings say.
pub proof fn law_a_failed_export_is_made_up_for(
    lib: Library,
    novel: i64,
    config: ConfigView,
    before: DerivedState,
    report: ReportView,
)
    requires
        lib.novels.contains_key(novel),
    ensures
        export_due(
            config,
            before,
            report,
            lib.with_pending(novel, true).novels[novel].export_pending,
        ),
{
}

/// No novel is given up: even one judged complete is looked at again once the recheck
/// period is over.
pub proof fn law_every_novel_is_looked_at_again(
    state: DerivedState,
    last: i64,
    now: i64,
    days: u32,
)
    requires
        now - last >= days * 86_400,
    ensures
        !is_resting(state, Some(last), now, days),
{
}

/// A likely complete novel rests while its last sync is fewer days old than the recheck period; any
/// other novel, and one that was never synced, does not.
pub proof fn law_finished_novels_rest_between_rechecks(last: i64, now: i64, days: u32)
    ensures
        is_resting(DerivedState::LikelyComplete, Some(last), now, days) <==> now < last + days
            * 86_400,
        !is_resting(DerivedState::LikelyComplete, None, now, days),
        !is_resting(DerivedState::Live, Some(last), now, days),
        !is_resting(DerivedState::Backfilling, Some(last), now, days),
{
}

/// With automatic export a backfill that has caught up is exported; with automatic appending a
/// novel that gained or changed chapters is; and what is owed is exported in any case.
pub proof fn law_exports_that_are_due(
    config: ConfigView,
    before: DerivedState,
    report: ReportView,
    pending: bool,
)
    ensures
        config.auto_export && before == DerivedState::Backfilling && report.new_state
            == DerivedState::Live ==> export_due(config, before, report, pending),
        config.auto_append && before != DerivedState::Backfilling && report.newly_fetched > 0
            ==> export_due(config, before, report, pending),
        config.auto_append && before != DerivedState::Backfilling && report.upgraded > 0
            ==> export_due(config, before, report, pending),
        pending ==> export_due(config, before, report, pending),
        !pending && before != DerivedState::Backfilling && report.newly_fetched == 0
            && report.upgraded == 0 ==> !export_due(config, before, report, pending),
        !pending && before == DerivedState::Backfilling && !config.auto_export ==> !export_due(
            config,
            before,
            report,
            pending,
        ),
        !pending && before != DerivedState::Backfilling && !config.auto_append ==> !export_due(
            config,
            before,
            report,
            pending,
        ),
{
}

/// A novel has unfilled gaps exactly where some recorded gap is not stored.
pub proof fn law_a_gap_is_unfilled_until_stored(lib: Library, novel: i64, n: u32)
    ensures
        lib.gaps.contains_key((novel, n)) && !lib.chapters.contains_key((novel, n))
            ==> has_unfilled_gaps(lib, novel),
        (forall|m: u32| #[trigger]
            lib.gaps.contains_key((novel, m)) ==> lib.chapters.contains_key((novel, m)))
            ==> !has_unfilled_gaps(lib, novel),
{
    if lib.gaps.contains_key((novel, n)) && !lib.chapters.contains_key((novel, n)) {
        assert(lib.gap_numbers(novel).contains(n));
    }
    if has_unfilled_gaps(lib, novel) {
        let m = choose|m: u32| #[trigger]
            lib.gap_numbers(novel).contains(m) && !lib.stored(novel).contains(m);
        assert(lib.gaps.contains_key((novel, m)));
    }
}

/// A source is meant by its address, or else by its name, in any ASCII case, where only one source
/// has it.
pub proof fn law_a_source_is_meant_by_address_or_name(
    sources: Seq<SourceView>,
    wanted: Seq<char>,
    i: int,
    j: int,
)
    ensures
        0 <= i < sources.len() && sources[i].url == wanted && (forall|k: int|
            0 <= k < i ==> (#[trigger] sources[k]).url != wanted) ==> meant(sources, wanted)
            == Ok::<i64, Seq<char>>(sources[i].id),
        (forall|k: int| 0 <= k < sources.len() ==> (#[trigger] sources[k]).url != wanted) && 0 <= i
            < sources.len() && text::lower(sources[i].name) == text::lower(wanted) && (forall|k: int|
            0 <= k < sources.len() && k != i ==> text::lower((#[trigger] sources[k]).name)
                != text::lower(wanted)) ==> meant(sources, wanted) == Ok::<i64, Seq<char>>(
            sources[i].id,
        ),
        (forall|k: int| 0 <= k < sources.len() ==> (#[trigger] sources[k]).url != wanted) && 0 <= i
            < j < sources.len() && text::lower(sources[i].name) == text::lower(wanted)
            && text::lower(sources[j].name) == text::lower(wanted) ==> meant(sources, wanted) is Err,
        (forall|k: int|
            0 <= k < sources.len() ==> (#[trigger] sources[k]).url != wanted && text::lower(
                sources[k].name,
            ) != text::lower(wanted)) ==> meant(sources, wanted) is Err,
{
    lemma_url_at(sources, wanted);
    lemma_named(sources, wanted);
    let at = url_at(sources, wanted);
    let hits = named(sources, wanted);
    if 0 <= i < sources.len() && sources[i].url == wanted && (forall|k: int|
        0 <= k < i ==> (#[trigger] sources[k]).url != wanted) {
        if at < i {
            assert(sources[at].url != wanted);
        } else if at > i {
            assert(sources[i].url != wanted);
        }
    }
    if forall|k: int| 0 <= k < sources.len() ==> (#[trigger] sources[k]).url != wanted {
        if at < sources.len() {
            assert(sources[at].url != wanted);
        }
        if 0 <= i < sources.len() && text::lower(sources[i].name) == text::lower(wanted) {
            let a = choose|a: int| 0 <= a < hits.len() && hits[a] == i;
            assert(hits[a] == i);
            if forall|k: int|
                0 <= k < sources.len() && k != i ==> text::lower((#[trigger] sources[k]).name)
                    != text::lower(wanted) {
                assert forall|b: int| 0 <= b < hits.len() implies #[trigger] hits[b] == i by {
                    assert(text::eq_ci(sources[hits[b]].name, wanted));
                }
                if hits.len() > 1 {
                    assert(hits[0] < hits[1]);
                }
                assert(hits[0] == i);
            }
            if i < j < sources.len() && text::lower(sources[j].name) == text::lower(wanted) {
                let b = choose|b: int| 0 <= b < hits.len() && hits[b] == j;
                assert(hits[b] == j && a != b);
            }
        }
    }
    if forall|k: int|
        0 <= k < sources.len() ==> (#[trigger] sources[k]).url != wanted && text::lower(
            sources[k].name,
        ) != text::lower(wanted) {
        if at < sources.len() {
            assert(sources[at].url != wanted);
        }
        if hits.len() > 0 {
            assert(text::eq_ci(sources[hits[0]].name, wanted));
        }
    }
}

proof fn lemma_url_at(sources: Seq<SourceView>, url: Seq<char>)
    ensures
        0 <= url_at(sources, url) <= sources.len(),
        url_at(sources, url) < sources.len() ==> sources[url_at(sources, url)].url == url,
        forall|j: int| 0 <= j < url_at(sources, url) ==> (#[trigger] sources[j]).url != url,
    decreases sources.len(),
{
    if sources.len() > 0 && sources[0].url != url {
        let t = sources.drop_first();
        lemma_url_at(t, url);
        let k = url_at(t, url);
        if k < t.len() {
            assert(t[k] == sources[k + 1]);
        }
        assert forall|j: int| 0 <= j < k + 1 implies (#[trigger] sources[j]).url != url by {
            if j > 0 {
                assert(t[j - 1] == sources[j]);
            }
        }
    }
}

proof fn lemma_named(sources: Seq<SourceView>, name: Seq<char>)
    ensures
        forall|a: int|
            0 <= a < named(sources, name).len() ==> 0 <= #[trigger] named(sources, name)[a]
                < sources.len() && text::eq_ci(sources[named(sources, name)[a]].name, name),
        forall|a: int, b: int|
            0 <= a < b < named(sources, name).len() ==> #[trigger] named(sources, name)[a]
                < #[trigger] named(sources, name)[b],
        forall|k: int|
            0 <= k < sources.len() && text::eq_ci((#[trigger] sources[k]).name, name) ==> named(
                sources,
                name,
            ).contains(k),
    decreases sources.len(),
{
    if sources.len() > 0 {
        let less = sources.drop_last();
        lemma_named(less, name);
        let before = named(less, name);
        let all = named(sources, name);
        assert forall|a: int| 0 <= a < all.len() implies 0 <= #[trigger] all[a] < sources.len()
            && text::eq_ci(sources[all[a]].name, name) by {
            if a < before.len() {
                assert(all[a] == before[a]);
                assert(less[before[a]] == sources[before[a]]);
            }
        }
        assert forall|a: int, b: int| 0 <= a < b < all.len() implies #[trigger] all[a]
            < #[trigger] all[b] by {
            assert(all[a] == before[a]);
            if b < before.len() {
                assert(all[b] == before[b]);
            }
        }
        assert forall|k: int|
            0 <= k < sources.len() && text::eq_ci(
                (#[trigger] sources[k]).name,
                name,
            ) implies all.contains(k) by {
            if k < less.len() {
                assert(less[k] == sources[k]);
                assert(before.contains(k));
                let a = choose|a: int| 0 <= a < before.len() && before[a] == k;
                assert(all[a] == k);
            } else {
                assert(all[all.len() - 1] == k);
            }
        }
    }
}

} // verus!
