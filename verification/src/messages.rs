//! What the program tells its user about the library.

use vstd::prelude::*;

use crate::config::{Config, ConfigView};
use crate::config;
use crate::epub;
use crate::paths;
use crate::source::SiteProfile;
use crate::store::{NovelView, SourceView, StoredNovel, StoredSource};
use crate::store;
use crate::sync::{ReportView, SyncProgress, SyncReport};
use crate::text;
use crate::util;

verus! {

/// How many unavailable chapters are listed before the rest are only counted.
pub const GAP_CAP: usize = 15;

/// One line about the chapters that the source has no page for; nothing for none.
pub open spec fn gaps_line(gaps: Seq<u32>) -> Seq<char> {
    if gaps.len() == 0 {
        seq![]
    } else {
        text::decimal(gaps.len()) + " unavailable at source (404): ch. "@ + (if gaps.len()
            > GAP_CAP {
            text::join(epub::decimals(gaps.take(GAP_CAP as int)), ", "@) + ", … (+"@
                + text::decimal((gaps.len() - GAP_CAP) as nat) + " more)"@
        } else {
            text::join(epub::decimals(gaps), ", "@)
        })
    }
}

/// Summarise a novel's unavailable chapters in one line, or "" if there are none.
pub fn describe_gaps(gaps: &[u32]) -> (r: String)
    ensures
        r@ == gaps_line(gaps@),
{
    if gaps.len() == 0 {
        return String::new();
    }
    let mut v = text::decimal_chars(gaps.len() as u64);
    text::push_str(&mut v, " unavailable at source (404): ch. ");
    let ghost head = v@;
    if gaps.len() > GAP_CAP {
        let first = vstd::slice::slice_subrange(gaps, 0, GAP_CAP);
        assert(first@ =~= gaps@.take(GAP_CAP as int));
        let list = epub::join_numbers(first, ", ");
        text::push_all(&mut v, &list);
        text::push_str(&mut v, ", … (+");
        let more = text::decimal_chars((gaps.len() - GAP_CAP) as u64);
        text::push_all(&mut v, &more);
        text::push_str(&mut v, " more)");
        assert(v@ =~= head + (text::join(epub::decimals(gaps@.take(GAP_CAP as int)), ", "@)
            + ", … (+"@ + text::decimal((gaps@.len() - GAP_CAP) as nat) + " more)"@));
    } else {
        let list = epub::join_numbers(gaps, ", ");
        text::push_all(&mut v, &list);
    }
    text::to_text(&v)
}

/// How far a pass has come, in words.
pub open spec fn progress_line(p: SyncProgress) -> Seq<char> {
    match p {
        SyncProgress::Fetching { done, total } => "  Fetching "@ + text::decimal(done as nat)
            + "/"@ + text::decimal(total as nat) + "..."@,
        SyncProgress::Upgrading { done, total } => "  Upgrading "@ + text::decimal(done as nat)
            + "/"@ + text::decimal(total as nat) + "..."@,
    }
}

pub fn describe_progress(p: SyncProgress) -> (r: String)
    ensures
        r@ == progress_line(p),
{
    let (word, done, total) = match p {
        SyncProgress::Fetching { done, total } => ("  Fetching ", done, total),
        SyncProgress::Upgrading { done, total } => ("  Upgrading ", done, total),
    };
    let mut v = text::to_chars(word);
    let n = text::decimal_chars(done as u64);
    text::push_all(&mut v, &n);
    text::push_str(&mut v, "/");
    let n = text::decimal_chars(total as u64);
    text::push_all(&mut v, &n);
    text::push_str(&mut v, "...");
    text::to_text(&v)
}

// ---------------------------------------------------------------------------
// Subscriptions
// ---------------------------------------------------------------------------

pub open spec fn author_or_unknown(author: Option<Seq<char>>) -> Seq<char> {
    match author {
        Some(a) => a,
        None => paths::UNKNOWN_AUTHOR@,
    }
}

fn name_author(author: &Option<String>) -> (r: String)
    ensures
        r@ == author_or_unknown(text::opt(*author)),
{
    match author {
        Some(a) => a.clone(),
        None => paths::UNKNOWN_AUTHOR.to_string(),
    }
}

pub open spec fn pending_note(pending: bool) -> Seq<char> {
    if pending {
        ", export pending"@
    } else {
        seq![]
    }
}

fn push_pending(v: &mut Vec<char>, pending: bool)
    ensures
        final(v)@ == old(v)@ + pending_note(pending),
{
    let ghost before = v@;
    if pending {
        text::push_str(v, ", export pending");
    }
    assert(v@ =~= before + pending_note(pending));
}

/// A source's line in the list of subscriptions.
pub open spec fn source_line(s: SourceView) -> Seq<char> {
    "    ["@ + (if s.priority == 1 {
        "primary"@
    } else {
        "fallback"@
    }) + "] "@ + s.name + " — "@ + s.url + " ("@ + (match s.last_seen_chapter {
        Some(n) => "last seen ch."@ + text::decimal(n as nat),
        None => "not yet synced"@,
    }) + ")"@
}

fn describe_source(s: &StoredSource) -> (r: String)
    ensures
        r@ == source_line(s@),
{
    let mut v = text::to_chars("    [");
    if s.priority == 1 {
        text::push_str(&mut v, "primary");
    } else {
        text::push_str(&mut v, "fallback");
    }
    text::push_str(&mut v, "] ");
    text::push_str(&mut v, s.name.as_str());
    text::push_str(&mut v, " — ");
    text::push_str(&mut v, s.url.as_str());
    text::push_str(&mut v, " (");
    let ghost head = v@;
    match s.last_seen_chapter {
        Some(n) => {
            text::push_str(&mut v, "last seen ch.");
            let d = text::decimal_chars(n as u64);
            text::push_all(&mut v, &d);
            assert(v@ =~= head + ("last seen ch."@ + text::decimal(n as nat)));
        },
        None => {
            text::push_str(&mut v, "not yet synced");
        },
    }
    text::push_str(&mut v, ")");
    text::to_text(&v)
}

/// A novel's first line in the list of subscriptions.
pub open spec fn novel_line(n: NovelView) -> Seq<char> {
    "#"@ + text::decimal_int(n.id as int) + "  "@ + n.title + " — "@ + author_or_unknown(n.author)
        + "  ["@ + text::decimal_int(n.chapter_count as int) + " chapters, "@
        + n.derived_state.name() + pending_note(n.export_pending) + "]"@
}

/// A novel's lines in the list of subscriptions: the novel, its gaps if it has any, and
/// its sources.
pub open spec fn subscription(n: NovelView, gaps: Seq<u32>) -> Seq<Seq<char>> {
    seq![novel_line(n)] + (if gaps.len() > 0 {
        seq!["    gaps: "@ + gaps_line(gaps)]
    } else {
        seq![]
    }) + n.sources.map_values(|s: SourceView| source_line(s))
}

pub fn describe_subscription(n: &StoredNovel, gaps: &[u32]) -> (r: Vec<String>)
    ensures
        text::texts(r@) == subscription(n@, gaps@),
{
    let mut lines: Vec<String> = Vec::new();
    let mut v = text::to_chars("#");
    let d = text::decimal_int_chars(n.id);
    text::push_all(&mut v, &d);
    text::push_str(&mut v, "  ");
    text::push_str(&mut v, n.title.as_str());
    text::push_str(&mut v, " — ");
    let author = name_author(&n.author);
    text::push_str(&mut v, author.as_str());
    text::push_str(&mut v, "  [");
    let d = text::decimal_int_chars(n.chapter_count);
    text::push_all(&mut v, &d);
    text::push_str(&mut v, " chapters, ");
    text::push_str(&mut v, n.derived_state.as_str());
    push_pending(&mut v, n.export_pending);
    text::push_str(&mut v, "]");
    lines.push(text::to_text(&v));
    if gaps.len() > 0 {
        let g = describe_gaps(gaps);
        lines.push(text::concat("    gaps: ", g.as_str()));
    }
    let ghost head = text::texts(lines@);
    let ghost sources = n@.sources;
    let ghost rest = sources.map_values(|s: SourceView| source_line(s));
    proof {
        assert(head =~= seq![novel_line(n@)] + (if gaps@.len() > 0 {
            seq!["    gaps: "@ + gaps_line(gaps@)]
        } else {
            seq![]
        }));
        assert(head + rest.take(0) =~= head);
    }
    let mut i: usize = 0;
    while i < n.sources.len()
        invariant
            i <= n.sources@.len(),
            sources == store::source_views(n.sources@),
            rest == sources.map_values(|s: SourceView| source_line(s)),
            text::texts(lines@) == head + rest.take(i as int),
        decreases n.sources@.len() - i,
    {
        let ghost before = lines@;
        assert(sources[i as int] == n.sources@[i as int]@);
        let line = describe_source(&n.sources[i]);
        lines.push(line);
        assert(text::texts(lines@) =~= text::texts(before).push(line@));
        assert(rest.take(i + 1) =~= rest.take(i as int).push(rest[i as int]));
        assert((head + rest.take(i as int)).push(line@) =~= head + rest.take(i + 1));
        i += 1;
    }
    assert(rest.take(rest.len() as int) =~= rest);
    lines
}

/// A novel's lines in the library's status: the novel, and its gaps if it has any.
pub open spec fn status_lines(n: NovelView, gaps: Seq<u32>) -> Seq<Seq<char>> {
    seq![
        "  #"@ + text::decimal_int(n.id as int) + " "@ + n.title + " — "@ + text::decimal_int(
            n.chapter_count as int,
        ) + " chapters ["@ + n.derived_state.name() + pending_note(n.export_pending) + "]"@,
    ] + (if gaps.len() > 0 {
        seq!["      gaps: "@ + gaps_line(gaps)]
    } else {
        seq![]
    })
}

pub fn describe_status(n: &StoredNovel, gaps: &[u32]) -> (r: Vec<String>)
    ensures
        text::texts(r@) == status_lines(n@, gaps@),
{
    let mut lines: Vec<String> = Vec::new();
    let mut v = text::to_chars("  #");
    let d = text::decimal_int_chars(n.id);
    text::push_all(&mut v, &d);
    text::push_str(&mut v, " ");
    text::push_str(&mut v, n.title.as_str());
    text::push_str(&mut v, " — ");
    let d = text::decimal_int_chars(n.chapter_count);
    text::push_all(&mut v, &d);
    text::push_str(&mut v, " chapters [");
    text::push_str(&mut v, n.derived_state.as_str());
    push_pending(&mut v, n.export_pending);
    text::push_str(&mut v, "]");
    lines.push(text::to_text(&v));
    if gaps.len() > 0 {
        let g = describe_gaps(gaps);
        lines.push(text::concat("      gaps: ", g.as_str()));
    }
    assert(text::texts(lines@) =~= status_lines(n@, gaps@));
    lines
}

/// The refusal to follow a novel twice.
pub open spec fn duplicate_text(title: Seq<char>, existing: NovelView, url: Seq<char>) -> Seq<char> {
    let id = text::decimal_int(existing.id as int);
    "\""@ + title + "\" looks like #"@ + id + " \""@ + existing.title + "\""@ + (
    if existing.sources.len() > 0 {
        " (from "@ + existing.sources[store::primary_index(existing.sources)].name + ")"@
    } else {
        seq![]
    })
        + ", which you already follow.\n- To add this URL as an alternate source:  vesper add-source "@
        + id + " "@ + url
        + "\n- To subscribe as a separate novel anyway:  re-run with --force"@
}

pub fn describe_duplicate(title: &str, existing: &StoredNovel, url: &str) -> (r: String)
    ensures
        r@ == duplicate_text(title@, existing@, url@),
{
    let id = text::decimal_int_chars(existing.id);
    let mut v = text::to_chars("\"");
    text::push_str(&mut v, title);
    text::push_str(&mut v, "\" looks like #");
    text::push_all(&mut v, &id);
    text::push_str(&mut v, " \"");
    text::push_str(&mut v, existing.title.as_str());
    text::push_str(&mut v, "\"");
    let ghost head = v@;
    if let Some(s) = existing.primary_source() {
        text::push_str(&mut v, " (from ");
        text::push_str(&mut v, s.name.as_str());
        text::push_str(&mut v, ")");
        assert(v@ =~= head + (" (from "@ + s.name@ + ")"@));
    } else {
        assert(v@ =~= head + Seq::<char>::empty());
    }
    text::push_str(
        &mut v,
        ", which you already follow.\n- To add this URL as an alternate source:  vesper add-source ",
    );
    text::push_all(&mut v, &id);
    text::push_str(&mut v, " ");
    text::push_str(&mut v, url);
    text::push_str(
        &mut v,
        "\n- To subscribe as a separate novel anyway:  re-run with --force",
    );
    text::to_text(&v)
}

/// The author before and after a refresh, if it changed and the export's folder with it.
pub fn author_change(before: &Option<String>, after: &Option<String>) -> (r: Option<
    (String, String),
>)
    ensures
        ({
            let a = author_or_unknown(text::opt(*before));
            let b = author_or_unknown(text::opt(*after));
            match r {
                Some((x, y)) => a != b && x@ == a && y@ == b,
                None => a == b,
            }
        }),
{
    let a = name_author(before);
    let b = name_author(after);
    if text::same(a.as_str(), b.as_str()) {
        None
    } else {
        Some((a, b))
    }
}

/// What a refresh of one novel says: the author before and after, if it changed, and how
/// to move the book to its new folder.
pub open spec fn refreshed_lines(
    id: i64,
    title: Seq<char>,
    change: Option<(Seq<char>, Seq<char>)>,
) -> Seq<Seq<char>> {
    match change {
        Some((old_author, new_author)) => seq![
            "Refreshed \""@ + title + "\": author "@ + old_author + " -> "@ + new_author + "."@,
            "Run `vesper export "@ + text::decimal_int(id as int)
                + "` to rebuild the EPUB under the new author folder."@,
        ],
        None => seq!["Refreshed \""@ + title + "\": author unchanged."@],
    }
}

pub open spec fn change_view(change: Option<(String, String)>) -> Option<
    (Seq<char>, Seq<char>),
> {
    match change {
        Some((a, b)) => Some((a@, b@)),
        None => None,
    }
}

pub fn describe_refresh(id: i64, title: &str, change: &Option<(String, String)>) -> (r: Vec<String>)
    ensures
        text::texts(r@) == refreshed_lines(id, title@, change_view(*change)),
{
    let mut lines: Vec<String> = Vec::new();
    let mut v = text::to_chars("Refreshed \"");
    text::push_str(&mut v, title);
    match change {
        Some((a, b)) => {
            text::push_str(&mut v, "\": author ");
            text::push_str(&mut v, a.as_str());
            text::push_str(&mut v, " -> ");
            text::push_str(&mut v, b.as_str());
            text::push_str(&mut v, ".");
            lines.push(text::to_text(&v));
            let mut w = text::to_chars("Run `vesper export ");
            let d = text::decimal_int_chars(id);
            text::push_all(&mut w, &d);
            text::push_str(&mut w, "` to rebuild the EPUB under the new author folder.");
            lines.push(text::to_text(&w));
        },
        None => {
            text::push_str(&mut v, "\": author unchanged.");
            lines.push(text::to_text(&v));
        },
    }
    assert(text::texts(lines@) =~= refreshed_lines(id, title@, change_view(*change)));
    lines
}

/// One line about a novel in a refresh of them all.
pub open spec fn refresh_row(title: Seq<char>, change: Option<(Seq<char>, Seq<char>)>) -> Seq<char> {
    match change {
        Some((old_author, new_author)) => "  "@ + title + " — author: "@ + old_author + " -> "@
            + new_author,
        None => "  "@ + title + " — no author change"@,
    }
}

pub fn describe_refresh_row(title: &str, change: &Option<(String, String)>) -> (r: String)
    ensures
        r@ == refresh_row(title@, change_view(*change)),
{
    let mut v = text::to_chars("  ");
    text::push_str(&mut v, title);
    match change {
        Some((a, b)) => {
            text::push_str(&mut v, " — author: ");
            text::push_str(&mut v, a.as_str());
            text::push_str(&mut v, " -> ");
            text::push_str(&mut v, b.as_str());
        },
        None => text::push_str(&mut v, " — no author change"),
    }
    text::to_text(&v)
}

/// One line about a novel whose titles were re-read in a refresh of them all.
pub open spec fn retitle_row(title: Seq<char>, fixed: usize) -> Seq<char> {
    if fixed == 0 {
        "  "@ + title + " — chapter titles already correct"@
    } else {
        "  "@ + title + " — "@ + text::decimal(fixed as nat) + " chapter title(s) corrected"@
    }
}

pub fn describe_retitle_row(title: &str, fixed: usize) -> (r: String)
    ensures
        r@ == retitle_row(title@, fixed),
{
    let mut v = text::to_chars("  ");
    text::push_str(&mut v, title);
    if fixed == 0 {
        text::push_str(&mut v, " — chapter titles already correct");
    } else {
        text::push_str(&mut v, " — ");
        let d = text::decimal_chars(fixed as u64);
        text::push_all(&mut v, &d);
        text::push_str(&mut v, " chapter title(s) corrected");
    }
    text::to_text(&v)
}

/// What a re-reading of one novel's titles says.
pub open spec fn retitled_lines(id: i64, fixed: usize) -> Seq<Seq<char>> {
    if fixed == 0 {
        seq!["Chapter titles already correct."@]
    } else {
        seq![
            "Corrected "@ + text::decimal(fixed as nat) + " chapter title(s)."@,
            "Run `vesper export "@ + text::decimal_int(id as int) + "` to rebuild the EPUB."@,
        ]
    }
}

pub fn describe_retitle(id: i64, fixed: usize) -> (r: Vec<String>)
    ensures
        text::texts(r@) == retitled_lines(id, fixed),
{
    let mut lines: Vec<String> = Vec::new();
    if fixed == 0 {
        lines.push("Chapter titles already correct.".to_string());
    } else {
        let mut v = text::to_chars("Corrected ");
        let d = text::decimal_chars(fixed as u64);
        text::push_all(&mut v, &d);
        text::push_str(&mut v, " chapter title(s).");
        lines.push(text::to_text(&v));
        let mut w = text::to_chars("Run `vesper export ");
        let e = text::decimal_int_chars(id);
        text::push_all(&mut w, &e);
        text::push_str(&mut w, "` to rebuild the EPUB.");
        lines.push(text::to_text(&w));
    }
    assert(text::texts(lines@) =~= retitled_lines(id, fixed));
    lines
}

/// What a refresh of every novel says at its end: what is left to do by hand.
pub open spec fn refresh_totals(changed: usize, retitled: usize) -> Seq<Seq<char>> {
    (if changed > 0 {
        seq![
            text::decimal(changed as nat)
                + " author(s) changed — re-export those novels (`vesper export <id>`) to move their EPUBs into the new folders."@,
        ]
    } else {
        seq![]
    }) + (if retitled > 0 {
        seq![
            text::decimal(retitled as nat)
                + " chapter title(s) corrected — re-export to update the EPUBs."@,
        ]
    } else {
        seq![]
    })
}

pub fn describe_refresh_totals(changed: usize, retitled: usize) -> (r: Vec<String>)
    ensures
        text::texts(r@) == refresh_totals(changed, retitled),
{
    let mut lines: Vec<String> = Vec::new();
    if changed > 0 {
        let mut v = text::decimal_chars(changed as u64);
        text::push_str(
            &mut v,
            " author(s) changed — re-export those novels (`vesper export <id>`) to move their EPUBs into the new folders.",
        );
        lines.push(text::to_text(&v));
    }
    if retitled > 0 {
        let mut v = text::decimal_chars(retitled as u64);
        text::push_str(&mut v, " chapter title(s) corrected — re-export to update the EPUBs.");
        lines.push(text::to_text(&v));
    }
    assert(text::texts(lines@) =~= refresh_totals(changed, retitled));
    lines
}

/// One line about a site that a profile covers.
pub fn describe_profile(p: &SiteProfile) -> (r: String)
    ensures
        r@ == "  "@ + p.host@ + " — "@ + p.name@,
{
    let mut v = text::to_chars("  ");
    text::push_str(&mut v, p.host.as_str());
    text::push_str(&mut v, " — ");
    text::push_str(&mut v, p.name.as_str());
    text::to_text(&v)
}

/// A warning when a source's title is not the novel's, but for case, spacing and
/// punctuation.
pub open spec fn mismatch_line(theirs: Seq<char>, ours: Seq<char>) -> Option<Seq<char>> {
    if util::normalized(theirs) == util::normalized(ours) {
        None
    } else {
        Some(
            "warning: this source's title is \""@ + theirs + "\", but the novel is \""@ + ours
                + "\". Proceeding since you asked to link them."@,
        )
    }
}

pub fn describe_mismatch(theirs: &str, ours: &str) -> (r: Option<String>)
    ensures
        text::opt(r) == mismatch_line(theirs@, ours@),
{
    let a = util::normalize_title(theirs);
    let b = util::normalize_title(ours);
    if text::same(a.as_str(), b.as_str()) {
        return None;
    }
    let mut v = text::to_chars("warning: this source's title is \"");
    text::push_str(&mut v, theirs);
    text::push_str(&mut v, "\", but the novel is \"");
    text::push_str(&mut v, ours);
    text::push_str(&mut v, "\". Proceeding since you asked to link them.");
    Some(text::to_text(&v))
}

// ---------------------------------------------------------------------------
// Passes
// ---------------------------------------------------------------------------

/// What a fetch says when it was interrupted.
pub open spec fn paused_line(id: i64, title: Seq<char>, report: ReportView, stored: u64) -> Seq<char> {
    "Paused \""@ + title + "\": "@ + text::decimal(report.newly_fetched as nat)
        + " new chapter(s) saved (now "@ + text::decimal(stored as nat)
        + " stored). Resume with `vesper fetch "@ + text::decimal_int(id as int) + "`."@
}

pub fn describe_pause(id: i64, title: &str, report: &SyncReport, stored: u64) -> (r: String)
    ensures
        r@ == paused_line(id, title@, report@, stored),
{
    let mut v = text::to_chars("Paused \"");
    text::push_str(&mut v, title);
    text::push_str(&mut v, "\": ");
    let d = text::decimal_chars(report.newly_fetched as u64);
    text::push_all(&mut v, &d);
    text::push_str(&mut v, " new chapter(s) saved (now ");
    let d = text::decimal_chars(stored);
    text::push_all(&mut v, &d);
    text::push_str(&mut v, " stored). Resume with `vesper fetch ");
    let d = text::decimal_int_chars(id);
    text::push_all(&mut v, &d);
    text::push_str(&mut v, "`.");
    text::to_text(&v)
}

pub open spec fn fallback_note(n: u32) -> Seq<char> {
    if n > 0 {
        " ("@ + text::decimal(n as nat) + " from fallback sources)"@
    } else {
        seq![]
    }
}

pub open spec fn upgrade_note(n: u32) -> Seq<char> {
    if n > 0 {
        ", "@ + text::decimal(n as nat) + " upgraded from primary"@
    } else {
        seq![]
    }
}

/// What a fetch says at its end.
pub open spec fn fetched_line(title: Seq<char>, report: ReportView, stored: u64) -> Seq<char> {
    "Fetched "@ + text::decimal(report.newly_fetched as nat) + " new chapters for \""@ + title
        + "\""@ + fallback_note(report.from_fallback) + upgrade_note(report.upgraded) + " (now "@
        + text::decimal(stored as nat) + " stored) ["@ + (if report.delta_mode {
        "delta check"@
    } else {
        "full scan"@
    }) + "]."@
}

pub fn describe_fetch(title: &str, report: &SyncReport, stored: u64) -> (r: String)
    ensures
        r@ == fetched_line(title@, report@, stored),
{
    let mut v = text::to_chars("Fetched ");
    let d = text::decimal_chars(report.newly_fetched as u64);
    text::push_all(&mut v, &d);
    text::push_str(&mut v, " new chapters for \"");
    text::push_str(&mut v, title);
    text::push_str(&mut v, "\"");
    let ghost head = v@;
    if report.from_fallback > 0 {
        text::push_str(&mut v, " (");
        let d = text::decimal_chars(report.from_fallback as u64);
        text::push_all(&mut v, &d);
        text::push_str(&mut v, " from fallback sources)");
    }
    assert(v@ =~= head + fallback_note(report@.from_fallback));
    let ghost head = v@;
    if report.upgraded > 0 {
        text::push_str(&mut v, ", ");
        let d = text::decimal_chars(report.upgraded as u64);
        text::push_all(&mut v, &d);
        text::push_str(&mut v, " upgraded from primary");
    }
    assert(v@ =~= head + upgrade_note(report@.upgraded));
    text::push_str(&mut v, " (now ");
    let d = text::decimal_chars(stored);
    text::push_all(&mut v, &d);
    text::push_str(&mut v, " stored) [");
    if report.delta_mode {
        text::push_str(&mut v, "delta check");
    } else {
        text::push_str(&mut v, "full scan");
    }
    text::push_str(&mut v, "].");
    text::to_text(&v)
}

/// What a fetch adds about the gaps it left; nothing for none.
pub open spec fn gaps_note(id: i64, gaps: Seq<u32>) -> Option<Seq<char>> {
    if gaps.len() == 0 {
        None
    } else {
        Some(
            "Note: "@ + gaps_line(gaps)
                + " — the source has no page for these. They're marked in the EPUB; add an alternate source (`vesper add-source "@
                + text::decimal_int(id as int) + "`) to try to fill them."@,
        )
    }
}

pub fn describe_remaining_gaps(id: i64, gaps: &[u32]) -> (r: Option<String>)
    ensures
        text::opt(r) == gaps_note(id, gaps@),
{
    if gaps.len() == 0 {
        return None;
    }
    let mut v = text::to_chars("Note: ");
    let g = describe_gaps(gaps);
    text::push_str(&mut v, g.as_str());
    text::push_str(
        &mut v,
        " — the source has no page for these. They're marked in the EPUB; add an alternate source (`vesper add-source ",
    );
    let d = text::decimal_int_chars(id);
    text::push_all(&mut v, &d);
    text::push_str(&mut v, "`) to try to fill them.");
    Some(text::to_text(&v))
}

pub open spec fn mode_word(delta: bool) -> Seq<char> {
    if delta {
        "delta"@
    } else {
        "full"@
    }
}

/// A novel's line in the output of a sync.
pub open spec fn synced_line(title: Seq<char>, report: ReportView) -> Seq<char> {
    "  "@ + title + ": +"@ + text::decimal(report.newly_fetched as nat) + " new chapters ["@
        + mode_word(report.delta_mode) + "]"@
}

pub fn describe_sync(title: &str, report: &SyncReport) -> (r: String)
    ensures
        r@ == synced_line(title@, report@),
{
    let mut v = text::to_chars("  ");
    text::push_str(&mut v, title);
    text::push_str(&mut v, ": +");
    let d = text::decimal_chars(report.newly_fetched as u64);
    text::push_all(&mut v, &d);
    text::push_str(&mut v, " new chapters [");
    if report.delta_mode {
        text::push_str(&mut v, "delta");
    } else {
        text::push_str(&mut v, "full");
    }
    text::push_str(&mut v, "]");
    text::to_text(&v)
}

/// A novel's line in the log of a sync, with its upgrades and gaps.
pub open spec fn logged_line(title: Seq<char>, report: ReportView) -> Seq<char> {
    "  "@ + title + ": +"@ + text::decimal(report.newly_fetched as nat) + " new ["@ + mode_word(
        report.delta_mode,
    ) + "]"@ + (if report.upgraded > 0 {
        ", "@ + text::decimal(report.upgraded as nat) + " upgraded"@
    } else {
        seq![]
    }) + (if report.gaps.len() > 0 {
        ", "@ + gaps_line(report.gaps)
    } else {
        seq![]
    })
}

pub fn log_sync(title: &str, report: &SyncReport) -> (r: String)
    ensures
        r@ == logged_line(title@, report@),
{
    let mut v = text::to_chars("  ");
    text::push_str(&mut v, title);
    text::push_str(&mut v, ": +");
    let d = text::decimal_chars(report.newly_fetched as u64);
    text::push_all(&mut v, &d);
    text::push_str(&mut v, " new [");
    if report.delta_mode {
        text::push_str(&mut v, "delta");
    } else {
        text::push_str(&mut v, "full");
    }
    text::push_str(&mut v, "]");
    let ghost head = v@;
    if report.upgraded > 0 {
        text::push_str(&mut v, ", ");
        let d = text::decimal_chars(report.upgraded as u64);
        text::push_all(&mut v, &d);
        text::push_str(&mut v, " upgraded");
    }
    assert(v@ =~= head + (if report@.upgraded > 0 {
        ", "@ + text::decimal(report@.upgraded as nat) + " upgraded"@
    } else {
        seq![]
    }));
    let ghost head = v@;
    if report.gaps.len() > 0 {
        text::push_str(&mut v, ", ");
        let g = describe_gaps(&report.gaps);
        text::push_str(&mut v, g.as_str());
    }
    assert(v@ =~= head + (if report@.gaps.len() > 0 {
        ", "@ + gaps_line(report@.gaps)
    } else {
        seq![]
    }));
    text::to_text(&v)
}

// ---------------------------------------------------------------------------
// The log
// ---------------------------------------------------------------------------

/// What a sync of every novel says at its end.
pub open spec fn total_line(fetched: u32, novels: usize) -> Seq<char> {
    "Sync complete: "@ + text::decimal(fetched as nat) + " new chapter(s) across "@
        + text::decimal(novels as nat) + " novel(s)."@
}

pub fn describe_total(fetched: u32, novels: usize) -> (r: String)
    ensures
        r@ == total_line(fetched, novels),
{
    let mut v = text::to_chars("Sync complete: ");
    let d = text::decimal_chars(fetched as u64);
    text::push_all(&mut v, &d);
    text::push_str(&mut v, " new chapter(s) across ");
    let e = text::decimal_chars(novels as u64);
    text::push_all(&mut v, &e);
    text::push_str(&mut v, " novel(s).");
    text::to_text(&v)
}

/// The log's line at the end of a sync, by which the last complete one is found again.
pub open spec fn logged_total(fetched: u32, novels: usize) -> Seq<char> {
    "sync complete: "@ + text::decimal(fetched as nat) + " new across "@ + text::decimal(
        novels as nat,
    ) + " novels"@
}

pub fn log_total(fetched: u32, novels: usize) -> (r: String)
    ensures
        r@ == logged_total(fetched, novels),
{
    let mut v = text::to_chars("sync complete: ");
    let d = text::decimal_chars(fetched as u64);
    text::push_all(&mut v, &d);
    text::push_str(&mut v, " new across ");
    let e = text::decimal_chars(novels as u64);
    text::push_all(&mut v, &e);
    text::push_str(&mut v, " novels");
    text::to_text(&v)
}

/// A line without the carriage return of a Windows line end.
pub open spec fn without_return(line: Seq<char>) -> Seq<char> {
    if line.len() > 0 && line.last() == '\r' {
        line.drop_last()
    } else {
        line
    }
}

/// The lines of a text, ended by `\n` or `\r\n`; the last one needs no end.
pub open spec fn lines_of(s: Seq<char>) -> Seq<Seq<char>> {
    let pieces = text::split(s, '\n');
    let ended = pieces.drop_last().map_values(|p: Seq<char>| without_return(p));
    if pieces.last().len() == 0 {
        ended
    } else {
        ended.push(pieces.last())
    }
}

/// What the end of the log shows.
#[derive(Debug)]
pub struct LogDigest {
    /// The last line that says a sync was completed.
    pub last_complete: Option<String>,
    /// The last lines, in their order.
    pub tail: Vec<String>,
}

/// How many lines of the log the status shows.
pub const TAIL: usize = 8;

/// The last line that holds `needle`.
pub open spec fn last_with(lines: Seq<Seq<char>>, needle: Seq<char>) -> Option<Seq<char>>
    decreases lines.len(),
{
    if lines.len() == 0 {
        None
    } else if text::find_from(lines.last(), needle, 0) is Some {
        Some(lines.last())
    } else {
        last_with(lines.drop_last(), needle)
    }
}

/// The last `n` of the lines.
pub open spec fn last_lines(lines: Seq<Seq<char>>, n: int) -> Seq<Seq<char>> {
    if lines.len() > n {
        lines.skip(lines.len() - n)
    } else {
        lines
    }
}

fn split_lines(s: &str) -> (r: Vec<Vec<char>>)
    ensures
        text::views(r@) == lines_of(s@),
{
    let v = text::to_chars(s);
    let pieces = text::split_char(&v, '\n');
    let ghost all = text::split(s@, '\n');
    let mut out: Vec<Vec<char>> = Vec::new();
    assert(all.len() > 0 && all.len() == pieces@.len());
    let last: usize = pieces.len() - 1;
    let ghost ended = all.drop_last().map_values(|p: Seq<char>| without_return(p));
    let mut i: usize = 0;
    while i < last
        invariant
            i <= last,
            last + 1 == pieces@.len(),
            all == text::views(pieces@),
            ended == all.drop_last().map_values(|p: Seq<char>| without_return(p)),
            text::views(out@) == ended.take(i as int),
        decreases last - i,
    {
        let ghost before = out@;
        assert(all[i as int] == pieces@[i as int]@);
        let n: usize = pieces[i].len();
        let end: usize = if n > 0 && pieces[i][n - 1] == '\r' {
            n - 1
        } else {
            n
        };
        let line = text::slice(&pieces[i], 0, end);
        assert(line@ =~= ended[i as int]);
        out.push(line);
        assert(text::views(out@) =~= text::views(before).push(line@));
        assert(ended.take(i + 1) =~= ended.take(i as int).push(ended[i as int]));
        i += 1;
    }
    assert(ended.take(last as int) =~= ended);
    assert(all.last() == pieces@[last as int]@);
    if pieces[last].len() > 0 {
        let ghost before = out@;
        let n: usize = pieces[last].len();
        let line = text::slice(&pieces[last], 0, n);
        assert(line@ =~= all.last());
        out.push(line);
        assert(text::views(out@) =~= text::views(before).push(line@));
    }
    out
}

/// Read the end of the log: the last completed sync, and the last lines.
pub fn digest_log(content: &str) -> (r: LogDigest)
    ensures
        text::opt(r.last_complete) == last_with(lines_of(content@), "sync complete"@),
        text::texts(r.tail@) == last_lines(lines_of(content@), TAIL as int),
{
    let lines = split_lines(content);
    let ghost all = lines_of(content@);
    let needle = text::to_chars("sync complete");
    let mut last_complete: Option<String> = None;
    let mut i: usize = lines.len();
    assert(all.take(i as int) =~= all);
    while i > 0 && last_complete.is_none()
        invariant
            i <= lines@.len(),
            all == text::views(lines@),
            needle@ == "sync complete"@,
            last_complete is None ==> last_with(all, needle@) == last_with(
                all.take(i as int),
                needle@,
            ),
            last_complete matches Some(l) ==> last_with(all, needle@) == Some(l@),
        decreases i,
    {
        i -= 1;
        proof {
            let t = all.take(i + 1);
            assert(t.drop_last() =~= all.take(i as int));
            assert(t.last() == lines@[i as int]@);
        }
        if text::find(&lines[i], &needle, 0).is_some() {
            last_complete = Some(text::to_text(&lines[i]));
        }
    }
    let total: usize = lines.len();
    let from: usize = if total > TAIL {
        total - TAIL
    } else {
        0
    };
    let ghost want = last_lines(all, TAIL as int);
    let mut tail: Vec<String> = Vec::new();
    let mut j: usize = from;
    assert(want =~= all.skip(from as int));
    assert(text::texts(tail@) =~= want.take(0));
    while j < total
        invariant
            from <= j <= total,
            total == lines@.len(),
            all == text::views(lines@),
            want == all.skip(from as int),
            text::texts(tail@) == want.take(j - from),
        decreases total - j,
    {
        let ghost before = tail@;
        let line = text::to_text(&lines[j]);
        tail.push(line);
        assert(text::texts(tail@) =~= text::texts(before).push(line@));
        assert(want[j - from] == line@);
        assert(want.take(j - from + 1) =~= want.take(j - from).push(want[j - from]));
        j += 1;
    }
    assert(want.take(want.len() as int) =~= want);
    LogDigest { last_complete, tail }
}

// ---------------------------------------------------------------------------
// Settings
// ---------------------------------------------------------------------------

/// What a sync logs at its end is what the status finds as the last complete one, behind
/// whatever time stamp.
pub proof fn law_a_complete_sync_is_found_again(
    lines: Seq<Seq<char>>,
    stamp: Seq<char>,
    fetched: u32,
    novels: usize,
)
    ensures
        last_with(lines.push(stamp + logged_total(fetched, novels)), "sync complete"@) == Some(
            stamp + logged_total(fetched, novels),
        ),
{
    reveal_strlit("sync complete");
    reveal_strlit("sync complete: ");
    let line = stamp + logged_total(fetched, novels);
    let at = stamp.len() as int;
    assert(text::occurs_at(line, "sync complete"@, at)) by {
        assert(line.subrange(at, at + 13) =~= "sync complete"@);
    }
    text::lemma_find_from(line, "sync complete"@, 0);
    assert(lines.push(line).last() == line);
}

/// The settings, one to a line.
pub open spec fn config_lines(c: ConfigView) -> Seq<Seq<char>> {
    seq![
        "  output_dir            = "@ + c.output_dir,
        "  request_delay_ms      = "@ + text::decimal(c.request_delay_ms as nat),
        "  poll_interval_minutes = "@ + text::decimal(c.poll_interval_minutes as nat),
        "  retention_days        = "@ + text::decimal(c.retention_days as nat),
        "  quiet_grace_days      = "@ + text::decimal(c.quiet_grace_days as nat),
        "  likely_complete_recheck_days = "@ + text::decimal(
            c.likely_complete_recheck_days as nat,
        ),
        "  auto_export           = "@ + config::flag_text(c.auto_export),
        "  auto_append           = "@ + config::flag_text(c.auto_append),
        "  split_every_chapters  = "@ + text::decimal(c.split_every_chapters as nat),
        "  log_path              = "@ + c.log_path,
    ]
}

pub fn describe_config(c: &Config) -> (r: Vec<String>)
    ensures
        text::texts(r@) == config_lines(c@),
{
    let mut lines: Vec<String> = Vec::new();
    lines.push(text::concat("  output_dir            = ", c.output_dir.as_str()));
    let n = text::decimal_text(c.request_delay_ms);
    lines.push(text::concat("  request_delay_ms      = ", n.as_str()));
    let n = text::decimal_text(c.poll_interval_minutes as u64);
    lines.push(text::concat("  poll_interval_minutes = ", n.as_str()));
    let n = text::decimal_text(c.retention_days as u64);
    lines.push(text::concat("  retention_days        = ", n.as_str()));
    let n = text::decimal_text(c.quiet_grace_days as u64);
    lines.push(text::concat("  quiet_grace_days      = ", n.as_str()));
    let n = text::decimal_text(c.likely_complete_recheck_days as u64);
    lines.push(text::concat("  likely_complete_recheck_days = ", n.as_str()));
    lines.push(text::concat("  auto_export           = ", config::flag_word(c.auto_export)));
    lines.push(text::concat("  auto_append           = ", config::flag_word(c.auto_append)));
    let n = text::decimal_text(c.split_every_chapters as u64);
    lines.push(text::concat("  split_every_chapters  = ", n.as_str()));
    lines.push(text::concat("  log_path              = ", c.log_path.as_str()));
    assert(text::texts(lines@) =~= config_lines(c@));
    lines
}

/// The gaps line counts every gap and names the first fifteen, in their order; the rest are only
/// counted. Without gaps there is no line.
pub proof fn law_the_gaps_line_counts_and_names(gaps: Seq<u32>)
    ensures
        gaps.len() == 0 ==> gaps_line(gaps).len() == 0,
        0 < gaps.len() <= 15 ==> gaps_line(gaps) == text::decimal(gaps.len())
            + " unavailable at source (404): ch. "@ + text::join(
            Seq::new(gaps.len(), |i: int| text::decimal(gaps[i] as nat)),
            ", "@,
        ),
        gaps.len() > 15 ==> gaps_line(gaps) == text::decimal(gaps.len())
            + " unavailable at source (404): ch. "@ + (text::join(
            Seq::new(15, |i: int| text::decimal(gaps[i] as nat)),
            ", "@,
        ) + ", … (+"@ + text::decimal((gaps.len() - 15) as nat) + " more)"@),
{
    assert(epub::decimals(gaps) =~= Seq::new(
        gaps.len(),
        |i: int| text::decimal(gaps[i] as nat),
    ));
    if gaps.len() > 15 {
        assert(epub::decimals(gaps.take(15)) =~= Seq::new(
            15,
            |i: int| text::decimal(gaps[i] as nat),
        ));
    }
}

/// A subscription is shown with its id, title, author, count, state and debts, then its gaps if
/// there are any, then its sources in their order: the lead one as primary, and each with the
/// chapter it was last seen at.
pub proof fn law_subscriptions_are_shown_whole(n: NovelView, gaps: Seq<u32>, i: int)
    requires
        0 <= i < n.sources.len(),
    ensures
        ({
            let all = subscription(n, gaps);
            let s = n.sources[i];
            let front = if gaps.len() > 0 {
                2int
            } else {
                1
            };
            &&& all.len() == front + n.sources.len()
            &&& all[0] == "#"@ + text::decimal_int(n.id as int) + "  "@ + n.title + " — "@ + (
            match n.author {
                Some(a) => a,
                None => "Unknown Author"@,
            }) + "  ["@ + text::decimal_int(n.chapter_count as int) + " chapters, "@
                + n.derived_state.name() + (if n.export_pending {
                ", export pending"@
            } else {
                seq![]
            }) + "]"@
            &&& gaps.len() > 0 ==> all[1] == "    gaps: "@ + gaps_line(gaps)
            &&& all[front + i] == "    ["@ + (if s.priority == 1 {
                "primary"@
            } else {
                "fallback"@
            }) + "] "@ + s.name + " — "@ + s.url + " ("@ + (match s.last_seen_chapter {
                Some(c) => "last seen ch."@ + text::decimal(c as nat),
                None => "not yet synced"@,
            }) + ")"@
        }),
{
}

/// What a fetch says at its end holds its counts: the new chapters, those from fallbacks and the
/// upgrades where there are any, what is stored now, and how it looked.
pub proof fn law_a_fetch_tells_its_counts(
    title: Seq<char>,
    report: ReportView,
    stored: u64,
    id: i64,
    fetched: u32,
    novels: usize,
)
    ensures
        fetched_line(title, report, stored) == "Fetched "@ + text::decimal(
            report.newly_fetched as nat,
        ) + " new chapters for \""@ + title + "\""@ + (if report.from_fallback > 0 {
            " ("@ + text::decimal(report.from_fallback as nat) + " from fallback sources)"@
        } else {
            seq![]
        }) + (if report.upgraded > 0 {
            ", "@ + text::decimal(report.upgraded as nat) + " upgraded from primary"@
        } else {
            seq![]
        }) + " (now "@ + text::decimal(stored as nat) + " stored) ["@ + (if report.delta_mode {
            "delta check"@
        } else {
            "full scan"@
        }) + "]."@,
        paused_line(id, title, report, stored) == "Paused \""@ + title + "\": "@ + text::decimal(
            report.newly_fetched as nat,
        ) + " new chapter(s) saved (now "@ + text::decimal(stored as nat)
            + " stored). Resume with `vesper fetch "@ + text::decimal_int(id as int) + "`."@,
        synced_line(title, report) == "  "@ + title + ": +"@ + text::decimal(
            report.newly_fetched as nat,
        ) + " new chapters ["@ + (if report.delta_mode {
            "delta"@
        } else {
            "full"@
        }) + "]"@,
        total_line(fetched, novels) == "Sync complete: "@ + text::decimal(fetched as nat)
            + " new chapter(s) across "@ + text::decimal(novels as nat) + " novel(s)."@,
        gaps_note(id, report.gaps) is None <==> report.gaps.len() == 0,
{
}

/// A warning is given where a source's title is another than the novel's, and only there.
pub proof fn law_other_titles_are_warned_of(theirs: Seq<char>, ours: Seq<char>)
    ensures
        mismatch_line(theirs, ours) is None <==> util::normalized(theirs) == util::normalized(ours),
{
}

/// The lines of a text are what stands between its line breaks, without the carriage returns before
/// them.
pub proof fn law_lines_end_at_line_breaks(line: Seq<char>)
    requires
        forall|i: int| 0 <= i < line.len() ==> #[trigger] line[i] != '\n' && line[i] != '\r',
    ensures
        line.len() > 0 ==> lines_of(line) == seq![line],
        lines_of(line.push('\n')) == seq![line],
        lines_of(line.push('\r').push('\n')) == seq![line],
        lines_of(seq![]).len() == 0,
{
    lemma_no_break(line);
    lemma_no_break(line.push('\r'));
    text::law_splitting_character_by_character(line, '\n', '\n');
    text::law_splitting_character_by_character(line.push('\r'), '\n', '\n');
    text::law_splitting_character_by_character(seq![], '\n', '\n');
    if line.len() > 0 {
        assert(line[line.len() - 1] != '\r');
    }
    let a = text::split(line.push('\n'), '\n');
    assert(a =~= seq![line, seq![]]);
    assert(lines_of(line.push('\n')) =~= seq![line]);
    let b = text::split(line.push('\r').push('\n'), '\n');
    assert(b =~= seq![line.push('\r'), seq![]]);
    assert(line.push('\r').drop_last() =~= line);
    assert(lines_of(line.push('\r').push('\n')) =~= seq![line]);
    if line.len() > 0 {
        assert(lines_of(line) =~= seq![line]);
    }
}

proof fn lemma_no_break(s: Seq<char>)
    requires
        forall|i: int| 0 <= i < s.len() ==> #[trigger] s[i] != '\n',
    ensures
        text::split(s, '\n') == seq![s],
{
    assert forall|j: int| 0 <= j < s.len() implies text::not('\n')(#[trigger] s[j]) by {}
    text::lemma_span_is(s, text::not('\n'), s.len() as int);
}

/// The end of the log is its last lines, in order, and the last of them that holds the wanted words
/// is found.
pub proof fn law_the_log_is_read_from_its_end(
    lines: Seq<Seq<char>>,
    needle: Seq<char>,
    n: int,
    i: int,
)
    requires
        0 <= n,
    ensures
        lines.len() <= n ==> last_lines(lines, n) == lines,
        lines.len() > n ==> last_lines(lines, n).len() == n && last_lines(lines, n) == lines.skip(
            lines.len() - n,
        ),
        0 <= i < lines.len() && text::find_from(lines[i], needle, 0) is Some && (forall|j: int|
            i < j < lines.len() ==> text::find_from(#[trigger] lines[j], needle, 0) is None)
            ==> last_with(lines, needle) == Some(lines[i]),
        (forall|j: int|
            0 <= j < lines.len() ==> text::find_from(#[trigger] lines[j], needle, 0) is None)
            ==> last_with(lines, needle) is None,
    decreases lines.len(),
{
    if lines.len() > 0 {
        let t = lines.drop_last();
        law_the_log_is_read_from_its_end(t, needle, n, i);
        assert(lines.last() == lines[lines.len() - 1]);
        if i < lines.len() - 1 {
            if 0 <= i && text::find_from(lines[i], needle, 0) is Some && (forall|j: int|
                i < j < lines.len() ==> text::find_from(#[trigger] lines[j], needle, 0) is None) {
                assert(t[i] == lines[i]);
                assert forall|j: int| i < j < t.len() implies text::find_from(
                    #[trigger] t[j],
                    needle,
                    0,
                ) is None by {
                    assert(t[j] == lines[j]);
                }
                assert(text::find_from(lines[lines.len() - 1], needle, 0) is None);
            }
        }
        if forall|j: int|
            0 <= j < lines.len() ==> text::find_from(#[trigger] lines[j], needle, 0) is None {
            assert(text::find_from(lines[lines.len() - 1], needle, 0) is None);
            assert forall|j: int| 0 <= j < t.len() implies text::find_from(
                #[trigger] t[j],
                needle,
                0,
            ) is None by {
                assert(t[j] == lines[j]);
            }
        }
    }
}

} // verus!
