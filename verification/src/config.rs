//! Global configuration (`config.ini`).
//!
//! A single flat INI file, generated with defaults on first use, holding settings that
//! aren't per-novel. The file is written with explanatory comments; reading is
//! tolerant: any missing key falls back to its default.

use ini::{Ini, ParseOption};
use vstd::prelude::*;

use crate::paths;
use crate::text;

verus! {

#[derive(Debug)]
pub struct Config {
    /// Where EPUBs are written (`<output_dir>/<author>/<novel>/...`).
    pub output_dir: String,
    /// Base politeness delay between requests, in milliseconds.
    pub request_delay_ms: u64,
    /// How often the background task runs, in minutes (used at install time).
    pub poll_interval_minutes: u32,
    /// Keep exported chapters this many days before pruning (0 = purge on export).
    pub retention_days: u32,
    /// Days a completed novel must be quiet before it's judged LikelyComplete.
    pub quiet_grace_days: u32,
    /// How often (days) to re-check a LikelyComplete novel; between re-checks the
    /// scheduled sync skips it instead of polling every interval.
    pub likely_complete_recheck_days: u32,
    /// Export automatically once a novel's initial backfill completes.
    pub auto_export: bool,
    /// Re-export automatically when a Live novel gains new chapters.
    pub auto_append: bool,
    /// Split EPUBs into volumes of this many chapters (0 = single file).
    pub split_every_chapters: u32,
    /// Where the background sync appends its log (its stderr is discarded).
    pub log_path: String,
}

/// A [`Config`] as plain values.
#[verifier::ext_equal]
pub struct ConfigView {
    pub output_dir: Seq<char>,
    pub request_delay_ms: u64,
    pub poll_interval_minutes: u32,
    pub retention_days: u32,
    pub quiet_grace_days: u32,
    pub likely_complete_recheck_days: u32,
    pub auto_export: bool,
    pub auto_append: bool,
    pub split_every_chapters: u32,
    pub log_path: Seq<char>,
}

impl View for Config {
    type V = ConfigView;

    open spec fn view(&self) -> ConfigView {
        ConfigView {
            output_dir: self.output_dir@,
            request_delay_ms: self.request_delay_ms,
            poll_interval_minutes: self.poll_interval_minutes,
            retention_days: self.retention_days,
            quiet_grace_days: self.quiet_grace_days,
            likely_complete_recheck_days: self.likely_complete_recheck_days,
            auto_export: self.auto_export,
            auto_append: self.auto_append,
            split_every_chapters: self.split_every_chapters,
            log_path: self.log_path@,
        }
    }
}

impl Clone for Config {
    fn clone(&self) -> (r: Self)
        ensures
            r@ == self@,
    {
        Config {
            output_dir: self.output_dir.clone(),
            request_delay_ms: self.request_delay_ms,
            poll_interval_minutes: self.poll_interval_minutes,
            retention_days: self.retention_days,
            quiet_grace_days: self.quiet_grace_days,
            likely_complete_recheck_days: self.likely_complete_recheck_days,
            auto_export: self.auto_export,
            auto_append: self.auto_append,
            split_every_chapters: self.split_every_chapters,
            log_path: self.log_path.clone(),
        }
    }
}

// ---------------------------------------------------------------------------
// INI files
// ---------------------------------------------------------------------------

/// The key/value pairs of a section, in the order of the file.
pub type Pairs = Vec<(String, String)>;

pub open spec fn pair_views(pairs: Seq<(String, String)>) -> Seq<(Seq<char>, Seq<char>)> {
    pairs.map_values(|p: (String, String)| (p.0@, p.1@))
}

pub open spec fn section_view(section: Option<Pairs>) -> Option<Seq<(Seq<char>, Seq<char>)>> {
    match section {
        Some(pairs) => Some(pair_views(pairs@)),
        None => None,
    }
}

pub open spec fn sections_view(r: Result<Option<Pairs>, String>) -> Result<
    Option<Seq<(Seq<char>, Seq<char>)>>,
    Seq<char>,
> {
    match r {
        Ok(section) => Ok(section_view(section)),
        Err(e) => Err(e@),
    }
}

/// One setting of an INI file, under its comments.
#[verifier::ext_equal]
pub struct Setting {
    pub notes: Seq<Seq<char>>,
    pub key: Seq<char>,
    pub value: Seq<char>,
}

pub open spec fn comments_text(notes: Seq<Seq<char>>) -> Seq<char>
    decreases notes.len(),
{
    if notes.len() == 0 {
        seq![]
    } else {
        comments_text(notes.drop_last()) + "; "@ + notes.last() + "\n"@
    }
}

/// The settings, with an empty line between neighbours.
pub open spec fn settings_text(settings: Seq<Setting>) -> Seq<char>
    decreases settings.len(),
{
    if settings.len() == 0 {
        seq![]
    } else {
        let s = settings.last();
        settings_text(settings.drop_last()) + (if settings.len() > 1 {
            "\n"@
        } else {
            seq![]
        }) + comments_text(s.notes) + s.key + " = "@ + s.value + "\n"@
    }
}

/// A file of one section: its opening comments, an empty line, the section's header and
/// its settings.
pub open spec fn file_text(
    head: Seq<Seq<char>>,
    section: Seq<char>,
    settings: Seq<Setting>,
) -> Seq<char> {
    comments_text(head) + "\n["@ + section + "]\n"@ + settings_text(settings)
}

pub open spec fn on_one_line(s: Seq<char>) -> bool {
    !s.contains('\n') && !s.contains('\r')
}

/// Whether `s` is a word of ASCII letters and underscores.
pub open spec fn is_word(s: Seq<char>) -> bool {
    &&& s.len() > 0
    &&& forall|i: int|
        0 <= i < s.len() ==> text::is_ascii_letter(#[trigger] s[i]) || s[i] == '_'
}

/// Whether a value stands for itself in an INI file: it is on one line with no
/// whitespace around it, it does not start with a quotation mark, and no backslash at its
/// end joins the next line to it.
pub open spec fn is_literal(s: Seq<char>) -> bool {
    &&& s.len() > 0
    &&& on_one_line(s)
    &&& !text::is_white(s[0])
    &&& !text::is_white(s.last())
    &&& s[0] != '"'
    &&& s[0] != '\''
    &&& text::span_back(s, text::only('\\')) % 2 == 0
}

/// Whether every part of a file of one section stands for itself.
pub open spec fn is_plain_file(
    head: Seq<Seq<char>>,
    section: Seq<char>,
    settings: Seq<Setting>,
) -> bool {
    &&& forall|i: int| 0 <= i < head.len() ==> on_one_line(#[trigger] head[i])
    &&& is_word(section)
    &&& forall|i: int|
        0 <= i < settings.len() ==> is_word((#[trigger] settings[i]).key) && is_literal(
            settings[i].value,
        ) && (forall|j: int|
            0 <= j < settings[i].notes.len() ==> on_one_line(#[trigger] settings[i].notes[j]))
}

pub open spec fn setting_pairs(settings: Seq<Setting>) -> Seq<(Seq<char>, Seq<char>)> {
    settings.map_values(|s: Setting| (s.key, s.value))
}

/// Whether `read` is what a file of one section holds, if `text` is such a file and its
/// parts stand for themselves.
pub open spec fn reads_plain_files(
    text: Seq<char>,
    name: Seq<char>,
    read: Result<Option<Seq<(Seq<char>, Seq<char>)>>, Seq<char>>,
) -> bool {
    forall|head: Seq<Seq<char>>, settings: Seq<Setting>|
        text == #[trigger] file_text(head, name, settings) && is_plain_file(head, name, settings)
            ==> read == Ok::<_, Seq<char>>(Some(setting_pairs(settings)))
}

/// The first section of this name in an INI text without escapes, or what stands before
/// any section where no name is given; or the parser's error.
pub uninterp spec fn section_of(text: Seq<char>, name: Option<Seq<char>>) -> Result<
    Option<Seq<(Seq<char>, Seq<char>)>>,
    Seq<char>,
>;

/// `ini::Ini::load_from_str_opt` with escapes disabled, `Ini::section` and
/// `Properties::iter`: the pairs of the first section of that name, or of the part before
/// any section, in the order of the file, or the text of the parse error. The result depends
/// on the two texts alone. Of a file of one section whose parts stand for themselves, the
/// pairs are its settings.
#[verifier::external_body]
fn ini_section(text: &str, name: Option<&str>) -> (r: Result<Option<Pairs>, String>)
    ensures
        sections_view(r) == section_of(text@, paths::opt_str(name)),
        name matches Some(n) ==> reads_plain_files(text@, n@, sections_view(r)),
{
    let opt = ParseOption { enabled_escape: false, ..ParseOption::default() };
    let ini = Ini::load_from_str_opt(text, opt).map_err(|e| e.to_string())?;
    Ok(ini.section(name).map(|s| s.iter().map(|(k, v)| (k.into(), v.into())).collect()))
}

/// The settings of a file: its section of this name, or those that stand in no section if
/// it has none of that name.
pub open spec fn settings_in(text: Seq<char>, name: Seq<char>) -> Result<
    Option<Seq<(Seq<char>, Seq<char>)>>,
    Seq<char>,
> {
    match section_of(text, Some(name)) {
        Ok(None) => section_of(text, None),
        r => r,
    }
}

pub(crate) fn read_settings(text: &str, name: &str) -> (r: Result<Option<Pairs>, String>)
    ensures
        sections_view(r) == settings_in(text@, name@),
        reads_plain_files(text@, name@, sections_view(r)),
{
    match ini_section(text, Some(name)) {
        Ok(None) => ini_section(text, None),
        r => r,
    }
}

// ---------------------------------------------------------------------------
// Reading
// ---------------------------------------------------------------------------

/// The position of the first pair with this key, or the number of pairs.
pub open spec fn pair_at(pairs: Seq<(Seq<char>, Seq<char>)>, key: Seq<char>) -> int
    decreases pairs.len(),
{
    if pairs.len() > 0 && pairs[0].0 != key {
        1 + pair_at(pairs.drop_first(), key)
    } else {
        0
    }
}

/// The first value of a key, without the whitespace around it.
pub open spec fn value_of(
    section: Option<Seq<(Seq<char>, Seq<char>)>>,
    key: Seq<char>,
) -> Option<Seq<char>> {
    match section {
        Some(pairs) => if pair_at(pairs, key) < pairs.len() {
            Some(text::trimmed(pairs[pair_at(pairs, key)].1))
        } else {
            None
        },
        None => None,
    }
}

proof fn lemma_pair_at(pairs: Seq<(Seq<char>, Seq<char>)>, key: Seq<char>, k: int)
    requires
        0 <= k <= pairs.len(),
        forall|j: int| 0 <= j < k ==> (#[trigger] pairs[j]).0 != key,
        k < pairs.len() ==> pairs[k].0 == key,
    ensures
        pair_at(pairs, key) == k,
    decreases pairs.len(),
{
    if k > 0 {
        let t = pairs.drop_first();
        assert forall|j: int| 0 <= j < k - 1 implies (#[trigger] t[j]).0 != key by {
            assert(t[j] == pairs[j + 1]);
        }
        lemma_pair_at(t, key, k - 1);
    }
}

pub open spec fn number_or(value: Option<Seq<char>>, max: nat, default: nat) -> nat {
    match value {
        Some(v) => match text::parsed(v, max) {
            Some(n) => n,
            None => default,
        },
        None => default,
    }
}

/// Whether a word, in any case, stands for "yes".
pub open spec fn says_yes(v: Seq<char>) -> bool {
    let w = text::lower(v);
    w == "true"@ || w == "yes"@ || w == "1"@ || w == "on"@
}

pub open spec fn flag_or(value: Option<Seq<char>>, default: bool) -> bool {
    match value {
        Some(v) => says_yes(v),
        None => default,
    }
}

pub open spec fn text_or(value: Option<Seq<char>>, default: Seq<char>) -> Seq<char> {
    match value {
        Some(v) => if v.len() > 0 {
            v
        } else {
            default
        },
        None => default,
    }
}

/// The configuration a section states, on top of the defaults.
pub open spec fn stated(
    section: Option<Seq<(Seq<char>, Seq<char>)>>,
    d: ConfigView,
) -> ConfigView {
    ConfigView {
        output_dir: text_or(value_of(section, "output_dir"@), d.output_dir),
        request_delay_ms: number_or(
            value_of(section, "request_delay_ms"@),
            u64::MAX as nat,
            d.request_delay_ms as nat,
        ) as u64,
        poll_interval_minutes: number_or(
            value_of(section, "poll_interval_minutes"@),
            u32::MAX as nat,
            d.poll_interval_minutes as nat,
        ) as u32,
        retention_days: number_or(
            value_of(section, "retention_days"@),
            u32::MAX as nat,
            d.retention_days as nat,
        ) as u32,
        quiet_grace_days: number_or(
            value_of(section, "quiet_grace_days"@),
            u32::MAX as nat,
            d.quiet_grace_days as nat,
        ) as u32,
        likely_complete_recheck_days: number_or(
            value_of(section, "likely_complete_recheck_days"@),
            u32::MAX as nat,
            d.likely_complete_recheck_days as nat,
        ) as u32,
        auto_export: flag_or(value_of(section, "auto_export"@), d.auto_export),
        auto_append: flag_or(value_of(section, "auto_append"@), d.auto_append),
        split_every_chapters: number_or(
            value_of(section, "split_every_chapters"@),
            u32::MAX as nat,
            d.split_every_chapters as nat,
        ) as u32,
        log_path: text_or(value_of(section, "log_path"@), d.log_path),
    }
}

pub(crate) fn find_value(section: &Option<Pairs>, key: &str) -> (r: Option<Vec<char>>)
    ensures
        (match r {
            Some(v) => Some(v@),
            None => None,
        }) == value_of(section_view(*section), key@),
{
    let pairs = match section {
        Some(p) => p,
        None => return None,
    };
    let ghost views = pair_views(pairs@);
    let mut i: usize = 0;
    while i < pairs.len() && !text::same(pairs[i].0.as_str(), key)
        invariant
            i <= pairs@.len(),
            views == pair_views(pairs@),
            forall|j: int| 0 <= j < i ==> (#[trigger] views[j]).0 != key@,
        decreases pairs@.len() - i,
    {
        assert(views[i as int].0 == pairs@[i as int].0@);
        i += 1;
    }
    if i < pairs.len() {
        assert(views[i as int] == (pairs@[i as int].0@, pairs@[i as int].1@));
        proof {
            lemma_pair_at(views, key@, i as int);
        }
        let v = text::to_chars(pairs[i].1.as_str());
        let t = text::trim(&v);
        let n: usize = t.len();
        Some(text::slice(t, 0, n))
    } else {
        proof {
            lemma_pair_at(views, key@, i as int);
        }
        None
    }
}

fn read_number(section: &Option<Pairs>, key: &str, max: u64, default: u64) -> (r: u64)
    requires
        default <= max,
    ensures
        r == number_or(value_of(section_view(*section), key@), max as nat, default as nat),
        r <= max,
{
    match find_value(section, key) {
        Some(v) => match text::parse_u64(&v, max) {
            Some(n) => n,
            None => default,
        },
        None => default,
    }
}

pub(crate) fn read_count(section: &Option<Pairs>, key: &str, default: u32) -> (r: u32)
    ensures
        r as nat == number_or(
            value_of(section_view(*section), key@),
            u32::MAX as nat,
            default as nat,
        ),
{
    read_number(section, key, u32::MAX as u64, default as u64) as u32
}

fn read_flag(section: &Option<Pairs>, key: &str, default: bool) -> (r: bool)
    ensures
        r == flag_or(value_of(section_view(*section), key@), default),
{
    match find_value(section, key) {
        Some(v) => {
            let w = text::lower_chars(&v);
            let w = text::to_text(&w);
            text::same(w.as_str(), "true") || text::same(w.as_str(), "yes") || text::same(
                w.as_str(),
                "1",
            ) || text::same(w.as_str(), "on")
        },
        None => default,
    }
}

pub(crate) fn read_text(section: &Option<Pairs>, key: &str, default: String) -> (r: String)
    ensures
        r@ == text_or(value_of(section_view(*section), key@), default@),
{
    match find_value(section, key) {
        Some(v) => if v.len() > 0 {
            text::to_text(&v)
        } else {
            default
        },
        None => default,
    }
}

/// A text without a byte-order mark at its front.
pub open spec fn without_mark(s: Seq<char>) -> Seq<char> {
    if s.len() > 0 && s[0] == '\u{feff}' {
        s.drop_first()
    } else {
        s
    }
}

pub(crate) fn drop_mark(s: &str) -> (r: String)
    ensures
        r@ == without_mark(s@),
{
    let v = text::to_chars(s);
    if v.len() > 0 && v[0] == '\u{feff}' {
        let n: usize = v.len();
        let rest = text::slice(&v, 1, n);
        assert(rest@ =~= s@.drop_first());
        text::to_text(&rest)
    } else {
        s.to_string()
    }
}

// ---------------------------------------------------------------------------
// Writing
// ---------------------------------------------------------------------------

pub open spec fn flag_text(b: bool) -> Seq<char> {
    if b {
        "true"@
    } else {
        "false"@
    }
}

/// The comments at the head of the file.
pub open spec fn head_notes() -> Seq<Seq<char>> {
    seq![
        "webnovel-crawler configuration"@,
        "Edit values below; delete this file to regenerate defaults."@,
    ]
}

/// The file's settings, in their order.
pub open spec fn config_settings(c: ConfigView) -> Seq<Setting> {
    seq![
        Setting {
            notes: seq![
                "Where EPUBs are written: <output_dir>/<author>/<novel>/..."@,
                "Note: on Windows, Documents may be OneDrive-backed (files sync to the cloud)."@,
            ],
            key: "output_dir"@,
            value: c.output_dir,
        },
        Setting {
            notes: seq!["Base politeness delay between requests, in milliseconds."@],
            key: "request_delay_ms"@,
            value: text::decimal(c.request_delay_ms as nat),
        },
        Setting {
            notes: seq![
                "How often the background sync runs, in minutes (applied when installing the service)."@,
            ],
            key: "poll_interval_minutes"@,
            value: text::decimal(c.poll_interval_minutes as nat),
        },
        Setting {
            notes: seq![
                "Keep exported chapters this many days before pruning completed novels (0 = purge on export)."@,
            ],
            key: "retention_days"@,
            value: text::decimal(c.retention_days as nat),
        },
        Setting {
            notes: seq!["Days a completed novel must be quiet before it's treated as finished."@],
            key: "quiet_grace_days"@,
            value: text::decimal(c.quiet_grace_days as nat),
        },
        Setting {
            notes: seq![
                "How often (days) to re-check a finished novel; it's skipped between re-checks."@,
            ],
            key: "likely_complete_recheck_days"@,
            value: text::decimal(c.likely_complete_recheck_days as nat),
        },
        Setting {
            notes: seq!["Automatically export once a novel's initial backfill completes."@],
            key: "auto_export"@,
            value: flag_text(c.auto_export),
        },
        Setting {
            notes: seq!["Automatically re-export when a caught-up novel gains new chapters."@],
            key: "auto_append"@,
            value: flag_text(c.auto_append),
        },
        Setting {
            notes: seq![
                "Split EPUBs into volumes of this many chapters (0 = one file per novel)."@,
            ],
            key: "split_every_chapters"@,
            value: text::decimal(c.split_every_chapters as nat),
        },
        Setting {
            notes: seq![
                "Where the background sync writes its log (its console output is hidden)."@,
            ],
            key: "log_path"@,
            value: c.log_path,
        },
    ]
}

/// The text of the config file.
pub open spec fn written(c: ConfigView) -> Seq<char> {
    file_text(head_notes(), "general"@, config_settings(c))
}

fn push_comment(v: &mut Vec<char>, note: &str)
    ensures
        final(v)@ == old(v)@ + "; "@ + note@ + "\n"@,
{
    text::push_str(v, "; ");
    text::push_str(v, note);
    text::push_str(v, "\n");
}

/// A file in the making, with the settings it holds so far.
struct Sheet {
    text: Vec<char>,
    filled: bool,
    head: Ghost<Seq<char>>,
    settings: Ghost<Seq<Setting>>,
}

impl Sheet {
    spec fn wf(&self) -> bool {
        &&& self.text@ == self.head@ + settings_text(self.settings@)
        &&& self.filled == (self.settings@.len() > 0)
    }

    fn new() -> (r: Sheet)
        ensures
            r.wf(),
            r.head@ == comments_text(head_notes()) + "\n["@ + "general"@ + "]\n"@,
            r.settings@ == Seq::<Setting>::empty(),
    {
        let ghost notes = head_notes();
        let mut v: Vec<char> = Vec::new();
        push_comment(&mut v, "webnovel-crawler configuration");
        push_comment(&mut v, "Edit values below; delete this file to regenerate defaults.");
        proof {
            reveal_with_fuel(comments_text, 3);
            assert(notes.drop_last() =~= seq![notes[0]]);
            assert(seq![notes[0]].drop_last() =~= Seq::<Seq<char>>::empty());
            assert(v@ =~= comments_text(notes));
        }
        text::push_str(&mut v, "\n[");
        text::push_str(&mut v, "general");
        text::push_str(&mut v, "]\n");
        let ghost head = v@;
        assert(head + settings_text(Seq::<Setting>::empty()) =~= head);
        Sheet { text: v, filled: false, head: Ghost(head), settings: Ghost(Seq::empty()) }
    }

    /// Add a setting under one or two comments.
    fn setting(&mut self, note: &str, more: Option<&str>, key: &str, value: &str)
        requires
            old(self).wf(),
        ensures
            final(self).wf(),
            final(self).head@ == old(self).head@,
            final(self).settings@ == old(self).settings@.push(
                (Setting {
                    notes: match more {
                        Some(m) => seq![note@, m@],
                        None => seq![note@],
                    },
                    key: key@,
                    value: value@,
                }),
            ),
    {
        let ghost before = self.settings@;
        let ghost notes = match more {
            Some(m) => seq![note@, m@],
            None => seq![note@],
        };
        if self.filled {
            text::push_str(&mut self.text, "\n");
        }
        let ghost gap = self.text@;
        push_comment(&mut self.text, note);
        if let Some(m) = more {
            push_comment(&mut self.text, m);
        }
        proof {
            reveal_with_fuel(comments_text, 3);
            assert(seq![note@].drop_last() =~= Seq::<Seq<char>>::empty());
            if more is Some {
                assert(notes.drop_last() =~= seq![note@]);
            }
            assert(self.text@ =~= gap + comments_text(notes));
        }
        text::push_str(&mut self.text, key);
        text::push_str(&mut self.text, " = ");
        text::push_str(&mut self.text, value);
        text::push_str(&mut self.text, "\n");
        let ghost added = Setting { notes, key: key@, value: value@ };
        let ghost after = before.push(added);
        proof {
            assert(after.drop_last() =~= before);
            assert(self.text@ =~= self.head@ + settings_text(after));
        }
        self.settings = Ghost(after);
        self.filled = true;
    }
}

pub fn flag_word(b: bool) -> (r: &'static str)
    ensures
        r@ == flag_text(b),
{
    if b {
        "true"
    } else {
        "false"
    }
}

/// Whether a configuration's two paths stand for themselves in the file.
pub open spec fn is_writable(c: ConfigView) -> bool {
    is_literal(c.output_dir) && is_literal(c.log_path)
}

impl ConfigView {
    /// The defaults, with these paths.
    pub open spec fn defaults(output_dir: Seq<char>, log_path: Seq<char>) -> ConfigView {
        ConfigView {
            output_dir,
            request_delay_ms: 1500,
            poll_interval_minutes: 60,
            retention_days: 30,
            quiet_grace_days: 30,
            likely_complete_recheck_days: 7,
            auto_export: false,
            auto_append: false,
            split_every_chapters: 0,
            log_path,
        }
    }
}

impl Config {
    /// The default settings, with the machine's default paths.
    pub fn defaults(output_dir: String, log_path: String) -> (r: Config)
        ensures
            r@ == ConfigView::defaults(output_dir@, log_path@),
    {
        Config {
            output_dir,
            request_delay_ms: 1500,
            poll_interval_minutes: 60,
            retention_days: 30,
            quiet_grace_days: 30,
            likely_complete_recheck_days: 7,
            auto_export: false,
            auto_append: false,
            split_every_chapters: 0,
            log_path,
        }
    }

    /// The configuration a section states: any missing or unreadable value is the
    /// default's.
    pub fn from_section(section: &Option<Pairs>, d: Config) -> (r: Config)
        ensures
            r@ == stated(section_view(*section), d@),
    {
        Config {
            output_dir: read_text(section, "output_dir", d.output_dir),
            request_delay_ms: read_number(
                section,
                "request_delay_ms",
                u64::MAX,
                d.request_delay_ms,
            ),
            poll_interval_minutes: read_count(
                section,
                "poll_interval_minutes",
                d.poll_interval_minutes,
            ),
            retention_days: read_count(section, "retention_days", d.retention_days),
            quiet_grace_days: read_count(section, "quiet_grace_days", d.quiet_grace_days),
            likely_complete_recheck_days: read_count(
                section,
                "likely_complete_recheck_days",
                d.likely_complete_recheck_days,
            ),
            auto_export: read_flag(section, "auto_export", d.auto_export),
            auto_append: read_flag(section, "auto_append", d.auto_append),
            split_every_chapters: read_count(
                section,
                "split_every_chapters",
                d.split_every_chapters,
            ),
            log_path: read_text(section, "log_path", d.log_path),
        }
    }

    /// Read the text of a config file. What [`Config::write`] wrote reads back as it was.
    pub fn read(text: &str, d: Config) -> (r: Result<Config, String>)
        ensures
            match settings_in(without_mark(text@), "general"@) {
                Ok(section) => r matches Ok(c) && c@ == stated(section, d@),
                Err(e) => r matches Err(m) && m@ == e,
            },
            forall|c: ConfigView|
                is_writable(c) && text@ == #[trigger] written(c) ==> (r matches Ok(k) && k@ == c),
    {
        let file = drop_mark(text);
        // Escapes are disabled, so a Windows path (C:\Users\...) reads as it stands.
        let section = read_settings(file.as_str(), "general");
        proof {
            assert forall|c: ConfigView|
                is_writable(c) && text@ == #[trigger] written(c) implies sections_view(section)
                == Ok::<_, Seq<char>>(Some(setting_pairs(config_settings(c)))) && stated(
                Some(setting_pairs(config_settings(c))),
                d@,
            ) == c by {
                lemma_no_mark(c);
                lemma_written_is_plain(c);
                lemma_stated_settings(c, d@);
            }
        }
        match section {
            Ok(s) => Ok(Config::from_section(&s, d)),
            Err(e) => Err(e),
        }
    }

    /// The text of the config file, with explanatory comments.
    pub fn write(&self) -> (r: String)
        ensures
            r@ == written(self@),
    {
        let mut f = Sheet::new();
        f.setting(
            "Where EPUBs are written: <output_dir>/<author>/<novel>/...",
            Some("Note: on Windows, Documents may be OneDrive-backed (files sync to the cloud)."),
            "output_dir",
            self.output_dir.as_str(),
        );
        f.setting(
            "Base politeness delay between requests, in milliseconds.",
            None,
            "request_delay_ms",
            text::decimal_text(self.request_delay_ms).as_str(),
        );
        f.setting(
            "How often the background sync runs, in minutes (applied when installing the service).",
            None,
            "poll_interval_minutes",
            text::decimal_text(self.poll_interval_minutes as u64).as_str(),
        );
        f.setting(
            "Keep exported chapters this many days before pruning completed novels (0 = purge on export).",
            None,
            "retention_days",
            text::decimal_text(self.retention_days as u64).as_str(),
        );
        f.setting(
            "Days a completed novel must be quiet before it's treated as finished.",
            None,
            "quiet_grace_days",
            text::decimal_text(self.quiet_grace_days as u64).as_str(),
        );
        f.setting(
            "How often (days) to re-check a finished novel; it's skipped between re-checks.",
            None,
            "likely_complete_recheck_days",
            text::decimal_text(self.likely_complete_recheck_days as u64).as_str(),
        );
        f.setting(
            "Automatically export once a novel's initial backfill completes.",
            None,
            "auto_export",
            flag_word(self.auto_export),
        );
        f.setting(
            "Automatically re-export when a caught-up novel gains new chapters.",
            None,
            "auto_append",
            flag_word(self.auto_append),
        );
        f.setting(
            "Split EPUBs into volumes of this many chapters (0 = one file per novel).",
            None,
            "split_every_chapters",
            text::decimal_text(self.split_every_chapters as u64).as_str(),
        );
        f.setting(
            "Where the background sync writes its log (its console output is hidden).",
            None,
            "log_path",
            self.log_path.as_str(),
        );
        assert(f.settings@ =~= config_settings(self@));
        assert(f.text@ =~= written(self@));
        text::to_text(&f.text)
    }

    /// The configuration, given the text of its file if there is one: a missing file
    /// means the defaults, and the text to create it with.
    pub fn load_or_create(existing: Option<&str>, d: Config) -> (r: Result<
        (Config, Option<String>),
        String,
    >)
        ensures
            match existing {
                None => r matches Ok((c, t)) && c@ == d@ && text::opt(t) == Some(written(d@)),
                Some(s) => match settings_in(without_mark(s@), "general"@) {
                    Ok(section) => r matches Ok((c, t)) && c@ == stated(section, d@) && t is None,
                    Err(e) => r matches Err(m) && m@ == e,
                },
            },
    {
        match existing {
            None => {
                let file = d.write();
                Ok((d, Some(file)))
            },
            Some(s) => match Config::read(s, d) {
                Ok(c) => Ok((c, None)),
                Err(e) => Err(e),
            },
        }
    }
}

// ---------------------------------------------------------------------------
// Reading back
// ---------------------------------------------------------------------------

proof fn lemma_no_mark(c: ConfigView)
    ensures
        without_mark(written(c)) == written(c),
{
    let notes = head_notes();
    reveal_with_fuel(comments_text, 3);
    assert(notes.drop_last() =~= seq![notes[0]]);
    assert(seq![notes[0]].drop_last() =~= Seq::<Seq<char>>::empty());
    reveal_strlit("; ");
    assert(written(c)[0] == ';');
}

proof fn lemma_trimmed_is(s: Seq<char>)
    requires
        s.len() > 0,
        !text::is_white(s[0]),
        !text::is_white(s.last()),
    ensures
        text::trimmed(s) == s,
{
    text::lemma_span_is(s, text::white(), 0);
    assert(text::trimmed_start(s) =~= s);
    text::lemma_span_back_is(s, text::white(), 0);
    assert(text::trimmed_end(s) =~= s);
}

proof fn lemma_decimal_is_literal(n: nat)
    ensures
        is_literal(text::decimal(n)),
{
    text::lemma_decimal(n);
    let s = text::decimal(n);
    assert(text::is_digit(s[0]));
    assert(text::is_digit(s.last()));
    assert forall|i: int| 0 <= i < s.len() implies s[i] != '\n' && s[i] != '\r' by {
        assert(text::is_digit(s[i]));
    }
    text::lemma_span_back_is(s, text::only('\\'), 0);
}

proof fn lemma_flag_is_literal(b: bool)
    ensures
        is_literal(flag_text(b)),
        says_yes(flag_text(b)) == b,
{
    reveal_strlit("true");
    reveal_strlit("false");
    reveal_strlit("yes");
    reveal_strlit("1");
    reveal_strlit("on");
    let s = flag_text(b);
    text::lemma_span_back_is(s, text::only('\\'), 0);
    let w = text::lower(s);
    assert(w =~= s);
}

proof fn lemma_notes()
    ensures
        on_one_line("webnovel-crawler configuration"@),
        on_one_line("Edit values below; delete this file to regenerate defaults."@),
        on_one_line("Where EPUBs are written: <output_dir>/<author>/<novel>/..."@),
        on_one_line("Note: on Windows, Documents may be OneDrive-backed (files sync to the cloud)."@),
        on_one_line("Base politeness delay between requests, in milliseconds."@),
        on_one_line("How often the background sync runs, in minutes (applied when installing the service)."@),
        on_one_line("Keep exported chapters this many days before pruning completed novels (0 = purge on export)."@),
        on_one_line("Days a completed novel must be quiet before it's treated as finished."@),
        on_one_line("How often (days) to re-check a finished novel; it's skipped between re-checks."@),
        on_one_line("Automatically export once a novel's initial backfill completes."@),
        on_one_line("Automatically re-export when a caught-up novel gains new chapters."@),
        on_one_line("Split EPUBs into volumes of this many chapters (0 = one file per novel)."@),
        on_one_line("Where the background sync writes its log (its console output is hidden)."@),
{
    assert(on_one_line("webnovel-crawler configuration"@)) by {
        reveal_strlit("webnovel-crawler configuration");
    }
    assert(on_one_line("Edit values below; delete this file to regenerate defaults."@)) by {
        reveal_strlit("Edit values below; delete this file to regenerate defaults.");
    }
    assert(on_one_line("Where EPUBs are written: <output_dir>/<author>/<novel>/..."@)) by {
        reveal_strlit("Where EPUBs are written: <output_dir>/<author>/<novel>/...");
    }
    assert(on_one_line("Note: on Windows, Documents may be OneDrive-backed (files sync to the cloud)."@)) by {
        reveal_strlit("Note: on Windows, Documents may be OneDrive-backed (files sync to the cloud).");
    }
    assert(on_one_line("Base politeness delay between requests, in milliseconds."@)) by {
        reveal_strlit("Base politeness delay between requests, in milliseconds.");
    }
    assert(on_one_line("How often the background sync runs, in minutes (applied when installing the service)."@)) by {
        reveal_strlit("How often the background sync runs, in minutes (applied when installing the service).");
    }
    assert(on_one_line("Keep exported chapters this many days before pruning completed novels (0 = purge on export)."@)) by {
        reveal_strlit("Keep exported chapters this many days before pruning completed novels (0 = purge on export).");
    }
    assert(on_one_line("Days a completed novel must be quiet before it's treated as finished."@)) by {
        reveal_strlit("Days a completed novel must be quiet before it's treated as finished.");
    }
    assert(on_one_line("How often (days) to re-check a finished novel; it's skipped between re-checks."@)) by {
        reveal_strlit("How often (days) to re-check a finished novel; it's skipped between re-checks.");
    }
    assert(on_one_line("Automatically export once a novel's initial backfill completes."@)) by {
        reveal_strlit("Automatically export once a novel's initial backfill completes.");
    }
    assert(on_one_line("Automatically re-export when a caught-up novel gains new chapters."@)) by {
        reveal_strlit("Automatically re-export when a caught-up novel gains new chapters.");
    }
    assert(on_one_line("Split EPUBs into volumes of this many chapters (0 = one file per novel)."@)) by {
        reveal_strlit("Split EPUBs into volumes of this many chapters (0 = one file per novel).");
    }
    assert(on_one_line("Where the background sync writes its log (its console output is hidden)."@)) by {
        reveal_strlit("Where the background sync writes its log (its console output is hidden).");
    }
}

proof fn lemma_keys()
    ensures
        is_word("output_dir"@),
        is_word("request_delay_ms"@),
        is_word("poll_interval_minutes"@),
        is_word("retention_days"@),
        is_word("quiet_grace_days"@),
        is_word("likely_complete_recheck_days"@),
        is_word("auto_export"@),
        is_word("auto_append"@),
        is_word("split_every_chapters"@),
        is_word("log_path"@),
        is_word("general"@),
{
    assert(is_word("output_dir"@)) by {
        reveal_strlit("output_dir");
    }
    assert(is_word("request_delay_ms"@)) by {
        reveal_strlit("request_delay_ms");
    }
    assert(is_word("poll_interval_minutes"@)) by {
        reveal_strlit("poll_interval_minutes");
    }
    assert(is_word("retention_days"@)) by {
        reveal_strlit("retention_days");
    }
    assert(is_word("quiet_grace_days"@)) by {
        reveal_strlit("quiet_grace_days");
    }
    assert(is_word("likely_complete_recheck_days"@)) by {
        reveal_strlit("likely_complete_recheck_days");
    }
    assert(is_word("auto_export"@)) by {
        reveal_strlit("auto_export");
    }
    assert(is_word("auto_append"@)) by {
        reveal_strlit("auto_append");
    }
    assert(is_word("split_every_chapters"@)) by {
        reveal_strlit("split_every_chapters");
    }
    assert(is_word("log_path"@)) by {
        reveal_strlit("log_path");
    }
    assert(is_word("general"@)) by {
        reveal_strlit("general");
    }
}

proof fn lemma_written_is_plain(c: ConfigView)
    requires
        is_writable(c),
    ensures
        is_plain_file(head_notes(), "general"@, config_settings(c)),
{
    lemma_notes();
    lemma_keys();
    lemma_decimal_is_literal(c.request_delay_ms as nat);
    lemma_decimal_is_literal(c.poll_interval_minutes as nat);
    lemma_decimal_is_literal(c.retention_days as nat);
    lemma_decimal_is_literal(c.quiet_grace_days as nat);
    lemma_decimal_is_literal(c.likely_complete_recheck_days as nat);
    lemma_decimal_is_literal(c.split_every_chapters as nat);
    lemma_flag_is_literal(c.auto_export);
    lemma_flag_is_literal(c.auto_append);
}

/// The keys of the file differ from each other.
proof fn lemma_keys_differ(c: ConfigView, i: int, j: int)
    requires
        0 <= i < j < 10,
    ensures
        config_settings(c)[i].key != config_settings(c)[j].key,
{
    reveal_strlit("output_dir");
    reveal_strlit("request_delay_ms");
    reveal_strlit("poll_interval_minutes");
    reveal_strlit("retention_days");
    reveal_strlit("quiet_grace_days");
    reveal_strlit("likely_complete_recheck_days");
    reveal_strlit("auto_export");
    reveal_strlit("auto_append");
    reveal_strlit("split_every_chapters");
    reveal_strlit("log_path");
    let a = config_settings(c)[i].key;
    let b = config_settings(c)[j].key;
    if a.len() == b.len() {
        assert(a[0] != b[0] || a[5] != b[5]);
    }
}

proof fn lemma_setting_found(c: ConfigView, k: int)
    requires
        0 <= k < 10,
        is_literal(config_settings(c)[k].value),
    ensures
        value_of(Some(setting_pairs(config_settings(c))), config_settings(c)[k].key) == Some(
            config_settings(c)[k].value,
        ),
{
    let settings = config_settings(c);
    let pairs = setting_pairs(settings);
    assert forall|j: int| 0 <= j < k implies (#[trigger] pairs[j]).0 != settings[k].key by {
        lemma_keys_differ(c, j, k);
    }
    lemma_pair_at(pairs, settings[k].key, k);
    lemma_trimmed_is(settings[k].value);
}

/// What the settings of a configuration state is the configuration, whatever the
/// defaults.
pub proof fn lemma_stated_settings(c: ConfigView, d: ConfigView)
    requires
        is_writable(c),
    ensures
        stated(Some(setting_pairs(config_settings(c))), d) == c,
{
    lemma_written_is_plain(c);
    let settings = config_settings(c);
    assert forall|k: int| 0 <= k < 10 implies value_of(
        Some(setting_pairs(settings)),
        (#[trigger] settings[k]).key,
    ) == Some(settings[k].value) by {
        lemma_setting_found(c, k);
    }
    assert(settings[0].key == "output_dir"@);
    assert(settings[1].key == "request_delay_ms"@);
    assert(settings[2].key == "poll_interval_minutes"@);
    assert(settings[3].key == "retention_days"@);
    assert(settings[4].key == "quiet_grace_days"@);
    assert(settings[5].key == "likely_complete_recheck_days"@);
    assert(settings[6].key == "auto_export"@);
    assert(settings[7].key == "auto_append"@);
    assert(settings[8].key == "split_every_chapters"@);
    assert(settings[9].key == "log_path"@);
    text::law_numbers_read_back(c.request_delay_ms as nat, u64::MAX as nat);
    text::law_numbers_read_back(c.poll_interval_minutes as nat, u32::MAX as nat);
    text::law_numbers_read_back(c.retention_days as nat, u32::MAX as nat);
    text::law_numbers_read_back(c.quiet_grace_days as nat, u32::MAX as nat);
    text::law_numbers_read_back(c.likely_complete_recheck_days as nat, u32::MAX as nat);
    text::law_numbers_read_back(c.split_every_chapters as nat, u32::MAX as nat);
    lemma_flag_is_literal(c.auto_export);
    lemma_flag_is_literal(c.auto_append);
}

/// Each key of the section sets its own setting: the first value under it, without the white space
/// around it. A key that is not there leaves the default.
pub proof fn law_each_key_sets_its_setting(
    pairs: Seq<(Seq<char>, Seq<char>)>,
    d: ConfigView,
    i: int,
    n: u32,
)
    requires
        0 <= i < pairs.len(),
        forall|j: int| 0 <= j < i ==> (#[trigger] pairs[j]).0 != pairs[i].0,
    ensures
        ({
            let key = pairs[i].0;
            let v = text::trimmed(pairs[i].1);
            let c = stated(Some(pairs), d);
            &&& key == "output_dir"@ && v.len() > 0 ==> c.output_dir == v
            &&& key == "log_path"@ && v.len() > 0 ==> c.log_path == v
            &&& key == "output_dir"@ && v.len() == 0 ==> c.output_dir == d.output_dir
            &&& v == text::decimal(n as nat) ==> {
                &&& key == "request_delay_ms"@ ==> c.request_delay_ms == n
                &&& key == "poll_interval_minutes"@ ==> c.poll_interval_minutes == n
                &&& key == "retention_days"@ ==> c.retention_days == n
                &&& key == "quiet_grace_days"@ ==> c.quiet_grace_days == n
                &&& key == "likely_complete_recheck_days"@ ==> c.likely_complete_recheck_days == n
                &&& key == "split_every_chapters"@ ==> c.split_every_chapters == n
            }
            &&& key == "auto_export"@ ==> (c.auto_export <==> text::lower(v) == "true"@
                || text::lower(v) == "yes"@ || text::lower(v) == "1"@ || text::lower(v) == "on"@)
            &&& key == "auto_append"@ ==> (c.auto_append <==> text::lower(v) == "true"@
                || text::lower(v) == "yes"@ || text::lower(v) == "1"@ || text::lower(v) == "on"@)
            &&& value_of(Some(pairs), key) == Some(v)
        }),
        stated(None, d) == d,
        forall|key: Seq<char>|
            (forall|j: int| 0 <= j < pairs.len() ==> (#[trigger] pairs[j]).0 != key)
                ==> #[trigger] value_of(Some(pairs), key) is None,
{
    lemma_pair_at(pairs, pairs[i].0, i);
    text::law_numbers_read_back(n as nat, u32::MAX as nat);
    text::law_numbers_read_back(n as nat, u64::MAX as nat);
    assert forall|key: Seq<char>|
        (forall|j: int|
            0 <= j < pairs.len() ==> (#[trigger] pairs[j]).0 != key) implies #[trigger] value_of(
        Some(pairs),
        key,
    ) is None by {
        lemma_pair_at(pairs, key, pairs.len() as int);
    }
    assert(stated(None, d) =~= d);
}

/// A setting that no key names keeps its default.
pub proof fn law_unnamed_settings_keep_their_defaults(
    pairs: Seq<(Seq<char>, Seq<char>)>,
    d: ConfigView,
)
    ensures
        ({
            let c = stated(Some(pairs), d);
            &&& value_of(Some(pairs), "output_dir"@) is None ==> c.output_dir == d.output_dir
            &&& value_of(Some(pairs), "request_delay_ms"@) is None ==> c.request_delay_ms
                == d.request_delay_ms
            &&& value_of(Some(pairs), "poll_interval_minutes"@) is None ==> c.poll_interval_minutes
                == d.poll_interval_minutes
            &&& value_of(Some(pairs), "retention_days"@) is None ==> c.retention_days
                == d.retention_days
            &&& value_of(Some(pairs), "quiet_grace_days"@) is None ==> c.quiet_grace_days
                == d.quiet_grace_days
            &&& value_of(Some(pairs), "likely_complete_recheck_days"@) is None
                ==> c.likely_complete_recheck_days == d.likely_complete_recheck_days
            &&& value_of(Some(pairs), "auto_export"@) is None ==> c.auto_export == d.auto_export
            &&& value_of(Some(pairs), "auto_append"@) is None ==> c.auto_append == d.auto_append
            &&& value_of(Some(pairs), "split_every_chapters"@) is None ==> c.split_every_chapters
                == d.split_every_chapters
            &&& value_of(Some(pairs), "log_path"@) is None ==> c.log_path == d.log_path
        }),
{
}

/// What is not configured is polite and cautious: a request every second and a half, a sync every
/// hour, thirty days of retention and of silence, a look at finished novels every week, and no
/// export that was not asked for.
pub proof fn law_defaults(output_dir: Seq<char>, log_path: Seq<char>)
    ensures
        ({
            let d = ConfigView::defaults(output_dir, log_path);
            &&& d.output_dir == output_dir
            &&& d.log_path == log_path
            &&& d.request_delay_ms == 1500
            &&& d.poll_interval_minutes == 60
            &&& d.retention_days == 30
            &&& d.quiet_grace_days == 30
            &&& d.likely_complete_recheck_days == 7
            &&& !d.auto_export
            &&& !d.auto_append
            &&& d.split_every_chapters == 0
        }),
{
}

/// A configuration is seen as it is.
pub proof fn law_a_configuration_is_seen_whole(c: Config)
    ensures
        c@.output_dir == c.output_dir@,
        c@.request_delay_ms == c.request_delay_ms,
        c@.poll_interval_minutes == c.poll_interval_minutes,
        c@.retention_days == c.retention_days,
        c@.quiet_grace_days == c.quiet_grace_days,
        c@.likely_complete_recheck_days == c.likely_complete_recheck_days,
        c@.auto_export == c.auto_export,
        c@.auto_append == c.auto_append,
        c@.split_every_chapters == c.split_every_chapters,
        c@.log_path == c.log_path@,
{
}

/// The settings of a file are those of its named section, or else of what stands before any.
pub proof fn law_a_section_goes_before_the_rest(
    text: Seq<char>,
    name: Seq<char>,
    pairs: Seq<(Seq<char>, Seq<char>)>,
    s: Seq<char>,
)
    ensures
        section_of(text, Some(name)) == Ok::<Option<Seq<(Seq<char>, Seq<char>)>>, Seq<char>>(
            Some(pairs),
        ) ==> settings_in(text, name) == Ok::<Option<Seq<(Seq<char>, Seq<char>)>>, Seq<char>>(
            Some(pairs),
        ),
        section_of(text, Some(name)) == Ok::<Option<Seq<(Seq<char>, Seq<char>)>>, Seq<char>>(None)
            ==> settings_in(text, name) == section_of(text, None),
        section_of(text, Some(name)) is Err ==> settings_in(text, name) is Err,
        without_mark(seq!['\u{feff}'] + s) == s,
        s.len() == 0 || s[0] != '\u{feff}' ==> without_mark(s) == s,
{
    assert((seq!['\u{feff}'] + s).drop_first() =~= s);
}

/// The pairs of a section are seen as they are.
pub proof fn law_pairs_are_seen_whole(v: Pairs, i: int)
    requires
        0 <= i < v@.len(),
    ensures
        pair_views(v@).len() == v@.len(),
        pair_views(v@)[i] == (v@[i].0@, v@[i].1@),
        section_view(Some(v)) == Some(pair_views(v@)),
        section_view(None) is None,
{
}

} // verus!
