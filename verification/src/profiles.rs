//! Site profiles for the generic adapter: the built-in ones, and those a user writes.
//!
//! A site of plain server-rendered HTML needs no code: a file that names its host and
//! says where its prose stands is enough.

use vstd::prelude::*;

use crate::config::Pairs;
use crate::config;
use crate::source::{ProfileView, SiteProfile};
use crate::source;
use crate::text;
use crate::web;

verus! {

/// The profile of novgo.net.
pub open spec fn novgo_profile() -> ProfileView {
    ProfileView {
        name: "novgo"@,
        host: "novgo.net"@,
        content_selector: "#chapter-content"@,
        paragraph_selector: "p"@,
        chapter_marker: "chapter-"@,
        page_param: "page"@,
        max_pages: 500,
        title_selector: ""@,
        author_selector: ""@,
        cover_selector: ""@,
        status_selector: ""@,
    }
}

/// All built-in site profiles.
pub open spec fn built_in() -> Seq<ProfileView> {
    seq![novgo_profile()]
}

pub open spec fn profile_views(v: Seq<SiteProfile>) -> Seq<ProfileView> {
    v.map_values(|p: SiteProfile| p@)
}

/// The position of the first profile for a host, or their number.
pub open spec fn first_for(
    profiles: Seq<ProfileView>,
    host: Result<Option<Seq<char>>, Seq<char>>,
) -> int
    decreases profiles.len(),
{
    if profiles.len() == 0 || (host matches Ok(Some(h)) && text::eq_ci(h, profiles[0].host)) {
        0
    } else {
        1 + first_for(profiles.drop_first(), host)
    }
}

/// The first profile for a host.
pub open spec fn profile_for(
    profiles: Seq<ProfileView>,
    host: Result<Option<Seq<char>>, Seq<char>>,
) -> Option<ProfileView> {
    if first_for(profiles, host) < profiles.len() {
        Some(profiles[first_for(profiles, host)])
    } else {
        None
    }
}

pub open spec fn opt_view(p: Option<SiteProfile>) -> Option<ProfileView> {
    match p {
        Some(p) => Some(p@),
        None => None,
    }
}

/// All built-in site profiles.
pub fn all() -> (r: Vec<SiteProfile>)
    ensures
        profile_views(r@) == built_in(),
{
    let mut v: Vec<SiteProfile> = Vec::new();
    v.push(novgo());
    assert(profile_views(v@) =~= built_in());
    v
}

proof fn lemma_first_for(
    profiles: Seq<ProfileView>,
    host: Result<Option<Seq<char>>, Seq<char>>,
    k: int,
)
    requires
        0 <= k <= profiles.len(),
        forall|j: int|
            0 <= j < k ==> !(host matches Ok(Some(h)) && text::eq_ci(
                h,
                (#[trigger] profiles[j]).host,
            )),
        k < profiles.len() ==> (host matches Ok(Some(h)) && text::eq_ci(h, profiles[k].host)),
    ensures
        first_for(profiles, host) == k,
    decreases profiles.len(),
{
    if k > 0 {
        let t = profiles.drop_first();
        assert forall|j: int| 0 <= j < k - 1 implies !(host matches Ok(Some(h)) && text::eq_ci(
            h,
            (#[trigger] t[j]).host,
        )) by {
            assert(t[j] == profiles[j + 1]);
        }
        lemma_first_for(t, host, k - 1);
    }
}

/// The first of the profiles for this host, which was read off a URL.
pub fn find_profile(profiles: &Vec<SiteProfile>, host: &Result<Option<String>, String>) -> (r: Option<
    SiteProfile,
>)
    ensures
        opt_view(r) == profile_for(profile_views(profiles@), web::host_view(*host)),
{
    let ghost views = profile_views(profiles@);
    let ghost h = web::host_view(*host);
    let mut i: usize = 0;
    while i < profiles.len() && !source::is_host(host, profiles[i].host.as_str())
        invariant
            i <= profiles@.len(),
            views == profile_views(profiles@),
            h == web::host_view(*host),
            forall|j: int|
                0 <= j < i ==> !(h matches Ok(Some(x)) && text::eq_ci(
                    x,
                    (#[trigger] views[j]).host,
                )),
        decreases profiles@.len() - i,
    {
        assert(views[i as int].host == profiles@[i as int].host@);
        i += 1;
    }
    proof {
        if i < profiles@.len() {
            assert(views[i as int].host == profiles@[i as int].host@);
        }
        lemma_first_for(views, h, i as int);
    }
    if i < profiles.len() {
        Some(profiles[i].clone())
    } else {
        None
    }
}

/// The built-in profile whose host matches `url`, if any.
pub fn for_url(url: &str) -> (r: Option<SiteProfile>)
    ensures
        opt_view(r) == profile_for(built_in(), web::host_of(url@)),
{
    let host = web::url_host(url);
    find_profile(&all(), &host)
}

/// Profile for novgo.net.
///
/// Pages are server-rendered, chapter bodies live in `#chapter-content`, and
/// ads are separate `div.ads*` blocks with no prose `<p>`, so selecting `<p>`
/// within the container excludes them.
pub fn novgo() -> (r: SiteProfile)
    ensures
        r@ == novgo_profile(),
{
    SiteProfile {
        name: "novgo".to_string(),
        host: "novgo.net".to_string(),
        content_selector: "#chapter-content".to_string(),
        paragraph_selector: "p".to_string(),
        chapter_marker: "chapter-".to_string(),
        page_param: "page".to_string(),
        max_pages: 500,
        title_selector: "".to_string(),
        author_selector: "".to_string(),
        cover_selector: "".to_string(),
        status_selector: "".to_string(),
    }
}

// ---------------------------------------------------------------------------
// Profiles from files
// ---------------------------------------------------------------------------

/// A key's value, which must be there and must not be empty.
pub open spec fn required(
    section: Option<Seq<(Seq<char>, Seq<char>)>>,
    key: Seq<char>,
) -> Result<Seq<char>, Seq<char>> {
    match config::value_of(section, key) {
        Some(v) => if v.len() > 0 {
            Ok(v)
        } else {
            Err("missing key "@ + key)
        },
        None => Err("missing key "@ + key),
    }
}

/// The profile a section describes: the name, the host and the content selector are
/// required, and what is not said is as on the built-in site.
pub open spec fn described(section: Option<Seq<(Seq<char>, Seq<char>)>>) -> Result<
    ProfileView,
    Seq<char>,
> {
    let d = novgo_profile();
    match (
        required(section, "name"@),
        required(section, "host"@),
        required(section, "content_selector"@),
    ) {
        (Err(e), _, _) => Err(e),
        (_, Err(e), _) => Err(e),
        (_, _, Err(e)) => Err(e),
        (Ok(name), Ok(host), Ok(content_selector)) => Ok(
            ProfileView {
                name,
                host,
                content_selector,
                paragraph_selector: config::text_or(
                    config::value_of(section, "paragraph_selector"@),
                    d.paragraph_selector,
                ),
                chapter_marker: config::text_or(
                    config::value_of(section, "chapter_marker"@),
                    d.chapter_marker,
                ),
                page_param: config::text_or(
                    config::value_of(section, "page_param"@),
                    d.page_param,
                ),
                max_pages: config::number_or(
                    config::value_of(section, "max_pages"@),
                    u32::MAX as nat,
                    d.max_pages as nat,
                ) as u32,
                title_selector: config::text_or(
                    config::value_of(section, "title_selector"@),
                    d.title_selector,
                ),
                author_selector: config::text_or(
                    config::value_of(section, "author_selector"@),
                    d.author_selector,
                ),
                cover_selector: config::text_or(
                    config::value_of(section, "cover_selector"@),
                    d.cover_selector,
                ),
                status_selector: config::text_or(
                    config::value_of(section, "status_selector"@),
                    d.status_selector,
                ),
            },
        ),
    }
}

pub open spec fn result_view(r: Result<SiteProfile, String>) -> Result<ProfileView, Seq<char>> {
    match r {
        Ok(p) => Ok(p@),
        Err(e) => Err(e@),
    }
}

fn require(section: &Option<Pairs>, key: &str) -> (r: Result<String, String>)
    ensures
        (match r {
            Ok(v) => Ok(v@),
            Err(e) => Err(e@),
        }) == required(config::section_view(*section), key@),
{
    match config::find_value(section, key) {
        Some(v) => if v.len() > 0 {
            Ok(text::to_text(&v))
        } else {
            Err(text::concat("missing key ", key))
        },
        None => Err(text::concat("missing key ", key)),
    }
}

/// Make a profile of a file's section.
pub fn profile_from(section: &Option<Pairs>) -> (r: Result<SiteProfile, String>)
    ensures
        result_view(r) == described(config::section_view(*section)),
{
    let name = match require(section, "name") {
        Ok(v) => v,
        Err(e) => return Err(e),
    };
    let host = match require(section, "host") {
        Ok(v) => v,
        Err(e) => return Err(e),
    };
    let content_selector = match require(section, "content_selector") {
        Ok(v) => v,
        Err(e) => return Err(e),
    };
    let d = novgo();
    Ok(
        SiteProfile {
            name,
            host,
            content_selector,
            paragraph_selector: config::read_text(
                section,
                "paragraph_selector",
                d.paragraph_selector,
            ),
            chapter_marker: config::read_text(section, "chapter_marker", d.chapter_marker),
            page_param: config::read_text(section, "page_param", d.page_param),
            max_pages: config::read_count(section, "max_pages", d.max_pages),
            title_selector: config::read_text(section, "title_selector", d.title_selector),
            author_selector: config::read_text(section, "author_selector", d.author_selector),
            cover_selector: config::read_text(section, "cover_selector", d.cover_selector),
            status_selector: config::read_text(section, "status_selector", d.status_selector),
        },
    )
}

/// Read the profile in a file of this text.
pub fn parse_profile(file: &str) -> (r: Result<SiteProfile, String>)
    ensures
        result_view(r) == (match config::settings_in(config::without_mark(file@), "profile"@) {
            Ok(section) => described(section),
            Err(e) => Err(e),
        }),
{
    let body = config::drop_mark(file);
    match config::read_settings(body.as_str(), "profile") {
        Ok(section) => profile_from(&section),
        Err(e) => Err(e),
    }
}

/// A file that was read as a profile, under its name.
pub type Loaded = (String, Result<SiteProfile, String>);

pub open spec fn loaded_view(l: Loaded) -> (Seq<char>, Result<ProfileView, Seq<char>>) {
    (l.0@, result_view(l.1))
}

pub open spec fn loaded_views(v: Seq<Loaded>) -> Seq<
    (Seq<char>, Result<ProfileView, Seq<char>>),
> {
    v.map_values(|l: Loaded| loaded_view(l))
}

/// The profiles among the files.
pub open spec fn accepted(files: Seq<(Seq<char>, Result<ProfileView, Seq<char>>)>) -> Seq<
    ProfileView,
>
    decreases files.len(),
{
    if files.len() == 0 {
        seq![]
    } else {
        match files.last().1 {
            Ok(p) => accepted(files.drop_last()).push(p),
            Err(_) => accepted(files.drop_last()),
        }
    }
}

/// What is said of the files that are no profiles.
pub open spec fn complaints(files: Seq<(Seq<char>, Result<ProfileView, Seq<char>>)>) -> Seq<
    Seq<char>,
>
    decreases files.len(),
{
    if files.len() == 0 {
        seq![]
    } else {
        match files.last().1 {
            Ok(_) => complaints(files.drop_last()),
            Err(e) => complaints(files.drop_last()).push(
                "skipping profile "@ + files.last().0 + ": "@ + e,
            ),
        }
    }
}

/// The built-in profiles and then those of the files, with a warning about each file
/// that is none.
pub fn merge(files: Vec<Loaded>) -> (r: (Vec<SiteProfile>, Vec<String>))
    ensures
        profile_views(r.0@) == built_in() + accepted(loaded_views(files@)),
        text::texts(r.1@) == complaints(loaded_views(files@)),
{
    let ghost all_files = loaded_views(files@);
    let mut profiles = all();
    let mut warnings: Vec<String> = Vec::new();
    let mut i: usize = 0;
    assert(built_in() + accepted(all_files.take(0)) =~= built_in());
    assert(text::texts(warnings@) =~= complaints(all_files.take(0)));
    while i < files.len()
        invariant
            i <= files@.len(),
            all_files == loaded_views(files@),
            profile_views(profiles@) == built_in() + accepted(all_files.take(i as int)),
            text::texts(warnings@) == complaints(all_files.take(i as int)),
        decreases files@.len() - i,
    {
        proof {
            let t = all_files.take(i + 1);
            assert(t.drop_last() =~= all_files.take(i as int));
            assert(t.last() == loaded_view(files@[i as int]));
        }
        match &files[i].1 {
            Ok(p) => {
                let ghost before = profiles@;
                profiles.push(p.clone());
                proof {
                    assert(profile_views(profiles@) =~= profile_views(before).push(p@));
                    assert(built_in() + accepted(all_files.take(i + 1)) =~= (built_in() + accepted(
                        all_files.take(i as int),
                    )).push(p@));
                }
            },
            Err(e) => {
                let mut v = text::to_chars("skipping profile ");
                text::push_str(&mut v, files[i].0.as_str());
                text::push_str(&mut v, ": ");
                text::push_str(&mut v, e.as_str());
                let line = text::to_text(&v);
                let ghost before = warnings@;
                warnings.push(line);
                proof {
                    assert(text::texts(warnings@) =~= text::texts(before).push(line@));
                }
            },
        }
        i += 1;
    }
    assert(all_files.take(all_files.len() as int) =~= all_files);
    (profiles, warnings)
}

/// A user's profile never takes a host away from a built-in one.
pub proof fn law_built_in_profiles_come_first(
    files: Seq<(Seq<char>, Result<ProfileView, Seq<char>>)>,
    host: Result<Option<Seq<char>>, Seq<char>>,
)
    requires
        profile_for(built_in(), host) is Some,
    ensures
        profile_for(built_in() + accepted(files), host) == profile_for(built_in(), host),
{
    let all = built_in() + accepted(files);
    assert(all[0] == built_in()[0]);
    assert(built_in().drop_first() =~= seq![]);
    assert(first_for(built_in().drop_first(), host) == 0);
}

/// A file that is no profile costs no other file anything: those around it are accepted
/// as if it were not there.
pub proof fn law_a_bad_file_spoils_nothing(
    before: Seq<(Seq<char>, Result<ProfileView, Seq<char>>)>,
    bad: (Seq<char>, Result<ProfileView, Seq<char>>),
    after: Seq<(Seq<char>, Result<ProfileView, Seq<char>>)>,
)
    requires
        bad.1 is Err,
    ensures
        accepted(before.push(bad) + after) == accepted(before + after),
    decreases after.len(),
{
    if after.len() == 0 {
        assert(before.push(bad) + after =~= before.push(bad));
        assert(before.push(bad).drop_last() =~= before);
        assert(before + after =~= before);
    } else {
        let rest = after.drop_last();
        assert((before.push(bad) + after).drop_last() =~= before.push(bad) + rest);
        assert((before + after).drop_last() =~= before + rest);
        law_a_bad_file_spoils_nothing(before, bad, rest);
    }
}

/// A profile is the one its section describes, key by key, and what the section leaves out is as on
/// the built-in site.
pub proof fn law_a_profile_is_what_its_section_says(
    section: Option<Seq<(Seq<char>, Seq<char>)>>,
    name: Seq<char>,
    host: Seq<char>,
    content: Seq<char>,
    v: Seq<char>,
    n: u32,
)
    requires
        name.len() > 0,
        host.len() > 0,
        content.len() > 0,
        v.len() > 0,
    ensures
        config::value_of(section, "name"@) == Some(name) && config::value_of(section, "host"@)
            == Some(host) && config::value_of(section, "content_selector"@) == Some(content) ==> (
        described(section) matches Ok(p) && {
            &&& p.name == name
            &&& p.host == host
            &&& p.content_selector == content
            &&& config::value_of(section, "paragraph_selector"@) == Some(v) ==> p.paragraph_selector
                == v
            &&& config::value_of(section, "chapter_marker"@) == Some(v) ==> p.chapter_marker == v
            &&& config::value_of(section, "page_param"@) == Some(v) ==> p.page_param == v
            &&& config::value_of(section, "max_pages"@) == Some(text::decimal(n as nat))
                ==> p.max_pages == n
            &&& config::value_of(section, "title_selector"@) == Some(v) ==> p.title_selector == v
            &&& config::value_of(section, "author_selector"@) == Some(v) ==> p.author_selector == v
            &&& config::value_of(section, "cover_selector"@) == Some(v) ==> p.cover_selector == v
            &&& config::value_of(section, "status_selector"@) == Some(v) ==> p.status_selector == v
            &&& config::value_of(section, "paragraph_selector"@) is None ==> p.paragraph_selector
                == "p"@
            &&& config::value_of(section, "chapter_marker"@) is None ==> p.chapter_marker
                == "chapter-"@
            &&& config::value_of(section, "page_param"@) is None ==> p.page_param == "page"@
            &&& config::value_of(section, "max_pages"@) is None ==> p.max_pages == 500
            &&& config::value_of(section, "title_selector"@) is None ==> p.title_selector == ""@
        }),
        config::value_of(section, "name"@) is None || config::value_of(section, "host"@) is None
            || config::value_of(section, "content_selector"@) is None ==> described(section) is Err,
        config::value_of(section, "name"@) == Some(Seq::<char>::empty()) ==> described(section)
            is Err,
{
    text::law_numbers_read_back(n as nat, u32::MAX as nat);
}

/// The profile for an address is the first whose host is the address's, in any ASCII case.
pub proof fn law_the_first_profile_of_the_host_counts(
    profiles: Seq<ProfileView>,
    h: Seq<char>,
    i: int,
)
    ensures
        0 <= i < profiles.len() && text::lower(h) == text::lower(profiles[i].host) && (forall|j: int|
            0 <= j < i ==> text::lower(h) != text::lower((#[trigger] profiles[j]).host))
            ==> profile_for(profiles, Ok(Some(h))) == Some(profiles[i]),
        (forall|j: int|
            0 <= j < profiles.len() ==> text::lower(h) != text::lower(
                (#[trigger] profiles[j]).host,
            )) ==> profile_for(profiles, Ok(Some(h))) is None,
{
    let host = Ok::<Option<Seq<char>>, Seq<char>>(Some(h));
    if 0 <= i < profiles.len() && text::lower(h) == text::lower(profiles[i].host) && (forall|j: int|
        0 <= j < i ==> text::lower(h) != text::lower((#[trigger] profiles[j]).host)) {
        lemma_first_for(profiles, host, i);
    }
    if forall|j: int|
        0 <= j < profiles.len() ==> text::lower(h) != text::lower((#[trigger] profiles[j]).host) {
        lemma_first_for(profiles, host, profiles.len() as int);
    }
}

/// Files are taken one by one: one that is a profile adds it, and one that is none adds a line that
/// names the file and says why.
pub proof fn law_files_are_taken_one_by_one(
    files: Seq<(Seq<char>, Result<ProfileView, Seq<char>>)>,
    name: Seq<char>,
    p: ProfileView,
    e: Seq<char>,
)
    ensures
        accepted(seq![]).len() == 0,
        complaints(seq![]).len() == 0,
        accepted(files.push((name, Ok(p)))) == accepted(files).push(p),
        complaints(files.push((name, Ok(p)))) == complaints(files),
        accepted(files.push((name, Err(e)))) == accepted(files),
        complaints(files.push((name, Err(e)))) == complaints(files).push(
            "skipping profile "@ + name + ": "@ + e,
        ),
{
    assert(files.push((name, Ok(p))).drop_last() =~= files);
    assert(files.push((name, Err(e))).drop_last() =~= files);
}

/// Profiles and files are seen as they are.
pub proof fn law_profiles_are_seen_whole(v: Seq<SiteProfile>, l: Seq<Loaded>, i: int)
    requires
        0 <= i < v.len(),
        0 <= i < l.len(),
    ensures
        profile_views(v).len() == v.len(),
        profile_views(v)[i] == v[i]@,
        loaded_views(l).len() == l.len(),
        loaded_views(l)[i].0 == l[i].0@,
        l[i].1 matches Ok(p) ==> loaded_views(l)[i].1 == Ok::<ProfileView, Seq<char>>(p@),
        l[i].1 matches Err(e) ==> loaded_views(l)[i].1 == Err::<ProfileView, Seq<char>>(e@),
{
}

} // verus!
