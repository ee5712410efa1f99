//! From a URL to the adapter that handles it, and the fetch tier that site needs.

use vstd::prelude::*;

use crate::profiles;
use crate::source::{ProfileView, SiteProfile};
use crate::text;
use crate::web;

verus! {

/// A site with an adapter.
#[derive(Debug)]
pub enum Site {
    Chikari,
    Freewebnovel,
    /// Kept so a lingering subscription still resolves to an adapter and fails with a
    /// real message, but the site is frozen and shutting down.
    LightNovelWorld,
    RoyalRoad,
    ScribbleHub,
    Profile(SiteProfile),
}

/// A [`Site`] as plain values.
#[verifier::ext_equal]
pub enum SiteView {
    Chikari,
    Freewebnovel,
    LightNovelWorld,
    RoyalRoad,
    ScribbleHub,
    Profile(ProfileView),
}

impl View for Site {
    type V = SiteView;

    open spec fn view(&self) -> SiteView {
        match *self {
            Site::Chikari => SiteView::Chikari,
            Site::Freewebnovel => SiteView::Freewebnovel,
            Site::LightNovelWorld => SiteView::LightNovelWorld,
            Site::RoyalRoad => SiteView::RoyalRoad,
            Site::ScribbleHub => SiteView::ScribbleHub,
            Site::Profile(p) => SiteView::Profile(p@),
        }
    }
}

pub open spec fn opt_view(s: Option<Site>) -> Option<SiteView> {
    match s {
        Some(s) => Some(s@),
        None => None,
    }
}

/// How a site's pages are fetched.
#[derive(Debug, Clone, Copy, PartialEq, Eq, Structural)]
pub enum Tier {
    /// An ordinary HTTP client.
    Http,
    /// The `curl` program, whose TLS fingerprint Cloudflare does not challenge.
    Curl,
}

impl SiteView {
    pub open spec fn needs(self) -> Tier {
        match self {
            SiteView::Freewebnovel | SiteView::ScribbleHub => Tier::Curl,
            _ => Tier::Http,
        }
    }
}

impl Site {
    /// The tier the site needs: plain HTTP for most, and `curl` for the two that sit
    /// behind a Cloudflare challenge.
    pub fn tier(&self) -> (r: Tier)
        ensures
            r == self@.needs(),
    {
        match self {
            Site::Freewebnovel | Site::ScribbleHub => Tier::Curl,
            _ => Tier::Http,
        }
    }
}

pub open spec fn is_or_www(host: Seq<char>, name: Seq<char>) -> bool {
    host == name || host == "www."@ + name
}

/// The site a lower-case host belongs to, among those with an adapter of their own.
pub open spec fn site_named(host: Seq<char>) -> Option<SiteView> {
    if is_or_www(host, "chikari.moe"@) {
        Some(SiteView::Chikari)
    } else if is_or_www(host, "freewebnovel.com"@) {
        Some(SiteView::Freewebnovel)
    } else if is_or_www(host, "lightnovelworld.org"@) {
        Some(SiteView::LightNovelWorld)
    } else if is_or_www(host, "royalroad.com"@) {
        Some(SiteView::RoyalRoad)
    } else if is_or_www(host, "scribblehub.com"@) {
        Some(SiteView::ScribbleHub)
    } else {
        None
    }
}

fn same_or_www(host: &str, name: &str) -> (r: bool)
    ensures
        r == is_or_www(host@, name@),
{
    text::same(host, name) || text::same(host, text::concat("www.", name).as_str())
}

fn name_site(host: &str) -> (r: Option<Site>)
    ensures
        opt_view(r) == site_named(host@),
{
    if same_or_www(host, "chikari.moe") {
        Some(Site::Chikari)
    } else if same_or_www(host, "freewebnovel.com") {
        Some(Site::Freewebnovel)
    } else if same_or_www(host, "lightnovelworld.org") {
        Some(Site::LightNovelWorld)
    } else if same_or_www(host, "royalroad.com") {
        Some(Site::RoyalRoad)
    } else if same_or_www(host, "scribblehub.com") {
        Some(Site::ScribbleHub)
    } else {
        None
    }
}

/// The site of a URL with this host, given the profiles there are.
pub open spec fn site_for(
    host: Result<Option<Seq<char>>, Seq<char>>,
    profiles: Seq<ProfileView>,
) -> Option<SiteView> {
    match host {
        Ok(Some(h)) => match site_named(text::lower(h)) {
            Some(site) => Some(site),
            None => match profiles::profile_for(profiles, host) {
                Some(p) => Some(SiteView::Profile(p)),
                None => None,
            },
        },
        _ => None,
    }
}

/// Pick the site from the host of a URL, among those with an adapter of their own and
/// those with a profile.
pub fn pick_site(host: &Result<Option<String>, String>, known: &Vec<SiteProfile>) -> (r: Option<
    Site,
>)
    ensures
        opt_view(r) == site_for(web::host_view(*host), profiles::profile_views(known@)),
{
    match host {
        Ok(Some(h)) => {
            let v = text::to_chars(h.as_str());
            let low = text::lower_chars(&v);
            let name = text::to_text(&low);
            match name_site(name.as_str()) {
                Some(site) => Some(site),
                None => match profiles::find_profile(known, host) {
                    Some(p) => Some(Site::Profile(p)),
                    None => None,
                },
            }
        },
        _ => None,
    }
}

/// Resolve a URL to the right source adapter, or `None` if no adapter handles the URL's
/// host. `known` are the profiles there are.
pub fn resolve(url: &str, known: &Vec<SiteProfile>) -> (r: Option<Site>)
    ensures
        opt_view(r) == site_for(web::host_of(url@), profiles::profile_views(known@)),
{
    let host = web::url_host(url);
    pick_site(&host, known)
}

/// [`resolve`] with the built-in profiles alone.
pub fn build_source(url: &str) -> (r: Option<Site>)
    ensures
        opt_view(r) == site_for(web::host_of(url@), profiles::built_in()),
{
    resolve(url, &profiles::all())
}

/// A user's profiles change nothing for a site that works without them.
pub proof fn law_profiles_only_add_sites(
    host: Result<Option<Seq<char>>, Seq<char>>,
    files: Seq<(Seq<char>, Result<ProfileView, Seq<char>>)>,
)
    requires
        site_for(host, profiles::built_in()) is Some,
    ensures
        site_for(host, profiles::built_in() + profiles::accepted(files)) == site_for(
            host,
            profiles::built_in(),
        ),
{
    if profiles::profile_for(profiles::built_in(), host) is Some {
        profiles::law_built_in_profiles_come_first(files, host);
    }
}

/// Each supported host, in any ASCII case and with or without "www.", belongs to its own site,
/// whatever profiles there are; any other host belongs to the profile for it, or to none.
pub proof fn law_hosts_belong_to_their_sites(h: Seq<char>, profiles: Seq<ProfileView>)
    ensures
        ({
            let l = text::lower(h);
            let site = site_for(Ok(Some(h)), profiles);
            &&& l == "chikari.moe"@ || l == "www.chikari.moe"@ ==> site == Some(SiteView::Chikari)
            &&& l == "freewebnovel.com"@ || l == "www.freewebnovel.com"@ ==> site == Some(
                SiteView::Freewebnovel,
            )
            &&& l == "lightnovelworld.org"@ || l == "www.lightnovelworld.org"@ ==> site == Some(
                SiteView::LightNovelWorld,
            )
            &&& l == "royalroad.com"@ || l == "www.royalroad.com"@ ==> site == Some(
                SiteView::RoyalRoad,
            )
            &&& l == "scribblehub.com"@ || l == "www.scribblehub.com"@ ==> site == Some(
                SiteView::ScribbleHub,
            )
            &&& site_named(l) is None ==> site == (match profiles::profile_for(
                profiles,
                Ok(Some(h)),
            ) {
                Some(p) => Some(SiteView::Profile(p)),
                None => None,
            })
            &&& site_for(Ok(None), profiles) is None
        }),
{
    reveal_strlit("www.");
    reveal_strlit("chikari.moe");
    reveal_strlit("freewebnovel.com");
    reveal_strlit("lightnovelworld.org");
    reveal_strlit("royalroad.com");
    reveal_strlit("scribblehub.com");
    reveal_strlit("www.chikari.moe");
    reveal_strlit("www.freewebnovel.com");
    reveal_strlit("www.lightnovelworld.org");
    reveal_strlit("www.royalroad.com");
    reveal_strlit("www.scribblehub.com");
    assert("www."@ + "chikari.moe"@ =~= "www.chikari.moe"@);
    assert("www."@ + "freewebnovel.com"@ =~= "www.freewebnovel.com"@);
    assert("www."@ + "lightnovelworld.org"@ =~= "www.lightnovelworld.org"@);
    assert("www."@ + "royalroad.com"@ =~= "www.royalroad.com"@);
    assert("www."@ + "scribblehub.com"@ =~= "www.scribblehub.com"@);
    assert("chikari.moe"@.len() == 11 && "freewebnovel.com"@.len() == 16
        && "lightnovelworld.org"@.len() == 19 && "royalroad.com"@.len() == 13
        && "scribblehub.com"@.len() == 15);
    assert("www.chikari.moe"@.len() == 15 && "www.freewebnovel.com"@.len() == 20
        && "www.lightnovelworld.org"@.len() == 23 && "www.royalroad.com"@.len() == 17
        && "www.scribblehub.com"@.len() == 19);
    assert("www.chikari.moe"@[0] != "scribblehub.com"@[0]);
    assert("www.scribblehub.com"@[0] != "lightnovelworld.org"@[0]);
}

/// The two sites behind Cloudflare are fetched with curl, and every other site over plain HTTP.
pub proof fn law_sites_behind_a_challenge_need_curl(site: SiteView)
    ensures
        site.needs() == Tier::Curl <==> site is Freewebnovel || site is ScribbleHub,
{
}

/// No other host has an adapter of its own.
pub proof fn law_no_other_host_has_an_adapter(l: Seq<char>)
    requires
        site_named(l) is Some,
    ensures
        l == "chikari.moe"@ || l == "www."@ + "chikari.moe"@ || l == "freewebnovel.com"@ || l
            == "www."@ + "freewebnovel.com"@ || l == "lightnovelworld.org"@ || l == "www."@
            + "lightnovelworld.org"@ || l == "royalroad.com"@ || l == "www."@ + "royalroad.com"@ || l
            == "scribblehub.com"@ || l == "www."@ + "scribblehub.com"@,
{
}

} // verus!
