use crate::urls::url_normal_of;
use vstd::prelude::*;

verus! {

/// The robots-exclusion verdict for a policy text, a user agent and an
/// absolute URL: whether the most specific matching rule of the group for
/// that agent allows fetching the URL. The policy is interpreted at the
/// URL's own origin. The verdict depends on the three strings alone.
pub uninterp spec fn can_fetch_of(policy: Seq<char>, agent: Seq<char>, url: Seq<char>) -> bool;

/// Whether the robots matcher can split the URL's path off its origin:
/// either the origin is opaque (a query is then refused before any path
/// is built), or the URL's serialization starts with its origin's
/// (unicode or ascii) serialization. False for URLs carrying userinfo and
/// for `blob:` URLs, whose serialization does not extend their origin's.
/// Depends on the characters of the URL alone.
pub uninterp spec fn origin_splits_of(url: Seq<char>) -> bool;

/// Whether this crate fetches `url` under `policy` for `agent`: the URL
/// must be interpretable against its own origin, and the policy's rules
/// must allow it.
pub open spec fn fetchable_of(policy: Seq<char>, agent: Seq<char>, url: Seq<char>) -> bool {
    origin_splits_of(url) && can_fetch_of(policy, agent, url)
}

/// Relies on `url::Url::origin` and `Origin::is_tuple` /
/// `unicode_serialization` / `ascii_serialization`: computes, for a URL
/// that parses, exactly the prefix test robotparser's path splitting
/// performs, so that `robots_verdict` is only called where that splitting
/// cannot panic.
#[verifier::external_body]
fn url_origin_splits(url: &str) -> (r: bool)
    requires
        url_normal_of(url@) is Some,
    ensures
        r == origin_splits_of(url@),
{
    let parsed = url::Url::parse(url).unwrap();
    let origin = parsed.origin();
    if !origin.is_tuple() {
        return true;
    }
    let unicode_origin = origin.unicode_serialization();
    let ascii_origin = origin.ascii_serialization();
    (url.starts_with(&unicode_origin) && !unicode_origin.is_empty()) || (url.starts_with(
        &ascii_origin,
    ) && !ascii_origin.is_empty())
}

/// Relies on `robotparser::parser::parse_robots_txt` and
/// `robotparser::service::RobotsTxtService::can_fetch` (and `url::Url::parse`
/// for the origin): parsing the policy text at the URL's origin and querying
/// it is deterministic in the three strings. The parse of the URL cannot
/// fail because the caller hands over a normalized URL; the path splitting
/// inside `can_fetch` cannot panic because the caller has checked
/// `origin_splits_of` (an opaque origin never reaches it: the matcher's
/// origin-equality guard refuses fresh opaque origins first).
#[verifier::external_body]
fn robots_verdict(policy: &str, agent: &str, url: &str) -> (r: bool)
    requires
        url_normal_of(url@) is Some,
        origin_splits_of(url@),
    ensures
        r == can_fetch_of(policy@, agent@, url@),
{
    let parsed = url::Url::parse(url).unwrap();
    let rules = robotparser::parser::parse_robots_txt(parsed.origin(), policy).get_result();
    robotparser::service::RobotsTxtService::can_fetch(&rules, agent, &parsed)
}

/// A robots-exclusion policy document, as handed over by the acquisition
/// collaborator. Parsing happens per query, at the queried URL's origin,
/// so one policy value can serve candidates from any origin.
pub struct RobotsPolicy {
    text: String,
}

impl RobotsPolicy {
    /// The policy document's text.
    pub closed spec fn text_view(&self) -> Seq<char> {
        self.text@
    }

    /// Wraps a policy text. An empty text disallows nothing.
    pub fn new(text: String) -> (p: RobotsPolicy)
        ensures
            p.text_view() == text@,
    {
        RobotsPolicy { text }
    }

    /// Decides whether `agent` may fetch `url` under this policy. A string
    /// that is not a valid absolute URL is never fetchable, and neither is
    /// one whose path the robots matcher cannot split off its origin (a
    /// URL with userinfo, or a `blob:` URL).
    pub fn can_fetch(&self, agent: &str, url: &str) -> (r: bool)
        ensures
            url_normal_of(url@) is Some ==> r == fetchable_of(self.text_view(), agent@, url@),
            url_normal_of(url@) is None ==> r == false,
    {
        match crate::urls::url_normalize(url) {
            Some(_) => {
                if url_origin_splits(url) {
                    robots_verdict(self.text.as_str(), agent, url)
                } else {
                    false
                }
            },
            None => false,
        }
    }
}

} // verus!
