use crate::scan::{extract_hrefs, hrefs_from};
use crate::urls::{normalize_candidate, normalize_candidate_exec, url_normal_of, url_normalize};
use vstd::prelude::*;

verus! {

/// Normalizes a list of raw href values against `base`, in order, dropping
/// values that fail to parse or resolve and values that denote the base
/// page itself.
pub open spec fn normalize_list(raws: Seq<Seq<char>>, base: Seq<char>) -> Seq<Seq<char>>
    decreases raws.len(),
{
    if raws.len() == 0 {
        Seq::empty()
    } else {
        let rest = normalize_list(raws.drop_first(), base);
        match normalize_candidate(base, raws[0]) {
            Some(u) => if url_normal_of(base) == Some(u) {
                rest
            } else {
                seq![u] + rest
            },
            None => rest,
        }
    }
}

/// The candidate URLs extraction yields for a page body fetched from
/// `base`: every captured href, cleaned and resolved, in document order,
/// duplicates kept, failures and self-references dropped.
pub open spec fn extract_spec(body: Seq<char>, base: Seq<char>) -> Seq<Seq<char>> {
    normalize_list(hrefs_from(body, 0), base)
}

/// Extracts the normalized outbound candidate URLs of `body`, fetched from
/// `base`. Every result is an absolute URL in normal form (a fixed point
/// of normalization).
pub fn extract(body: &str, base: &str) -> (r: Vec<String>)
    ensures
        r.deep_view() == extract_spec(body@, base@),
        forall|i: int|
            0 <= i < r.deep_view().len() ==> url_normal_of(#[trigger] r.deep_view()[i]) == Some(
                r.deep_view()[i],
            ),
{
    let base_norm = url_normalize(base);
    let raws = extract_hrefs(body);
    let ghost raws_v = raws.deep_view();
    let mut out: Vec<String> = Vec::new();
    let n = raws.len();
    let mut i: usize = 0;
    proof {
        assert(raws_v.skip(0) =~= raws_v);
        assert(out.deep_view() =~= Seq::<Seq<char>>::empty());
        assert(out.deep_view() + normalize_list(raws_v, base@) =~= normalize_list(raws_v, base@));
    }
    while i < n
        invariant
            n == raws.len(),
            i <= n,
            raws_v == raws.deep_view(),
            raws_v.len() == n,
            base_norm matches Some(b) ==> url_normal_of(base@) == Some(b@),
            base_norm is None ==> url_normal_of(base@) is None,
            out.deep_view() + normalize_list(raws_v.skip(i as int), base@) == normalize_list(
                raws_v,
                base@,
            ),
            forall|j: int|
                0 <= j < out.deep_view().len() ==> url_normal_of(#[trigger] out.deep_view()[j])
                    == Some(out.deep_view()[j]),
        decreases n - i,
    {
        let ghost suffix = raws_v.skip(i as int);
        proof {
            assert(suffix.len() > 0);
            assert(suffix[0] == raws_v[i as int]);
            assert(suffix.drop_first() =~= raws_v.skip(i as int + 1));
        }
        let candidate = normalize_candidate_exec(base, raws[i].as_str());
        match candidate {
            Some(u) => {
                let is_self = match &base_norm {
                    Some(b) => u.eq(b),
                    None => false,
                };
                if !is_self {
                    let ghost prev = out.deep_view();
                    out.push(u);
                    proof {
                        assert(out.deep_view() =~= prev.push(
                            normalize_candidate(base@, raws_v[i as int]).unwrap(),
                        ));
                        assert(out.deep_view() + normalize_list(
                            raws_v.skip(i as int + 1),
                            base@,
                        ) =~= prev + (seq![
                            normalize_candidate(base@, raws_v[i as int]).unwrap(),
                        ] + normalize_list(raws_v.skip(i as int + 1), base@)));
                    }
                }
            },
            None => {},
        }
        i += 1;
    }
    proof {
        assert(raws_v.skip(n as int) =~= Seq::<Seq<char>>::empty());
        assert(normalize_list(Seq::<Seq<char>>::empty(), base@) =~= Seq::<Seq<char>>::empty());
        assert(out.deep_view() =~= out.deep_view() + Seq::<Seq<char>>::empty());
    }
    out
}

} // verus!

verus! {

/// One anchor tag listing `u` as its href value.
pub open spec fn anchor_of(u: Seq<char>) -> Seq<char> {
    seq!['<', 'a', ' ', 'h', 'r', 'e', 'f', '=', '"'] + u + seq!['"', '>']
}

/// A page body that lists the given URLs, one anchor each, in order.
pub open spec fn body_of(urls: Seq<Seq<char>>) -> Seq<char>
    decreases urls.len(),
{
    if urls.len() == 0 {
        Seq::empty()
    } else {
        anchor_of(urls[0]) + body_of(urls.drop_first())
    }
}

/// A URL in the shape normalization itself produces: it names its scheme,
/// and it contains no quote, no tag close, no query or fragment delimiter
/// and no whitespace.
pub open spec fn normal_link(u: Seq<char>) -> bool {
    &&& crate::urls::starts_with_http(u)
    &&& forall|j: int|
        0 <= j < u.len() ==> !crate::urls::is_space(#[trigger] u[j]) && u[j] != '"' && u[j] != '>'
            && u[j] != '?' && u[j] != '#'
}

proof fn lemma_find_char_value(s: Seq<char>, i: int, c: char, j: int)
    requires
        0 <= i <= j < s.len(),
        s[j] == c,
        forall|k: int| i <= k < j ==> s[k] != c,
    ensures
        crate::urls::find_char_from(s, i, c) == Some(j),
    decreases j - i,
{
    if i < j {
        lemma_find_char_value(s, i + 1, c, j);
    }
}

proof fn lemma_find_char_none(s: Seq<char>, c: char)
    requires
        forall|k: int| 0 <= k < s.len() ==> s[k] != c,
    ensures
        crate::urls::find_char_from(s, 0, c) is None,
{
    crate::urls::lemma_find_char_from(s, 0, c);
    match crate::urls::find_char_from(s, 0, c) {
        Some(j) => {
            assert(s[j] == c);
        },
        None => {},
    }
}

proof fn lemma_find_href_value(s: Seq<char>, i: int, h: int)
    requires
        0 <= i <= h,
        crate::scan::is_href_at(s, h),
        forall|k: int| i <= k < h ==> !crate::scan::is_href_at(s, k),
    ensures
        crate::scan::find_href_from(s, i) == Some(h),
    decreases h - i,
{
    if i < h {
        lemma_find_href_value(s, i + 1, h);
    }
}

/// Scanning a synthetic page of well-shaped links yields exactly those
/// links, whatever position the scan starts at.
proof fn lemma_scan_body_of(s: Seq<char>, i: int, urls: Seq<Seq<char>>)
    requires
        0 <= i,
        s.skip(i) == body_of(urls),
        i + body_of(urls).len() == s.len(),
        forall|k: int| 0 <= k < urls.len() ==> normal_link(#[trigger] urls[k]),
    ensures
        crate::scan::hrefs_from(s, i) == urls,
    decreases urls.len(),
{
    if urls.len() == 0 {
        assert(i == s.len());
        assert(crate::scan::hrefs_from(s, i) =~= urls);
    } else {
        let u = urls[0];
        let tail = urls.drop_first();
        let ul = u.len() as int;
        assert forall|m: int| i <= m < s.len() implies s[m] == body_of(urls)[m - i] by {
            assert(s.skip(i)[m - i] == s[m]);
        }
        assert(body_of(urls) == anchor_of(u) + body_of(tail));
        // the characters of the leading anchor
        assert(s[i] == '<');
        assert(s[i + 1] == 'a');
        assert(s[i + 2] == ' ');
        assert(s[i + 3] == 'h');
        assert(s[i + 4] == 'r');
        assert(s[i + 5] == 'e');
        assert(s[i + 6] == 'f');
        assert(s[i + 7] == '=');
        assert(s[i + 8] == '"');
        assert forall|k: int| 0 <= k < ul implies s[i + 9 + k] == u[k] by {
            assert(body_of(urls)[9 + k] == anchor_of(u)[9 + k]);
            assert(anchor_of(u)[9 + k] == u[k]);
        }
        assert(s[i + 9 + ul] == '"');
        assert(s[i + 10 + ul] == '>');
        assert(crate::scan::is_anchor_at(s, i));
        // the tag closes at the '>' after the quoted value
        lemma_find_char_value(s, i + 2, '>', i + 10 + ul);
        // the href introducer sits right after "<a "
        assert(crate::scan::is_href_at(s, i + 3));
        assert(!crate::scan::is_href_at(s, i + 2));
        lemma_find_href_value(s, i + 2, i + 3);
        // the value closes at the first quote after it
        lemma_find_char_value(s, i + 9, '"', i + 9 + ul);
        lemma_find_char_value(s, i + 10 + ul, '>', i + 10 + ul);
        assert(crate::scan::next_capture(s, i) == Some((i + 9, i + 9 + ul, i + 11 + ul)));
        assert(s.subrange(i + 9, i + 9 + ul) =~= u);
        let i1 = i + 11 + ul;
        assert(s.skip(i1) =~= body_of(tail)) by {
            assert forall|m: int| 0 <= m < s.len() - i1 implies s.skip(i1)[m] == body_of(tail)[m]
                by {
                assert(s[i1 + m] == body_of(urls)[11 + ul + m]);
                assert(body_of(urls)[11 + ul + m] == body_of(tail)[m]);
            }
        }
        lemma_scan_body_of(s, i1, tail);
        assert(crate::scan::hrefs_from(s, i) =~= seq![s.subrange(i + 9, i + 9 + ul)]
            + crate::scan::hrefs_from(s, i1));
        assert(crate::scan::hrefs_from(s, i) =~= urls);
    }
}

/// A well-shaped link is untouched by cleaning: there is nothing to trim
/// and no query or fragment to strip.
proof fn lemma_cleaned_normal(u: Seq<char>)
    requires
        normal_link(u),
    ensures
        crate::urls::cleaned_href(u) == u,
{
    let t = crate::urls::trim_spec(u);
    assert(crate::urls::trim_start_idx(u, 0) == 0);
    assert(crate::urls::trim_end_idx(u, u.len() as int) == u.len() as int);
    assert(t =~= u);
    lemma_find_char_none(u, '?');
    lemma_find_char_none(u, '#');
}

/// Link-normalization idempotence: a page whose anchors already list
/// normalized URLs — each a fixed point of normalization and none the base
/// page itself — extracts to exactly that list again.
pub proof fn lemma_extract_idempotent(urls: Seq<Seq<char>>, base: Seq<char>)
    requires
        forall|k: int| 0 <= k < urls.len() ==> normal_link(#[trigger] urls[k]),
        forall|k: int|
            0 <= k < urls.len() ==> url_normal_of(#[trigger] urls[k]) == Some(urls[k]),
        forall|k: int| 0 <= k < urls.len() ==> url_normal_of(base) != Some(#[trigger] urls[k]),
    ensures
        extract_spec(body_of(urls), base) == urls,
{
    let body = body_of(urls);
    assert(body.skip(0) =~= body);
    lemma_scan_body_of(body, 0, urls);
    lemma_normalize_list_normal(urls, base);
}

proof fn lemma_normalize_list_normal(urls: Seq<Seq<char>>, base: Seq<char>)
    requires
        forall|k: int| 0 <= k < urls.len() ==> normal_link(#[trigger] urls[k]),
        forall|k: int|
            0 <= k < urls.len() ==> url_normal_of(#[trigger] urls[k]) == Some(urls[k]),
        forall|k: int| 0 <= k < urls.len() ==> url_normal_of(base) != Some(#[trigger] urls[k]),
    ensures
        normalize_list(urls, base) == urls,
    decreases urls.len(),
{
    if urls.len() > 0 {
        let u = urls[0];
        lemma_cleaned_normal(u);
        assert(normalize_candidate(base, u) == Some(u));
        lemma_normalize_list_normal(urls.drop_first(), base);
        assert(normalize_list(urls, base) =~= urls);
    }
}

} // verus!
