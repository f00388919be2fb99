use crate::urls::{find_char_from, lemma_find_char_from};
use vstd::prelude::*;

verus! {

/// Whether an anchor tag opens at `i`: the two characters `<a`.
pub open spec fn is_anchor_at(s: Seq<char>, i: int) -> bool {
    i + 2 <= s.len() && s[i] == '<' && s[i + 1] == 'a'
}

/// Whether an `href="` attribute introducer starts at `i`.
pub open spec fn is_href_at(s: Seq<char>, i: int) -> bool {
    i + 6 <= s.len() && s[i] == 'h' && s[i + 1] == 'r' && s[i + 2] == 'e' && s[i + 3] == 'f' && s[i
        + 4] == '=' && s[i + 5] == '"'
}

/// The least index of an `href="` introducer at or after `i`, if any.
pub open spec fn find_href_from(s: Seq<char>, i: int) -> Option<int>
    decreases s.len() - i,
{
    if i >= s.len() {
        None
    } else if is_href_at(s, i) {
        Some(i)
    } else {
        find_href_from(s, i + 1)
    }
}

/// Everything `find_href_from` promises.
pub proof fn lemma_find_href_from(s: Seq<char>, i: int)
    ensures
        match find_href_from(s, i) {
            Some(j) => i <= j && is_href_at(s, j) && forall|k: int| i <= k < j ==> !is_href_at(s, k),
            None => forall|k: int| i <= k ==> !is_href_at(s, k),
        },
    decreases s.len() - i,
{
    if i < s.len() && !is_href_at(s, i) {
        lemma_find_href_from(s, i + 1);
    }
}

/// The next captured href value in `s` at or after `i`, under the
/// permissive anchor pattern: an anchor opener `<a`, then an `href="`
/// introducer with no `>` in between, then the value up to the closing
/// quote, then a `>` closing the tag. The result gives the bounds of the
/// value and the position at which scanning resumes (just past the closing
/// `>`, so matches never overlap).
pub open spec fn next_capture(s: Seq<char>, i: int) -> Option<(int, int, int)>
    decreases s.len() - i,
{
    if i + 2 > s.len() {
        None
    } else if !is_anchor_at(s, i) {
        next_capture(s, i + 1)
    } else {
        let tag_end = find_char_from(s, i + 2, '>');
        match find_href_from(s, i + 2) {
            Some(h) => if tag_end matches Some(t) && t < h {
                next_capture(s, i + 1)
            } else {
                match find_char_from(s, h + 6, '"') {
                    Some(q) => match find_char_from(s, q + 1, '>') {
                        Some(g) => Some((h + 6, q, g + 1)),
                        None => next_capture(s, i + 1),
                    },
                    None => next_capture(s, i + 1),
                }
            },
            None => None,
        }
    }
}

/// A successful capture lies strictly after the scan position, its bounds
/// are ordered and in range, and scanning strictly advances.
pub proof fn lemma_next_capture_bounds(s: Seq<char>, i: int)
    requires
        next_capture(s, i) is Some,
    ensures
        ({
            let (cs, ce, k) = next_capture(s, i).unwrap();
            i < cs <= ce < k <= s.len()
        }),
    decreases s.len() - i,
{
    if i + 2 > s.len() {
    } else if !is_anchor_at(s, i) {
        lemma_next_capture_bounds(s, i + 1);
    } else {
        let tag_end = find_char_from(s, i + 2, '>');
        match find_href_from(s, i + 2) {
            Some(h) => {
                lemma_find_href_from(s, i + 2);
                if tag_end matches Some(t) && t < h {
                    lemma_next_capture_bounds(s, i + 1);
                } else {
                    match find_char_from(s, h + 6, '"') {
                        Some(q) => {
                            lemma_find_char_from(s, h + 6, '"');
                            match find_char_from(s, q + 1, '>') {
                                Some(g) => {
                                    lemma_find_char_from(s, q + 1, '>');
                                },
                                None => {
                                    lemma_next_capture_bounds(s, i + 1);
                                },
                            }
                        },
                        None => {
                            lemma_next_capture_bounds(s, i + 1);
                        },
                    }
                }
            },
            None => {},
        }
    }
}

/// All captured href values in `s` at or after `i`, in document order.
pub open spec fn hrefs_from(s: Seq<char>, i: int) -> Seq<Seq<char>>
    decreases s.len() - i,
    when i >= 0
    via hrefs_from_decreases
{
    match next_capture(s, i) {
        None => Seq::empty(),
        Some((cs, ce, k)) => seq![s.subrange(cs, ce)] + hrefs_from(s, k),
    }
}

#[via_fn]
proof fn hrefs_from_decreases(s: Seq<char>, i: int) {
    if next_capture(s, i) is Some {
        lemma_next_capture_bounds(s, i);
    }
}

/// Finds the least `href="` introducer at or after `from`.
fn find_href(s: &str, from: usize) -> (r: Option<usize>)
    ensures
        r matches Some(j) ==> find_href_from(s@, from as int) == Some(j as int),
        r is None ==> find_href_from(s@, from as int) is None,
{
    let n = s.unicode_len();
    let mut j = from;
    while j < n
        invariant
            n == s@.len(),
            from <= j,
            find_href_from(s@, from as int) == find_href_from(s@, j as int),
        decreases n - j,
    {
        if n - j >= 6 && s.get_char(j) == 'h' && s.get_char(j + 1) == 'r' && s.get_char(j + 2)
            == 'e' && s.get_char(j + 3) == 'f' && s.get_char(j + 4) == '=' && s.get_char(j + 5)
            == '"' {
            proof {
                assert(is_href_at(s@, j as int));
            }
            return Some(j);
        }
        proof {
            assert(!is_href_at(s@, j as int));
        }
        j += 1;
    }
    None
}

/// Finds the next full anchor capture at or after `i`.
fn next_capture_exec(s: &str, i: usize) -> (r: Option<(usize, usize, usize)>)
    ensures
        r matches Some((cs, ce, k)) ==> next_capture(s@, i as int) == Some(
            (cs as int, ce as int, k as int),
        ),
        r is None ==> next_capture(s@, i as int) is None,
{
    let n = s.unicode_len();
    let mut p = i;
    loop
        invariant
            n == s@.len(),
            i <= p,
            next_capture(s@, i as int) == next_capture(s@, p as int),
        decreases n - p,
    {
        if p >= n || n - p < 2 {
            return None;
        }
        if s.get_char(p) == '<' && s.get_char(p + 1) == 'a' {
            proof {
                assert(is_anchor_at(s@, p as int));
            }
            let tag_end = crate::urls::find_char(s, p + 2, '>');
            match find_href(s, p + 2) {
                None => {
                    return None;
                },
                Some(h) => {
                    proof {
                        lemma_find_href_from(s@, p as int + 2);
                    }
                    let skip = match tag_end {
                        Some(t) => t < h,
                        None => false,
                    };
                    if !skip {
                        match crate::urls::find_char(s, h + 6, '"') {
                            Some(q) => {
                                proof {
                                    lemma_find_char_from(s@, h as int + 6, '"');
                                }
                                match crate::urls::find_char(s, q + 1, '>') {
                                    Some(g) => {
                                        proof {
                                            lemma_find_char_from(s@, q as int + 1, '>');
                                        }
                                        return Some((h + 6, q, g + 1));
                                    },
                                    None => {},
                                }
                            },
                            None => {},
                        }
                    }
                },
            }
        } else {
            proof {
                assert(!is_anchor_at(s@, p as int));
            }
        }
        p += 1;
    }
}

/// All href values captured from anchor tags in `body`, in document order,
/// as raw (not yet cleaned or resolved) strings.
pub fn extract_hrefs(body: &str) -> (r: Vec<String>)
    ensures
        r.deep_view() == hrefs_from(body@, 0),
{
    let mut out: Vec<String> = Vec::new();
    let mut i: usize = 0;
    loop
        invariant
            0 <= i,
            out.deep_view() + hrefs_from(body@, i as int) == hrefs_from(body@, 0),
        decreases body@.len() - i,
    {
        match next_capture_exec(body, i) {
            None => {
                proof {
                    assert(hrefs_from(body@, i as int) =~= Seq::<Seq<char>>::empty());
                    assert(out.deep_view() =~= out.deep_view() + Seq::<Seq<char>>::empty());
                }
                return out;
            },
            Some((cs, ce, k)) => {
                proof {
                    lemma_next_capture_bounds(body@, i as int);
                }
                let cap = body.substring_char(cs, ce).to_owned();
                let ghost prev = out.deep_view();
                out.push(cap);
                i = k;
                proof {
                    assert(out.deep_view() =~= prev.push(body@.subrange(cs as int, ce as int)));
                    assert(out.deep_view() + hrefs_from(body@, k as int) =~= prev + (seq![
                        body@.subrange(cs as int, ce as int),
                    ] + hrefs_from(body@, k as int)));
                }
            },
        }
    }
}

} // verus!
