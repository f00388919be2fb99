use vstd::prelude::*;

verus! {

/// What `url::Url::parse` followed by serialization yields for a string:
/// `None` where the string is not a valid absolute URL, otherwise the
/// serialized (normalized) form. The result depends on the characters
/// alone.
pub uninterp spec fn url_normal_of(s: Seq<char>) -> Option<Seq<char>>;

/// What resolving `rel` as a relative reference against the absolute URL
/// `base` yields, serialized; `None` where `base` does not parse or the
/// resolution fails. The result depends on the two strings alone.
pub uninterp spec fn url_join_of(base: Seq<char>, rel: Seq<char>) -> Option<Seq<char>>;

/// Relies on `url::Url::parse` and `url::Url::as_str`: parsing either
/// succeeds or fails deterministically on the characters of `s`, and a
/// URL's serialization parses back to the same URL, so the serialized form
/// is a fixed point of this normalization.
#[verifier::external_body]
pub(crate) fn url_normalize(s: &str) -> (r: Option<String>)
    ensures
        r is Some <==> url_normal_of(s@) is Some,
        r matches Some(t) ==> url_normal_of(s@) == Some(t@) && url_normal_of(t@) == Some(t@),
{
    match url::Url::parse(s) {
        Ok(u) => Some(String::from(u.as_str())),
        Err(_) => None,
    }
}

/// Relies on `url::Url::parse`, `url::Url::join` and `url::Url::as_str`:
/// relative-reference resolution depends on the two strings alone, and the
/// serialized result parses back to the same URL, so it is a fixed point of
/// `url_normal_of`.
#[verifier::external_body]
pub(crate) fn url_join(base: &str, rel: &str) -> (r: Option<String>)
    ensures
        r is Some <==> url_join_of(base@, rel@) is Some,
        r matches Some(t) ==> url_join_of(base@, rel@) == Some(t@) && url_normal_of(t@) == Some(
            t@,
        ),
{
    match url::Url::parse(base) {
        Ok(b) => match b.join(rel) {
            Ok(u) => Some(String::from(u.as_str())),
            Err(_) => None,
        },
        Err(_) => None,
    }
}

/// The whitespace characters this crate trims around raw href values.
pub open spec fn is_space(c: char) -> bool {
    c == ' ' || c == '\t' || c == '\n' || c == '\r' || c == '\u{b}' || c == '\u{c}'
}

/// Index of the first character at or after `i` that is not whitespace;
/// `s.len()` if there is none.
pub open spec fn trim_start_idx(s: Seq<char>, i: int) -> int
    decreases s.len() - i,
{
    if i >= s.len() {
        s.len() as int
    } else if is_space(s[i]) {
        trim_start_idx(s, i + 1)
    } else {
        i
    }
}

/// One past the last character before `j` that is not whitespace; `0` if
/// there is none.
pub open spec fn trim_end_idx(s: Seq<char>, j: int) -> int
    decreases j,
{
    if j <= 0 {
        0
    } else if is_space(s[j - 1]) {
        trim_end_idx(s, j - 1)
    } else {
        j
    }
}

/// `s` with leading and trailing whitespace removed.
pub open spec fn trim_spec(s: Seq<char>) -> Seq<char> {
    let a = trim_start_idx(s, 0);
    let b = trim_end_idx(s, s.len() as int);
    if a < b {
        s.subrange(a, b)
    } else {
        Seq::empty()
    }
}

/// The least index of `c` in `s` at or after `i`, if any.
pub open spec fn find_char_from(s: Seq<char>, i: int, c: char) -> Option<int>
    decreases s.len() - i,
{
    if i >= s.len() {
        None
    } else if s[i] == c {
        Some(i)
    } else {
        find_char_from(s, i + 1, c)
    }
}

/// Everything up to (excluding) the first occurrence of `c`; all of `s` if
/// `c` does not occur.
pub open spec fn strip_from_char(s: Seq<char>, c: char) -> Seq<char> {
    match find_char_from(s, 0, c) {
        None => s,
        Some(j) => s.subrange(0, j),
    }
}

/// A raw href value after trimming and after dropping the query string and
/// the fragment.
pub open spec fn cleaned_href(raw: Seq<char>) -> Seq<char> {
    strip_from_char(strip_from_char(trim_spec(raw), '?'), '#')
}

/// Whether the cleaned value already names its scheme (`http`/`https`), in
/// which case it is parsed as absolute rather than resolved against the
/// base. A value starting with `/` never matches, so it is resolved.
pub open spec fn starts_with_http(t: Seq<char>) -> bool {
    t.len() >= 4 && t[0] == 'h' && t[1] == 't' && t[2] == 't' && t[3] == 'p'
}

/// The normalized absolute URL a raw href denotes relative to `base`:
/// clean it, then parse it directly if it carries its own scheme, else
/// resolve it against `base`; `None` where parsing or resolution fails.
pub open spec fn normalize_candidate(base: Seq<char>, raw: Seq<char>) -> Option<Seq<char>> {
    let t = cleaned_href(raw);
    if starts_with_http(t) {
        url_normal_of(t)
    } else {
        url_join_of(base, t)
    }
}

/// The normalized form of a seed URL: cleaned like a candidate, then
/// parsed as absolute; seeds are never resolved against anything.
pub open spec fn normalize_seed(raw: Seq<char>) -> Option<Seq<char>> {
    url_normal_of(cleaned_href(raw))
}

/// Everything `find_char_from` promises: the reported index is the least
/// occurrence, and `None` means no occurrence at all.
pub proof fn lemma_find_char_from(s: Seq<char>, i: int, c: char)
    ensures
        match find_char_from(s, i, c) {
            Some(j) => i <= j < s.len() && s[j] == c && forall|k: int| i <= k < j ==> s[k] != c,
            None => forall|k: int| i <= k < s.len() ==> s[k] != c,
        },
    decreases s.len() - i,
{
    if i < s.len() && s[i] != c {
        lemma_find_char_from(s, i + 1, c);
    }
}

proof fn lemma_trim_start_idx(s: Seq<char>, i: int)
    requires
        0 <= i <= s.len(),
    ensures
        i <= trim_start_idx(s, i) <= s.len(),
        forall|k: int| i <= k < trim_start_idx(s, i) ==> is_space(s[k]),
        trim_start_idx(s, i) < s.len() ==> !is_space(s[trim_start_idx(s, i)]),
    decreases s.len() - i,
{
    if i < s.len() && is_space(s[i]) {
        lemma_trim_start_idx(s, i + 1);
    }
}

proof fn lemma_trim_end_idx(s: Seq<char>, j: int)
    requires
        0 <= j <= s.len(),
    ensures
        0 <= trim_end_idx(s, j) <= j,
        forall|k: int| trim_end_idx(s, j) <= k < j ==> is_space(s[k]),
        trim_end_idx(s, j) > 0 ==> !is_space(s[trim_end_idx(s, j) - 1]),
    decreases j,
{
    if j > 0 && is_space(s[j - 1]) {
        lemma_trim_end_idx(s, j - 1);
    }
}

/// Finds the least occurrence of `c` in `s` at or after `from`.
pub(crate) fn find_char(s: &str, from: usize, c: char) -> (r: Option<usize>)
    ensures
        r matches Some(j) ==> find_char_from(s@, from as int, c) == Some(j as int),
        r is None ==> find_char_from(s@, from as int, c) is None,
{
    let n = s.unicode_len();
    let mut j = from;
    while j < n
        invariant
            n == s@.len(),
            from <= j,
            find_char_from(s@, from as int, c) == find_char_from(s@, j as int, c),
        decreases n - j,
    {
        if s.get_char(j) == c {
            return Some(j);
        }
        j += 1;
    }
    None
}

/// `s` with leading and trailing whitespace removed.
pub(crate) fn trim_str<'a>(s: &'a str) -> (r: &'a str)
    ensures
        r@ == trim_spec(s@),
{
    let n = s.unicode_len();
    let mut a: usize = 0;
    while a < n && is_space_exec(s.get_char(a))
        invariant
            n == s@.len(),
            a <= n,
            trim_start_idx(s@, 0) == trim_start_idx(s@, a as int),
        decreases n - a,
    {
        a += 1;
    }
    let mut b: usize = n;
    while b > a && is_space_exec(s.get_char(b - 1))
        invariant
            n == s@.len(),
            a <= b <= n,
            trim_end_idx(s@, n as int) == trim_end_idx(s@, b as int),
        decreases b,
    {
        b -= 1;
    }
    proof {
        lemma_trim_start_idx(s@, 0);
        lemma_trim_end_idx(s@, s@.len() as int);
    }
    if a < b {
        let r = s.substring_char(a, b);
        proof {
            assert(trim_start_idx(s@, 0) == a as int) by {
                assert(trim_start_idx(s@, a as int) == a as int);
            }
            assert(trim_end_idx(s@, s@.len() as int) == b as int) by {
                assert(trim_end_idx(s@, b as int) == b as int);
            }
        }
        r
    } else {
        let r = s.substring_char(0, 0);
        proof {
            let sa = trim_start_idx(s@, 0);
            let sb = trim_end_idx(s@, s@.len() as int);
            assert(sa >= a as int) by {
                lemma_trim_start_idx(s@, a as int);
            }
            assert(sb <= b as int) by {
                lemma_trim_end_idx(s@, b as int);
            }
            assert(r@ =~= trim_spec(s@));
        }
        r
    }
}

fn is_space_exec(c: char) -> (b: bool)
    ensures
        b == is_space(c),
{
    c == ' ' || c == '\t' || c == '\n' || c == '\r' || c == '\u{b}' || c == '\u{c}'
}

/// Everything up to the first occurrence of `c`, or all of `s`.
pub(crate) fn strip_after<'a>(s: &'a str, c: char) -> (r: &'a str)
    ensures
        r@ == strip_from_char(s@, c),
{
    match find_char(s, 0, c) {
        None => s,
        Some(j) => {
            proof {
                lemma_find_char_from(s@, 0, c);
            }
            s.substring_char(0, j)
        },
    }
}

/// Cleans a raw href: trim, drop the query string, drop the fragment.
pub(crate) fn clean_href<'a>(raw: &'a str) -> (r: &'a str)
    ensures
        r@ == cleaned_href(raw@),
{
    let t = trim_str(raw);
    let t = strip_after(t, '?');
    let t = strip_after(t, '#');
    t
}

/// Whether the cleaned value carries its own `http`/`https` scheme prefix.
pub(crate) fn starts_with_http_exec(t: &str) -> (b: bool)
    ensures
        b == starts_with_http(t@),
{
    let n = t.unicode_len();
    if n < 4 {
        return false;
    }
    t.get_char(0) == 'h' && t.get_char(1) == 't' && t.get_char(2) == 't' && t.get_char(3) == 'p'
}

/// Normalizes one raw href against `base`; `None` where it must be dropped
/// as malformed.
pub(crate) fn normalize_candidate_exec(base: &str, raw: &str) -> (r: Option<String>)
    ensures
        r is Some <==> normalize_candidate(base@, raw@) is Some,
        r matches Some(t) ==> normalize_candidate(base@, raw@) == Some(t@) && url_normal_of(t@)
            == Some(t@),
{
    let t = clean_href(raw);
    if starts_with_http_exec(t) {
        url_normalize(t)
    } else {
        url_join(base, t)
    }
}

/// Normalizes one seed URL; `None` where the seed is not a valid absolute
/// URL after cleaning.
pub(crate) fn normalize_seed_exec(raw: &str) -> (r: Option<String>)
    ensures
        r is Some <==> normalize_seed(raw@) is Some,
        r matches Some(t) ==> normalize_seed(raw@) == Some(t@) && url_normal_of(t@) == Some(t@),
{
    let t = clean_href(raw);
    url_normalize(t)
}

} // verus!
