use vstd::prelude::*;

verus! {

/// The shared crawl frontier: an append-only record of every URL ever
/// accepted (`visited`) and a LIFO stack of URLs still to be processed
/// (`pending`). A URL enters `pending` at most once over a whole run,
/// because membership in `visited` is checked in the same step that pushes.
pub struct Frontier {
    visited: Vec<String>,
    pending: Vec<String>,
}

/// One atomic `offer` step over the mathematical frontier state
/// `(visited, pending)`: an already-visited URL is rejected and nothing
/// changes; a new URL is recorded in both collections in the same step.
pub open spec fn offer_spec(
    state: (Seq<Seq<char>>, Seq<Seq<char>>),
    url: Seq<char>,
) -> ((Seq<Seq<char>>, Seq<Seq<char>>), bool) {
    if state.0.contains(url) {
        (state, false)
    } else {
        ((state.0.push(url), state.1.push(url)), true)
    }
}

/// Folds a whole sequence of `offer` calls over the frontier state.
pub open spec fn offer_all(
    state: (Seq<Seq<char>>, Seq<Seq<char>>),
    urls: Seq<Seq<char>>,
) -> (Seq<Seq<char>>, Seq<Seq<char>>)
    decreases urls.len(),
{
    if urls.len() == 0 {
        state
    } else {
        offer_all(offer_spec(state, urls[0]).0, urls.drop_first())
    }
}

/// How many of the `offer` calls in `urls` (in order, starting from
/// `state`) accept exactly the URL `u`.
pub open spec fn accept_count(
    state: (Seq<Seq<char>>, Seq<Seq<char>>),
    urls: Seq<Seq<char>>,
    u: Seq<char>,
) -> nat
    decreases urls.len(),
{
    if urls.len() == 0 {
        0
    } else {
        let step = offer_spec(state, urls[0]);
        (if step.1 && urls[0] == u {
            1nat
        } else {
            0nat
        }) + accept_count(step.0, urls.drop_first(), u)
    }
}

/// `visited` is append-only: no sequence of offers ever removes a URL.
pub proof fn lemma_offer_all_monotone(
    state: (Seq<Seq<char>>, Seq<Seq<char>>),
    urls: Seq<Seq<char>>,
    u: Seq<char>,
)
    requires
        state.0.contains(u),
    ensures
        offer_all(state, urls).0.contains(u),
    decreases urls.len(),
{
    if urls.len() > 0 {
        let step = offer_spec(state, urls[0]);
        assert(step.0.0.contains(u)) by {
            if !state.0.contains(urls[0]) {
                assert(state.0.push(urls[0])[state.0.index_of(u)] == u);
            }
        }
        lemma_offer_all_monotone(step.0, urls.drop_first(), u);
    }
}

proof fn lemma_accept_count_visited(
    state: (Seq<Seq<char>>, Seq<Seq<char>>),
    urls: Seq<Seq<char>>,
    u: Seq<char>,
)
    requires
        state.0.contains(u),
    ensures
        accept_count(state, urls, u) == 0,
    decreases urls.len(),
{
    if urls.len() > 0 {
        let step = offer_spec(state, urls[0]);
        assert(step.0.0.contains(u)) by {
            if !state.0.contains(urls[0]) {
                assert(state.0.push(urls[0])[state.0.index_of(u)] == u);
            }
        }
        lemma_accept_count_visited(step.0, urls.drop_first(), u);
    }
}

/// No duplicate visitation: over any sequence of `offer` calls — any
/// interleaving of concurrent callers serialized by the lock — a distinct
/// URL is accepted exactly once if it is offered at all and was not already
/// visited, and never accepted otherwise.
pub proof fn lemma_offer_exactly_once(
    state: (Seq<Seq<char>>, Seq<Seq<char>>),
    urls: Seq<Seq<char>>,
    u: Seq<char>,
)
    ensures
        accept_count(state, urls, u) == if urls.contains(u) && !state.0.contains(u) {
            1nat
        } else {
            0nat
        },
    decreases urls.len(),
{
    if urls.len() > 0 {
        let step = offer_spec(state, urls[0]);
        if step.1 && urls[0] == u {
            assert(step.0.0.contains(u)) by {
                assert(state.0.push(u)[state.0.len() as int] == u);
            }
            lemma_accept_count_visited(step.0, urls.drop_first(), u);
            assert(urls.contains(u)) by {
                assert(urls[0] == u);
            }
        } else {
            lemma_offer_exactly_once(step.0, urls.drop_first(), u);
            if state.0.contains(u) {
                assert(step.0.0.contains(u)) by {
                    if !state.0.contains(urls[0]) {
                        assert(state.0.push(urls[0])[state.0.index_of(u)] == u);
                    }
                }
            } else {
                if urls.contains(u) {
                    let i = choose|i: int| 0 <= i < urls.len() && urls[i] == u;
                    assert(i != 0);
                    assert(urls.drop_first()[i - 1] == u);
                    assert(urls.drop_first().contains(u));
                }
                if urls.drop_first().contains(u) {
                    let j = choose|j: int| 0 <= j < urls.drop_first().len()
                        && urls.drop_first()[j] == u;
                    assert(urls[j + 1] == u);
                    assert(urls.contains(u));
                }
                if !step.1 || urls[0] != u {
                    assert(!step.0.0.contains(u)) by {
                        if step.1 {
                            assert(forall|k: int|
                                0 <= k < state.0.push(urls[0]).len()
                                    ==> state.0.push(urls[0])[k] != u);
                        }
                    }
                }
            }
        }
    }
}

impl Frontier {
    /// All URLs ever accepted, in acceptance order.
    pub closed spec fn visited_seq(&self) -> Seq<Seq<char>> {
        self.visited.deep_view()
    }

    /// URLs accepted but not yet taken by a worker, oldest first.
    pub closed spec fn pending_seq(&self) -> Seq<Seq<char>> {
        self.pending.deep_view()
    }

    /// The set of visited URLs.
    pub open spec fn visited_set(&self) -> Set<Seq<char>> {
        self.visited_seq().to_set()
    }

    /// Well-formedness: no URL is recorded twice, and everything pending
    /// has already been recorded as visited.
    pub open spec fn wf(&self) -> bool {
        &&& self.visited_seq().no_duplicates()
        &&& self.pending_seq().no_duplicates()
        &&& forall|i: int|
            0 <= i < self.pending_seq().len()
                ==> self.visited_seq().contains(#[trigger] self.pending_seq()[i])
    }

    pub fn new() -> (f: Frontier)
        ensures
            f.wf(),
            f.visited_seq() == Seq::<Seq<char>>::empty(),
            f.pending_seq() == Seq::<Seq<char>>::empty(),
    {
        let f = Frontier { visited: Vec::new(), pending: Vec::new() };
        proof {
            assert(f.visited_seq() =~= Seq::<Seq<char>>::empty());
            assert(f.pending_seq() =~= Seq::<Seq<char>>::empty());
        }
        f
    }

    /// Accepts `url` unless it was already visited; recording in `visited`
    /// and the push onto `pending` happen in the same call, so no caller can
    /// observe one without the other.
    pub fn offer(&mut self, url: String) -> (accepted: bool)
        requires
            old(self).wf(),
        ensures
            final(self).wf(),
            (
                (final(self).visited_seq(), final(self).pending_seq()),
                accepted,
            ) == offer_spec((old(self).visited_seq(), old(self).pending_seq()), url@),
            accepted == !old(self).visited_seq().contains(url@),
    {
        if vec_contains_string(&self.visited, &url) {
            return false;
        }
        let ghost old_v = self.visited_seq();
        let ghost old_p = self.pending_seq();
        self.visited.push(url.clone());
        self.pending.push(url);
        proof {
            assert(self.visited_seq() =~= old_v.push(url@));
            assert(self.pending_seq() =~= old_p.push(url@));
            assert forall|i: int|
                0 <= i < self.pending_seq().len() implies self.visited_seq().contains(
                self.pending_seq()[i],
            ) by {
                if i < old_p.len() {
                    let j = old_v.index_of(old_p[i]);
                    assert(self.visited_seq()[j] == old_p[i]);
                } else {
                    assert(self.visited_seq()[old_v.len() as int] == url@);
                }
            }
            assert forall|i: int| 0 <= i < old_p.len() implies old_p[i] != url@ by {
                assert(old_v.contains(old_p[i]));
            }
        }
        true
    }

    /// Removes and returns the most recently added pending URL, if any.
    pub fn try_take(&mut self) -> (r: Option<String>)
        requires
            old(self).wf(),
        ensures
            final(self).wf(),
            final(self).visited_seq() == old(self).visited_seq(),
            old(self).pending_seq().len() == 0 ==> r is None && final(self).pending_seq() == old(
                self,
            ).pending_seq(),
            old(self).pending_seq().len() > 0 ==> {
                &&& r matches Some(u) && u@ == old(self).pending_seq().last()
                &&& final(self).pending_seq() == old(self).pending_seq().drop_last()
            },
    {
        let r = self.pending.pop();
        proof {
            if old(self).pending_seq().len() > 0 {
                assert(self.pending_seq() =~= old(self).pending_seq().drop_last());
            }
        }
        r
    }

    /// Exposes the visited record, e.g. for reporting after a run.
    pub fn visited_snapshot(&self) -> (v: &Vec<String>)
        ensures
            v.deep_view() == self.visited_seq(),
    {
        &self.visited
    }
}

/// Linear membership scan over the visited record.
fn vec_contains_string(v: &Vec<String>, s: &String) -> (b: bool)
    ensures
        b == v.deep_view().contains(s@),
{
    let mut i: usize = 0;
    while i < v.len()
        invariant
            i <= v.len(),
            forall|j: int| 0 <= j < i ==> v.deep_view()[j] != s@,
        decreases v.len() - i,
    {
        if v[i].eq(s) {
            proof {
                assert(v.deep_view()[i as int] == s@);
            }
            return true;
        }
        i += 1;
    }
    false
}

} // verus!
