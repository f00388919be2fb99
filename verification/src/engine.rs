use crate::extract::{extract, extract_spec};
use crate::frontier::{offer_spec, Frontier};
use crate::graph::{add_edge_spec, ensure_node_spec, Graph};
use crate::robots::{fetchable_of, RobotsPolicy};
use crate::urls::{normalize_seed, normalize_seed_exec, url_normal_of};
use vstd::prelude::*;

verus! {

/// The combined frontier/graph transition a worker performs for one
/// fetched page: each allowed candidate is offered to the frontier, then
/// the candidate and the parent become nodes, then the parent-to-child
/// `link` edge is recorded; disallowed candidates leave no trace at all.
pub open spec fn record_candidates(
    f: (Seq<Seq<char>>, Seq<Seq<char>>),
    nodes: Seq<Seq<char>>,
    edges: Seq<(usize, usize, Seq<char>)>,
    parent: Seq<char>,
    cs: Seq<Seq<char>>,
    policy: Seq<char>,
    agent: Seq<char>,
) -> ((Seq<Seq<char>>, Seq<Seq<char>>), Seq<Seq<char>>, Seq<(usize, usize, Seq<char>)>)
    decreases cs.len(),
{
    if cs.len() == 0 {
        (f, nodes, edges)
    } else if fetchable_of(policy, agent, cs[0]) {
        let f1 = offer_spec(f, cs[0]).0;
        let child = ensure_node_spec(nodes, cs[0]);
        let par = ensure_node_spec(child.0, parent);
        let e1 = add_edge_spec(
            edges,
            (#[verifier::truncate] (par.1 as usize), #[verifier::truncate] (child.1 as usize), "link"@),
        ).0;
        record_candidates(f1, par.0, e1, parent, cs.drop_first(), policy, agent)
    } else {
        record_candidates(f, nodes, edges, parent, cs.drop_first(), policy, agent)
    }
}

/// Processes one fetched page under the shared-state lock: extracts and
/// normalizes the body's links and records every allowed candidate in the
/// frontier and the graph, exactly as `record_candidates` describes.
pub fn process_page(
    frontier: &mut Frontier,
    graph: &mut Graph,
    parent: &String,
    body: &str,
    policy: &RobotsPolicy,
    agent: &str,
)
    requires
        old(frontier).wf(),
        old(graph).wf(),
    ensures
        final(frontier).wf(),
        final(graph).wf(),
        ({
            let r = record_candidates(
                (old(frontier).visited_seq(), old(frontier).pending_seq()),
                old(graph).nodes_seq(),
                old(graph).edges_seq(),
                parent@,
                extract_spec(body@, parent@),
                policy.text_view(),
                agent@,
            );
            &&& final(frontier).visited_seq() == r.0.0
            &&& final(frontier).pending_seq() == r.0.1
            &&& final(graph).nodes_seq() == r.1
            &&& final(graph).edges_seq() == r.2
        }),
{
    let links = extract(body, parent.as_str());
    let ghost cs = links.deep_view();
    let n = links.len();
    let mut i: usize = 0;
    proof {
        assert(cs.skip(0) =~= cs);
    }
    while i < n
        invariant
            n == links.len(),
            i <= n,
            cs == links.deep_view(),
            cs.len() == n,
            frontier.wf(),
            graph.wf(),
            forall|j: int| 0 <= j < cs.len() ==> url_normal_of(#[trigger] cs[j]) == Some(cs[j]),
            record_candidates(
                (frontier.visited_seq(), frontier.pending_seq()),
                graph.nodes_seq(),
                graph.edges_seq(),
                parent@,
                cs.skip(i as int),
                policy.text_view(),
                agent@,
            ) == record_candidates(
                (old(frontier).visited_seq(), old(frontier).pending_seq()),
                old(graph).nodes_seq(),
                old(graph).edges_seq(),
                parent@,
                cs,
                policy.text_view(),
                agent@,
            ),
        decreases n - i,
    {
        proof {
            assert(cs.skip(i as int).len() > 0);
            assert(cs.skip(i as int)[0] == cs[i as int]);
            assert(cs.skip(i as int).drop_first() =~= cs.skip(i as int + 1));
        }
        let link = &links[i];
        proof {
            assert(link@ == cs[i as int]);
        }
        if policy.can_fetch(agent, link.as_str()) {
            let _ = frontier.offer(link.clone());
            let child_idx = graph.ensure_node(link.clone());
            let parent_idx = graph.ensure_node(parent.clone());
            let _ = graph.add_edge(parent_idx, child_idx, "link".to_owned());
        }
        i += 1;
    }
    proof {
        assert(cs.skip(n as int) =~= Seq::<Seq<char>>::empty());
    }
}

/// The body recorded for `u` in a page table: the body of the first entry
/// whose URL equals `u`, if any. A missing entry models a transport
/// failure, which leaves no trace in the crawl state.
pub open spec fn find_page_spec(ps: Seq<(Seq<char>, Seq<char>)>, u: Seq<char>) -> Option<Seq<char>>
    decreases ps.len(),
{
    if ps.len() == 0 {
        None
    } else if ps[0].0 == u {
        Some(ps[0].1)
    } else {
        find_page_spec(ps.drop_first(), u)
    }
}

/// Looks `url` up in the page table.
fn find_page<'a>(pages: &'a Vec<(String, String)>, url: &String) -> (r: Option<&'a String>)
    ensures
        r matches Some(b) ==> find_page_spec(pages.deep_view(), url@) == Some(b@),
        r is None ==> find_page_spec(pages.deep_view(), url@) is None,
{
    let ghost ps = pages.deep_view();
    let mut i: usize = 0;
    proof {
        assert(ps.skip(0) =~= ps);
    }
    while i < pages.len()
        invariant
            i <= pages.len(),
            ps == pages.deep_view(),
            ps.len() == pages.len(),
            find_page_spec(ps, url@) == find_page_spec(ps.skip(i as int), url@),
        decreases pages.len() - i,
    {
        proof {
            assert(ps.skip(i as int)[0] == ps[i as int]);
            assert(ps.skip(i as int).drop_first() =~= ps.skip(i as int + 1));
        }
        if pages[i].0.eq(url) {
            return Some(&pages[i].1);
        }
        i += 1;
    }
    proof {
        assert(ps.skip(pages.len() as int) =~= Seq::<(Seq<char>, Seq<char>)>::empty());
    }
    None
}

/// Whether the graph records a `link` edge from `parent` to `child`.
pub open spec fn linked_in(
    nodes: Seq<Seq<char>>,
    edges: Seq<(usize, usize, Seq<char>)>,
    parent: Seq<char>,
    child: Seq<char>,
) -> bool {
    exists|j: int|
        0 <= j < edges.len() && (#[trigger] edges[j]).0 < nodes.len() && edges[j].1 < nodes.len()
            && nodes[edges[j].0 as int] == parent && nodes[edges[j].1 as int] == child
            && edges[j].2 == "link"@
}

/// Whether the crawl state is complete for `u`: if the page table serves a
/// body for `u`, then every allowed candidate of that body is visited and
/// the `link` edge from `u` to it is recorded.
pub open spec fn page_processed(
    pages: Seq<(Seq<char>, Seq<char>)>,
    policy: Seq<char>,
    agent: Seq<char>,
    u: Seq<char>,
    visited: Seq<Seq<char>>,
    nodes: Seq<Seq<char>>,
    edges: Seq<(usize, usize, Seq<char>)>,
) -> bool {
    match find_page_spec(pages, u) {
        None => true,
        Some(b) => forall|k: int|
            0 <= k < extract_spec(b, u).len() && fetchable_of(
                policy,
                agent,
                #[trigger] extract_spec(b, u)[k],
            ) ==> visited.contains(extract_spec(b, u)[k]) && linked_in(
                nodes,
                edges,
                u,
                extract_spec(b, u)[k],
            ),
    }
}

/// A recorded `link` edge stays recorded when the node and edge lists
/// grow at the end.
proof fn lemma_linked_in_monotone(
    nodes: Seq<Seq<char>>,
    edges: Seq<(usize, usize, Seq<char>)>,
    nodes2: Seq<Seq<char>>,
    edges2: Seq<(usize, usize, Seq<char>)>,
    parent: Seq<char>,
    child: Seq<char>,
)
    requires
        linked_in(nodes, edges, parent, child),
        nodes2.len() >= nodes.len(),
        forall|j: int| 0 <= j < nodes.len() ==> nodes2[j] == nodes[j],
        edges2.len() >= edges.len(),
        forall|j: int| 0 <= j < edges.len() ==> edges2[j] == edges[j],
    ensures
        linked_in(nodes2, edges2, parent, child),
{
    let j = choose|j: int|
        0 <= j < edges.len() && (#[trigger] edges[j]).0 < nodes.len() && edges[j].1 < nodes.len()
            && nodes[edges[j].0 as int] == parent && nodes[edges[j].1 as int] == child
            && edges[j].2 == "link"@;
    assert(edges2[j] == edges[j]);
    assert(nodes2[edges[j].0 as int] == parent);
    assert(nodes2[edges[j].1 as int] == child);
}

} // verus!

verus! {

/// Everything one recording step guarantees, for any starting state: the
/// visited record and the node and edge lists only grow and keep their
/// prefixes, the pending stack gains exactly the newly visited URLs, every
/// newly visited URL is an allowed candidate, every new node is the parent
/// or a visited URL, every new edge carries the `link` label, and — the
/// completeness direction — every allowed candidate ends up visited with
/// its parent-to-child `link` edge recorded.
pub proof fn lemma_record_candidates(
    f: (Seq<Seq<char>>, Seq<Seq<char>>),
    nodes: Seq<Seq<char>>,
    edges: Seq<(usize, usize, Seq<char>)>,
    parent: Seq<char>,
    cs: Seq<Seq<char>>,
    policy: Seq<char>,
    agent: Seq<char>,
)
    ensures
        ({
            let r = record_candidates(f, nodes, edges, parent, cs, policy, agent);
            &&& r.0.0.len() >= f.0.len()
            &&& forall|j: int| 0 <= j < f.0.len() ==> r.0.0[j] == f.0[j]
            &&& r.0.1 == f.1 + r.0.0.skip(f.0.len() as int)
            &&& forall|j: int|
                f.0.len() <= j < r.0.0.len() ==> cs.contains(#[trigger] r.0.0[j])
                    && fetchable_of(policy, agent, r.0.0[j])
            &&& forall|u: Seq<char>| f.0.contains(u) ==> #[trigger] r.0.0.contains(u)
            &&& r.1.len() >= nodes.len()
            &&& forall|j: int| 0 <= j < nodes.len() ==> r.1[j] == nodes[j]
            &&& forall|j: int|
                nodes.len() <= j < r.1.len() ==> ((#[trigger] r.1[j]) == parent || r.0.0.contains(
                    r.1[j],
                ))
            &&& r.2.len() >= edges.len()
            &&& forall|j: int| 0 <= j < edges.len() ==> r.2[j] == edges[j]
            &&& forall|j: int| edges.len() <= j < r.2.len() ==> (#[trigger] r.2[j]).2 == "link"@
            &&& (r.1.len() <= usize::MAX ==> forall|k: int|
                0 <= k < cs.len() && fetchable_of(policy, agent, #[trigger] cs[k])
                    ==> r.0.0.contains(cs[k]) && linked_in(r.1, r.2, parent, cs[k]))
        }),
    decreases cs.len(),
{
    let r = record_candidates(f, nodes, edges, parent, cs, policy, agent);
    if cs.len() == 0 {
        assert(f.0.skip(f.0.len() as int) =~= Seq::<Seq<char>>::empty());
        assert(f.1 + f.0.skip(f.0.len() as int) =~= f.1);
    } else {
        let c = cs[0];
        let tail = cs.drop_first();
        assert(forall|x: Seq<char>| tail.contains(x) ==> cs.contains(x)) by {
            assert forall|x: Seq<char>| tail.contains(x) implies cs.contains(x) by {
                let k = choose|k: int| 0 <= k < tail.len() && tail[k] == x;
                assert(cs[k + 1] == x);
            }
        }
        if fetchable_of(policy, agent, c) {
            let f1 = offer_spec(f, c).0;
            let child = ensure_node_spec(nodes, c);
            let par = ensure_node_spec(child.0, parent);
            let e1 = add_edge_spec(
            edges,
            (#[verifier::truncate] (par.1 as usize), #[verifier::truncate] (child.1 as usize), "link"@),
        ).0;
            lemma_record_candidates(f1, par.0, e1, parent, tail, policy, agent);
            let rr = record_candidates(f1, par.0, e1, parent, tail, policy, agent);
            assert(r == rr);
            // the offered candidate is visited afterwards
            assert(f1.0.contains(c)) by {
                if !f.0.contains(c) {
                    assert(f.0.push(c)[f.0.len() as int] == c);
                }
            }
            assert(r.0.0.contains(c));
            assert forall|j: int| 0 <= j < f.0.len() implies r.0.0[j] == f.0[j] by {
                assert(rr.0.0[j] == f1.0[j]);
            }
            if f.0.contains(c) {
                // the frontier did not change in this step
                assert(r.0.1 == f.1 + r.0.0.skip(f.0.len() as int));
            } else {
                assert(r.0.0[f.0.len() as int] == c) by {
                    assert(f1.0[f.0.len() as int] == c);
                }
                assert(r.0.1 =~= f.1 + r.0.0.skip(f.0.len() as int)) by {
                    assert(r.0.1 == f1.1 + r.0.0.skip(f1.0.len() as int));
                    assert(f1.1 == f.1.push(c));
                    assert(f1.0.len() == f.0.len() + 1);
                }
            }
            // new visited entries are allowed candidates from cs
            assert forall|j: int|
                f.0.len() <= j < r.0.0.len() implies cs.contains(#[trigger] r.0.0[j])
                && fetchable_of(policy, agent, r.0.0[j]) by {
                if f.0.contains(c) {
                    assert(tail.contains(r.0.0[j]));
                } else {
                    if j == f.0.len() {
                        assert(r.0.0[j] == c);
                    } else {
                        assert(f1.0.len() <= j < r.0.0.len());
                        assert(tail.contains(r.0.0[j]));
                    }
                }
            }
            // visited membership is monotone
            assert forall|u: Seq<char>| f.0.contains(u) implies #[trigger] r.0.0.contains(u) by {
                assert(f1.0.contains(u)) by {
                    if !f.0.contains(c) {
                        let k = choose|k: int| 0 <= k < f.0.len() && f.0[k] == u;
                        assert(f.0.push(c)[k] == u);
                    }
                }
            }
            // nodes: prefix kept, new entries are the parent or visited
            assert(child.0.len() >= nodes.len());
            assert(par.0.len() >= child.0.len());
            assert forall|j: int| 0 <= j < nodes.len() implies r.1[j] == nodes[j] by {
                assert(rr.1[j] == par.0[j]);
            }
            assert forall|j: int| 0 <= j < edges.len() implies r.2[j] == edges[j] by {
                assert(rr.2[j] == e1[j]);
            }
            assert forall|j: int|
                nodes.len() <= j < r.1.len() implies ((#[trigger] r.1[j]) == parent
                || r.0.0.contains(r.1[j])) by {
                if j < par.0.len() {
                    assert(r.1[j] == par.0[j]);
                    if j < child.0.len() {
                        assert(child.0[j] == c);
                        assert(r.0.0.contains(c));
                    } else {
                        assert(par.0[j] == parent);
                    }
                }
            }
            // edges: prefix kept, new entries carry the link label
            assert forall|j: int|
                edges.len() <= j < r.2.len() implies (#[trigger] r.2[j]).2 == "link"@ by {
                if j < e1.len() {
                    assert(e1[j] == (par.1 as usize, child.1 as usize, "link"@));
                }
            }
            // completeness: each allowed candidate is visited and linked
            if r.1.len() <= usize::MAX {
                let t = (
                    #[verifier::truncate] (par.1 as usize),
                    #[verifier::truncate] (child.1 as usize),
                    "link"@,
                );
                assert(child.0[child.1] == c);
                assert(par.0[par.1] == parent);
                assert(par.0[child.1] == c) by {
                    if !child.0.contains(parent) {
                        assert(child.0.push(parent)[child.1] == c);
                    }
                }
                assert(0 <= par.1 < par.0.len() <= r.1.len());
                assert(0 <= child.1 < par.0.len() <= r.1.len());
                assert((t.0 as int) == par.1 && (t.1 as int) == child.1);
                assert(e1.contains(t)) by {
                    if !edges.contains(t) {
                        assert(edges.push(t)[edges.len() as int] == t);
                    }
                }
                assert(linked_in(r.1, r.2, parent, c)) by {
                    let je = choose|je: int| 0 <= je < e1.len() && e1[je] == t;
                    assert(r.2[je] == t);
                    assert(r.1[t.0 as int] == par.0[par.1]);
                    assert(r.1[t.1 as int] == par.0[child.1]);
                }
                assert forall|k: int|
                    0 <= k < cs.len() && fetchable_of(policy, agent, #[trigger] cs[k]) implies
                    r.0.0.contains(cs[k]) && linked_in(r.1, r.2, parent, cs[k]) by {
                    if k > 0 {
                        assert(tail[k - 1] == cs[k]);
                        assert(fetchable_of(policy, agent, tail[k - 1]));
                    }
                }
            }
        } else {
            lemma_record_candidates(f, nodes, edges, parent, tail, policy, agent);
            let rr = record_candidates(f, nodes, edges, parent, tail, policy, agent);
            assert(r == rr);
            assert forall|j: int|
                f.0.len() <= j < r.0.0.len() implies cs.contains(#[trigger] r.0.0[j])
                && fetchable_of(policy, agent, r.0.0[j]) by {
                assert(tail.contains(r.0.0[j]));
            }
            if r.1.len() <= usize::MAX {
                assert forall|k: int|
                    0 <= k < cs.len() && fetchable_of(policy, agent, #[trigger] cs[k]) implies
                    r.0.0.contains(cs[k]) && linked_in(r.1, r.2, parent, cs[k]) by {
                    if k > 0 {
                        assert(tail[k - 1] == cs[k]);
                        assert(fetchable_of(policy, agent, tail[k - 1]));
                    }
                }
            }
        }
    }
}

/// The set of normalized forms of the valid seeds.
pub open spec fn seed_normals(ss: Seq<Seq<char>>) -> Set<Seq<char>>
    decreases ss.len(),
{
    if ss.len() == 0 {
        Set::empty()
    } else {
        let rest = seed_normals(ss.drop_first());
        match normalize_seed(ss[0]) {
            Some(u) => rest.insert(u),
            None => rest,
        }
    }
}

pub proof fn lemma_seed_normals_finite(ss: Seq<Seq<char>>)
    ensures
        seed_normals(ss).finite(),
    decreases ss.len(),
{
    if ss.len() > 0 {
        lemma_seed_normals_finite(ss.drop_first());
    }
}

pub proof fn lemma_seed_normals_member(ss: Seq<Seq<char>>, i: int)
    requires
        0 <= i < ss.len(),
        normalize_seed(ss[i]) is Some,
    ensures
        seed_normals(ss).contains(normalize_seed(ss[i]).unwrap()),
    decreases ss.len(),
{
    if i > 0 {
        assert(ss.drop_first()[i - 1] == ss[i]);
        lemma_seed_normals_member(ss.drop_first(), i - 1);
    }
}

/// Every URL any recorded page can contribute: the candidates its body
/// yields when extracted against its own URL.
pub open spec fn pages_candidates(ps: Seq<(Seq<char>, Seq<char>)>) -> Set<Seq<char>>
    decreases ps.len(),
{
    if ps.len() == 0 {
        Set::empty()
    } else {
        extract_spec(ps[0].1, ps[0].0).to_set().union(pages_candidates(ps.drop_first()))
    }
}

pub proof fn lemma_pages_candidates_finite(ps: Seq<(Seq<char>, Seq<char>)>)
    ensures
        pages_candidates(ps).finite(),
    decreases ps.len(),
{
    broadcast use vstd::seq_lib::seq_to_set_is_finite;

    if ps.len() > 0 {
        lemma_pages_candidates_finite(ps.drop_first());
    }
}

/// Whatever page the table serves for `u`, its candidates lie in
/// `pages_candidates`.
pub proof fn lemma_find_page_candidates(ps: Seq<(Seq<char>, Seq<char>)>, u: Seq<char>)
    requires
        find_page_spec(ps, u) is Some,
    ensures
        forall|x: Seq<char>|
            extract_spec(find_page_spec(ps, u).unwrap(), u).contains(x) ==> pages_candidates(
                ps,
            ).contains(x),
    decreases ps.len(),
{
    if ps.len() > 0 {
        if ps[0].0 == u {
            assert forall|x: Seq<char>|
                extract_spec(find_page_spec(ps, u).unwrap(), u).contains(
                    x,
                ) implies pages_candidates(ps).contains(x) by {
                assert(extract_spec(ps[0].1, ps[0].0).to_set().contains(x));
            }
        } else {
            lemma_find_page_candidates(ps.drop_first(), u);
            assert forall|x: Seq<char>|
                extract_spec(find_page_spec(ps, u).unwrap(), u).contains(
                    x,
                ) implies pages_candidates(ps).contains(x) by {
                assert(pages_candidates(ps.drop_first()).contains(x));
            }
        }
    }
}

} // verus!

verus! {

/// Drives a whole crawl to quiescence against a fixed table of pages (the
/// transport collaborator, e.g. a recorded or mock web): seeds the
/// frontier and the graph, then takes pending URLs one at a time, looks
/// their bodies up, and records every allowed outbound link, until no work
/// is left. Missing pages model transport failures and leave no trace.
/// On return the crawl is complete: for every visited URL the table
/// serves, every allowed candidate of its body is visited and its `link`
/// edge recorded. Termination is proved from the finite universe of URLs
/// the seeds and the page table can ever contribute.
pub fn run_crawl(
    seeds: &Vec<String>,
    pages: &Vec<(String, String)>,
    policy: &RobotsPolicy,
    agent: &str,
) -> (r: (Frontier, Graph))
    ensures
        r.0.wf(),
        r.1.wf(),
        r.0.pending_seq().len() == 0,
        forall|j: int|
            0 <= j < seeds.deep_view().len() && normalize_seed(
                #[trigger] seeds.deep_view()[j],
            ) is Some ==> r.0.visited_seq().contains(normalize_seed(seeds.deep_view()[j]).unwrap()),
        forall|j: int|
            0 <= j < r.0.visited_seq().len() ==> seed_normals(seeds.deep_view()).contains(
                #[trigger] r.0.visited_seq()[j],
            ) || fetchable_of(policy.text_view(), agent@, r.0.visited_seq()[j]),
        forall|j: int|
            0 <= j < r.1.nodes_seq().len() ==> r.0.visited_seq().contains(
                #[trigger] r.1.nodes_seq()[j],
            ),
        forall|j: int|
            0 <= j < r.1.edges_seq().len() ==> (#[trigger] r.1.edges_seq()[j]).2 == "link"@,
        forall|j: int|
            0 <= j < r.0.visited_seq().len() ==> page_processed(
                pages.deep_view(),
                policy.text_view(),
                agent@,
                #[trigger] r.0.visited_seq()[j],
                r.0.visited_seq(),
                r.1.nodes_seq(),
                r.1.edges_seq(),
            ),
{
    let ghost seeds_v = seeds.deep_view();
    let ghost pages_v = pages.deep_view();
    let ghost uni = seed_normals(seeds_v).union(pages_candidates(pages_v));
    proof {
        lemma_seed_normals_finite(seeds_v);
        lemma_pages_candidates_finite(pages_v);
    }
    let mut frontier = Frontier::new();
    let mut graph = Graph::new();
    let mut i: usize = 0;
    while i < seeds.len()
        invariant
            i <= seeds.len(),
            seeds_v == seeds.deep_view(),
            seeds_v.len() == seeds.len(),
            frontier.wf(),
            graph.wf(),
            graph.edges_seq().len() == 0,
            frontier.pending_seq() == frontier.visited_seq(),
            forall|j: int|
                0 <= j < frontier.visited_seq().len() ==> seed_normals(seeds_v).contains(
                    #[trigger] frontier.visited_seq()[j],
                ),
            forall|j: int|
                0 <= j < graph.nodes_seq().len() ==> frontier.visited_seq().contains(
                    #[trigger] graph.nodes_seq()[j],
                ),
            forall|j: int|
                0 <= j < i && normalize_seed(#[trigger] seeds_v[j]) is Some
                    ==> frontier.visited_seq().contains(normalize_seed(seeds_v[j]).unwrap()),
        decreases seeds.len() - i,
    {
        proof {
            assert(seeds_v[i as int] == seeds@[i as int]@);
        }
        match normalize_seed_exec(seeds[i].as_str()) {
            Some(u) => {
                proof {
                    lemma_seed_normals_member(seeds_v, i as int);
                }
                let ghost vprev = frontier.visited_seq();
                let ghost nprev = graph.nodes_seq();
                let _ = frontier.offer(u.clone());
                let _ = graph.ensure_node(u);
                proof {
                    assert(frontier.visited_seq().contains(normalize_seed(
                        seeds_v[i as int],
                    ).unwrap())) by {
                        if !vprev.contains(normalize_seed(seeds_v[i as int]).unwrap()) {
                            assert(frontier.visited_seq()[vprev.len() as int] == normalize_seed(
                                seeds_v[i as int],
                            ).unwrap());
                        }
                    }
                    assert forall|j: int|
                        0 <= j < frontier.visited_seq().len() implies seed_normals(
                        seeds_v,
                    ).contains(#[trigger] frontier.visited_seq()[j]) by {
                        if j < vprev.len() {
                            assert(frontier.visited_seq()[j] == vprev[j]);
                        }
                    }
                    assert forall|j: int|
                        0 <= j < graph.nodes_seq().len() implies frontier.visited_seq().contains(
                        #[trigger] graph.nodes_seq()[j],
                    ) by {
                        if j < nprev.len() {
                            assert(graph.nodes_seq()[j] == nprev[j]);
                            assert(vprev.contains(nprev[j]));
                            let k = choose|k: int| 0 <= k < vprev.len() && vprev[k] == nprev[j];
                            assert(frontier.visited_seq()[k] == nprev[j]);
                        } else {
                            assert(frontier.visited_seq().contains(graph.nodes_seq()[j]));
                        }
                    }
                    assert forall|j: int|
                        0 <= j < i + 1 && normalize_seed(#[trigger] seeds_v[j]) is Some implies
                        frontier.visited_seq().contains(normalize_seed(seeds_v[j]).unwrap()) by {
                        if j < i {
                            let w = normalize_seed(seeds_v[j]).unwrap();
                            assert(vprev.contains(w));
                            let k = choose|k: int| 0 <= k < vprev.len() && vprev[k] == w;
                            assert(frontier.visited_seq()[k] == w);
                        }
                    }
                }
            },
            None => {},
        }
        i += 1;
    }
    proof {
        assert forall|j: int|
            0 <= j < frontier.visited_seq().len() implies uni.contains(
            #[trigger] frontier.visited_seq()[j],
        ) by {
            assert(seed_normals(seeds_v).contains(frontier.visited_seq()[j]));
        }
        assert(frontier.visited_set().subset_of(uni)) by {
            assert forall|x: Seq<char>| frontier.visited_set().contains(x) implies uni.contains(
                x,
            ) by {
                let k = choose|k: int|
                    0 <= k < frontier.visited_seq().len() && frontier.visited_seq()[k] == x;
                assert(uni.contains(frontier.visited_seq()[k]));
            }
        }
        vstd::set_lib::lemma_len_subset(frontier.visited_set(), uni);
        frontier.visited_seq().unique_seq_to_set();
        assert forall|j: int|
            0 <= j < frontier.visited_seq().len() implies frontier.pending_seq().contains(
            #[trigger] frontier.visited_seq()[j],
        ) by {
            assert(frontier.pending_seq()[j] == frontier.visited_seq()[j]);
        }
    }
    loop
        invariant
            seeds_v == seeds.deep_view(),
            pages_v == pages.deep_view(),
            uni == seed_normals(seeds_v).union(pages_candidates(pages_v)),
            uni.finite(),
            frontier.wf(),
            graph.wf(),
            frontier.visited_set().len() <= uni.len(),
            frontier.visited_set().len() == frontier.visited_seq().len(),
            forall|j: int|
                0 <= j < frontier.visited_seq().len() ==> uni.contains(
                    #[trigger] frontier.visited_seq()[j],
                ),
            forall|j: int|
                0 <= j < frontier.visited_seq().len() ==> seed_normals(seeds_v).contains(
                    #[trigger] frontier.visited_seq()[j],
                ) || fetchable_of(policy.text_view(), agent@, frontier.visited_seq()[j]),
            forall|j: int|
                0 <= j < graph.nodes_seq().len() ==> frontier.visited_seq().contains(
                    #[trigger] graph.nodes_seq()[j],
                ),
            forall|j: int|
                0 <= j < graph.edges_seq().len() ==> (#[trigger] graph.edges_seq()[j]).2
                    == "link"@,
            forall|j: int|
                0 <= j < seeds_v.len() && normalize_seed(#[trigger] seeds_v[j]) is Some
                    ==> frontier.visited_seq().contains(normalize_seed(seeds_v[j]).unwrap()),
            forall|j: int|
                0 <= j < frontier.visited_seq().len() ==> frontier.pending_seq().contains(
                    #[trigger] frontier.visited_seq()[j],
                ) || page_processed(
                    pages_v,
                    policy.text_view(),
                    agent@,
                    frontier.visited_seq()[j],
                    frontier.visited_seq(),
                    graph.nodes_seq(),
                    graph.edges_seq(),
                ),
        decreases 2 * uni.len() + frontier.pending_seq().len() - 2 * frontier.visited_set().len(),
    {
        let ghost p_entry = frontier.pending_seq();
        match frontier.try_take() {
            None => {
                proof {
                    assert forall|j: int|
                        0 <= j < frontier.visited_seq().len() implies page_processed(
                        pages_v,
                        policy.text_view(),
                        agent@,
                        #[trigger] frontier.visited_seq()[j],
                        frontier.visited_seq(),
                        graph.nodes_seq(),
                        graph.edges_seq(),
                    ) by {
                        assert(!p_entry.contains(frontier.visited_seq()[j])) by {
                            assert(p_entry.len() == 0);
                        }
                    }
                }
                return (frontier, graph);
            },
            Some(url) => {
                proof {
                    assert(frontier.visited_seq().contains(url@)) by {
                        assert(p_entry[p_entry.len() - 1] == url@);
                    }
                }
                match find_page(pages, &url) {
                    None => {
                        proof {
                            let vis = frontier.visited_seq();
                            let pol = policy.text_view();
                            assert(find_page_spec(pages_v, url@) is None);
                            assert forall|j: int|
                                0 <= j < vis.len() implies frontier.pending_seq().contains(
                                #[trigger] vis[j],
                            ) || page_processed(
                                pages_v,
                                pol,
                                agent@,
                                vis[j],
                                vis,
                                graph.nodes_seq(),
                                graph.edges_seq(),
                            ) by {
                                let w = vis[j];
                                if w == url@ {
                                } else if p_entry.contains(w) {
                                    let iw = choose|iw: int|
                                        0 <= iw < p_entry.len() && p_entry[iw] == w;
                                    assert(iw != p_entry.len() - 1);
                                    assert(frontier.pending_seq()[iw] == w);
                                } else {
                                    assert(page_processed(
                                        pages_v,
                                        pol,
                                        agent@,
                                        w,
                                        vis,
                                        graph.nodes_seq(),
                                        graph.edges_seq(),
                                    ));
                                }
                            }
                        }
                    },
                    Some(body) => {
                        let ghost v0 = frontier.visited_seq();
                        let ghost p0 = frontier.pending_seq();
                        let ghost nodes0 = graph.nodes_seq();
                        let ghost edges0 = graph.edges_seq();
                        let body_owned = body.clone();
                        process_page(
                            &mut frontier,
                            &mut graph,
                            &url,
                            body_owned.as_str(),
                            policy,
                            agent,
                        );
                        let node_total = graph.node_count();
                        proof {
                            let cs = extract_spec(body_owned@, url@);
                            lemma_record_candidates(
                                (v0, p0),
                                nodes0,
                                edges0,
                                url@,
                                cs,
                                policy.text_view(),
                                agent@,
                            );
                            let r = record_candidates(
                                (v0, p0),
                                nodes0,
                                edges0,
                                url@,
                                cs,
                                policy.text_view(),
                                agent@,
                            );
                            lemma_find_page_candidates(pages_v, url@);
                            let vis = frontier.visited_seq();
                            assert forall|j: int| 0 <= j < vis.len() implies uni.contains(
                                #[trigger] vis[j],
                            ) by {
                                if j < v0.len() {
                                    assert(vis[j] == v0[j]);
                                } else {
                                    assert(cs.contains(vis[j]));
                                    assert(extract_spec(
                                        find_page_spec(pages_v, url@).unwrap(),
                                        url@,
                                    ).contains(vis[j]));
                                    assert(pages_candidates(pages_v).contains(vis[j]));
                                }
                            }
                            assert forall|j: int| 0 <= j < vis.len() implies seed_normals(
                                seeds_v,
                            ).contains(#[trigger] vis[j]) || fetchable_of(
                                policy.text_view(),
                                agent@,
                                vis[j],
                            ) by {
                                if j < v0.len() {
                                    assert(vis[j] == v0[j]);
                                }
                            }
                            assert forall|j: int|
                                0 <= j < graph.nodes_seq().len() implies vis.contains(
                                #[trigger] graph.nodes_seq()[j],
                            ) by {
                                if j < nodes0.len() {
                                    assert(graph.nodes_seq()[j] == nodes0[j]);
                                    assert(v0.contains(nodes0[j]));
                                    assert(vis.contains(nodes0[j]));
                                } else {
                                    assert(graph.nodes_seq()[j] == url@ || vis.contains(
                                        graph.nodes_seq()[j],
                                    ));
                                    assert(v0.contains(url@));
                                    assert(vis.contains(url@));
                                }
                            }
                            assert forall|j: int|
                                0 <= j < graph.edges_seq().len() implies (
                            #[trigger] graph.edges_seq()[j]).2 == "link"@ by {
                                if j < edges0.len() {
                                    assert(graph.edges_seq()[j] == edges0[j]);
                                }
                            }
                            assert forall|j: int|
                                0 <= j < seeds_v.len() && normalize_seed(
                                    #[trigger] seeds_v[j],
                                ) is Some implies vis.contains(normalize_seed(
                                seeds_v[j],
                            ).unwrap()) by {
                                assert(v0.contains(normalize_seed(seeds_v[j]).unwrap()));
                            }
                            assert(frontier.visited_set().subset_of(uni)) by {
                                assert forall|x: Seq<char>|
                                    frontier.visited_set().contains(x) implies uni.contains(x) by {
                                    let k = choose|k: int| 0 <= k < vis.len() && vis[k] == x;
                                    assert(uni.contains(vis[k]));
                                }
                            }
                            vstd::set_lib::lemma_len_subset(frontier.visited_set(), uni);
                            frontier.visited_seq().unique_seq_to_set();
                            v0.unique_seq_to_set();
                            assert(frontier.pending_seq().len() == p0.len() + (vis.len()
                                - v0.len()));
                            // completeness: the page just taken is processed,
                            // and every other visited URL stays pending or
                            // stays processed
                            let pol = policy.text_view();
                            assert(graph.nodes_seq().len() == node_total as int);
                            assert(r.1.len() <= usize::MAX);
                            assert(find_page_spec(pages_v, url@) == Some(body_owned@));
                            assert(page_processed(
                                pages_v,
                                pol,
                                agent@,
                                url@,
                                vis,
                                graph.nodes_seq(),
                                graph.edges_seq(),
                            )) by {
                                let b = find_page_spec(pages_v, url@).unwrap();
                                assert(b == body_owned@);
                                assert forall|k: int|
                                    0 <= k < extract_spec(b, url@).len() && fetchable_of(
                                        pol,
                                        agent@,
                                        #[trigger] extract_spec(b, url@)[k],
                                    ) implies vis.contains(extract_spec(b, url@)[k]) && linked_in(
                                    graph.nodes_seq(),
                                    graph.edges_seq(),
                                    url@,
                                    extract_spec(b, url@)[k],
                                ) by {
                                    assert(extract_spec(b, url@)[k] == cs[k]);
                                    assert(fetchable_of(pol, agent@, cs[k]));
                                }
                            }
                            assert forall|j: int|
                                0 <= j < vis.len() implies frontier.pending_seq().contains(
                                #[trigger] vis[j],
                            ) || page_processed(
                                pages_v,
                                pol,
                                agent@,
                                vis[j],
                                vis,
                                graph.nodes_seq(),
                                graph.edges_seq(),
                            ) by {
                                let w = vis[j];
                                if j < v0.len() {
                                    assert(w == v0[j]);
                                    if w == url@ {
                                    } else if p_entry.contains(w) {
                                        let iw = choose|iw: int|
                                            0 <= iw < p_entry.len() && p_entry[iw] == w;
                                        assert(iw != p_entry.len() - 1);
                                        assert(p0[iw] == p_entry[iw]);
                                        assert(frontier.pending_seq()[iw] == w);
                                    } else {
                                        assert(page_processed(
                                            pages_v,
                                            pol,
                                            agent@,
                                            w,
                                            v0,
                                            nodes0,
                                            edges0,
                                        ));
                                        match find_page_spec(pages_v, w) {
                                            None => {},
                                            Some(bw) => {
                                                assert forall|k: int|
                                                    0 <= k < extract_spec(bw, w).len()
                                                        && fetchable_of(
                                                        pol,
                                                        agent@,
                                                        #[trigger] extract_spec(bw, w)[k],
                                                    ) implies vis.contains(extract_spec(bw, w)[k])
                                                    && linked_in(
                                                    graph.nodes_seq(),
                                                    graph.edges_seq(),
                                                    w,
                                                    extract_spec(bw, w)[k],
                                                ) by {
                                                    let cand = extract_spec(bw, w)[k];
                                                    assert(v0.contains(cand) && linked_in(
                                                        nodes0,
                                                        edges0,
                                                        w,
                                                        cand,
                                                    ));
                                                    assert(vis.contains(cand));
                                                    lemma_linked_in_monotone(
                                                        nodes0,
                                                        edges0,
                                                        graph.nodes_seq(),
                                                        graph.edges_seq(),
                                                        w,
                                                        cand,
                                                    );
                                                }
                                            },
                                        }
                                    }
                                } else {
                                    assert(frontier.pending_seq()[p0.len() + (j - v0.len())]
                                        == vis[j]);
                                }
                            }
                        }
                    },
                }
            },
        }
    }
}

} // verus!
