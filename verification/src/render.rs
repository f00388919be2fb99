use crate::graph::Graph;
use vstd::prelude::*;

verus! {

/// Relies on `String::push`: appends exactly the one character.
#[verifier::external_body]
fn push_char(s: &mut String, c: char)
    ensures
        final(s)@ == old(s)@.push(c),
{
    s.push(c);
}

/// The decimal digit character for `d` (`d < 10`).
pub open spec fn digit_char(d: nat) -> char {
    if d == 0 {
        '0'
    } else if d == 1 {
        '1'
    } else if d == 2 {
        '2'
    } else if d == 3 {
        '3'
    } else if d == 4 {
        '4'
    } else if d == 5 {
        '5'
    } else if d == 6 {
        '6'
    } else if d == 7 {
        '7'
    } else if d == 8 {
        '8'
    } else {
        '9'
    }
}

/// The decimal rendering of `n`, most significant digit first.
pub open spec fn dec_of(n: nat) -> Seq<char>
    decreases n,
{
    if n < 10 {
        seq![digit_char(n)]
    } else {
        dec_of(n / 10).push(digit_char(n % 10))
    }
}

fn digit_char_exec(d: usize) -> (c: char)
    requires
        d < 10,
    ensures
        c == digit_char(d as nat),
{
    match d {
        0 => '0',
        1 => '1',
        2 => '2',
        3 => '3',
        4 => '4',
        5 => '5',
        6 => '6',
        7 => '7',
        8 => '8',
        _ => '9',
    }
}

/// Appends the decimal rendering of `n` to `out`.
fn append_dec(out: &mut String, n: usize)
    ensures
        final(out)@ == old(out)@ + dec_of(n as nat),
    decreases n,
{
    if n < 10 {
        push_char(out, digit_char_exec(n));
        proof {
            assert(out@ =~= old(out)@ + dec_of(n as nat));
        }
    } else {
        append_dec(out, n / 10);
        push_char(out, digit_char_exec(n % 10));
        proof {
            assert(out@ =~= old(out)@ + dec_of(n as nat));
        }
    }
}

/// A node name with the path-unsafe characters `/` and `:` replaced, so it
/// can serve as a file or section identifier.
pub open spec fn sanitized(s: Seq<char>) -> Seq<char> {
    s.map_values(
        |c: char|
            if c == '/' || c == ':' {
                '_'
            } else {
                c
            },
    )
}

/// Replaces `/` and `:` in a node name by `_`.
pub fn sanitize_name(s: &str) -> (r: String)
    ensures
        r@ == sanitized(s@),
{
    let n = s.unicode_len();
    let mut out = String::new();
    let mut i: usize = 0;
    proof {
        assert(out@ =~= sanitized(s@.take(0)));
    }
    while i < n
        invariant
            n == s@.len(),
            i <= n,
            out@ == sanitized(s@.take(i as int)),
        decreases n - i,
    {
        let c = s.get_char(i);
        if c == '/' || c == ':' {
            push_char(&mut out, '_');
        } else {
            push_char(&mut out, c);
        }
        i += 1;
        proof {
            assert(out@ =~= sanitized(s@.take(i as int)));
        }
    }
    proof {
        assert(s@.take(n as int) =~= s@);
    }
    out
}

} // verus!

verus! {

/// One node entry of the canvas document: a positioned text box whose
/// stable identifier is the node index.
pub open spec fn canvas_node_entry(node: Seq<char>, i: int) -> Seq<char> {
    "\t\t{\"id\":\""@ + dec_of(i as nat) + "\",\"x\":"@ + dec_of((i * 100) as nat) + ",\"y\":"@
        + dec_of((i * 100) as nat)
        + ",\"width\":250,\"height\":60,\"type\":\"text\",\"text\":\""@ + node + "\"}"@
}

/// The node entries from index `i` on, separated by commas.
pub open spec fn canvas_nodes_json(nodes: Seq<Seq<char>>, i: int) -> Seq<char>
    decreases nodes.len() - i,
{
    if i < 0 || i >= nodes.len() {
        Seq::empty()
    } else {
        canvas_node_entry(nodes[i], i) + (if i < nodes.len() - 1 {
            ",\n"@
        } else {
            Seq::<char>::empty()
        }) + canvas_nodes_json(nodes, i + 1)
    }
}

/// One edge entry of the canvas document: a labeled directed connector
/// between two node identifiers.
pub open spec fn canvas_edge_entry(e: (usize, usize, Seq<char>), i: int) -> Seq<char> {
    "\t\t{\"id\":\""@ + dec_of(i as nat) + "\",\"fromNode\":\""@ + dec_of(e.0 as nat)
        + "\",\"fromSide\":\"left\",\"toNode\":\""@ + dec_of(e.1 as nat)
        + "\",\"toSide\":\"right\",\"label\":\""@ + e.2 + "\"}"@
}

/// The edge entries from index `i` on, separated by commas.
pub open spec fn canvas_edges_json(edges: Seq<(usize, usize, Seq<char>)>, i: int) -> Seq<char>
    decreases edges.len() - i,
{
    if i < 0 || i >= edges.len() {
        Seq::empty()
    } else {
        canvas_edge_entry(edges[i], i) + (if i < edges.len() - 1 {
            ",\n"@
        } else {
            Seq::<char>::empty()
        }) + canvas_edges_json(edges, i + 1)
    }
}

/// The whole canvas document for a graph.
pub open spec fn canvas_spec(
    nodes: Seq<Seq<char>>,
    edges: Seq<(usize, usize, Seq<char>)>,
) -> Seq<char> {
    "{\n"@ + "\t\"nodes\":[\n"@ + canvas_nodes_json(nodes, 0) + "\n\t],\n"@ + "\t\"edges\":[\n"@
        + canvas_edges_json(edges, 0) + "\n\t]\n"@ + "}"@
}

/// Renders the discovered graph as a canvas document: every node as a
/// positioned labeled text box, every edge as a labeled directed
/// connector, with node and edge identifiers derived from their indices.
pub fn canvas_document(graph: &Graph) -> (r: String)
    requires
        graph.nodes_seq().len() * 100 <= usize::MAX,
    ensures
        r@ == canvas_spec(graph.nodes_seq(), graph.edges_seq()),
{
    let ghost nodes_v = graph.nodes_seq();
    let ghost edges_v = graph.edges_seq();
    let (nodes, edges) = graph.snapshot();
    let mut out = String::new();
    out.append("{\n");
    out.append("\t\"nodes\":[\n");
    let ghost start = out@;
    let n = nodes.len();
    let mut i: usize = 0;
    while i < n
        invariant
            n == nodes.len(),
            i <= n,
            nodes.deep_view() == nodes_v,
            nodes_v.len() == n,
            n * 100 <= usize::MAX,
            start == "{\n"@ + "\t\"nodes\":[\n"@,
            out@ + canvas_nodes_json(nodes_v, i as int) == start + canvas_nodes_json(nodes_v, 0),
        decreases n - i,
    {
        let ghost before = out@;
        out.append("\t\t{\"id\":\"");
        append_dec(&mut out, i);
        out.append("\",\"x\":");
        append_dec(&mut out, i * 100);
        out.append(",\"y\":");
        append_dec(&mut out, i * 100);
        out.append(",\"width\":250,\"height\":60,\"type\":\"text\",\"text\":\"");
        out.append(nodes[i].as_str());
        out.append("\"}");
        if i + 1 < n {
            out.append(",\n");
        }
        proof {
            let sep: Seq<char> = if (i as int) < nodes_v.len() - 1 {
                ",\n"@
            } else {
                Seq::<char>::empty()
            };
            assert(out@ =~= before + canvas_node_entry(nodes_v[i as int], i as int) + sep);
            assert(out@ + canvas_nodes_json(nodes_v, i as int + 1) =~= before
                + canvas_nodes_json(nodes_v, i as int));
        }
        i += 1;
    }
    proof {
        assert(canvas_nodes_json(nodes_v, n as int) =~= Seq::<char>::empty());
        assert(out@ =~= out@ + Seq::<char>::empty());
    }
    out.append("\n\t],\n");
    out.append("\t\"edges\":[\n");
    let ghost estart = out@;
    let m = edges.len();
    let mut j: usize = 0;
    while j < m
        invariant
            m == edges.len(),
            j <= m,
            edges.deep_view() == edges_v,
            edges_v.len() == m,
            estart == start + canvas_nodes_json(nodes_v, 0) + "\n\t],\n"@ + "\t\"edges\":[\n"@,
            start == "{\n"@ + "\t\"nodes\":[\n"@,
            out@ + canvas_edges_json(edges_v, j as int) == estart + canvas_edges_json(edges_v, 0),
        decreases m - j,
    {
        let ghost before = out@;
        let e = &edges[j];
        out.append("\t\t{\"id\":\"");
        append_dec(&mut out, j);
        out.append("\",\"fromNode\":\"");
        append_dec(&mut out, e.0);
        out.append("\",\"fromSide\":\"left\",\"toNode\":\"");
        append_dec(&mut out, e.1);
        out.append("\",\"toSide\":\"right\",\"label\":\"");
        out.append(e.2.as_str());
        out.append("\"}");
        if j + 1 < m {
            out.append(",\n");
        }
        proof {
            let sep: Seq<char> = if (j as int) < edges_v.len() - 1 {
                ",\n"@
            } else {
                Seq::<char>::empty()
            };
            assert(out@ =~= before + canvas_edge_entry(edges_v[j as int], j as int) + sep);
            assert(out@ + canvas_edges_json(edges_v, j as int + 1) =~= before
                + canvas_edges_json(edges_v, j as int));
        }
        j += 1;
    }
    proof {
        assert(canvas_edges_json(edges_v, m as int) =~= Seq::<char>::empty());
        assert(out@ =~= out@ + Seq::<char>::empty());
    }
    out.append("\n\t]\n");
    out.append("}");
    proof {
        assert(out@ =~= canvas_spec(nodes_v, edges_v));
    }
    out
}

} // verus!

verus! {

/// The bulleted references of node `i`: one line per outgoing edge, from
/// index `j` on, naming the raw target node and the edge label.
pub open spec fn vault_refs(
    nodes: Seq<Seq<char>>,
    edges: Seq<(usize, usize, Seq<char>)>,
    i: int,
    j: int,
) -> Seq<char>
    decreases edges.len() - j,
{
    if j < 0 || j >= edges.len() {
        Seq::empty()
    } else {
        (if edges[j].0 == i {
            "- [["@ + nodes[edges[j].1 as int] + "]]: "@ + edges[j].2 + "\n"@
        } else {
            Seq::<char>::empty()
        }) + vault_refs(nodes, edges, i, j + 1)
    }
}

/// The vault unit of node `i`: its sanitized name, and a text that opens
/// with a heading naming the node and lists one reference per outgoing
/// edge.
pub open spec fn vault_file_spec(
    nodes: Seq<Seq<char>>,
    edges: Seq<(usize, usize, Seq<char>)>,
    i: int,
) -> (Seq<char>, Seq<char>) {
    let name = sanitized(nodes[i]);
    (name, "# "@ + name + "\n"@ + vault_refs(nodes, edges, i, 0))
}

/// The whole vault: one named text unit per node, in node order.
pub open spec fn vault_spec(
    nodes: Seq<Seq<char>>,
    edges: Seq<(usize, usize, Seq<char>)>,
) -> Seq<(Seq<char>, Seq<char>)> {
    Seq::new(nodes.len(), |i: int| vault_file_spec(nodes, edges, i))
}

/// Renders the discovered graph as a vault: for each node a pair of its
/// path-safe name and a text unit holding a heading and one bulleted
/// reference per outgoing edge.
pub fn vault_documents(graph: &Graph) -> (r: Vec<(String, String)>)
    requires
        graph.wf(),
    ensures
        r.deep_view() == vault_spec(graph.nodes_seq(), graph.edges_seq()),
{
    let ghost nodes_v = graph.nodes_seq();
    let ghost edges_v = graph.edges_seq();
    let (nodes, edges) = graph.snapshot();
    let mut out: Vec<(String, String)> = Vec::new();
    let n = nodes.len();
    let m = edges.len();
    let mut i: usize = 0;
    while i < n
        invariant
            n == nodes.len(),
            m == edges.len(),
            i <= n,
            nodes.deep_view() == nodes_v,
            edges.deep_view() == edges_v,
            nodes_v.len() == n,
            edges_v.len() == m,
            graph.wf(),
            nodes_v == graph.nodes_seq(),
            edges_v == graph.edges_seq(),
            out.deep_view().len() == i,
            forall|k: int|
                0 <= k < i ==> out.deep_view()[k] == vault_file_spec(nodes_v, edges_v, k),
        decreases n - i,
    {
        let name = sanitize_name(nodes[i].as_str());
        let mut content = String::new();
        content.append("# ");
        content.append(name.as_str());
        content.append("\n");
        let ghost head = content@;
        let mut j: usize = 0;
        while j < m
            invariant
                m == edges.len(),
                j <= m,
                i < n,
                n == nodes.len(),
                nodes.deep_view() == nodes_v,
                edges.deep_view() == edges_v,
                nodes_v.len() == n,
                edges_v.len() == m,
                graph.wf(),
                nodes_v == graph.nodes_seq(),
                edges_v == graph.edges_seq(),
                content@ + vault_refs(nodes_v, edges_v, i as int, j as int) == head + vault_refs(
                    nodes_v,
                    edges_v,
                    i as int,
                    0,
                ),
            decreases m - j,
        {
            let ghost before = content@;
            let e = &edges[j];
            if e.0 == i {
                proof {
                    assert(edges_v[j as int].1 < nodes_v.len());
                }
                content.append("- [[");
                content.append(nodes[e.1].as_str());
                content.append("]]: ");
                content.append(e.2.as_str());
                content.append("\n");
                proof {
                    assert(content@ =~= before + ("- [["@ + nodes_v[edges_v[j as int].1 as int]
                        + "]]: "@ + edges_v[j as int].2 + "\n"@));
                }
            }
            proof {
                assert(content@ + vault_refs(nodes_v, edges_v, i as int, j as int + 1) =~= before
                    + vault_refs(nodes_v, edges_v, i as int, j as int));
            }
            j += 1;
        }
        proof {
            assert(vault_refs(nodes_v, edges_v, i as int, m as int) =~= Seq::<char>::empty());
            assert(content@ =~= content@ + Seq::<char>::empty());
            assert(content@ =~= head + vault_refs(nodes_v, edges_v, i as int, 0));
        }
        let ghost prev = out.deep_view();
        out.push((name, content));
        proof {
            assert(out.deep_view() =~= prev.push(vault_file_spec(nodes_v, edges_v, i as int)));
        }
        i += 1;
    }
    proof {
        assert(out.deep_view() =~= vault_spec(nodes_v, edges_v));
    }
    out
}

} // verus!
