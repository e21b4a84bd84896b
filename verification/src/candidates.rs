//! The functions that call a target, found by the edges into its entry block.
use vstd::prelude::*;

use crate::seqs::lemma_filter_same;

verus! {

/// An edge of the control-flow graph of the whole project, seen from where it leads.
#[derive(Debug, Clone, Copy, PartialEq, Eq, Structural)]
pub struct Edge {
    pub is_call: bool,
    pub is_branch: bool,
    /// The function that the edge comes from.
    pub function: u64,
    /// The block that the edge comes from.
    pub block: u64,
}

/// A function that calls a target, and the blocks that do.
#[derive(Debug)]
pub struct Candidate {
    pub function: u64,
    pub blocks: Vec<u64>,
}

/// A [`Candidate`] as contracts see it.
pub struct CandidateView {
    pub function: u64,
    pub blocks: Seq<u64>,
}

impl View for Candidate {
    type V = CandidateView;

    open spec fn view(&self) -> CandidateView {
        CandidateView { function: self.function, blocks: self.blocks@ }
    }
}

/// The candidates of `list` as contracts see them.
pub open spec fn candidates_view(list: Seq<Candidate>) -> Seq<CandidateView> {
    list.map_values(|candidate: Candidate| candidate@)
}

/// Whether control goes over to the target by `edge`: by a call or, `with_jumps`, by a branch.
pub open spec fn reaches(edge: Edge, with_jumps: bool) -> bool {
    edge.is_call || (with_jumps && edge.is_branch)
}

/// The edges of `function` among `edges` by which control goes over to the target.
pub open spec fn edges_from(edges: Seq<Edge>, with_jumps: bool, function: u64) -> Seq<Edge> {
    edges.filter(|edge: Edge| reaches(edge, with_jumps) && edge.function == function)
}

/// The blocks of `function` from which control goes over to the target, one for each such edge.
pub open spec fn blocks_from(edges: Seq<Edge>, with_jumps: bool, function: u64) -> Seq<u64> {
    edges_from(edges, with_jumps, function).map_values(|edge: Edge| edge.block)
}

/// Whether `list` holds the functions with an edge to the target, by their numbers, each with the
/// blocks from which its edges come.
pub open spec fn is_candidates(
    edges: Seq<Edge>,
    with_jumps: bool,
    list: Seq<CandidateView>,
) -> bool {
    &&& forall|i: int, j: int|
        0 <= i < j < list.len() ==> (#[trigger] list[i]).function < (#[trigger] list[j]).function
    &&& forall|i: int|
        0 <= i < list.len() ==> (#[trigger] list[i]).blocks == blocks_from(
            edges,
            with_jumps,
            list[i].function,
        ) && list[i].blocks.len() > 0
    &&& forall|function: u64|
        (#[trigger] blocks_from(edges, with_jumps, function)).len() > 0 ==> exists|i: int|
            0 <= i < list.len() && (#[trigger] list[i]).function == function
}

/// The functions with an edge to the target, each with the blocks from which its edges come.
pub open spec fn candidates_of(edges: Seq<Edge>, with_jumps: bool) -> Seq<CandidateView> {
    choose|list: Seq<CandidateView>| is_candidates(edges, with_jumps, list)
}

proof fn lemma_prefix_unique(
    edges: Seq<Edge>,
    with_jumps: bool,
    a: Seq<CandidateView>,
    b: Seq<CandidateView>,
    n: int,
)
    requires
        is_candidates(edges, with_jumps, a),
        is_candidates(edges, with_jumps, b),
        0 <= n <= a.len(),
    ensures
        n <= b.len(),
        forall|i: int| 0 <= i < n ==> (#[trigger] a[i]) == b[i],
    decreases n,
{
    if n > 0 {
        lemma_prefix_unique(edges, with_jumps, a, b, n - 1);
        let k = n - 1;
        assert(blocks_from(edges, with_jumps, a[k].function).len() > 0);
        let j = choose|j: int| 0 <= j < b.len() && (#[trigger] b[j]).function == a[k].function;
        if j < k {
            assert(a[j] == b[j]);
            assert(a[j].function < a[k].function);
        }
        assert(k < b.len());
        assert(blocks_from(edges, with_jumps, b[k].function).len() > 0);
        let i = choose|i: int| 0 <= i < a.len() && (#[trigger] a[i]).function == b[k].function;
        if i < k {
            assert(a[i] == b[i]);
            assert(b[i].function < b[k].function);
        }
        assert(b[k].function <= b[j].function);
        assert(a[k].function <= a[i].function);
    }
}

/// The edges into a target determine its candidates.
pub proof fn lemma_candidates_unique(
    edges: Seq<Edge>,
    with_jumps: bool,
    a: Seq<CandidateView>,
    b: Seq<CandidateView>,
)
    requires
        is_candidates(edges, with_jumps, a),
        is_candidates(edges, with_jumps, b),
    ensures
        a == b,
{
    lemma_prefix_unique(edges, with_jumps, a, b, a.len() as int);
    lemma_prefix_unique(edges, with_jumps, b, a, b.len() as int);
    assert(a =~= b);
}

proof fn lemma_blocks_push(edges: Seq<Edge>, with_jumps: bool, edge: Edge, function: u64)
    ensures
        blocks_from(edges.push(edge), with_jumps, function) == if reaches(edge, with_jumps)
            && edge.function == function {
            blocks_from(edges, with_jumps, function).push(edge.block)
        } else {
            blocks_from(edges, with_jumps, function)
        },
{
    edges.lemma_filter_push(
        edge,
        |e: Edge| reaches(e, with_jumps) && e.function == function,
    );
    if reaches(edge, with_jumps) && edge.function == function {
        assert(blocks_from(edges.push(edge), with_jumps, function) =~= blocks_from(
            edges,
            with_jumps,
            function,
        ).push(edge.block));
    }
}

proof fn lemma_blocks_empty(with_jumps: bool, function: u64)
    ensures
        blocks_from(Seq::empty(), with_jumps, function) == Seq::<u64>::empty(),
{
    reveal(Seq::filter);
    assert(blocks_from(Seq::empty(), with_jumps, function) =~= Seq::<u64>::empty());
}

/// Adds `edge`, by which control goes over to the target, to the candidates `list`.
fn add_edge(
    list: &mut Vec<Candidate>,
    edge: &Edge,
    with_jumps: bool,
    Ghost(before): Ghost<Seq<Edge>>,
)
    requires
        is_candidates(before, with_jumps, candidates_view(old(list)@)),
        reaches(*edge, with_jumps),
    ensures
        is_candidates(before.push(*edge), with_jumps, candidates_view(final(list)@)),
{
    let ghost was = candidates_view(list@);
    let ghost edges = before.push(*edge);
    let mut at: usize = 0;
    while at < list.len() && list[at].function < edge.function
        invariant
            at <= list.len(),
            was == candidates_view(list@),
            forall|i: int| 0 <= i < at ==> (#[trigger] was[i]).function < edge.function,
        decreases list.len() - at,
    {
        at += 1;
    }
    if at < list.len() {
        assert(was[at as int].function >= edge.function);
    }
    if at < list.len() && list[at].function == edge.function {
        list[at].blocks.push(edge.block);
        let ghost now = candidates_view(list@);
        proof {
            assert forall|i: int| 0 <= i < now.len() implies (#[trigger] now[i]).blocks
                == blocks_from(edges, with_jumps, now[i].function) && now[i].blocks.len() > 0 by {
                assert(was[i].function == now[i].function);
                lemma_blocks_push(before, with_jumps, *edge, now[i].function);
                if i < at {
                    assert(was[i].function < was[at as int].function);
                } else if i > at {
                    assert(was[at as int].function < was[i].function);
                }
            }
            assert forall|i: int, j: int| 0 <= i < j < now.len() implies (
            #[trigger] now[i]).function < (#[trigger] now[j]).function by {
                assert(was[i].function < was[j].function);
            }
            assert forall|function: u64|
                (#[trigger] blocks_from(edges, with_jumps, function)).len() > 0 implies exists|
                i: int,
            |
                0 <= i < now.len() && (#[trigger] now[i]).function == function by {
                lemma_blocks_push(before, with_jumps, *edge, function);
                if function == edge.function {
                    assert(now[at as int].function == function);
                } else {
                    let i = choose|i: int|
                        0 <= i < was.len() && (#[trigger] was[i]).function == function;
                    assert(now[i].function == function);
                }
            }
        }
    } else {
        let mut blocks: Vec<u64> = Vec::new();
        blocks.push(edge.block);
        let ghost added = CandidateView { function: edge.function, blocks: blocks@ };
        list.insert(at, Candidate { function: edge.function, blocks });
        let ghost now = candidates_view(list@);
        proof {
            assert(now =~= was.insert(at as int, added));
            lemma_blocks_push(before, with_jumps, *edge, edge.function);
            if at < was.len() {
                assert(was[at as int].function > edge.function);
            }
            assert forall|i: int| at <= i < was.len() implies (#[trigger] was[i]).function
                > edge.function by {
                if i > at {
                    assert(was[at as int].function < was[i].function);
                }
            }
            if blocks_from(before, with_jumps, edge.function).len() > 0 {
                let i = choose|i: int|
                    0 <= i < was.len() && (#[trigger] was[i]).function == edge.function;
                assert(false);
            }
            assert(blocks_from(before, with_jumps, edge.function) =~= Seq::<u64>::empty());
            assert(blocks_from(edges, with_jumps, edge.function) =~= blocks@);
            assert forall|i: int| 0 <= i < now.len() implies (#[trigger] now[i]).blocks
                == blocks_from(edges, with_jumps, now[i].function) && now[i].blocks.len() > 0 by {
                lemma_blocks_push(before, with_jumps, *edge, now[i].function);
                if i < at {
                    assert(now[i] == was[i]);
                } else if i > at {
                    assert(now[i] == was[i - 1]);
                }
            }
            assert forall|i: int, j: int| 0 <= i < j < now.len() implies (
            #[trigger] now[i]).function < (#[trigger] now[j]).function by {
                if i < at && j < at {
                    assert(was[i].function < was[j].function);
                } else if i < at && j > at {
                    assert(was[i].function < was[j - 1].function);
                } else if i > at {
                    assert(was[i - 1].function < was[j - 1].function);
                }
            }
            assert forall|function: u64|
                (#[trigger] blocks_from(edges, with_jumps, function)).len() > 0 implies exists|
                i: int,
            |
                0 <= i < now.len() && (#[trigger] now[i]).function == function by {
                lemma_blocks_push(before, with_jumps, *edge, function);
                if function == edge.function {
                    assert(now[at as int].function == function);
                } else {
                    let i = choose|i: int|
                        0 <= i < was.len() && (#[trigger] was[i]).function == function;
                    if i < at {
                        assert(now[i].function == function);
                    } else {
                        assert(now[i + 1].function == function);
                    }
                }
            }
        }
    }
}

/// The functions with an edge to the target among `edges`, each with the blocks from which its edges
/// come.
pub fn find_candidates(edges: &Vec<Edge>, with_jumps: bool) -> (res: Vec<Candidate>)
    ensures
        is_candidates(edges@, with_jumps, candidates_view(res@)),
        candidates_view(res@) == candidates_of(edges@, with_jumps),
{
    let mut list: Vec<Candidate> = Vec::new();
    proof {
        assert(edges@.take(0) =~= Seq::<Edge>::empty());
        assert forall|function: u64|
            (#[trigger] blocks_from(Seq::<Edge>::empty(), with_jumps, function)).len() == 0 by {
            lemma_blocks_empty(with_jumps, function);
        }
    }
    let mut n: usize = 0;
    while n < edges.len()
        invariant
            n <= edges.len(),
            is_candidates(edges@.take(n as int), with_jumps, candidates_view(list@)),
        decreases edges.len() - n,
    {
        let edge = &edges[n];
        let ghost before = edges@.take(n as int);
        proof {
            assert(edges@.take(n + 1) =~= before.push(*edge));
        }
        if edge.is_call || (with_jumps && edge.is_branch) {
            add_edge(&mut list, edge, with_jumps, Ghost(before));
        } else {
            proof {
                assert forall|function: u64|
                    #[trigger] blocks_from(before.push(*edge), with_jumps, function) == blocks_from(
                        before,
                        with_jumps,
                        function,
                    ) by {
                    lemma_blocks_push(before, with_jumps, *edge, function);
                }
            }
        }
        n += 1;
    }
    proof {
        assert(edges@.take(n as int) =~= edges@);
        lemma_candidates_unique(
            edges@,
            with_jumps,
            candidates_view(list@),
            candidates_of(edges@, with_jumps),
        );
    }
    list
}

/// Whether control goes over to the target from `block` of `function`, by a call or, if branches
/// count as calls, by a branch.
pub open spec fn has_edge(edges: Seq<Edge>, with_jumps: bool, function: u64, block: u64) -> bool {
    exists|k: int|
        {
            &&& 0 <= k < edges.len()
            &&& (#[trigger] edges[k]).function == function
            &&& edges[k].block == block
            &&& edges[k].is_call || (edges[k].is_branch && with_jumps)
        }
}

/// The candidates are the functions from which control goes over to the target, by a call or, if
/// branches count as calls, by a branch: each function once, by their numbers, with the blocks from
/// which its edges come, one for each edge and in the order of the edges.
pub proof fn law_candidates_are_the_callers(
    edges: Seq<Edge>,
    with_jumps: bool,
    list: Seq<CandidateView>,
)
    requires
        is_candidates(edges, with_jumps, list),
    ensures
        list == candidates_of(edges, with_jumps),
        forall|i: int, j: int|
            0 <= i < j < list.len() ==> (#[trigger] list[i]).function < (
            #[trigger] list[j]).function,
        forall|k: int|
            0 <= k < edges.len() && ((#[trigger] edges[k]).is_call || (with_jumps
                && edges[k].is_branch)) ==> exists|i: int|
                0 <= i < list.len() && (#[trigger] list[i]).function == edges[k].function
                    && list[i].blocks.contains(edges[k].block),
        forall|i: int, b: int|
            #![trigger list[i].blocks[b]]
            0 <= i < list.len() && 0 <= b < list[i].blocks.len() ==> has_edge(
                edges,
                with_jumps,
                list[i].function,
                list[i].blocks[b],
            ),
        forall|i: int|
            0 <= i < list.len() ==> (#[trigger] list[i]).blocks.len() > 0 && list[i].blocks
                == edges.filter(
                |edge: Edge|
                    edge.function == list[i].function && (edge.is_call || (edge.is_branch
                        && with_jumps)),
            ).map_values(|edge: Edge| edge.block),
{
    lemma_candidates_unique(edges, with_jumps, list, candidates_of(edges, with_jumps));
    assert forall|i: int| 0 <= i < list.len() implies (#[trigger] list[i]).blocks == edges.filter(
        |edge: Edge|
            edge.function == list[i].function && (edge.is_call || (edge.is_branch && with_jumps)),
    ).map_values(|edge: Edge| edge.block) by {
        let function = list[i].function;
        lemma_filter_same(
            edges,
            |edge: Edge| reaches(edge, with_jumps) && edge.function == function,
            |edge: Edge|
                edge.function == list[i].function && (edge.is_call || (edge.is_branch
                    && with_jumps)),
        );
    }
    assert forall|k: int|
        0 <= k < edges.len() && ((#[trigger] edges[k]).is_call || (with_jumps
            && edges[k].is_branch)) implies exists|i: int|
        0 <= i < list.len() && (#[trigger] list[i]).function == edges[k].function
            && list[i].blocks.contains(edges[k].block) by {
        let function = edges[k].function;
        let from = |edge: Edge| reaches(edge, with_jumps) && edge.function == function;
        edges.lemma_filter_contains(from, k);
        let own = edges_from(edges, with_jumps, function);
        let b = choose|b: int| 0 <= b < own.len() && own[b] == edges[k];
        assert(blocks_from(edges, with_jumps, function)[b] == edges[k].block);
        assert(blocks_from(edges, with_jumps, function).len() > 0);
        let i = choose|i: int| 0 <= i < list.len() && (#[trigger] list[i]).function == function;
        assert(list[i].blocks[b] == edges[k].block);
    }
    assert forall|i: int, b: int|
        #![trigger list[i].blocks[b]]
        0 <= i < list.len() && 0 <= b < list[i].blocks.len() implies has_edge(
        edges,
        with_jumps,
        list[i].function,
        list[i].blocks[b],
    ) by {
        let function = list[i].function;
        let from = |edge: Edge| reaches(edge, with_jumps) && edge.function == function;
        let own = edges_from(edges, with_jumps, function);
        assert(own.contains(own[b]));
        edges.lemma_filter_contains_rev(from, own[b]);
        edges.lemma_filter_pred(from, b);
        let k = choose|k: int| 0 <= k < edges.len() && edges[k] == own[b];
        assert(edges[k].block == list[i].blocks[b]);
    }
}

} // verus!
