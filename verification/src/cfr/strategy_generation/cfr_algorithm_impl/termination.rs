//! Why a traversal ends: every move brings play nearer to its end, so the
//! tree below a state is finite, and the work left on the stack shrinks
//! with every entry handled.

use vstd::prelude::*;
use crate::cfr::game_model::{OracleGamestate, VisibleInfo};

verus! {

/// The number of states in the tree of play below `g`, `g` included.
pub open spec fn subtree_cost<INFO: VisibleInfo, G: OracleGamestate<INFO>>(g: G) -> nat
    decreases g.remaining(), 1nat, 0nat,
{
    if g.spec_info().terminal_utility() is Some {
        1
    } else {
        1 + children_cost::<INFO, G>(g, g.spec_info().legal_moves().len() as int)
    }
}

/// The number of states in the tree of play below the successor of `g` by
/// its move at place `i`; a successor counts as far as it is nearer to the
/// end of play than `g`, as every successor by a legal move is.
pub open spec fn child_cost<INFO: VisibleInfo, G: OracleGamestate<INFO>>(g: G, i: int) -> nat
    decreases g.remaining(), 0nat, 0nat,
{
    let child = g.spec_advance(g.spec_info().legal_moves()[i]);
    if child.remaining() < g.remaining() {
        subtree_cost::<INFO, G>(child)
    } else {
        0
    }
}

/// The number of states in the trees below the first `k` successors of `g`.
pub open spec fn children_cost<INFO: VisibleInfo, G: OracleGamestate<INFO>>(g: G, k: int) -> nat
    decreases g.remaining(), 0nat, k + 1,
{
    if k <= 0 {
        0
    } else {
        children_cost::<INFO, G>(g, k - 1) + child_cost::<INFO, G>(g, k - 1)
    }
}

/// The work left for a stack of entries: a fresh entry may still unfold its
/// whole tree, each state of it pushed once and handled twice; an entry
/// that has unfolded, and waits for its successors, is handled once more.
pub open spec fn stack_weight<INFO: VisibleInfo, G: OracleGamestate<INFO>>(
    stack: Seq<(usize, G)>,
    expanded: Seq<bool>,
) -> nat
    decreases stack.len(),
{
    if stack.len() == 0 {
        0
    } else {
        stack_weight::<INFO, G>(stack.drop_last(), expanded.drop_last()) + (if expanded.last() {
            1nat
        } else {
            2 * subtree_cost::<INFO, G>(stack.last().1)
        })
    }
}

/// A state costs at least itself.
pub proof fn lemma_subtree_cost_positive<INFO: VisibleInfo, G: OracleGamestate<INFO>>(g: G)
    ensures
        subtree_cost::<INFO, G>(g) >= 1,
{
}

/// The trees below the first `k + 1` successors are those below the first
/// `k` and the tree below the next, which counts where it is nearer to
/// the end of play.
pub proof fn lemma_children_cost_next<INFO: VisibleInfo, G: OracleGamestate<INFO>>(g: G, k: int)
    requires
        0 <= k < g.spec_info().legal_moves().len(),
    ensures
        children_cost::<INFO, G>(g, k + 1) == children_cost::<INFO, G>(g, k) + child_cost::<INFO, G>(
            g,
            k,
        ),
        g.spec_advance(g.spec_info().legal_moves()[k]).remaining() < g.remaining() ==> child_cost::<
            INFO,
            G,
        >(g, k) == subtree_cost::<INFO, G>(g.spec_advance(g.spec_info().legal_moves()[k])),
        children_cost::<INFO, G>(g, k + 1) <= children_cost::<INFO, G>(
            g,
            g.spec_info().legal_moves().len() as int,
        ),
{
    lemma_children_cost_monotone::<INFO, G>(g, k + 1, g.spec_info().legal_moves().len() as int);
}

/// The trees below the first `k` successors cost no more than those below
/// all of them.
pub proof fn lemma_children_cost_monotone<INFO: VisibleInfo, G: OracleGamestate<INFO>>(
    g: G,
    k: int,
    n: int,
)
    requires
        0 <= k <= n,
    ensures
        children_cost::<INFO, G>(g, k) <= children_cost::<INFO, G>(g, n),
    decreases n - k,
{
    if k < n {
        lemma_children_cost_monotone::<INFO, G>(g, k, n - 1);
    }
}

/// The weight of a stack with one more entry on top.
pub proof fn lemma_stack_weight_push<INFO: VisibleInfo, G: OracleGamestate<INFO>>(
    stack: Seq<(usize, G)>,
    expanded: Seq<bool>,
    top: (usize, G),
    flag: bool,
)
    requires
        stack.len() == expanded.len(),
    ensures
        stack_weight::<INFO, G>(stack.push(top), expanded.push(flag)) == stack_weight::<INFO, G>(
            stack,
            expanded,
        ) + (if flag {
            1nat
        } else {
            2 * subtree_cost::<INFO, G>(top.1)
        }),
{
    assert(stack.push(top).drop_last() =~= stack);
    assert(expanded.push(flag).drop_last() =~= expanded);
}

/// The work left for entries none of which has unfolded yet.
pub open spec fn pending_weight<INFO: VisibleInfo, G: OracleGamestate<INFO>>(
    items: Seq<(usize, G)>,
) -> nat
    decreases items.len(),
{
    if items.len() == 0 {
        0
    } else {
        pending_weight::<INFO, G>(items.drop_last()) + 2 * subtree_cost::<INFO, G>(items.last().1)
    }
}

/// Fresh entries put on top of a stack add their own weight to it.
pub proof fn lemma_stack_weight_with_pending<INFO: VisibleInfo, G: OracleGamestate<INFO>>(
    below: Seq<(usize, G)>,
    below_expanded: Seq<bool>,
    items: Seq<(usize, G)>,
)
    requires
        below.len() == below_expanded.len(),
    ensures
        stack_weight::<INFO, G>(
            below + items,
            below_expanded + Seq::new(items.len(), |i: int| false),
        ) == stack_weight::<INFO, G>(below, below_expanded) + pending_weight::<INFO, G>(items),
    decreases items.len(),
{
    let flags = Seq::new(items.len(), |i: int| false);
    if items.len() == 0 {
        assert(below + items =~= below);
        assert(below_expanded + flags =~= below_expanded);
    } else {
        let fewer = Seq::new((items.len() - 1) as nat, |i: int| false);
        lemma_stack_weight_with_pending::<INFO, G>(below, below_expanded, items.drop_last());
        assert((below + items).drop_last() =~= below + items.drop_last());
        assert((below_expanded + flags).drop_last() =~= below_expanded + fewer);
        assert((below + items).last() == items.last());
        assert(!(below_expanded + flags).last());
    }
}

} // verus!
