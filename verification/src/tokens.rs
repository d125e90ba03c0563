//! The flat token-stream renderer: a depth-first pre-order walk over
//! the whole tree, iterative with an explicit cursor (a current node
//! and a stack of parent positions), emitting one line per leaf node
//! and nothing for internal nodes.

use vstd::prelude::*;
use vstd::string::StringExecFns;

use crate::render::append_escaped;
use crate::render::spec_escape;
use crate::tree::spec_is_token;
use crate::tree::well_formed;
use crate::tree::SyntaxNode;
use crate::tree::SyntaxTree;

verus! {

/// One token line: the kind label, `@` and the source range unless
/// hidden, the quoted escaped text when asked for, then a newline.
pub open spec fn spec_token_line(node: SyntaxNode, hide_range: bool, show_text: bool) -> Seq<
    char,
> {
    node.kind@ + (if !hide_range {
        "@"@ + node.range_text@
    } else {
        Seq::<char>::empty()
    }) + (if show_text {
        " \""@ + spec_escape(node.text@) + "\""@
    } else {
        Seq::<char>::empty()
    }) + "\n"@
}

/// The token lines of the subtree rooted at `idx`, in depth-first
/// pre-order: a line for a leaf, nothing for an internal node, then
/// the children in order.
pub open spec fn spec_tokens_subtree(
    tree: SyntaxTree,
    idx: int,
    hide_range: bool,
    show_text: bool,
) -> Seq<char>
    decreases tree.nodes@.len() - idx, tree.nodes@[idx].children@.len() + 1,
{
    if !well_formed(tree) || !(0 <= idx < tree.nodes@.len()) {
        Seq::empty()
    } else {
        (if spec_is_token(tree.nodes@[idx]) {
            spec_token_line(tree.nodes@[idx], hide_range, show_text)
        } else {
            Seq::<char>::empty()
        }) + spec_tokens_children(tree, idx, 0, hide_range, show_text)
    }
}

/// The token lines of the children of `idx` from position `k` on.
pub open spec fn spec_tokens_children(
    tree: SyntaxTree,
    idx: int,
    k: int,
    hide_range: bool,
    show_text: bool,
) -> Seq<char>
    decreases tree.nodes@.len() - idx, tree.nodes@[idx].children@.len() - k,
{
    if !well_formed(tree) || !(0 <= idx < tree.nodes@.len()) || !(0 <= k) {
        Seq::empty()
    } else if k >= tree.nodes@[idx].children@.len() {
        Seq::empty()
    } else {
        spec_tokens_subtree(tree, tree.nodes@[idx].children@[k] as int, hide_range, show_text)
            + spec_tokens_children(tree, idx, k + 1, hide_range, show_text)
    }
}

/// The number of nodes in the subtree rooted at `idx`; the measure
/// that the iterative walk descends along.
pub open spec fn spec_size_subtree(tree: SyntaxTree, idx: int) -> nat
    decreases tree.nodes@.len() - idx, tree.nodes@[idx].children@.len() + 1,
{
    if !well_formed(tree) || !(0 <= idx < tree.nodes@.len()) {
        1
    } else {
        1 + spec_size_children(tree, idx, 0)
    }
}

/// The number of nodes in the subtrees of the children of `idx` from
/// position `k` on.
pub open spec fn spec_size_children(tree: SyntaxTree, idx: int, k: int) -> nat
    decreases tree.nodes@.len() - idx, tree.nodes@[idx].children@.len() - k,
{
    if !well_formed(tree) || !(0 <= idx < tree.nodes@.len()) || !(0 <= k) {
        0
    } else if k >= tree.nodes@[idx].children@.len() {
        0
    } else {
        spec_size_subtree(tree, tree.nodes@[idx].children@[k] as int) + spec_size_children(
            tree,
            idx,
            k + 1,
        )
    }
}

/// The number of leaf nodes in the subtree rooted at `idx`.
pub open spec fn spec_leaf_count_subtree(tree: SyntaxTree, idx: int) -> nat
    decreases tree.nodes@.len() - idx, tree.nodes@[idx].children@.len() + 1,
{
    if !well_formed(tree) || !(0 <= idx < tree.nodes@.len()) {
        0
    } else {
        (if spec_is_token(tree.nodes@[idx]) {
            1nat
        } else {
            0nat
        }) + spec_leaf_count_children(tree, idx, 0)
    }
}

/// The number of leaf nodes under the children of `idx` from
/// position `k` on.
pub open spec fn spec_leaf_count_children(tree: SyntaxTree, idx: int, k: int) -> nat
    decreases tree.nodes@.len() - idx, tree.nodes@[idx].children@.len() - k,
{
    if !well_formed(tree) || !(0 <= idx < tree.nodes@.len()) || !(0 <= k) {
        0
    } else if k >= tree.nodes@[idx].children@.len() {
        0
    } else {
        spec_leaf_count_subtree(tree, tree.nodes@[idx].children@[k] as int) + spec_leaf_count_children(
            tree,
            idx,
            k + 1,
        )
    }
}

/// The token lines still owed by the cursor's stack: for each frame,
/// the siblings after the child position it points at, innermost
/// frame first.
pub open spec fn spec_stack_rest(
    tree: SyntaxTree,
    stack: Seq<(usize, usize)>,
    hide_range: bool,
    show_text: bool,
) -> Seq<char>
    decreases stack.len(),
{
    if stack.len() == 0 {
        Seq::empty()
    } else {
        spec_tokens_children(
            tree,
            stack.last().0 as int,
            stack.last().1 + 1,
            hide_range,
            show_text,
        ) + spec_stack_rest(tree, stack.drop_last(), hide_range, show_text)
    }
}

/// The number of nodes still owed by the cursor's stack.
pub open spec fn spec_stack_size(tree: SyntaxTree, stack: Seq<(usize, usize)>) -> nat
    decreases stack.len(),
{
    if stack.len() == 0 {
        0
    } else {
        spec_size_children(tree, stack.last().0 as int, stack.last().1 + 1) + spec_stack_size(
            tree,
            stack.drop_last(),
        )
    }
}

/// Every stack frame points at an existing child of an existing node.
pub open spec fn spec_stack_ok(tree: SyntaxTree, stack: Seq<(usize, usize)>) -> bool {
    forall|j: int|
        0 <= j < stack.len() ==> (#[trigger] stack[j]).0 < tree.nodes@.len() && stack[j].1
            < tree.nodes@[stack[j].0 as int].children@.len()
}

/// Appends one leaf node's token line.
fn append_token_line(out: &mut String, node: &SyntaxNode, hide_range: bool, show_text: bool)
    ensures
        final(out)@ == old(out)@ + spec_token_line(*node, hide_range, show_text),
{
    out.append(node.kind.as_str());
    if !hide_range {
        out.append("@");
        out.append(node.range_text.as_str());
    }
    if show_text {
        out.append(" \"");
        append_escaped(out, node.text.as_str());
        out.append("\"");
    }
    out.append("\n");
    proof {
        assert(out@ =~= old(out)@ + spec_token_line(*node, hide_range, show_text));
    }
}

/// Walks the whole tree depth-first with an explicit cursor and
/// appends one line per leaf, in left-to-right pre-order.
#[verifier::rlimit(60)]
pub fn write_tokens(tree: &SyntaxTree, hide_range: bool, show_text: bool, out: &mut String)
    requires
        well_formed(*tree),
    ensures
        final(out)@ == old(out)@ + spec_tokens_subtree(*tree, 0, hide_range, show_text),
{
    let ghost total = spec_tokens_subtree(*tree, 0, hide_range, show_text);
    let mut cur: usize = 0;
    let mut stack: Vec<(usize, usize)> = Vec::new();
    proof {
        assert(out@ + spec_tokens_subtree(*tree, 0, hide_range, show_text) + spec_stack_rest(
            *tree,
            stack@,
            hide_range,
            show_text,
        ) =~= old(out)@ + total);
    }
    loop
        invariant
            well_formed(*tree),
            total == spec_tokens_subtree(*tree, 0, hide_range, show_text),
            cur < tree.nodes@.len(),
            spec_stack_ok(*tree, stack@),
            out@ + spec_tokens_subtree(*tree, cur as int, hide_range, show_text)
                + spec_stack_rest(*tree, stack@, hide_range, show_text) == old(out)@ + total,
        decreases spec_size_subtree(*tree, cur as int) + spec_stack_size(*tree, stack@),
    {
        let ghost m0 = spec_size_subtree(*tree, cur as int) + spec_stack_size(*tree, stack@);
        let node = &tree.nodes[cur];
        let ghost sub = spec_tokens_subtree(*tree, cur as int, hide_range, show_text);
        let ghost rest = spec_stack_rest(*tree, stack@, hide_range, show_text);
        if node.children.len() > 0 {
            // descend to the first child
            let ghost entry = out@;
            let ghost prev = stack@;
            stack.push((cur, 0));
            let next = node.children[0];
            proof {
                assert(stack@.drop_last() =~= prev);
                assert(spec_stack_rest(*tree, stack@, hide_range, show_text)
                    == spec_tokens_children(*tree, cur as int, 1, hide_range, show_text) + rest);
                assert(sub =~= spec_tokens_children(*tree, cur as int, 0, hide_range, show_text));
                assert(spec_tokens_children(*tree, cur as int, 0, hide_range, show_text)
                    == spec_tokens_subtree(*tree, next as int, hide_range, show_text)
                    + spec_tokens_children(*tree, cur as int, 1, hide_range, show_text));
                assert(entry + spec_tokens_subtree(*tree, next as int, hide_range, show_text) + (
                spec_tokens_children(*tree, cur as int, 1, hide_range, show_text) + rest) =~= entry
                    + sub + rest);
                assert(spec_stack_size(*tree, stack@) == spec_size_children(*tree, cur as int, 1)
                    + spec_stack_size(*tree, prev));
                assert(spec_size_subtree(*tree, cur as int) == 1 + spec_size_children(
                    *tree,
                    cur as int,
                    0,
                ));
                assert(spec_size_children(*tree, cur as int, 0) == spec_size_subtree(
                    *tree,
                    next as int,
                ) + spec_size_children(*tree, cur as int, 1));
            }
            cur = next;
            continue ;
        }
        // a leaf: emit its line, which finishes this subtree
        append_token_line(out, node, hide_range, show_text);
        proof {
            assert(spec_tokens_children(*tree, cur as int, 0, hide_range, show_text)
                == Seq::<char>::empty());
            assert(sub =~= spec_token_line(tree.nodes@[cur as int], hide_range, show_text));
            assert(out@ + spec_stack_rest(*tree, stack@, hide_range, show_text) =~= old(out)@
                + total);
            assert(spec_size_subtree(*tree, cur as int) == 1);
        }
        // advance to a sibling, ascending as long as none is left
        loop
            invariant_except_break
                well_formed(*tree),
                total == spec_tokens_subtree(*tree, 0, hide_range, show_text),
                spec_stack_ok(*tree, stack@),
                out@ + spec_stack_rest(*tree, stack@, hide_range, show_text) == old(out)@ + total,
                spec_stack_size(*tree, stack@) + 1 == m0,
            ensures
                well_formed(*tree),
                cur < tree.nodes@.len(),
                spec_stack_ok(*tree, stack@),
                out@ + spec_tokens_subtree(*tree, cur as int, hide_range, show_text)
                    + spec_stack_rest(*tree, stack@, hide_range, show_text) == old(out)@ + total,
                spec_size_subtree(*tree, cur as int) + spec_stack_size(*tree, stack@) < m0,
            decreases stack@.len(),
        {
            let ghost rest2 = spec_stack_rest(*tree, stack@, hide_range, show_text);
            let ghost size2 = spec_stack_size(*tree, stack@);
            if stack.len() == 0 {
                proof {
                    assert(rest2 =~= Seq::<char>::empty());
                    assert(out@ + rest2 =~= out@);
                }
                return ;
            }
            let ghost prestack = stack@;
            let frame = stack.pop().unwrap();
            let (p, k) = frame;
            proof {
                assert(prestack.drop_last() =~= stack@);
                assert(prestack.last() == (p, k));
                assert(prestack[prestack.len() - 1] == (p, k));
                assert(k < tree.nodes@[p as int].children@.len());
            }
            let nchild = tree.nodes[p].children.len();
            proof {
                assert(k < nchild);
                assert(rest2 == spec_tokens_children(*tree, p as int, k + 1, hide_range, show_text)
                    + spec_stack_rest(*tree, stack@, hide_range, show_text));
                assert(size2 == spec_size_children(*tree, p as int, k + 1) + spec_stack_size(
                    *tree,
                    stack@,
                ));
            }
            if k + 1 < nchild {
                let next = tree.nodes[p].children[k + 1];
                let ghost popped = stack@;
                stack.push((p, k + 1));
                proof {
                    assert(stack@.drop_last() =~= popped);
                    assert(spec_tokens_children(*tree, p as int, k + 1, hide_range, show_text)
                        == spec_tokens_subtree(*tree, next as int, hide_range, show_text)
                        + spec_tokens_children(*tree, p as int, k + 2, hide_range, show_text));
                    assert(out@ + spec_tokens_subtree(*tree, next as int, hide_range, show_text)
                        + spec_stack_rest(*tree, stack@, hide_range, show_text) =~= out@ + rest2);
                    assert(spec_size_children(*tree, p as int, k + 1) == spec_size_subtree(
                        *tree,
                        next as int,
                    ) + spec_size_children(*tree, p as int, k + 2));
                }
                cur = next;
                break ;
            } else {
                proof {
                    assert(spec_tokens_children(*tree, p as int, k + 1, hide_range, show_text)
                        =~= Seq::<char>::empty());
                    assert(out@ + spec_stack_rest(*tree, stack@, hide_range, show_text) =~= out@
                        + rest2);
                    assert(spec_size_children(*tree, p as int, k + 1) == 0);
                }
            }
        }
    }
}

/// Renders the token stream of a whole tree.
pub fn render_tokens(tree: &SyntaxTree, hide_range: bool, show_text: bool) -> (r: String)
    requires
        well_formed(*tree),
    ensures
        r@ == spec_tokens_subtree(*tree, 0, hide_range, show_text),
{
    let mut out = String::new();
    write_tokens(tree, hide_range, show_text, &mut out);
    out
}

} // verus!
