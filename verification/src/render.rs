//! The depth-filtered tree renderer. Indentation is range-relative:
//! a node is indented by its depth minus the range's effective start
//! depth (clamped to zero), so a subtree whose ancestors are hidden by
//! the range still reads as rooted at the left margin.

use vstd::prelude::*;
use vstd::string::StrSliceExecFns;
use vstd::string::StringExecFns;

use crate::config::spec_should_show_text;
use crate::config::DisplayConfig;
use crate::depth::spec_contains;
use crate::depth::DepthRange;
use crate::depth::Endpoint;
use crate::tree::spec_is_token;
use crate::tree::well_formed;
use crate::tree::SyntaxNode;
use crate::tree::SyntaxTree;

verus! {

/// Whether a node at this depth is printed: no range means print all.
pub open spec fn spec_should_print(depth: int, range: Option<DepthRange>) -> bool {
    match range {
        None => true,
        Some(r) => spec_contains(r, depth),
    }
}

/// The reference depth that indentation is measured from: the range's
/// start value, one past it for an exclusive start, zero with no range.
pub open spec fn spec_base_depth(range: Option<DepthRange>) -> int {
    match range {
        None => 0,
        Some(r) => match r.start {
            Endpoint::Inclusive(s) => s as int,
            Endpoint::Exclusive(s) => s as int + 1,
        },
    }
}

/// The reference depth is computable in machine arithmetic.
pub open spec fn spec_base_ok(range: Option<DepthRange>) -> bool {
    match range {
        None => true,
        Some(r) => match r.start {
            Endpoint::Inclusive(_) => true,
            Endpoint::Exclusive(s) => s < usize::MAX,
        },
    }
}

/// The dash-ladder prefix of a line: nothing at the root or at the
/// reference depth, otherwise two dashes per level past it, ending in
/// `-+`.
pub open spec fn spec_indent(depth: int, base: int) -> Seq<char> {
    if depth > 0 && depth > base {
        Seq::new(((depth - base - 1) * 2) as nat, |i: int| '-') + "-+"@
    } else {
        Seq::empty()
    }
}

/// One lowercase hexadecimal digit.
pub open spec fn hex_digit(d: int) -> char {
    if d == 0 {
        '0'
    } else if d == 1 {
        '1'
    } else if d == 2 {
        '2'
    } else if d == 3 {
        '3'
    } else if d == 4 {
        '4'
    } else if d == 5 {
        '5'
    } else if d == 6 {
        '6'
    } else if d == 7 {
        '7'
    } else if d == 8 {
        '8'
    } else if d == 9 {
        '9'
    } else if d == 10 {
        'a'
    } else if d == 11 {
        'b'
    } else if d == 12 {
        'c'
    } else if d == 13 {
        'd'
    } else if d == 14 {
        'e'
    } else {
        'f'
    }
}

/// The lowercase hexadecimal digits of `n`, most significant first,
/// without leading zeros.
pub open spec fn hex_digits(n: int) -> Seq<char>
    decreases n,
{
    if n < 16 {
        seq![hex_digit(n)]
    } else {
        hex_digits(n / 16) + seq![hex_digit(n % 16)]
    }
}

/// A control character: the C0 range, DEL, or the C1 range.
pub open spec fn is_control(c: char) -> bool {
    (c as int) < 32 || (127 <= c as int && c as int <= 159)
}

/// One escaped character: newline, carriage return, tab, the
/// backslash and both quotes become two-character escapes, every
/// other control character a unicode escape, and any remaining
/// character stands for itself.
pub open spec fn spec_escape_char(c: char) -> Seq<char> {
    if c == '\n' {
        "\\n"@
    } else if c == '\r' {
        "\\r"@
    } else if c == '\t' {
        "\\t"@
    } else if c == '\\' {
        "\\\\"@
    } else if c == '"' {
        "\\\""@
    } else if c == '\'' {
        "\\'"@
    } else if is_control(c) {
        "\\u{"@ + hex_digits(c as int) + "}"@
    } else {
        seq![c]
    }
}

/// A text with every character escaped.
pub open spec fn spec_escape(s: Seq<char>) -> Seq<char>
    decreases s.len(),
{
    if s.len() == 0 {
        Seq::empty()
    } else {
        spec_escape(s.drop_last()) + spec_escape_char(s.last())
    }
}

/// One rendered line: indentation, the kind label, then the optional
/// classification, source range and quoted escaped text, then a
/// newline.
pub open spec fn spec_render_line(
    node: SyntaxNode,
    depth: int,
    range: Option<DepthRange>,
    config: DisplayConfig,
) -> Seq<char> {
    spec_indent(depth, spec_base_depth(range)) + node.kind@ + (if config.show_node_type {
        if spec_is_token(node) {
            " (Token)"@
        } else {
            " (Node)"@
        }
    } else {
        Seq::<char>::empty()
    }) + (if config.show_range {
        " "@ + node.range_text@
    } else {
        Seq::<char>::empty()
    }) + (if spec_should_show_text(config, spec_is_token(node)) {
        " \""@ + spec_escape(node.text@) + "\""@
    } else {
        Seq::<char>::empty()
    }) + "\n"@
}

/// The rendering of the subtree rooted at `idx`: the node's own line
/// when its depth lies in the range, then the children in order, one
/// level deeper. A node outside the range is suppressed but its
/// subtree is still visited.
pub open spec fn spec_render_subtree(
    tree: SyntaxTree,
    idx: int,
    depth: int,
    range: Option<DepthRange>,
    config: DisplayConfig,
) -> Seq<char>
    decreases tree.nodes@.len() - idx, tree.nodes@[idx].children@.len() + 1,
{
    if !well_formed(tree) || !(0 <= idx < tree.nodes@.len()) {
        Seq::empty()
    } else {
        (if spec_should_print(depth, range) {
            spec_render_line(tree.nodes@[idx], depth, range, config)
        } else {
            Seq::<char>::empty()
        }) + spec_render_children(tree, idx, 0, depth + 1, range, config)
    }
}

/// The renderings of the children of `idx` from position `k` on.
pub open spec fn spec_render_children(
    tree: SyntaxTree,
    idx: int,
    k: int,
    depth: int,
    range: Option<DepthRange>,
    config: DisplayConfig,
) -> Seq<char>
    decreases tree.nodes@.len() - idx, tree.nodes@[idx].children@.len() - k,
{
    if !well_formed(tree) || !(0 <= idx < tree.nodes@.len()) || !(0 <= k) {
        Seq::empty()
    } else if k >= tree.nodes@[idx].children@.len() {
        Seq::empty()
    } else {
        spec_render_subtree(tree, tree.nodes@[idx].children@[k] as int, depth, range, config)
            + spec_render_children(tree, idx, k + 1, depth, range, config)
    }
}

/// Emits one lowercase hexadecimal digit.
fn hex_digit_char(d: u32) -> (c: char)
    requires
        d < 16,
    ensures
        c == hex_digit(d as int),
{
    if d == 0 {
        '0'
    } else if d == 1 {
        '1'
    } else if d == 2 {
        '2'
    } else if d == 3 {
        '3'
    } else if d == 4 {
        '4'
    } else if d == 5 {
        '5'
    } else if d == 6 {
        '6'
    } else if d == 7 {
        '7'
    } else if d == 8 {
        '8'
    } else if d == 9 {
        '9'
    } else if d == 10 {
        'a'
    } else if d == 11 {
        'b'
    } else if d == 12 {
        'c'
    } else if d == 13 {
        'd'
    } else if d == 14 {
        'e'
    } else {
        'f'
    }
}

/// Relies on String::push: appends exactly the one character.
#[verifier::external_body]
fn push_char(out: &mut String, c: char)
    ensures
        final(out)@ == old(out)@.push(c),
{
    out.push(c);
}

/// Appends the lowercase hexadecimal digits of `n`.
fn append_hex(out: &mut String, n: u32)
    ensures
        final(out)@ == old(out)@ + hex_digits(n as int),
    decreases n,
{
    if n < 16 {
        let c = hex_digit_char(n);
        push_char(out, c);
        proof {
            assert(out@ =~= old(out)@ + hex_digits(n as int));
        }
    } else {
        append_hex(out, n / 16);
        let c = hex_digit_char(n % 16);
        push_char(out, c);
        proof {
            assert(out@ =~= old(out)@ + hex_digits(n as int));
        }
    }
}

/// Decides whether a node at this depth is printed under the optional
/// range filter.
pub fn should_print(depth: usize, range: &Option<DepthRange>) -> (r: bool)
    ensures
        r == spec_should_print(depth as int, *range),
{
    match range {
        None => true,
        Some(range) => range.contains(depth),
    }
}

/// Computes the reference depth of the optional range filter.
fn base_depth(range: &Option<DepthRange>) -> (r: usize)
    requires
        spec_base_ok(*range),
    ensures
        r as int == spec_base_depth(*range),
{
    match range {
        None => 0,
        Some(range) => match range.start {
            Endpoint::Inclusive(start) => start,
            Endpoint::Exclusive(start) => start + 1,
        },
    }
}

/// Appends the text with each character escaped.
pub(crate) fn append_escaped(out: &mut String, s: &str)
    ensures
        final(out)@ == old(out)@ + spec_escape(s@),
{
    let n = s.unicode_len();
    let mut i: usize = 0;
    while i < n
        invariant
            n == s@.len(),
            0 <= i <= n,
            out@ == old(out)@ + spec_escape(s@.subrange(0, i as int)),
        decreases n - i,
    {
        let c = s.get_char(i);
        proof {
            let p = s@.subrange(0, i as int);
            let q = s@.subrange(0, i + 1);
            assert(q.drop_last() =~= p);
            assert(q.last() == s@[i as int]);
        }
        if c == '\n' {
            out.append("\\n");
        } else if c == '\r' {
            out.append("\\r");
        } else if c == '\t' {
            out.append("\\t");
        } else if c == '\\' {
            out.append("\\\\");
        } else if c == '"' {
            out.append("\\\"");
        } else if c == '\'' {
            out.append("\\'");
        } else {
            let u = c as u32;
            if u < 32 || (127 <= u && u <= 159) {
                out.append("\\u{");
                append_hex(out, u);
                out.append("}");
                proof {
                    assert(out@ =~= old(out)@ + spec_escape(s@.subrange(0, i as int))
                        + spec_escape_char(c));
                }
            } else {
                push_char(out, c);
                proof {
                    assert(out@ =~= old(out)@ + spec_escape(s@.subrange(0, i as int))
                        + spec_escape_char(c));
                }
            }
        }
        proof {
            assert(out@ =~= old(out)@ + spec_escape(s@.subrange(0, i + 1)));
        }
        i = i + 1;
    }
    proof {
        assert(s@.subrange(0, n as int) =~= s@);
    }
}

/// Appends the dash-ladder indentation for a node at `depth`.
fn append_indent(out: &mut String, depth: usize, base: usize)
    requires
        2 * depth <= usize::MAX,
    ensures
        final(out)@ == old(out)@ + spec_indent(depth as int, base as int),
{
    if depth > 0 && depth > base {
        let width = (depth - base - 1) * 2;
        let mut w: usize = 0;
        while w < width
            invariant
                0 <= w <= width,
                out@ == old(out)@ + Seq::new(w as nat, |i: int| '-'),
            decreases width - w,
        {
            push_char(out, '-');
            proof {
                assert(Seq::new((w + 1) as nat, |i: int| '-') =~= Seq::new(
                    w as nat,
                    |i: int| '-',
                ).push('-'));
            }
            w = w + 1;
        }
        out.append("-+");
        proof {
            assert(out@ =~= old(out)@ + spec_indent(depth as int, base as int));
        }
    } else {
        proof {
            assert(out@ =~= old(out)@ + spec_indent(depth as int, base as int));
        }
    }
}

/// Appends one node's rendered line.
fn append_line(
    out: &mut String,
    node: &SyntaxNode,
    depth: usize,
    range: &Option<DepthRange>,
    config: &DisplayConfig,
)
    requires
        spec_base_ok(*range),
        2 * depth <= usize::MAX,
    ensures
        final(out)@ == old(out)@ + spec_render_line(*node, depth as int, *range, *config),
{
    let base = base_depth(range);
    append_indent(out, depth, base);
    out.append(node.kind.as_str());
    let is_token = node.children.len() == 0;
    if config.show_node_type {
        if is_token {
            out.append(" (Token)");
        } else {
            out.append(" (Node)");
        }
    }
    if config.show_range {
        out.append(" ");
        out.append(node.range_text.as_str());
    }
    if config.should_show_text(is_token) {
        out.append(" \"");
        append_escaped(out, node.text.as_str());
        out.append("\"");
    }
    out.append("\n");
    proof {
        assert(out@ =~= old(out)@ + spec_render_line(*node, depth as int, *range, *config));
    }
}

/// Renders the subtree rooted at `idx` into `out`, filtering lines by
/// the optional depth range but always descending into children.
pub fn write_tree(
    tree: &SyntaxTree,
    idx: usize,
    depth: usize,
    range: &Option<DepthRange>,
    config: &DisplayConfig,
    out: &mut String,
)
    requires
        well_formed(*tree),
        idx < tree.nodes@.len(),
        spec_base_ok(*range),
        2 * (depth + (tree.nodes@.len() - idx)) <= usize::MAX,
    ensures
        final(out)@ == old(out)@ + spec_render_subtree(
            *tree,
            idx as int,
            depth as int,
            *range,
            *config,
        ),
    decreases tree.nodes@.len() - idx,
{
    if should_print(depth, range) {
        append_line(out, &tree.nodes[idx], depth, range, config);
    }
    let ghost mid = out@;
    let node = &tree.nodes[idx];
    let num = node.children.len();
    let mut k: usize = 0;
    while k < num
        invariant
            well_formed(*tree),
            idx < tree.nodes@.len(),
            spec_base_ok(*range),
            2 * (depth + (tree.nodes@.len() - idx)) <= usize::MAX,
            num == tree.nodes@[idx as int].children@.len(),
            node == tree.nodes@[idx as int],
            0 <= k <= num,
            out@ + spec_render_children(
                *tree,
                idx as int,
                k as int,
                depth + 1,
                *range,
                *config,
            ) == old(out)@ + spec_render_subtree(
                *tree,
                idx as int,
                depth as int,
                *range,
                *config,
            ),
        decreases num - k,
    {
        let c = node.children[k];
        let ghost before = out@;
        write_tree(tree, c, depth + 1, range, config, out);
        proof {
            assert(spec_render_children(*tree, idx as int, k as int, depth + 1, *range, *config)
                == spec_render_subtree(*tree, c as int, depth + 1, *range, *config)
                    + spec_render_children(
                    *tree,
                    idx as int,
                    k + 1,
                    depth + 1,
                    *range,
                    *config,
                ));
            assert(before + (spec_render_subtree(*tree, c as int, depth + 1, *range, *config)
                + spec_render_children(*tree, idx as int, k + 1, depth + 1, *range, *config)) =~= (
            before + spec_render_subtree(*tree, c as int, depth + 1, *range, *config))
                + spec_render_children(*tree, idx as int, k + 1, depth + 1, *range, *config));
        }
        k = k + 1;
    }
    proof {
        assert(out@ + spec_render_children(
            *tree,
            idx as int,
            num as int,
            depth + 1,
            *range,
            *config,
        ) =~= out@);
    }
}

/// Renders a whole tree from its root at the given starting depth.
pub fn render_tree(
    tree: &SyntaxTree,
    depth: usize,
    range: &Option<DepthRange>,
    config: &DisplayConfig,
) -> (r: String)
    requires
        well_formed(*tree),
        spec_base_ok(*range),
        2 * (depth + tree.nodes@.len()) <= usize::MAX,
    ensures
        r@ == spec_render_subtree(*tree, 0, depth as int, *range, *config),
{
    let mut out = String::new();
    write_tree(tree, 0, depth, range, config, &mut out);
    out
}

} // verus!
