//! The laws of the depth-range grammar, stated and proved once over
//! all inputs: what each recognized textual form parses to and which
//! depths the resulting range contains.

use vstd::prelude::*;

use crate::depth::digit_val;
use crate::depth::digits_only;
use crate::depth::ends_with_dots;
use crate::depth::excl_sep_at;
use crate::depth::first_excl_sep;
use crate::depth::first_incl_sep;
use crate::depth::has_excl_sep;
use crate::depth::has_incl_sep;
use crate::depth::incl_sep_at;
use crate::depth::is_digit;
use crate::depth::is_number;
use crate::depth::lemma_first_excl_sep_is;
use crate::depth::lemma_first_incl_sep_is;
use crate::depth::lemma_number_value_nonneg;
use crate::depth::number_value;
use crate::depth::spec_contains;
use crate::depth::spec_digits;
use crate::depth::spec_number_value;
use crate::depth::spec_end_point;
use crate::depth::spec_parse;
use crate::depth::spec_parse_split;
use crate::depth::starts_with_dots;
use crate::depth::usize_number;
use crate::depth::DepthRange;
use crate::depth::Endpoint;
use crate::depth::RangeError;
use crate::config::DisplayConfig;
use crate::render::hex_digit;
use crate::render::hex_digits;
use crate::render::is_control;
use crate::render::spec_escape;
use crate::render::spec_escape_char;
use crate::render::spec_indent;
use crate::render::spec_base_depth;
use crate::render::spec_render_children;
use crate::render::spec_render_line;
use crate::render::spec_render_subtree;
use crate::render::spec_should_print;
use crate::tokens::spec_leaf_count_children;
use crate::tokens::spec_leaf_count_subtree;
use crate::tokens::spec_size_children;
use crate::tokens::spec_size_subtree;
use crate::tokens::spec_token_line;
use crate::tokens::spec_tokens_children;
use crate::tokens::spec_tokens_subtree;
use crate::tree::well_formed;
use crate::tree::SyntaxTree;

verus! {

/// The separator of each flavour of range expression.
pub open spec fn spec_sep(end_inclusive: bool) -> Seq<char> {
    if end_inclusive {
        "..="@
    } else {
        ".."@
    }
}

/// A plain digit string is a numeric token whose digit run is the
/// string itself.
proof fn lemma_digit_token(s: Seq<char>)
    requires
        digits_only(s),
        s.len() > 0,
    ensures
        is_number(s),
        spec_digits(s) == s,
        spec_number_value(s) == number_value(s),
{
    assert(is_digit(s[0]));
    assert(s[0] != '+');
    assert(spec_digits(s) == s);
}

/// Parsing a string built of digits, a separator and digits again
/// always reaches the split classifier, split exactly at that
/// separator.
proof fn lemma_joined_reduces(a: Seq<char>, b: Seq<char>, end_inclusive: bool)
    requires
        digits_only(a),
        digits_only(b),
    ensures
        spec_parse(a + spec_sep(end_inclusive) + b) == spec_parse_split(
            a + spec_sep(end_inclusive) + b,
            a,
            b,
            end_inclusive,
        ),
        starts_with_dots(a + spec_sep(end_inclusive) + b) == (a.len() == 0),
        ends_with_dots(a + spec_sep(end_inclusive) + b) == (b.len() == 0 && !end_inclusive),
{
    reveal_strlit("..=");
    reveal_strlit("..");
    let sep = spec_sep(end_inclusive);
    let s = a + sep + b;
    let al = a.len() as int;
    let sl = sep.len() as int;
    assert(sl == if end_inclusive { 3int } else { 2int });
    assert(sep[0] == '.');
    assert(sep[1] == '.');
    assert(s[al] == '.');
    assert(!is_digit('.'));
    assert(s[0] != '+') by {
        if a.len() == 0 {
            assert(s[0] == sep[0]);
        } else {
            assert(s[0] == a[0]);
            assert(is_digit(s[0]));
        }
    }
    assert(spec_digits(s) == s);
    assert(!digits_only(s)) by {
        assert(0 <= al < s.len());
        assert(!is_digit(s[al]));
    }
    assert(!is_number(s));
    // the only possible `..=` occurrence is at the separator itself
    assert forall|i: int| i != al implies !incl_sep_at(s, i) by {
        if 0 <= i && i + 3 <= s.len() {
            if i + 2 < al {
                assert(s[i + 2] == a[i + 2]);
                assert(is_digit(s[i + 2]));
            } else if i + 2 < al + sl {
                if i + 2 - al == 2 {
                    assert(i == al);
                } else {
                    assert(s[i + 2] == sep[i + 2 - al]);
                    assert(s[i + 2] == '.');
                }
            } else {
                assert(s[i + 2] == b[i + 2 - al - sl]);
                assert(is_digit(s[i + 2]));
            }
            if i != al {
                assert(s[i + 2] != '=');
            }
        }
    }
    // before the separator everything is a digit, so no `..` there
    assert forall|j: int| 0 <= j < al implies !excl_sep_at(s, j) by {
        assert(s[j] == a[j]);
        assert(is_digit(s[j]));
    }
    assert(s.subrange(0, al) =~= a);
    assert(s.subrange(al + sl, s.len() as int) =~= b);
    if end_inclusive {
        assert(sep[2] == '=');
        assert(incl_sep_at(s, al));
        assert forall|j: int| 0 <= j < al implies !incl_sep_at(s, j) by {
            assert(j != al);
        }
        lemma_first_incl_sep_is(s, al);
        assert(spec_parse(s) == spec_parse_split(s, a, b, true));
    } else {
        assert(s[al + 1] == '.');
        assert(excl_sep_at(s, al));
        assert forall|i: int| !incl_sep_at(s, i) by {
            if i == al {
                if 0 <= i && i + 3 <= s.len() {
                    assert(s[i + 2] == b[0]);
                    assert(is_digit(s[i + 2]));
                }
            }
        }
        assert(!has_incl_sep(s));
        lemma_first_excl_sep_is(s, al);
        assert(spec_parse(s) == spec_parse_split(s, a, b, false));
    }
    // whether the whole expression starts or ends with `..`
    if a.len() == 0 {
        assert(s[0] == sep[0]);
        assert(s[1] == sep[1]);
        assert(starts_with_dots(s));
    } else {
        assert(s[0] == a[0]);
        assert(is_digit(s[0]));
        assert(!starts_with_dots(s));
    }
    if b.len() > 0 {
        assert(s[s.len() - 1] == b[b.len() - 1]);
        assert(is_digit(s[s.len() - 1]));
        assert(!ends_with_dots(s));
    } else if end_inclusive {
        assert(s[s.len() - 1] == sep[2]);
        assert(s[s.len() - 1] == '=');
        assert(!ends_with_dots(s));
    } else {
        assert(s[s.len() - 1] == sep[1]);
        assert(s[s.len() - 2] == sep[0]);
        assert(ends_with_dots(s));
    }
}

/// A whole number `n` parses to the range `[n, n]`, which contains
/// exactly the depth `n`: not the one below, not the one above.
pub proof fn lemma_parse_single_number(s: Seq<char>, n: usize)
    requires
        digits_only(s),
        s.len() > 0,
        number_value(s) == n as int,
    ensures
        spec_parse(s) == Ok::<DepthRange, RangeError>(DepthRange {
            start: Endpoint::Inclusive(n),
            end: Endpoint::Inclusive(n),
        }),
        forall|k: int| #[trigger] spec_contains(
            DepthRange { start: Endpoint::Inclusive(n), end: Endpoint::Inclusive(n) },
            k,
        ) == (k == n as int),
{
    lemma_digit_token(s);
    assert(usize_number(s));
}

/// A bounded expression `a..b` or `a..=b` parses to the range from
/// `a`'s value to `b`'s, containing exactly the depths between them
/// (the end excluded or included with the separator's flavour), and
/// fails with the inverted-bounds error when `a`'s value exceeds
/// `b`'s.
#[verifier::rlimit(60)]
pub proof fn lemma_parse_bounded(a: Seq<char>, b: Seq<char>, end_inclusive: bool)
    requires
        digits_only(a),
        a.len() > 0,
        digits_only(b),
        b.len() > 0,
        number_value(a) <= usize::MAX,
    ensures
        number_value(b) > usize::MAX ==> spec_parse(a + spec_sep(end_inclusive) + b)
            == Err::<DepthRange, RangeError>(RangeError::InvalidEndNumber),
        number_value(b) <= usize::MAX && number_value(a) > number_value(b) ==> spec_parse(
            a + spec_sep(end_inclusive) + b,
        ) == Err::<DepthRange, RangeError>(RangeError::StartGreaterThanEnd),
        number_value(b) <= usize::MAX && number_value(a) <= number_value(b) ==> spec_parse(
            a + spec_sep(end_inclusive) + b,
        ) == Ok::<DepthRange, RangeError>(DepthRange {
            start: Endpoint::Inclusive(number_value(a) as usize),
            end: spec_end_point(end_inclusive, number_value(b) as usize),
        }),
        number_value(b) <= usize::MAX ==> forall|k: int| #[trigger] spec_contains(
            DepthRange {
                start: Endpoint::Inclusive(number_value(a) as usize),
                end: spec_end_point(end_inclusive, number_value(b) as usize),
            },
            k,
        ) == (number_value(a) <= k && (if end_inclusive {
            k <= number_value(b)
        } else {
            k < number_value(b)
        })),
{
    lemma_joined_reduces(a, b, end_inclusive);
    lemma_digit_token(a);
    lemma_digit_token(b);
    lemma_number_value_nonneg(a);
    lemma_number_value_nonneg(b);
}

/// The value of an open-start expression on its own.
#[verifier::rlimit(60)]
proof fn lemma_open_start_value(b: Seq<char>, end_inclusive: bool)
    requires
        digits_only(b),
        b.len() > 0,
    ensures
        number_value(b) <= usize::MAX ==> spec_parse(spec_sep(end_inclusive) + b)
            == Ok::<DepthRange, RangeError>(DepthRange {
            start: Endpoint::Inclusive(0),
            end: spec_end_point(end_inclusive, number_value(b) as usize),
        }),
        number_value(b) > usize::MAX ==> spec_parse(spec_sep(end_inclusive) + b)
            == Err::<DepthRange, RangeError>(RangeError::InvalidEndNumber),
{
    let empty = Seq::<char>::empty();
    lemma_joined_reduces(empty, b, end_inclusive);
    assert(empty + spec_sep(end_inclusive) + b =~= spec_sep(end_inclusive) + b);
    lemma_digit_token(b);
    lemma_number_value_nonneg(b);
}

/// The value of the same expression with an explicit start of zero.
#[verifier::rlimit(60)]
proof fn lemma_zero_start_value(b: Seq<char>, end_inclusive: bool)
    requires
        digits_only(b),
        b.len() > 0,
    ensures
        number_value(b) <= usize::MAX ==> spec_parse(seq!['0'] + spec_sep(end_inclusive) + b)
            == Ok::<DepthRange, RangeError>(DepthRange {
            start: Endpoint::Inclusive(0),
            end: spec_end_point(end_inclusive, number_value(b) as usize),
        }),
        number_value(b) > usize::MAX ==> spec_parse(seq!['0'] + spec_sep(end_inclusive) + b)
            == Err::<DepthRange, RangeError>(RangeError::InvalidEndNumber),
{
    let zero = seq!['0'];
    assert(is_digit('0'));
    assert(digits_only(zero));
    lemma_joined_reduces(zero, b, end_inclusive);
    lemma_digit_token(b);
    lemma_digit_token(zero);
    assert(zero.drop_last() =~= Seq::<char>::empty());
    assert(number_value(Seq::<char>::empty()) == 0);
    assert(zero.last() == '0');
    assert(digit_val('0') == 0);
    assert(number_value(zero) == number_value(zero.drop_last()) * 10 + digit_val(zero.last()));
    lemma_number_value_nonneg(b);
}

/// An open-start expression `..b` or `..=b` parses exactly as the
/// same expression with an explicit start of zero.
pub proof fn lemma_parse_open_start(b: Seq<char>, end_inclusive: bool)
    requires
        digits_only(b),
        b.len() > 0,
    ensures
        number_value(b) <= usize::MAX ==> spec_parse(spec_sep(end_inclusive) + b)
            == Ok::<DepthRange, RangeError>(DepthRange {
            start: Endpoint::Inclusive(0),
            end: spec_end_point(end_inclusive, number_value(b) as usize),
        }),
        number_value(b) > usize::MAX ==> spec_parse(spec_sep(end_inclusive) + b)
            == Err::<DepthRange, RangeError>(RangeError::InvalidEndNumber),
        spec_parse(spec_sep(end_inclusive) + b) == spec_parse(
            seq!['0'] + spec_sep(end_inclusive) + b,
        ),
{
    lemma_open_start_value(b, end_inclusive);
    lemma_zero_start_value(b, end_inclusive);
}

/// An open-end expression `a..` parses to the range from `a`'s value
/// to the maximum representable depth, containing every depth from
/// `a`'s value on, the maximum included.
#[verifier::rlimit(60)]
pub proof fn lemma_parse_open_end(a: Seq<char>)
    requires
        digits_only(a),
        a.len() > 0,
    ensures
        number_value(a) <= usize::MAX ==> spec_parse(a + ".."@)
            == Ok::<DepthRange, RangeError>(DepthRange {
            start: Endpoint::Inclusive(number_value(a) as usize),
            end: Endpoint::Inclusive(usize::MAX),
        }),
        number_value(a) > usize::MAX ==> spec_parse(a + ".."@)
            == Err::<DepthRange, RangeError>(RangeError::InvalidStartNumber),
        number_value(a) <= usize::MAX ==> forall|k: int| #[trigger] spec_contains(
            DepthRange {
                start: Endpoint::Inclusive(number_value(a) as usize),
                end: Endpoint::Inclusive(usize::MAX),
            },
            k,
        ) == (number_value(a) <= k <= usize::MAX),
{
    let empty = Seq::<char>::empty();
    lemma_joined_reduces(a, empty, false);
    assert(a + spec_sep(false) + empty =~= a + ".."@);
    lemma_digit_token(a);
    lemma_number_value_nonneg(a);
}

/// A successfully parsed range always has an inclusive start bound,
/// so the renderer's reference depth is always computable from it.
#[verifier::rlimit(60)]
pub proof fn lemma_parse_start_inclusive(s: Seq<char>)
    ensures
        spec_parse(s) is Ok ==> spec_parse(s)->Ok_0.start is Inclusive,
{
}

/// A sequence with no newline in it.
pub open spec fn newline_free(s: Seq<char>) -> bool {
    forall|i: int| 0 <= i < s.len() ==> s[i] != '\n'
}

/// How many lines a text consists of: the number of newlines in it.
pub open spec fn spec_line_count(s: Seq<char>) -> nat
    decreases s.len(),
{
    if s.len() == 0 {
        0
    } else {
        spec_line_count(s.drop_last()) + (if s.last() == '\n' {
            1nat
        } else {
            0nat
        })
    }
}

/// Line counts add up over concatenation.
pub proof fn lemma_line_count_add(x: Seq<char>, y: Seq<char>)
    ensures
        spec_line_count(x + y) == spec_line_count(x) + spec_line_count(y),
    decreases y.len(),
{
    if y.len() == 0 {
        assert(x + y =~= x);
    } else {
        lemma_line_count_add(x, y.drop_last());
        assert((x + y).drop_last() =~= x + y.drop_last());
        assert((x + y).last() == y.last());
    }
}

/// A newline-free text counts no lines.
pub proof fn lemma_line_count_zero(s: Seq<char>)
    requires
        newline_free(s),
    ensures
        spec_line_count(s) == 0,
    decreases s.len(),
{
    if s.len() > 0 {
        assert(newline_free(s.drop_last()));
        lemma_line_count_zero(s.drop_last());
    }
}

/// Two newline-free texts concatenate to a newline-free text.
proof fn lemma_newline_free_add(x: Seq<char>, y: Seq<char>)
    requires
        newline_free(x),
        newline_free(y),
    ensures
        newline_free(x + y),
{
    assert forall|i: int| 0 <= i < (x + y).len() implies (x + y)[i] != '\n' by {
        if i < x.len() {
            assert((x + y)[i] == x[i]);
        } else {
            assert((x + y)[i] == y[i - x.len()]);
        }
    }
}

/// Hexadecimal digits never contain a newline.
proof fn lemma_hex_digits_newline_free(n: int)
    ensures
        newline_free(hex_digits(n)),
    decreases n,
{
    if n < 16 {
        assert(hex_digit(n) != '\n');
        assert(newline_free(seq![hex_digit(n)])) by {
            assert(seq![hex_digit(n)][0] == hex_digit(n));
        }
    } else {
        lemma_hex_digits_newline_free(n / 16);
        assert(hex_digit(n % 16) != '\n');
        assert(newline_free(seq![hex_digit(n % 16)])) by {
            assert(seq![hex_digit(n % 16)][0] == hex_digit(n % 16));
        }
        lemma_newline_free_add(hex_digits(n / 16), seq![hex_digit(n % 16)]);
    }
}

/// Whatever a character escapes to carries no newline.
proof fn lemma_escape_char_newline_free(c: char)
    ensures
        newline_free(spec_escape_char(c)),
{
    reveal_strlit("\\n");
    reveal_strlit("\\r");
    reveal_strlit("\\t");
    reveal_strlit("\\\\");
    reveal_strlit("\\\"");
    reveal_strlit("\\'");
    reveal_strlit("\\u{");
    reveal_strlit("}");
    if c == '\n' || c == '\r' || c == '\t' || c == '\\' || c == '"' || c == '\'' {
    } else if is_control(c) {
        lemma_hex_digits_newline_free(c as int);
        assert(newline_free("\\u{"@));
        assert(newline_free("}"@));
        lemma_newline_free_add("\\u{"@, hex_digits(c as int));
        lemma_newline_free_add("\\u{"@ + hex_digits(c as int), "}"@);
    } else {
        assert(spec_escape_char(c) == seq![c]);
        assert(seq![c][0] == c);
    }
}

/// Escaping removes every newline, so an escaped text counts none.
pub proof fn lemma_escape_line_count(s: Seq<char>)
    ensures
        spec_line_count(spec_escape(s)) == 0,
    decreases s.len(),
{
    if s.len() > 0 {
        lemma_escape_line_count(s.drop_last());
        lemma_line_count_add(spec_escape(s.drop_last()), spec_escape_char(s.last()));
        let c = s.last();
        lemma_escape_char_newline_free(c);
        lemma_line_count_zero(spec_escape_char(c));
    }
}

/// A node whose depth falls outside the range contributes no line of
/// its own, yet its children are still visited and rendered.
pub proof fn lemma_filter_suppresses_only_lines(
    tree: SyntaxTree,
    idx: int,
    depth: int,
    range: DepthRange,
    config: DisplayConfig,
)
    requires
        well_formed(tree),
        0 <= idx < tree.nodes@.len(),
        !spec_contains(range, depth),
    ensures
        spec_render_subtree(tree, idx, depth, Some(range), config) == spec_render_children(
            tree,
            idx,
            0,
            depth + 1,
            Some(range),
            config,
        ),
{
    assert(Seq::<char>::empty() + spec_render_children(tree, idx, 0, depth + 1, Some(range), config)
        =~= spec_render_children(tree, idx, 0, depth + 1, Some(range), config));
}

/// Every node's kind label is newline-free.
pub open spec fn kinds_newline_free(tree: SyntaxTree) -> bool {
    forall|i: int|
        0 <= i < tree.nodes@.len() ==> newline_free(#[trigger] tree.nodes@[i].kind@)
}

/// Every node's source-range text is newline-free.
pub open spec fn ranges_newline_free(tree: SyntaxTree) -> bool {
    forall|i: int|
        0 <= i < tree.nodes@.len() ==> newline_free(#[trigger] tree.nodes@[i].range_text@)
}

/// Every display field switched off.
pub open spec fn all_flags_off(config: DisplayConfig) -> bool {
    &&& !config.show_range
    &&& !config.show_all_text
    &&& !config.show_node_text
    &&& !config.show_token_text
    &&& !config.show_node_type
}

/// With every display flag off, a rendered line is one line exactly.
proof fn lemma_plain_line_count(
    tree: SyntaxTree,
    idx: int,
    depth: int,
    config: DisplayConfig,
)
    requires
        well_formed(tree),
        0 <= idx < tree.nodes@.len(),
        all_flags_off(config),
        kinds_newline_free(tree),
    ensures
        spec_line_count(spec_render_line(tree.nodes@[idx], depth, None, config)) == 1,
{
    reveal_strlit("\n");
    reveal_strlit("-+");
    let node = tree.nodes@[idx];
    let ind = spec_indent(depth, spec_base_depth(None));
    assert(newline_free(ind));
    lemma_line_count_zero(ind);
    lemma_line_count_zero(node.kind@);
    let e = Seq::<char>::empty();
    lemma_line_count_add(ind, node.kind@);
    lemma_line_count_add(ind + node.kind@, e);
    lemma_line_count_add(ind + node.kind@ + e, e);
    lemma_line_count_add(ind + node.kind@ + e + e, e);
    lemma_line_count_add(ind + node.kind@ + e + e + e, "\n"@);
    assert(spec_line_count("\n"@) == 1) by {
        reveal_strlit("\n");
        assert("\n"@.len() == 1);
        assert("\n"@.last() == '\n');
        assert("\n"@.drop_last() =~= Seq::<char>::empty());
        assert(spec_line_count(Seq::<char>::empty()) == 0);
    }
}

/// With every display flag off and no range, the tree rendering has
/// exactly one line per node of the tree, carrying the kind label.
pub proof fn lemma_plain_render_one_line_per_node(
    tree: SyntaxTree,
    idx: int,
    depth: int,
    config: DisplayConfig,
)
    requires
        well_formed(tree),
        0 <= idx < tree.nodes@.len(),
        all_flags_off(config),
        kinds_newline_free(tree),
    ensures
        spec_line_count(spec_render_subtree(tree, idx, depth, None, config)) == spec_size_subtree(
            tree,
            idx,
        ),
    decreases tree.nodes@.len() - idx, tree.nodes@[idx].children@.len() + 1,
{
    lemma_plain_line_count(tree, idx, depth, config);
    lemma_plain_render_children_count(tree, idx, 0, depth + 1, config);
    lemma_line_count_add(
        spec_render_line(tree.nodes@[idx], depth, None, config),
        spec_render_children(tree, idx, 0, depth + 1, None, config),
    );
}

proof fn lemma_plain_render_children_count(
    tree: SyntaxTree,
    idx: int,
    k: int,
    depth: int,
    config: DisplayConfig,
)
    requires
        well_formed(tree),
        0 <= idx < tree.nodes@.len(),
        0 <= k,
        all_flags_off(config),
        kinds_newline_free(tree),
    ensures
        spec_line_count(spec_render_children(tree, idx, k, depth, None, config))
            == spec_size_children(tree, idx, k),
    decreases tree.nodes@.len() - idx, tree.nodes@[idx].children@.len() - k,
{
    if k < tree.nodes@[idx].children@.len() {
        let c = tree.nodes@[idx].children@[k] as int;
        lemma_plain_render_one_line_per_node(tree, c, depth, config);
        lemma_plain_render_children_count(tree, idx, k + 1, depth, config);
        lemma_line_count_add(
            spec_render_subtree(tree, c, depth, None, config),
            spec_render_children(tree, idx, k + 1, depth, None, config),
        );
    }
}

/// A leaf's token line is one line exactly, whatever the switches.
proof fn lemma_token_line_count(
    tree: SyntaxTree,
    idx: int,
    hide_range: bool,
    show_text: bool,
)
    requires
        well_formed(tree),
        0 <= idx < tree.nodes@.len(),
        kinds_newline_free(tree),
        ranges_newline_free(tree),
    ensures
        spec_line_count(spec_token_line(tree.nodes@[idx], hide_range, show_text)) == 1,
{
    reveal_strlit("\n");
    reveal_strlit("@");
    reveal_strlit(" \"");
    reveal_strlit("\"");
    let node = tree.nodes@[idx];
    lemma_line_count_zero(node.kind@);
    let rangepart = if !hide_range { "@"@ + node.range_text@ } else { Seq::<char>::empty() };
    assert(newline_free(rangepart));
    lemma_line_count_zero(rangepart);
    let textpart = if show_text { " \""@ + spec_escape(node.text@) + "\""@ } else {
        Seq::<char>::empty()
    };
    assert(spec_line_count(textpart) == 0) by {
        if show_text {
            lemma_escape_line_count(node.text@);
            assert(newline_free(" \""@));
            assert(newline_free("\""@));
            lemma_line_count_zero(" \""@);
            lemma_line_count_zero("\""@);
            lemma_line_count_add(" \""@, spec_escape(node.text@));
            lemma_line_count_add(" \""@ + spec_escape(node.text@), "\""@);
        }
    }
    lemma_line_count_add(node.kind@, rangepart);
    lemma_line_count_add(node.kind@ + rangepart, textpart);
    lemma_line_count_add(node.kind@ + rangepart + textpart, "\n"@);
    assert(spec_line_count("\n"@) == 1) by {
        reveal_strlit("\n");
        assert("\n"@.len() == 1);
        assert("\n"@.last() == '\n');
        assert("\n"@.drop_last() =~= Seq::<char>::empty());
        assert(spec_line_count(Seq::<char>::empty()) == 0);
    }
}

/// The token stream has exactly one line per leaf of the tree, and
/// none for internal nodes.
pub proof fn lemma_tokens_one_line_per_leaf(
    tree: SyntaxTree,
    idx: int,
    hide_range: bool,
    show_text: bool,
)
    requires
        well_formed(tree),
        0 <= idx < tree.nodes@.len(),
        kinds_newline_free(tree),
        ranges_newline_free(tree),
    ensures
        spec_line_count(spec_tokens_subtree(tree, idx, hide_range, show_text))
            == spec_leaf_count_subtree(tree, idx),
    decreases tree.nodes@.len() - idx, tree.nodes@[idx].children@.len() + 1,
{
    let node = tree.nodes@[idx];
    let own = if node.children@.len() == 0 {
        spec_token_line(node, hide_range, show_text)
    } else {
        Seq::<char>::empty()
    };
    if node.children@.len() == 0 {
        lemma_token_line_count(tree, idx, hide_range, show_text);
    }
    lemma_tokens_children_count(tree, idx, 0, hide_range, show_text);
    lemma_line_count_add(own, spec_tokens_children(tree, idx, 0, hide_range, show_text));
}

proof fn lemma_tokens_children_count(
    tree: SyntaxTree,
    idx: int,
    k: int,
    hide_range: bool,
    show_text: bool,
)
    requires
        well_formed(tree),
        0 <= idx < tree.nodes@.len(),
        0 <= k,
        kinds_newline_free(tree),
        ranges_newline_free(tree),
    ensures
        spec_line_count(spec_tokens_children(tree, idx, k, hide_range, show_text))
            == spec_leaf_count_children(tree, idx, k),
    decreases tree.nodes@.len() - idx, tree.nodes@[idx].children@.len() - k,
{
    if k < tree.nodes@[idx].children@.len() {
        let c = tree.nodes@[idx].children@[k] as int;
        lemma_tokens_one_line_per_leaf(tree, c, hide_range, show_text);
        lemma_tokens_children_count(tree, idx, k + 1, hide_range, show_text);
        lemma_line_count_add(
            spec_tokens_subtree(tree, c, hide_range, show_text),
            spec_tokens_children(tree, idx, k + 1, hide_range, show_text),
        );
    }
}

} // verus!
