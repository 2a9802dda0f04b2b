use vstd::prelude::*;

use crate::config::Config;
use crate::display::{
    has_identifier, html_text_escaped, json_object, render_slim, render_slim_from, render_slims, display_of, modify, known_modifier, render_children_from, render_node, render_attr_values, attr_values, newline, plain,
    render_tree, render_texts, render_text, escaped, attr_pieces, start_tag, json_text_parts, json_attr_fields, seq_join, JsonFieldSpec, Style,
};
use crate::dom::{tree_wf, NodeView};
use crate::parser::{closing_quote, pending_token, tokenize};
use crate::patterns::{regex_compile_error, regex_escaped, regex_meta_character};
use crate::pipeline::{compile_from, run_state, selected, StepSpec};
use crate::text::{trim_back, trim_front, white_space};
use crate::selector::{
    count_elements, count_named, empty_node, first_element, is_element, matching_children_from, next_siblings, paren_arg,
    parse_pseudo, parse_selector, prev_siblings, pseudo_matches, select_below, select_below_from, starts_with,
    selector_matches, step_all, step_from, valid_nodes, with_standard_only, part_start, scan_ident, scan_bracket, scan_key,
    key_end, scan_tag, class_pattern, id_pattern, attr_pattern, parse_attr, NthKind, NthRule, PseudoSpec, SelectorFuncType, SelectorSpec,
};

verus! {

// ---------------------------------------------------------------------------
// What a selector step finds.

/// Whether node `x` lies below node `n` with no node strictly between the
/// two matching the selector: the nodes a descendant step from `n` can reach.
pub open spec fn reachable_below(s: SelectorSpec, v: Seq<NodeView>, x: int, n: int) -> bool
    decreases x,
{
    if 0 <= x < v.len() {
        match v[x].parent {
            Some(p) => p as int == n || (p < x && !selector_matches(s, v, p as int) && reachable_below(
                s,
                v,
                p as int,
                n,
            )),
            None => false,
        }
    } else {
        false
    }
}

proof fn lemma_contains_concat(a: Seq<usize>, b: Seq<usize>, x: usize)
    ensures
        (a + b).contains(x) <==> (a.contains(x) || b.contains(x)),
{
    if (a + b).contains(x) {
        let i = choose|i: int| 0 <= i < (a + b).len() && (a + b)[i] == x;
        if i < a.len() {
            assert(a[i] == x);
        } else {
            assert(b[i - a.len()] == x);
        }
    }
    if a.contains(x) {
        let i = choose|i: int| 0 <= i < a.len() && a[i] == x;
        assert((a + b)[i] == x);
    }
    if b.contains(x) {
        let i = choose|i: int| 0 <= i < b.len() && b[i] == x;
        assert((a + b)[a.len() + i] == x);
    }
}

/// The part that the `k`-th child of `n` adds to a descendant step.
spec fn below_here(s: SelectorSpec, v: Seq<NodeView>, n: int, k: int) -> Seq<usize> {
    let c = v[n].children[k];
    if selector_matches(s, v, c as int) {
        seq![c]
    } else if n < c < v.len() {
        select_below(s, v, c as int)
    } else {
        seq![]
    }
}

proof fn lemma_below_from_unfold(s: SelectorSpec, v: Seq<NodeView>, n: int, k: int)
    requires
        0 <= n < v.len(),
        0 <= k < v[n].children.len(),
    ensures
        select_below_from(s, v, n, k) == below_here(s, v, n, k) + select_below_from(s, v, n, k + 1),
{
}

/// A child of `n` is reachable from `n`; below a child that does not match,
/// what is reachable from the child is reachable from `n`.
proof fn lemma_reach_through_child(s: SelectorSpec, v: Seq<NodeView>, x: int, c: int, n: int)
    requires
        tree_wf(v),
        0 <= n < c < v.len(),
        v[c].parent == Some(n as usize),
        !selector_matches(s, v, c),
        reachable_below(s, v, x, c),
    ensures
        reachable_below(s, v, x, n),
    decreases x,
{
    let p = v[x].parent.unwrap() as int;
    assert(x != 0);
    assert(v[x].parent matches Some(q) && q < x);
    if p != c {
        lemma_reach_through_child(s, v, p, c, n);
    } else {
        assert(reachable_below(s, v, c, n));
    }
}

proof fn lemma_below_sound(s: SelectorSpec, v: Seq<NodeView>, n: int, x: usize)
    requires
        tree_wf(v),
        select_below(s, v, n).contains(x),
    ensures
        selector_matches(s, v, x as int),
        reachable_below(s, v, x as int, n),
    decreases v.len() - n, v[n].children.len() + 1,
{
    lemma_below_from_sound(s, v, n, 0, x);
}

proof fn lemma_below_from_sound(s: SelectorSpec, v: Seq<NodeView>, n: int, k: int, x: usize)
    requires
        tree_wf(v),
        select_below_from(s, v, n, k).contains(x),
    ensures
        selector_matches(s, v, x as int),
        reachable_below(s, v, x as int, n),
    decreases v.len() - n, v[n].children.len() - k,
{
    if 0 <= n < v.len() && 0 <= k < v[n].children.len() {
        let c = v[n].children[k];
        assert(n < c < v.len() && v[c as int].parent == Some(n as usize));
        lemma_below_from_unfold(s, v, n, k);
        lemma_contains_concat(below_here(s, v, n, k), select_below_from(s, v, n, k + 1), x);
        if below_here(s, v, n, k).contains(x) {
            if selector_matches(s, v, c as int) {
                assert(seq![c][0] == c);
                assert(x == c);
            } else {
                lemma_below_sound(s, v, c as int, x);
                lemma_reach_through_child(s, v, x as int, c as int, n);
            }
        } else {
            lemma_below_from_sound(s, v, n, k + 1, x);
        }
    }
}

/// What the `k`-th child adds to a descendant step from `n` is part of it.
proof fn lemma_below_from_includes(s: SelectorSpec, v: Seq<NodeView>, n: int, k0: int, k: int, x: usize)
    requires
        0 <= n < v.len(),
        0 <= k0 <= k < v[n].children.len(),
        below_here(s, v, n, k).contains(x),
    ensures
        select_below_from(s, v, n, k0).contains(x),
    decreases k - k0,
{
    lemma_below_from_unfold(s, v, n, k0);
    if k0 < k {
        lemma_below_from_includes(s, v, n, k0 + 1, k, x);
        lemma_contains_concat(below_here(s, v, n, k0), select_below_from(s, v, n, k0 + 1), x);
    } else {
        lemma_contains_concat(below_here(s, v, n, k0), select_below_from(s, v, n, k0 + 1), x);
    }
}

/// What a descendant step finds from a child `y` of `n` that does not match
/// is part of what it finds from `n`.
proof fn lemma_below_child_included(s: SelectorSpec, v: Seq<NodeView>, y: int, n: int, z: usize)
    requires
        tree_wf(v),
        0 <= n < v.len(),
        0 < y < v.len(),
        v[y].parent == Some(n as usize),
        !selector_matches(s, v, y),
        select_below(s, v, y).contains(z),
    ensures
        select_below(s, v, n).contains(z),
{
    let k = v[y].pos as int;
    assert(v[y].parent matches Some(q) && v[y].pos < v[q as int].children.len() && v[q as int].children[v[y].pos as int] == y);
    assert(n < y);
    assert(below_here(s, v, n, k) == select_below(s, v, y));
    lemma_below_from_includes(s, v, n, 0, k, z);
}

/// What a descendant step finds from a node `y` below `n` that does not
/// match, and that `n` reaches, is part of what it finds from `n`.
proof fn lemma_below_reached_included(s: SelectorSpec, v: Seq<NodeView>, y: int, n: int, z: usize)
    requires
        tree_wf(v),
        0 <= n < v.len(),
        reachable_below(s, v, y, n),
        !selector_matches(s, v, y),
        select_below(s, v, y).contains(z),
    ensures
        select_below(s, v, n).contains(z),
    decreases y,
{
    let q = v[y].parent.unwrap() as int;
    assert(y != 0);
    assert(v[y].parent matches Some(p) && p < y);
    lemma_below_child_included(s, v, y, q, z);
    if q != n {
        lemma_below_reached_included(s, v, q, n, z);
    }
}

proof fn lemma_below_complete(s: SelectorSpec, v: Seq<NodeView>, n: int, x: usize)
    requires
        tree_wf(v),
        0 <= n < v.len(),
        selector_matches(s, v, x as int),
        reachable_below(s, v, x as int, n),
    ensures
        select_below(s, v, n).contains(x),
{
    let p = v[x as int].parent.unwrap() as int;
    assert(x != 0);
    assert(v[x as int].parent matches Some(q) && q < x && v[x as int].pos < v[q as int].children.len()
        && v[q as int].children[v[x as int].pos as int] == x);
    let k = v[x as int].pos as int;
    assert(below_here(s, v, p, k) == seq![x]);
    assert(seq![x][0] == x);
    lemma_below_from_includes(s, v, p, 0, k, x);
    if p != n {
        lemma_below_reached_included(s, v, p, n, x);
    }
}

/// A descendant step from node `n` finds exactly the nodes below `n` that
/// match the selector and have no matching node between them and `n`: the
/// nearest matches on each path down.
pub proof fn descendant_step_finds_nearest_matches(s: SelectorSpec, v: Seq<NodeView>, n: int, x: usize)
    requires
        tree_wf(v),
        0 <= n < v.len(),
    ensures
        step_from(s, SelectorFuncType::Descendant, v, n).contains(x) <==> (selector_matches(s, v, x as int)
            && reachable_below(s, v, x as int, n)),
{
    if select_below(s, v, n).contains(x) {
        lemma_below_sound(s, v, n, x);
    }
    if selector_matches(s, v, x as int) && reachable_below(s, v, x as int, n) {
        lemma_below_complete(s, v, n, x);
    }
}

proof fn lemma_children_filter(s: SelectorSpec, v: Seq<NodeView>, n: int, k: int)
    requires
        0 <= n < v.len(),
        0 <= k <= v[n].children.len(),
    ensures
        matching_children_from(s, v, n, k) == v[n].children.skip(k).filter(|c: usize| selector_matches(s, v, c as int)),
    decreases v[n].children.len() - k,
{
    let ch = v[n].children;
    let pred = |c: usize| selector_matches(s, v, c as int);
    if k < ch.len() {
        lemma_children_filter(s, v, n, k + 1);
        assert(ch.skip(k) =~= seq![ch[k]] + ch.skip(k + 1));
        ch.skip(k + 1).lemma_filter_prepend(ch[k], pred);
    } else {
        assert(ch.skip(k) =~= Seq::<usize>::empty());
        reveal(Seq::filter);
        assert(ch.skip(k).filter(pred) =~= Seq::<usize>::empty());
    }
}

/// A child step from node `n` finds the children of `n` that match the
/// selector, in the order of the children.
pub proof fn child_step_finds_matching_children(s: SelectorSpec, v: Seq<NodeView>, n: int)
    requires
        0 <= n < v.len(),
    ensures
        step_from(s, SelectorFuncType::Child, v, n) == v[n].children.filter(|c: usize| selector_matches(s, v, c as int)),
{
    lemma_children_filter(s, v, n, 0);
    assert(v[n].children.skip(0) =~= v[n].children);
}

proof fn lemma_first_element_facts(v: Seq<NodeView>, sib: Seq<usize>)
    ensures
        first_element(v, sib) matches Some(c) ==> exists|j: int|
            0 <= j < sib.len() && sib[j] == c && is_element(v, c as int) && forall|i: int|
                0 <= i < j ==> !is_element(v, #[trigger] sib[i] as int),
    decreases sib.len(),
{
    if sib.len() > 0 {
        if is_element(v, sib[0] as int) {
            assert(sib[0] == sib[0]);
        } else {
            lemma_first_element_facts(v, sib.drop_first());
            if let Some(c) = first_element(v, sib) {
                let j = choose|j: int|
                    0 <= j < sib.drop_first().len() && sib.drop_first()[j] == c && is_element(v, c as int) && forall|i: int|
                        0 <= i < j ==> !is_element(v, #[trigger] sib.drop_first()[i] as int);
                assert(sib[j + 1] == c);
                assert forall|i: int| 0 <= i < j + 1 implies !is_element(v, #[trigger] sib[i] as int) by {
                    if i > 0 {
                        assert(sib[i] == sib.drop_first()[i - 1]);
                    }
                }
            }
        }
    }
}

/// A next-sibling step from node `n` finds at most one node: the first
/// element among the siblings after `n`, when it matches the selector.
pub proof fn next_sibling_step_finds_next_element(s: SelectorSpec, v: Seq<NodeView>, n: int)
    ensures
        step_from(s, SelectorFuncType::NextSibling, v, n).len() <= 1,
        step_from(s, SelectorFuncType::NextSibling, v, n).len() == 1 ==> {
            let c = step_from(s, SelectorFuncType::NextSibling, v, n)[0];
            &&& selector_matches(s, v, c as int)
            &&& exists|j: int|
                0 <= j < next_siblings(v, n).len() && next_siblings(v, n)[j] == c && forall|i: int|
                    0 <= i < j ==> !is_element(v, #[trigger] next_siblings(v, n)[i] as int)
        },
{
    lemma_first_element_facts(v, next_siblings(v, n));
}

proof fn lemma_step_all_matches(s: SelectorSpec, t: SelectorFuncType, v: Seq<NodeView>, nodes: Seq<usize>, x: usize)
    requires
        tree_wf(v),
        valid_nodes(v, nodes),
        step_all(s, t, v, nodes).contains(x),
    ensures
        selector_matches(s, v, x as int),
    decreases nodes.len(),
{
    if nodes.len() > 0 {
        let n = nodes.last() as int;
        assert(nodes[nodes.len() - 1] < v.len());
        assert(valid_nodes(v, nodes.drop_last()));
        lemma_contains_concat(step_all(s, t, v, nodes.drop_last()), step_from(s, t, v, n), x);
        if step_all(s, t, v, nodes.drop_last()).contains(x) {
            lemma_step_all_matches(s, t, v, nodes.drop_last(), x);
        } else {
            match t {
                SelectorFuncType::Descendant => {
                    lemma_below_sound(s, v, n, x);
                },
                SelectorFuncType::Child => {
                    child_step_finds_matching_children(s, v, n);
                    let pred = |c: usize| selector_matches(s, v, c as int);
                    let i = choose|i: int| 0 <= i < step_from(s, t, v, n).len() && step_from(s, t, v, n)[i] == x;
                    v[n].children.lemma_filter_pred(pred, i);
                },
                SelectorFuncType::NextSibling => {
                    next_sibling_step_finds_next_element(s, v, n);
                    assert(step_from(s, t, v, n)[0] == x);
                },
            }
        }
    }
}

/// Every node that a selector step finds, from any nodes, matches the selector.
pub proof fn step_finds_only_matches(s: SelectorSpec, t: SelectorFuncType, v: Seq<NodeView>, nodes: Seq<usize>)
    requires
        tree_wf(v),
        valid_nodes(v, nodes),
    ensures
        forall|x: usize| #[trigger] step_all(s, t, v, nodes).contains(x) ==> selector_matches(s, v, x as int),
{
    assert forall|x: usize| #[trigger] step_all(s, t, v, nodes).contains(x) implies selector_matches(s, v, x as int) by {
        lemma_step_all_matches(s, t, v, nodes, x);
    }
}

// ---------------------------------------------------------------------------
// Groups of selectors.

proof fn lemma_run_after_reset(v: Seq<NodeView>, p: Seq<StepSpec>, b: Seq<StepSpec>)
    requires
        run_state(v, p).1 == seq![0usize],
    ensures
        run_state(v, p + b) == (run_state(v, p).0 + run_state(v, b).0, run_state(v, b).1),
    decreases b.len(),
{
    if b.len() == 0 {
        assert(p + b =~= p);
        assert(run_state(v, p).0 + Seq::<usize>::empty() =~= run_state(v, p).0);
    } else {
        lemma_run_after_reset(v, p, b.drop_last());
        assert((p + b).drop_last() =~= p + b.drop_last());
        assert((p + b).last() == b.last());
        let (sel, cur) = run_state(v, b.drop_last());
        assert(run_state(v, p).0 + sel + cur =~= run_state(v, p).0 + (sel + cur));
    }
}

/// Selectors separated by a comma select what each of them selects, one
/// group after the other.
pub proof fn comma_concatenates_selections(v: Seq<NodeView>, a: Seq<StepSpec>, b: Seq<StepSpec>)
    ensures
        selected(v, a + seq![None] + b) == selected(v, a) + selected(v, b),
{
    let p = a + seq![None];
    assert(p.drop_last() =~= a);
    assert(p.last() is None);
    lemma_run_after_reset(v, p, b);
    let (sa, ca) = run_state(v, a);
    let (sb, cb) = run_state(v, b);
    assert(sa + ca + sb + cb =~= (sa + ca) + (sb + cb));
}

// ---------------------------------------------------------------------------
// Splitting a command line.

/// Whether every token is non-empty.
pub open spec fn all_nonempty(t: Seq<Seq<char>>) -> bool {
    forall|i: int| 0 <= i < t.len() ==> #[trigger] t[i].len() > 0
}

/// Whether `s` holds no quote character.
pub open spec fn without_quotes(s: Seq<char>) -> bool {
    forall|i: int| 0 <= i < s.len() ==> #[trigger] s[i] != '\'' && s[i] != '"'
}

proof fn lemma_nonempty_concat(a: Seq<Seq<char>>, b: Seq<Seq<char>>)
    requires
        all_nonempty(a),
        all_nonempty(b),
    ensures
        all_nonempty(a + b),
{
    assert forall|i: int| 0 <= i < (a + b).len() implies #[trigger] (a + b)[i].len() > 0 by {
        if i < a.len() {
            assert((a + b)[i] == a[i]);
        } else {
            assert((a + b)[i] == b[i - a.len()]);
        }
    }
}

proof fn lemma_tokens_nonempty(s: Seq<char>, last: int, next: int)
    ensures
        tokenize(s, last, next) matches Ok(t) ==> all_nonempty(t),
    decreases s.len() - next,
{
    if next < 0 || last < 0 || last > next {
    } else if next >= s.len() {
    } else if s[next] == ' ' {
        lemma_tokens_nonempty(s, next + 1, next + 1);
        if let Ok(t) = tokenize(s, next + 1, next + 1) {
            lemma_nonempty_concat(pending_token(s, last, next), t);
        }
    } else if s[next] == ',' {
        lemma_tokens_nonempty(s, next + 1, next + 1);
        if let Ok(t) = tokenize(s, next + 1, next + 1) {
            let comma: Seq<Seq<char>> = seq![seq![',']];
            assert(comma[0].len() == 1);
            lemma_nonempty_concat(pending_token(s, last, next), comma);
            lemma_nonempty_concat(pending_token(s, last, next) + comma, t);
        }
    } else if s[next] == '\'' || s[next] == '"' {
        if let Some(j) = closing_quote(s, s[next], next + 1) {
            if next < j < s.len() {
                lemma_tokens_nonempty(s, last, j + 1);
            }
        }
    } else {
        lemma_tokens_nonempty(s, last, next + 1);
    }
}

/// Splitting a command line never gives an empty token.
pub proof fn command_tokens_are_nonempty(input: Seq<char>)
    ensures
        tokenize(input, 0, 0) matches Ok(t) ==> all_nonempty(t),
{
    lemma_tokens_nonempty(input, 0, 0);
}

proof fn lemma_unquoted_splits(s: Seq<char>, last: int, next: int)
    requires
        without_quotes(s),
    ensures
        tokenize(s, last, next) is Ok,
    decreases s.len() - next,
{
    if next < 0 || last < 0 || last > next {
    } else if next >= s.len() {
    } else {
        assert(s[next] != '\'' && s[next] != '"');
        if s[next] == ' ' || s[next] == ',' {
            lemma_unquoted_splits(s, next + 1, next + 1);
        } else {
            lemma_unquoted_splits(s, last, next + 1);
        }
    }
}

/// A command line without quote characters always splits: only an unclosed
/// quote is an error.
pub proof fn unquoted_commands_always_split(input: Seq<char>)
    requires
        without_quotes(input),
    ensures
        tokenize(input, 0, 0) is Ok,
{
    lemma_unquoted_splits(input, 0, 0);
}

proof fn lemma_closing_quote_prefix(p: Seq<char>, s: Seq<char>, q: char, i: int)
    requires
        0 <= i,
    ensures
        closing_quote(p + s, q, i + p.len()) == match closing_quote(s, q, i) {
            Some(j) => Some(j + p.len()),
            None => None,
        },
    decreases s.len() - i,
{
    let t = p + s;
    if i < s.len() {
        assert(t[i + p.len()] == s[i]);
        if s[i] == '\\' {
            if i + 1 < s.len() {
                lemma_closing_quote_prefix(p, s, q, i + 2);
            }
        } else if s[i] != q {
            lemma_closing_quote_prefix(p, s, q, i + 1);
        }
    }
}

/// A command line after any prefix splits, from past the prefix, as it does alone.
proof fn lemma_tokenize_prefix(p: Seq<char>, s: Seq<char>, last: int, next: int)
    requires
        0 <= last <= next,
    ensures
        tokenize(p + s, last + p.len(), next + p.len()) == tokenize(s, last, next),
    decreases s.len() - next,
{
    let t = p + s;
    let n = p.len() as int;
    if next >= s.len() {
        if last < s.len() {
            assert(t.subrange(last + n, t.len() as int) =~= s.subrange(last, s.len() as int));
        }
        assert(pending_token(t, last + n, t.len() as int) == pending_token(s, last, s.len() as int));
    } else {
        assert(t[next + n] == s[next]);
        if last < next {
            assert(t.subrange(last + n, next + n) =~= s.subrange(last, next));
        }
        assert(pending_token(t, last + n, next + n) == pending_token(s, last, next));
        if s[next] == ' ' || s[next] == ',' {
            lemma_tokenize_prefix(p, s, next + 1, next + 1);
        } else if s[next] == '\'' || s[next] == '"' {
            lemma_closing_quote_prefix(p, s, s[next], next + 1);
            if let Some(j) = closing_quote(s, s[next], next + 1) {
                if next < j < s.len() {
                    lemma_tokenize_prefix(p, s, last, j + 1);
                }
            }
        } else {
            lemma_tokenize_prefix(p, s, last, next + 1);
        }
    }
}

proof fn lemma_closing_quote_pad(s: Seq<char>, q: char, i: int)
    requires
        0 <= i,
        q != ' ',
    ensures
        closing_quote(s + seq![' '], q, i) == closing_quote(s, q, i),
    decreases s.len() - i,
{
    let t = s + seq![' '];
    if i < s.len() {
        assert(t[i] == s[i]);
        if s[i] == '\\' {
            if i + 1 < s.len() {
                lemma_closing_quote_pad(s, q, i + 2);
            } else {
                assert(closing_quote(t, q, i + 2) is None);
            }
        } else if s[i] != q {
            lemma_closing_quote_pad(s, q, i + 1);
        }
    } else if i == s.len() {
        assert(t[i] == ' ');
        assert(closing_quote(t, q, i + 1) is None);
    }
}

proof fn lemma_tokenize_pad(s: Seq<char>, last: int, next: int)
    requires
        0 <= last <= next <= s.len(),
    ensures
        tokenize(s + seq![' '], last, next) == tokenize(s, last, next),
    decreases s.len() - next,
{
    let t = s + seq![' '];
    assert forall|a: int, b: int| 0 <= a <= b <= s.len() implies #[trigger] t.subrange(a, b) == s.subrange(a, b) by {
        assert(t.subrange(a, b) =~= s.subrange(a, b));
    }
    if next == s.len() {
        assert(t[next] == ' ');
        assert(pending_token(t, last, next) == pending_token(s, last, s.len() as int));
        assert(tokenize(t, next + 1, next + 1) == Ok::<Seq<Seq<char>>, char>(seq![]));
        assert(pending_token(s, last, s.len() as int) + Seq::<Seq<char>>::empty() =~= pending_token(s, last, s.len() as int));
    } else {
        assert(t[next] == s[next]);
        assert(pending_token(t, last, next) == pending_token(s, last, next));
        if s[next] == ' ' || s[next] == ',' {
            lemma_tokenize_pad(s, next + 1, next + 1);
        } else if s[next] == '\'' || s[next] == '"' {
            lemma_closing_quote_pad(s, s[next], next + 1);
            if let Some(j) = closing_quote(s, s[next], next + 1) {
                crate::parser::lemma_closing_quote_bounds(s, s[next], next + 1);
                lemma_tokenize_pad(s, last, j + 1);
            }
        } else {
            lemma_tokenize_pad(s, last, next + 1);
        }
    }
}

/// Spaces around a command line change nothing of how it splits.
pub proof fn surrounding_spaces_change_nothing(input: Seq<char>)
    ensures
        tokenize(seq![' '] + input + seq![' '], 0, 0) == tokenize(input, 0, 0),
{
    let t = seq![' '] + input;
    lemma_tokenize_pad(t, 0, 0);
    assert(t + seq![' '] == seq![' '] + input + seq![' ']);
    assert(t[0] == ' ');
    assert(pending_token(t, 0, 0) =~= Seq::<Seq<char>>::empty());
    lemma_tokenize_prefix(seq![' '], input, 0, 0);
    match tokenize(input, 0, 0) {
        Ok(x) => assert(Seq::<Seq<char>>::empty() + x =~= x),
        Err(_) => {},
    }
}

/// Whether the scan of a token from `i` reaches `e` exactly: no space or
/// comma outside quotes on the way, every quote closed before `e`.
pub open spec fn scan_ok(s: Seq<char>, i: int, e: int) -> bool
    decreases e - i,
{
    if i >= e {
        i == e
    } else if i < 0 || e > s.len() {
        false
    } else if s[i] == ' ' || s[i] == ',' {
        false
    } else if s[i] == '\'' || s[i] == '"' {
        match closing_quote(s, s[i], i + 1) {
            Some(j) => i < j < e && scan_ok(s, j + 1, e),
            None => false,
        }
    } else {
        scan_ok(s, i + 1, e)
    }
}

/// Whether `x` is a token that splitting can give: a comma, or a non-empty
/// run that the scan crosses whole.
pub open spec fn good_token(x: Seq<char>) -> bool {
    x == seq![','] || (x.len() > 0 && scan_ok(x, 0, x.len() as int))
}

/// The tokens joined by single spaces.
pub open spec fn joined(t: Seq<Seq<char>>) -> Seq<char>
    decreases t.len(),
{
    if t.len() == 0 {
        seq![]
    } else if t.len() == 1 {
        t[0]
    } else {
        t[0] + seq![' '] + joined(t.drop_first())
    }
}

proof fn lemma_scan_trans(s: Seq<char>, i: int, m: int, e: int)
    requires
        scan_ok(s, i, m),
        scan_ok(s, m, e),
    ensures
        scan_ok(s, i, e),
    decreases m - i,
{
    if i < m {
        if s[i] == '\'' || s[i] == '"' {
            let j = closing_quote(s, s[i], i + 1).unwrap();
            lemma_scan_trans(s, j + 1, m, e);
        } else {
            lemma_scan_trans(s, i + 1, m, e);
        }
    }
}

proof fn lemma_closing_quote_restrict(s: Seq<char>, a: int, e: int, q: char, k: int)
    requires
        0 <= a <= k,
        e <= s.len(),
        closing_quote(s, q, k) matches Some(j) && j < e,
    ensures
        closing_quote(s.subrange(a, e), q, k - a) == Some(closing_quote(s, q, k).unwrap() - a),
    decreases s.len() - k,
{
    let x = s.subrange(a, e);
    crate::parser::lemma_closing_quote_bounds(s, q, k);
    assert(x[k - a] == s[k]);
    if s[k] == '\\' {
        crate::parser::lemma_closing_quote_bounds(s, q, k + 2);
        lemma_closing_quote_restrict(s, a, e, q, k + 2);
    } else if s[k] != q {
        lemma_closing_quote_restrict(s, a, e, q, k + 1);
    }
}

proof fn lemma_scan_restrict(s: Seq<char>, a: int, i: int, e: int)
    requires
        0 <= a <= i,
        scan_ok(s, i, e),
    ensures
        scan_ok(s.subrange(a, e), i - a, e - a),
    decreases e - i,
{
    let x = s.subrange(a, e);
    if i < e {
        assert(x[i - a] == s[i]);
        if s[i] == '\'' || s[i] == '"' {
            lemma_closing_quote_restrict(s, a, e, s[i], i + 1);
            let j = closing_quote(s, s[i], i + 1).unwrap();
            lemma_scan_restrict(s, a, j + 1, e);
        } else {
            lemma_scan_restrict(s, a, i + 1, e);
        }
    }
}

proof fn lemma_all_good_concat(a: Seq<Seq<char>>, b: Seq<Seq<char>>)
    requires
        forall|k: int| 0 <= k < a.len() ==> good_token(#[trigger] a[k]),
        forall|k: int| 0 <= k < b.len() ==> good_token(#[trigger] b[k]),
    ensures
        forall|k: int| 0 <= k < (a + b).len() ==> good_token(#[trigger] (a + b)[k]),
{
    assert forall|k: int| 0 <= k < (a + b).len() implies good_token(#[trigger] (a + b)[k]) by {
        if k < a.len() {
            assert((a + b)[k] == a[k]);
        } else {
            assert((a + b)[k] == b[k - a.len()]);
        }
    }
}

proof fn lemma_pending_good(s: Seq<char>, last: int, next: int)
    requires
        0 <= last <= next <= s.len(),
        scan_ok(s, last, next),
    ensures
        forall|k: int| 0 <= k < pending_token(s, last, next).len() ==> good_token(#[trigger] pending_token(s, last, next)[k]),
{
    if next > last {
        lemma_scan_restrict(s, last, last, next);
        assert(pending_token(s, last, next)[0] == s.subrange(last, next));
    }
}

proof fn lemma_tokens_good(s: Seq<char>, last: int, next: int)
    requires
        0 <= last <= next <= s.len(),
        scan_ok(s, last, next),
    ensures
        tokenize(s, last, next) matches Ok(t) ==> forall|k: int| 0 <= k < t.len() ==> good_token(#[trigger] t[k]),
    decreases s.len() - next,
{
    if next >= s.len() {
        lemma_pending_good(s, last, s.len() as int);
    } else if s[next] == ' ' || s[next] == ',' {
        lemma_pending_good(s, last, next);
        lemma_tokens_good(s, next + 1, next + 1);
        let comma: Seq<Seq<char>> = seq![seq![',']];
        assert(good_token(comma[0]));
        if let Ok(t) = tokenize(s, next + 1, next + 1) {
            lemma_all_good_concat(pending_token(s, last, next), comma);
            lemma_all_good_concat(pending_token(s, last, next) + comma, t);
            lemma_all_good_concat(pending_token(s, last, next), t);
        }
    } else if s[next] == '\'' || s[next] == '"' {
        if let Some(j) = closing_quote(s, s[next], next + 1) {
            if next < j < s.len() {
                assert(scan_ok(s, j + 1, j + 1));
                assert(scan_ok(s, next, j + 1));
                lemma_scan_trans(s, last, next, j + 1);
                lemma_tokens_good(s, last, j + 1);
            }
        }
    } else {
        assert(scan_ok(s, next + 1, next + 1));
        assert(scan_ok(s, next, next + 1));
        lemma_scan_trans(s, last, next, next + 1);
        lemma_tokens_good(s, last, next + 1);
    }
}

proof fn lemma_closing_quote_extend(w: Seq<char>, r: Seq<char>, q: char, k: int)
    requires
        closing_quote(w, q, k) is Some,
    ensures
        closing_quote(w + r, q, k) == closing_quote(w, q, k),
    decreases w.len() - k,
{
    assert((w + r)[k] == w[k]);
    if w[k] == '\\' {
        assert((w + r)[k + 1] == w[k + 1]);
        lemma_closing_quote_extend(w, r, q, k + 2);
    } else if w[k] != q {
        lemma_closing_quote_extend(w, r, q, k + 1);
    }
}

proof fn lemma_scan_tokenize(w: Seq<char>, r: Seq<char>, last: int, i: int)
    requires
        0 <= last <= i,
        scan_ok(w, i, w.len() as int),
    ensures
        tokenize(w + r, last, i) == tokenize(w + r, last, w.len() as int),
    decreases w.len() - i,
{
    let u = w + r;
    if i < w.len() {
        assert(u[i] == w[i]);
        if w[i] == '\'' || w[i] == '"' {
            lemma_closing_quote_extend(w, r, w[i], i + 1);
            let j = closing_quote(w, w[i], i + 1).unwrap();
            lemma_scan_tokenize(w, r, last, j + 1);
        } else {
            lemma_scan_tokenize(w, r, last, i + 1);
        }
    }
}

proof fn lemma_joined_splits(t: Seq<Seq<char>>)
    requires
        forall|k: int| 0 <= k < t.len() ==> good_token(#[trigger] t[k]),
    ensures
        tokenize(joined(t), 0, 0) == Ok::<Seq<Seq<char>>, char>(t),
    decreases t.len(),
{
    let e: Seq<Seq<char>> = seq![];
    if t.len() == 0 {
        assert(pending_token(Seq::<char>::empty(), 0, 0) =~= e);
        assert(t =~= e);
    } else {
        let w = t[0];
        assert(good_token(w));
        let rest = t.drop_first();
        let r: Seq<char> = if t.len() == 1 { seq![] } else { seq![' '] + joined(rest) };
        assert(joined(t) =~= w + r);
        let u = w + r;
        if w == seq![','] {
            assert(u[0] == ',');
            assert(pending_token(u, 0, 0) =~= e);
            if t.len() == 1 {
                assert(u.len() == 1);
                assert(pending_token(u, 1, 1) =~= e);
                assert(t =~= e + seq![seq![',']] + e);
            } else {
                assert(u[1] == ' ');
                assert(pending_token(u, 1, 1) =~= e);
                lemma_joined_splits(rest);
                assert(u =~= seq![',', ' '] + joined(rest));
                lemma_tokenize_prefix(seq![',', ' '], joined(rest), 0, 0);
                assert(tokenize(u, 1, 1) == tokenize(u, 2, 2));
                assert(t =~= e + seq![seq![',']] + (e + rest));
            }
        } else {
            lemma_scan_tokenize(w, r, 0, 0);
            assert(w.len() > 0);
            if t.len() == 1 {
                assert(u =~= w);
                assert(u.subrange(0, u.len() as int) =~= w);
                assert(t =~= seq![w]);
            } else {
                assert(u[w.len() as int] == ' ');
                assert(u.subrange(0, w.len() as int) =~= w);
                lemma_joined_splits(rest);
                assert(u =~= (w + seq![' ']) + joined(rest));
                lemma_tokenize_prefix(w + seq![' '], joined(rest), 0, 0);
                assert(t =~= seq![w] + rest);
            }
        }
    }
}

/// Joining the tokens of a command line with single spaces gives a line that
/// splits into the same tokens.
pub proof fn rejoined_tokens_split_the_same(input: Seq<char>)
    ensures
        tokenize(input, 0, 0) matches Ok(t) ==> tokenize(joined(t), 0, 0) == Ok::<Seq<Seq<char>>, char>(t),
{
    lemma_tokens_good(input, 0, 0);
    if let Ok(t) = tokenize(input, 0, 0) {
        lemma_joined_splits(t);
    }
}

// ---------------------------------------------------------------------------
// Printing.

proof fn lemma_escaped_no_brackets(s: Seq<char>)
    ensures
        forall|i: int| 0 <= i < html_text_escaped(s).len() ==> #[trigger] html_text_escaped(s)[i] != '<'
            && html_text_escaped(s)[i] != '>',
    decreases s.len(),
{
    reveal_strlit("&amp;");
    reveal_strlit("&lt;");
    reveal_strlit("&gt;");
    if s.len() > 0 {
        lemma_escaped_no_brackets(s.drop_first());
        let c = s[0];
        let head = if c == '&' {
            "&amp;"@
        } else if c == '<' {
            "&lt;"@
        } else if c == '>' {
            "&gt;"@
        } else {
            seq![c]
        };
        let e = html_text_escaped(s);
        let rest = html_text_escaped(s.drop_first());
        assert(e == head + rest);
        assert forall|i: int| 0 <= i < e.len() implies #[trigger] e[i] != '<' && e[i] != '>' by {
            if i < head.len() {
                assert(e[i] == head[i]);
            } else {
                assert(e[i] == rest[i - head.len()]);
            }
        }
    }
}

/// Escaped text holds no `<` and no `>`: it cannot open or close a tag.
pub proof fn escaped_text_has_no_angle_brackets(s: Seq<char>)
    ensures
        !html_text_escaped(s).contains('<'),
        !html_text_escaped(s).contains('>'),
{
    lemma_escaped_no_brackets(s);
}

/// Text without `&`, `<` and `>` is printed as it is, escaped or not.
pub proof fn plain_text_is_not_changed_by_escaping(s: Seq<char>)
    requires
        forall|i: int| 0 <= i < s.len() ==> #[trigger] s[i] != '&' && s[i] != '<' && s[i] != '>',
    ensures
        html_text_escaped(s) == s,
    decreases s.len(),
{
    if s.len() > 0 {
        assert forall|i: int| 0 <= i < s.drop_first().len() implies #[trigger] s.drop_first()[i] != '&'
            && s.drop_first()[i] != '<' && s.drop_first()[i] != '>' by {
            assert(s.drop_first()[i] == s[i + 1]);
        }
        plain_text_is_not_changed_by_escaping(s.drop_first());
        assert(s[0] != '&' && s[0] != '<' && s[0] != '>');
        assert(seq![s[0]] + s.drop_first() =~= s);
    }
}

/// Whether no element of the tree carries an identifying attribute.
pub open spec fn no_identified_elements(v: Seq<NodeView>) -> bool {
    forall|i: int| 0 <= i < v.len() ==> !(is_element(v, i) && #[trigger] has_identifier(v[i].attrs))
}

proof fn lemma_slim_silent(v: Seq<NodeView>, c: Config, n: int, level: nat)
    requires
        no_identified_elements(v),
    ensures
        render_slim(v, c, n, level) == Seq::<(Style, Seq<char>)>::empty(),
    decreases v.len() - n, v[n].children.len() + 1,
{
    if 0 <= n < v.len() {
        assert(!(is_element(v, n) && has_identifier(v[n].attrs)));
        lemma_slim_from_silent(v, c, n, level, 0);
    }
}

proof fn lemma_slim_from_silent(v: Seq<NodeView>, c: Config, n: int, level: nat, k: int)
    requires
        no_identified_elements(v),
    ensures
        render_slim_from(v, c, n, level, k) == Seq::<(Style, Seq<char>)>::empty(),
    decreases v.len() - n, v[n].children.len() - k,
{
    if 0 <= n < v.len() && 0 <= k < v[n].children.len() && n < v[n].children[k] < v.len() {
        lemma_slim_silent(v, c, v[n].children[k] as int, level);
        lemma_slim_from_silent(v, c, n, level, k + 1);
        assert(Seq::<(Style, Seq<char>)>::empty() + Seq::<(Style, Seq<char>)>::empty() =~= Seq::<(Style, Seq<char>)>::empty());
    }
}

/// The slim display prints nothing at all for a document in which no element
/// has an `id`, `class`, `name`, `type`, `value` or `data-...` attribute.
pub proof fn slim_display_is_empty_without_identifiers(v: Seq<NodeView>, c: Config, nodes: Seq<usize>)
    requires
        no_identified_elements(v),
    ensures
        render_slims(v, c, nodes) == Seq::<(Style, Seq<char>)>::empty(),
    decreases nodes.len(),
{
    if nodes.len() > 0 {
        slim_display_is_empty_without_identifiers(v, c, nodes.drop_last());
        lemma_slim_silent(v, c, nodes.last() as int, 0);
        assert(Seq::<(Style, Seq<char>)>::empty() + Seq::<(Style, Seq<char>)>::empty() =~= Seq::<(Style, Seq<char>)>::empty());
    }
}

/// The JSON object of an element starts with its tag name under `tag`; any
/// other node gives an empty object.
pub proof fn json_object_starts_with_tag(v: Seq<NodeView>, c: Config, n: int)
    ensures
        is_element(v, n) ==> json_object(v, c, n).len() >= 1 && json_object(v, c, n)[0] == ("tag"@, JsonFieldSpec::Text(v[n].text)),
        !is_element(v, n) ==> json_object(v, c, n).len() == 0,
{
}

/// In raw mode without a level limit, how deep a node stands changes
/// nothing of how it is printed: raw output carries no indentation.
pub proof fn raw_output_ignores_depth(v: Seq<NodeView>, c: Config, n: int, level: nat)
    requires
        c.raw,
        c.max_print_level < 0,
    ensures
        render_node(v, c, n, level) == render_node(v, c, n, 0),
    decreases v.len() - n, v[n].children.len() + 2,
{
    if 0 <= n < v.len() {
        lemma_raw_children_ignore_depth(v, c, n, level + 1, 1, 0);
        lemma_raw_children_ignore_depth(v, c, n, level, 0, 0);
    }
}

proof fn lemma_raw_children_ignore_depth(v: Seq<NodeView>, c: Config, n: int, l1: nat, l2: nat, k: int)
    requires
        c.raw,
        c.max_print_level < 0,
    ensures
        render_children_from(v, c, n, l1, k) == render_children_from(v, c, n, l2, k),
    decreases v.len() - n, v[n].children.len() - k,
{
    if 0 <= n < v.len() && 0 <= k < v[n].children.len() && n < v[n].children[k] < v.len() {
        let ch = v[n].children[k] as int;
        raw_output_ignores_depth(v, c, ch, l1);
        raw_output_ignores_depth(v, c, ch, l2);
        lemma_raw_children_ignore_depth(v, c, n, l1, l2, k + 1);
    }
}

// ---------------------------------------------------------------------------
// Text modifiers.

proof fn lemma_trim_front_start(s: Seq<char>)
    ensures
        trim_front(s).len() == 0 || !white_space(trim_front(s)[0]),
    decreases s.len(),
{
    if s.len() > 0 && white_space(s[0]) {
        lemma_trim_front_start(s.drop_first());
    }
}

proof fn lemma_trim_back_prefix(s: Seq<char>)
    ensures
        trim_back(s).len() <= s.len(),
        trim_back(s) == s.subrange(0, trim_back(s).len() as int),
        trim_back(s).len() == 0 || !white_space(trim_back(s).last()),
    decreases s.len(),
{
    if s.len() > 0 && white_space(s.last()) {
        lemma_trim_back_prefix(s.drop_last());
        assert(s.drop_last().subrange(0, trim_back(s).len() as int) =~= s.subrange(0, trim_back(s).len() as int));
    } else {
        assert(s.subrange(0, s.len() as int) =~= s);
    }
}

/// Trimming trimmed text changes nothing: `text{trim+trim}` prints what
/// `text{trim}` prints.
pub proof fn trimming_twice_is_trimming_once(d: Seq<char>)
    ensures
        modify("trim"@, modify("trim"@, d)) == modify("trim"@, d),
{
    let t = trim_front(d);
    let u = trim_back(t);
    lemma_trim_front_start(d);
    lemma_trim_back_prefix(t);
    if u.len() > 0 {
        assert(u[0] == t[0]);
    }
    assert(trim_front(u) == u);
    assert(trim_back(u) == u);
}

/// A modifier that `text{...}` does not know, and the empty one, leave the text as it is.
pub proof fn unknown_modifiers_change_nothing(m: Seq<char>, d: Seq<char>)
    requires
        !known_modifier(m) || m == ""@,
    ensures
        modify(m, d) == d,
{
    reveal_strlit("");
    reveal_strlit("trim");
    reveal_strlit("lower");
    reveal_strlit("upper");
    if m == ""@ {
        assert(m.len() == 0);
        assert("trim"@.len() == 4 && "lower"@.len() == 5 && "upper"@.len() == 5);
    }
}

// ---------------------------------------------------------------------------
// Pseudo classes.

/// On elements, `:first-child`, `:last-child`, `:first-of-type` and
/// `:last-of-type` are `:nth-child(1)`, `:nth-last-child(1)`,
/// `:nth-of-type(1)` and `:nth-last-of-type(1)`; `:only-child` is
/// `:first-child` and `:last-child` together, `:only-of-type` is
/// `:first-of-type` and `:last-of-type` together; `odd` and `even` are
/// `2n+1` and `2n+0`.
pub proof fn positional_pseudo_classes_agree(v: Seq<NodeView>, i: int)
    requires
        is_element(v, i),
    ensures
        pseudo_matches(PseudoSpec::FirstChild, v, i) == pseudo_matches(PseudoSpec::Nth(NthKind::Child, NthRule::Exactly(1)), v, i),
        pseudo_matches(PseudoSpec::LastChild, v, i) == pseudo_matches(PseudoSpec::Nth(NthKind::LastChild, NthRule::Exactly(1)), v, i),
        pseudo_matches(PseudoSpec::FirstOfType, v, i) == pseudo_matches(PseudoSpec::Nth(NthKind::OfType, NthRule::Exactly(1)), v, i),
        pseudo_matches(PseudoSpec::LastOfType, v, i) == pseudo_matches(PseudoSpec::Nth(NthKind::LastOfType, NthRule::Exactly(1)), v, i),
        pseudo_matches(PseudoSpec::OnlyChild, v, i) == (pseudo_matches(PseudoSpec::FirstChild, v, i) && pseudo_matches(PseudoSpec::LastChild, v, i)),
        pseudo_matches(PseudoSpec::OnlyOfType, v, i) == (pseudo_matches(PseudoSpec::FirstOfType, v, i) && pseudo_matches(PseudoSpec::LastOfType, v, i)),
        forall|k: NthKind| pseudo_matches(PseudoSpec::Nth(k, NthRule::Odd), v, i) == #[trigger] pseudo_matches(PseudoSpec::Nth(k, NthRule::Cycle(2, 1)), v, i),
        forall|k: NthKind| pseudo_matches(PseudoSpec::Nth(k, NthRule::Even), v, i) == #[trigger] pseudo_matches(PseudoSpec::Nth(k, NthRule::Cycle(2, 0)), v, i),
{
}

/// `:not(s)` passes exactly the nodes that `s` does not match.
pub proof fn negation_inverts_the_selector(s: SelectorSpec, v: Seq<NodeView>, i: int)
    ensures
        pseudo_matches(PseudoSpec::Not(Box::new(s)), v, i) == !selector_matches(s, v, i),
{
}

// ---------------------------------------------------------------------------
// Patterns.

/// Escaping text that holds no meta character of a regular expression
/// changes nothing.
pub proof fn escaping_plain_text_changes_nothing(t: Seq<char>)
    requires
        forall|i: int| 0 <= i < t.len() ==> !regex_meta_character(#[trigger] t[i]),
    ensures
        regex_escaped(t) == t,
    decreases t.len(),
{
    if t.len() > 0 {
        assert forall|i: int| 0 <= i < t.drop_first().len() implies !regex_meta_character(#[trigger] t.drop_first()[i]) by {
            assert(t.drop_first()[i] == t[i + 1]);
        }
        escaping_plain_text_changes_nothing(t.drop_first());
        assert(!regex_meta_character(t[0]));
        assert(seq![t[0]] + t.drop_first() =~= t);
    }
}

// ---------------------------------------------------------------------------
// Parsing pseudo classes.

/// The pseudo classes named by a word parse to the tests that their names
/// promise: `:empty` (no element child, every text child blank),
/// `:first-child` and `:last-child` (no element sibling before, after),
/// `:only-child` (neither), `:first-of-type`, `:last-of-type` and
/// `:only-of-type` (the same, counting the siblings of the same name).
/// `parse_pseudo_class` gives, for the name that follows the `:`, the pseudo
/// class that `parse_pseudo` gives.
pub proof fn named_pseudo_classes_parse(v: Seq<NodeView>, i: int)
    ensures
        parse_pseudo("empty"@) matches Ok(p) && pseudo_matches(p, v, i) == empty_node(v, i),
        parse_pseudo("first-child"@) matches Ok(p) && pseudo_matches(p, v, i) == (count_elements(v, prev_siblings(v, i)) == 0),
        parse_pseudo("last-child"@) matches Ok(p) && pseudo_matches(p, v, i) == (count_elements(v, next_siblings(v, i)) == 0),
        parse_pseudo("only-child"@) matches Ok(p) && pseudo_matches(p, v, i) == (count_elements(v, prev_siblings(v, i)) == 0
            && count_elements(v, next_siblings(v, i)) == 0),
        parse_pseudo("first-of-type"@) matches Ok(p) && pseudo_matches(p, v, i) == (is_element(v, i)
            && count_named(v, prev_siblings(v, i), v[i].text) == 0),
        parse_pseudo("last-of-type"@) matches Ok(p) && pseudo_matches(p, v, i) == (is_element(v, i)
            && count_named(v, next_siblings(v, i), v[i].text) == 0),
        parse_pseudo("only-of-type"@) matches Ok(p) && pseudo_matches(p, v, i) == (is_element(v, i)
            && count_named(v, prev_siblings(v, i), v[i].text) == 0 && count_named(v, next_siblings(v, i), v[i].text) == 0),
{
    reveal_strlit("empty");
    reveal_strlit("first-child");
    reveal_strlit("last-child");
    reveal_strlit("only-child");
    reveal_strlit("first-of-type");
    reveal_strlit("last-of-type");
    reveal_strlit("only-of-type");
    assert("empty"@.len() == 5 && "empty"@[0] == 'e');
    assert("first-child"@.len() == 11 && "first-child"@[0] == 'f');
    assert("last-child"@.len() == 10 && "last-child"@[0] == 'l');
    assert("only-child"@.len() == 10 && "only-child"@[0] == 'o');
    assert("first-of-type"@.len() == 13 && "first-of-type"@[0] == 'f');
    assert("last-of-type"@.len() == 12 && "last-of-type"@[0] == 'l');
    assert("only-of-type"@.len() == 12 && "only-of-type"@[0] == 'o');
    assert("first-of-type"@[1] == 'i' && "first-child"@[6] == 'c' && "first-of-type"@[6] == 'o');
    assert("last-of-type"@[5] == 'o' && "last-child"@[5] == 'c');
    assert("only-of-type"@[5] == 'o' && "only-child"@[5] == 'c');
    assert("first-child"@ != "empty"@);
    assert("last-child"@ != "empty"@ && "last-child"@ != "first-child"@);
    assert("only-child"@ != "empty"@ && "only-child"@ != "first-child"@ && "only-child"@ != "last-child"@);
    assert("first-of-type"@ != "empty"@ && "first-of-type"@ != "first-child"@ && "first-of-type"@ != "last-child"@
        && "first-of-type"@ != "only-child"@);
    assert("last-of-type"@ != "empty"@ && "last-of-type"@ != "first-child"@ && "last-of-type"@ != "last-child"@
        && "last-of-type"@ != "only-child"@ && "last-of-type"@ != "first-of-type"@);
    assert("only-of-type"@ != "empty"@ && "only-of-type"@ != "first-child"@ && "only-of-type"@ != "last-child"@
        && "only-of-type"@ != "only-child"@ && "only-of-type"@ != "first-of-type"@ && "only-of-type"@ != "last-of-type"@);
}

/// `:parent-of(sel)` parses to the test that some child of the node is an
/// element that `sel` matches: its direct children count, not deeper
/// descendants. The argument that `parse_parent_of_pseudo` reads from
/// `sel)` is `sel` itself.
pub proof fn parent_of_tests_direct_children(sel: Seq<char>, v: Seq<NodeView>, i: int)
    requires
        sel.len() >= 1,
    ensures
        paren_arg(sel + ")"@, "parent-of"@) == Ok::<Seq<char>, Seq<char>>(sel),
        forall|s: SelectorSpec| #[trigger] pseudo_matches(PseudoSpec::ParentOf(Box::new(s)), v, i) == exists|k: int|
            0 <= k < v[i].children.len() && is_element(v, v[i].children[k] as int) && selector_matches(
                s,
                v,
                v[i].children[k] as int,
            ),
        match parse_selector(sel) {
            Ok(s) => parse_pseudo("parent-of("@ + sel + ")"@) matches Ok(p) && pseudo_matches(p, v, i) == exists|k: int|
                0 <= k < v[i].children.len() && is_element(v, v[i].children[k] as int) && selector_matches(
                    s,
                    v,
                    v[i].children[k] as int,
                ),
            Err(m) => parse_pseudo("parent-of("@ + sel + ")"@) == Err::<PseudoSpec, Seq<char>>(m),
        },
{
    reveal_strlit("parent-of(");
    reveal_strlit(")");
    reveal_strlit("empty");
    reveal_strlit("first-child");
    reveal_strlit("last-child");
    reveal_strlit("only-child");
    reveal_strlit("first-of-type");
    reveal_strlit("last-of-type");
    reveal_strlit("only-of-type");
    reveal_strlit("contains(");
    reveal_strlit("matches(");
    reveal_strlit("nth-child(");
    reveal_strlit("nth-last-child(");
    reveal_strlit("nth-of-type(");
    reveal_strlit("nth-last-of-type(");
    reveal_strlit("not(");
    let rest = "parent-of("@ + sel + ")"@;
    assert(rest[0] == 'p');
    assert(rest != "empty"@ && rest != "first-child"@ && rest != "last-child"@ && rest != "only-child"@);
    assert(rest != "first-of-type"@ && rest != "last-of-type"@ && rest != "only-of-type"@);
    assert(!starts_with(rest, "contains("@)) by {
        assert(rest.subrange(0, 9)[0] != "contains("@[0]);
    }
    assert(!starts_with(rest, "matches("@)) by {
        assert(rest.subrange(0, 8)[0] != "matches("@[0]);
    }
    assert(!starts_with(rest, "nth-child("@)) by {
        assert(rest.subrange(0, 10)[0] != "nth-child("@[0]);
    }
    assert(!starts_with(rest, "nth-last-child("@)) by {
        if "nth-last-child("@.len() <= rest.len() {
            assert(rest.subrange(0, 15)[0] != "nth-last-child("@[0]);
        }
    }
    assert(!starts_with(rest, "nth-of-type("@)) by {
        assert(rest.subrange(0, 12)[0] != "nth-of-type("@[0]);
    }
    assert(!starts_with(rest, "nth-last-of-type("@)) by {
        if "nth-last-of-type("@.len() <= rest.len() {
            assert(rest.subrange(0, 17)[0] != "nth-last-of-type("@[0]);
        }
    }
    assert(!starts_with(rest, "not("@)) by {
        assert(rest.subrange(0, 4)[0] != "not("@[0]);
    }
    assert(rest.subrange(0, 10) =~= "parent-of("@);
    assert(starts_with(rest, "parent-of("@));
    let arg = rest.skip(10);
    assert(arg =~= sel + ")"@);
    assert(arg.len() >= 2 && arg.last() == ')');
    assert(arg.drop_last() =~= sel);
    assert(paren_arg(arg, "parent-of"@) == Ok::<Seq<char>, Seq<char>>(sel));
    assert(sel + ")"@ =~= arg);
}

// ---------------------------------------------------------------------------
// Displays over several nodes.

/// The attribute display of the nodes `a` followed by `b` is that of `a`
/// followed by that of `b`: every node's values are printed, in turn.
pub proof fn attr_display_concatenates(v: Seq<NodeView>, c: Config, name: Seq<char>, a: Seq<usize>, b: Seq<usize>)
    ensures
        render_attr_values(v, c, name, a + b) == render_attr_values(v, c, name, a) + render_attr_values(v, c, name, b),
    decreases b.len(),
{
    if b.len() == 0 {
        assert(a + b =~= a);
        assert(render_attr_values(v, c, name, a) + Seq::<(Style, Seq<char>)>::empty() =~= render_attr_values(v, c, name, a));
    } else {
        attr_display_concatenates(v, c, name, a, b.drop_last());
        assert((a + b).drop_last() =~= a + b.drop_last());
        assert((a + b).last() == b.last());
        let last = if is_element(v, b.last() as int) {
            attr_values(c, v[b.last() as int].attrs, name)
        } else {
            Seq::<(Style, Seq<char>)>::empty()
        };
        assert(render_attr_values(v, c, name, a) + render_attr_values(v, c, name, b.drop_last()) + last
            =~= render_attr_values(v, c, name, a) + (render_attr_values(v, c, name, b.drop_last()) + last));
    }
}

/// The attribute display of one element is the values of its attributes of
/// that name, in its attribute order, each escaped when asked and on its own
/// line unless raw; a node that is no element shows nothing.
pub proof fn attr_display_of_one_node(v: Seq<NodeView>, c: Config, name: Seq<char>, n: usize)
    ensures
        render_attr_values(v, c, name, seq![n]) == if is_element(v, n as int) {
            attr_values(c, v[n as int].attrs, name)
        } else {
            Seq::<(Style, Seq<char>)>::empty()
        },
{
    assert(seq![n].drop_last() =~= Seq::<usize>::empty());
    assert(seq![n].last() == n);
    assert(render_attr_values(v, c, name, Seq::<usize>::empty()) == Seq::<(Style, Seq<char>)>::empty());
    assert(Seq::<(Style, Seq<char>)>::empty() + attr_values(c, v[n as int].attrs, name) =~= attr_values(c, v[n as int].attrs, name));
    assert(Seq::<(Style, Seq<char>)>::empty() + Seq::<(Style, Seq<char>)>::empty() =~= Seq::<(Style, Seq<char>)>::empty());
}

/// The values that the attribute display shows of one element: one piece for
/// each attribute with that name, in order, holding its (escaped) value.
pub proof fn attr_values_pick_named_attributes(c: Config, attrs: Seq<(Seq<char>, Seq<char>)>, name: Seq<char>)
    requires
        c.raw,
    ensures
        attr_values(c, attrs, name) == attrs.filter(|a: (Seq<char>, Seq<char>)| a.0 == name).map_values(
            |a: (Seq<char>, Seq<char>)| (Style::Plain, escaped(c, a.1)),
        ),
    decreases attrs.len(),
{
    let pred = |a: (Seq<char>, Seq<char>)| a.0 == name;
    let f = |a: (Seq<char>, Seq<char>)| (Style::Plain, escaped(c, a.1));
    if attrs.len() == 0 {
        reveal(Seq::filter);
        assert(attrs.filter(pred) =~= Seq::<(Seq<char>, Seq<char>)>::empty());
        assert(attrs.filter(pred).map_values(f) =~= Seq::<(Style, Seq<char>)>::empty());
    } else {
        attr_values_pick_named_attributes(c, attrs.drop_first(), name);
        assert(attrs =~= seq![attrs[0]] + attrs.drop_first());
        attrs.drop_first().lemma_filter_prepend(attrs[0], pred);
        let rest = attrs.drop_first().filter(pred);
        if pred(attrs[0]) {
            assert((seq![attrs[0]] + rest).map_values(f) =~= seq![f(attrs[0])] + rest.map_values(f));
            assert(plain(escaped(c, attrs[0].1)) + newline(c) =~= seq![f(attrs[0])]);
        } else {
            assert((Seq::<(Seq<char>, Seq<char>)>::empty() + rest) =~= rest);
            assert(Seq::<(Style, Seq<char>)>::empty() + attr_values(c, attrs.drop_first(), name) =~= attr_values(c, attrs.drop_first(), name));
        }
    }
}

/// The tree display of the nodes `a` followed by `b` is that of `a` followed
/// by that of `b`.
pub proof fn tree_display_concatenates(v: Seq<NodeView>, c: Config, a: Seq<usize>, b: Seq<usize>)
    ensures
        render_tree(v, c, a + b) == render_tree(v, c, a) + render_tree(v, c, b),
    decreases b.len(),
{
    if b.len() == 0 {
        assert(a + b =~= a);
        assert(render_tree(v, c, a) + Seq::<(Style, Seq<char>)>::empty() =~= render_tree(v, c, a));
    } else {
        tree_display_concatenates(v, c, a, b.drop_last());
        assert((a + b).drop_last() =~= a + b.drop_last());
        assert((a + b).last() == b.last());
        assert(render_tree(v, c, a) + render_tree(v, c, b.drop_last()) + render_node(v, c, b.last() as int, 0)
            =~= render_tree(v, c, a) + (render_tree(v, c, b.drop_last()) + render_node(v, c, b.last() as int, 0)));
    }
}

/// The text display of the nodes `a` followed by `b` is that of `a` followed
/// by that of `b`.
pub proof fn text_display_concatenates(v: Seq<NodeView>, c: Config, mods: Seq<Seq<char>>, a: Seq<usize>, b: Seq<usize>)
    ensures
        render_texts(v, c, mods, a + b) == render_texts(v, c, mods, a) + render_texts(v, c, mods, b),
    decreases b.len(),
{
    if b.len() == 0 {
        assert(a + b =~= a);
        assert(render_texts(v, c, mods, a) + Seq::<(Style, Seq<char>)>::empty() =~= render_texts(v, c, mods, a));
    } else {
        text_display_concatenates(v, c, mods, a, b.drop_last());
        assert((a + b).drop_last() =~= a + b.drop_last());
        assert((a + b).last() == b.last());
        assert(render_texts(v, c, mods, a) + render_texts(v, c, mods, b.drop_last()) + render_text(v, c, mods, b.last() as int)
            =~= render_texts(v, c, mods, a) + (render_texts(v, c, mods, b.drop_last()) + render_text(v, c, mods, b.last() as int)));
    }
}

/// The slim display of the nodes `a` followed by `b` is that of `a` followed
/// by that of `b`.
pub proof fn slim_display_concatenates(v: Seq<NodeView>, c: Config, a: Seq<usize>, b: Seq<usize>)
    ensures
        render_slims(v, c, a + b) == render_slims(v, c, a) + render_slims(v, c, b),
    decreases b.len(),
{
    if b.len() == 0 {
        assert(a + b =~= a);
        assert(render_slims(v, c, a) + Seq::<(Style, Seq<char>)>::empty() =~= render_slims(v, c, a));
    } else {
        slim_display_concatenates(v, c, a, b.drop_last());
        assert((a + b).drop_last() =~= a + b.drop_last());
        assert((a + b).last() == b.last());
        assert(render_slims(v, c, a) + render_slims(v, c, b.drop_last()) + render_slim(v, c, b.last() as int, 0)
            =~= render_slims(v, c, a) + (render_slims(v, c, b.drop_last()) + render_slim(v, c, b.last() as int, 0)));
    }
}

// ---------------------------------------------------------------------------
// Start tags.

proof fn lemma_attr_pieces_plain(c: Config, attrs: Seq<(Seq<char>, Seq<char>)>)
    requires
        !c.color,
    ensures
        attr_pieces(c, attrs).len() == attrs.len(),
        forall|k: int| 0 <= k < attrs.len() ==> #[trigger] attr_pieces(c, attrs)[k] == (Style::Plain, " "@ + attrs[k].0
            + "=\""@ + escaped(c, attrs[k].1) + "\""@),
    decreases attrs.len(),
{
    if attrs.len() > 0 {
        lemma_attr_pieces_plain(c, attrs.drop_first());
        let here = plain(" "@ + attrs[0].0 + "=\""@ + escaped(c, attrs[0].1) + "\""@);
        assert(attr_pieces(c, attrs) == here + attr_pieces(c, attrs.drop_first()));
        assert forall|k: int| 0 <= k < attrs.len() implies #[trigger] attr_pieces(c, attrs)[k] == (Style::Plain, " "@
            + attrs[k].0 + "=\""@ + escaped(c, attrs[k].1) + "\""@) by {
            if k > 0 {
                assert(attr_pieces(c, attrs)[k] == attr_pieces(c, attrs.drop_first())[k - 1]);
                assert(attrs.drop_first()[k - 1] == attrs[k]);
            }
        }
    }
}

#[verifier::spinoff_prover]
proof fn lemma_attr_pieces_colored(c: Config, attrs: Seq<(Seq<char>, Seq<char>)>)
    requires
        c.color,
    ensures
        attr_pieces(c, attrs).len() == 4 * attrs.len(),
        forall|k: int| 0 <= k < attrs.len() ==> {
            &&& #[trigger] attr_pieces(c, attrs)[4 * k] == (Style::Plain, " "@)
            &&& attr_pieces(c, attrs)[4 * k + 1] == (Style::AttrName, attrs[k].0)
            &&& attr_pieces(c, attrs)[4 * k + 2] == (Style::AttrValue, "="@)
            &&& attr_pieces(c, attrs)[4 * k + 3] == (Style::AttrValue, "\""@ + escaped(c, attrs[k].1) + "\""@)
        },
    decreases attrs.len(),
{
    if attrs.len() > 0 {
        lemma_attr_pieces_colored(c, attrs.drop_first());
        let rest = attr_pieces(c, attrs.drop_first());
        assert forall|k: int| 0 <= k < attrs.len() implies {
            &&& #[trigger] attr_pieces(c, attrs)[4 * k] == (Style::Plain, " "@)
            &&& attr_pieces(c, attrs)[4 * k + 1] == (Style::AttrName, attrs[k].0)
            &&& attr_pieces(c, attrs)[4 * k + 2] == (Style::AttrValue, "="@)
            &&& attr_pieces(c, attrs)[4 * k + 3] == (Style::AttrValue, "\""@ + escaped(c, attrs[k].1) + "\""@)
        } by {
            if k > 0 {
                assert(attrs.drop_first()[k - 1] == attrs[k]);
                assert(4 * k == 4 + 4 * (k - 1));
                assert(rest[4 * (k - 1)] == (Style::Plain, " "@));
            }
        }
    }
}

/// The start tag of an element holds one ` key="value"` for each of its
/// attributes, in their order: without colors, one piece after `<tag` for
/// each attribute, then `>`; with colors, four pieces for each attribute
/// (the space, the name, `=` and the quoted value) between `<`, the tag and
/// `>`.
#[verifier::spinoff_prover]
pub proof fn start_tag_shows_every_attribute(c: Config, tag: Seq<char>, attrs: Seq<(Seq<char>, Seq<char>)>)
    ensures
        !c.color ==> {
            &&& start_tag(c, tag, attrs).len() == attrs.len() + 2
            &&& start_tag(c, tag, attrs)[0] == (Style::Plain, "<"@ + tag)
            &&& start_tag(c, tag, attrs)[attrs.len() as int + 1] == (Style::Plain, ">"@)
            &&& forall|k: int| 0 <= k < attrs.len() ==> #[trigger] start_tag(c, tag, attrs)[k + 1] == (Style::Plain, " "@
                + attrs[k].0 + "=\""@ + escaped(c, attrs[k].1) + "\""@)
        },
        c.color ==> {
            &&& start_tag(c, tag, attrs).len() == 4 * attrs.len() + 3
            &&& forall|k: int| 0 <= k < attrs.len() ==> {
                &&& #[trigger] start_tag(c, tag, attrs)[4 * k + 3] == (Style::AttrName, attrs[k].0)
                &&& start_tag(c, tag, attrs)[4 * k + 5] == (Style::AttrValue, "\""@ + escaped(c, attrs[k].1) + "\""@)
            }
        },
{
    let st = start_tag(c, tag, attrs);
    if !c.color {
        lemma_attr_pieces_plain(c, attrs);
        assert forall|k: int| 0 <= k < attrs.len() implies #[trigger] st[k + 1] == (Style::Plain, " "@ + attrs[k].0
            + "=\""@ + escaped(c, attrs[k].1) + "\""@) by {
            assert(st[k + 1] == attr_pieces(c, attrs)[k]);
        }
    } else {
        lemma_attr_pieces_colored(c, attrs);
        let head: Seq<(Style, Seq<char>)> = seq![(Style::Tag, "<"@), (Style::Tag, tag)];
        assert(st == head + attr_pieces(c, attrs) + seq![(Style::Tag, ">"@)]);
        assert forall|k: int| 0 <= k < attrs.len() implies {
            &&& #[trigger] st[4 * k + 3] == (Style::AttrName, attrs[k].0)
            &&& st[4 * k + 5] == (Style::AttrValue, "\""@ + escaped(c, attrs[k].1) + "\""@)
        } by {
            assert(st[4 * k + 3] == attr_pieces(c, attrs)[4 * k + 1]);
            assert(st[4 * k + 5] == attr_pieces(c, attrs)[4 * k + 3]);
            assert(attr_pieces(c, attrs)[4 * k] == (Style::Plain, " "@));
        }
    }
}

// ---------------------------------------------------------------------------
// JSON objects.

/// The parts with a single space between each two, read from the front.
pub open spec fn spaced(parts: Seq<Seq<char>>) -> Seq<char>
    decreases parts.len(),
{
    if parts.len() == 0 {
        seq![]
    } else if parts.len() == 1 {
        parts[0]
    } else {
        parts[0] + " "@ + spaced(parts.drop_first())
    }
}

proof fn lemma_join_is_spaced(parts: Seq<Seq<char>>)
    ensures
        seq_join(parts, " "@) == spaced(parts),
    decreases parts.len(),
{
    if parts.len() >= 2 {
        lemma_join_is_spaced(parts.drop_last());
        lemma_spaced_push(parts.drop_last(), parts.last());
        assert(parts.drop_last().push(parts.last()) =~= parts);
    }
}

proof fn lemma_spaced_push(parts: Seq<Seq<char>>, x: Seq<char>)
    requires
        parts.len() >= 1,
    ensures
        spaced(parts.push(x)) == spaced(parts) + " "@ + x,
    decreases parts.len(),
{
    if parts.len() == 1 {
        assert(parts.push(x).drop_first() =~= seq![x]);
        assert(spaced(seq![x]) == x);
        assert(parts.push(x)[0] == parts[0]);
        assert(spaced(parts) == parts[0]);
    } else {
        assert(parts.push(x)[0] == parts[0]);
        lemma_spaced_push(parts.drop_first(), x);
        assert(parts.push(x).drop_first() =~= parts.drop_first().push(x));
        assert(parts[0] + " "@ + (spaced(parts.drop_first()) + " "@ + x) =~= parts[0] + " "@ + spaced(parts.drop_first()) + " "@ + x);
    }
}

/// The `text` field of an element's JSON object, present when it has text
/// children that are not blank, stands right after its attributes and holds
/// their trimmed texts with one space between each two: with two texts `t1`
/// and `t2`, `t1 + " " + t2`.
pub proof fn json_text_joins_with_single_spaces(v: Seq<NodeView>, c: Config, n: int)
    requires
        is_element(v, n),
        json_text_parts(v, c, n, v[n].children.len() as int).len() > 0,
    ensures
        json_object(v, c, n)[1 + v[n].attrs.len() as int] == ("text"@, JsonFieldSpec::Text(
            spaced(json_text_parts(v, c, n, v[n].children.len() as int)),
        )),
        json_text_parts(v, c, n, v[n].children.len() as int).len() == 2 ==> json_object(v, c, n)[1 + v[n].attrs.len() as int]
            == ("text"@, JsonFieldSpec::Text(
            json_text_parts(v, c, n, v[n].children.len() as int)[0] + " "@ + json_text_parts(v, c, n, v[n].children.len() as int)[1],
        )),
{
    let texts = json_text_parts(v, c, n, v[n].children.len() as int);
    lemma_join_is_spaced(texts);
    let fields = json_attr_fields(c, v[n].attrs);
    assert(fields.len() == v[n].attrs.len());
    let obj = json_object(v, c, n);
    assert(obj[1 + fields.len() as int] == ("text"@, JsonFieldSpec::Text(seq_join(texts, " "@))));
    if texts.len() == 2 {
        assert(texts.drop_first().len() == 1);
        assert(texts.drop_first()[0] == texts[1]);
        assert(spaced(texts.drop_first()) == texts[1]);
    }
}

// ---------------------------------------------------------------------------
// Compiling commands.

/// Whether the `i`-th command is a selector: none of `*`, `>`, `+`, `,`, and
/// not a last command that names a display function.
pub open spec fn selector_command(cmds: Seq<Seq<char>>, i: int) -> bool {
    &&& 0 <= i < cmds.len()
    &&& cmds[i] != "*"@ && cmds[i] != ">"@ && cmds[i] != "+"@ && cmds[i] != ","@
    &&& !(i == cmds.len() - 1 && display_of(cmds[i]) is Ok)
}

/// A selector relates to the one before it as that one's descendant, child or
/// next sibling as asked, and the selector after it relates to it as a
/// descendant again: `>` and `+` reach one selector only.
pub proof fn relation_returns_to_descendant(
    cmds: Seq<Seq<char>>,
    i: int,
    t: SelectorFuncType,
    strict: bool,
    a: SelectorSpec,
    b: SelectorSpec,
)
    requires
        selector_command(cmds, i),
        selector_command(cmds, i + 1),
        parse_selector(cmds[i]) == Ok::<SelectorSpec, Seq<char>>(a),
        parse_selector(cmds[i + 1]) == Ok::<SelectorSpec, Seq<char>>(b),
    ensures
        compile_from(cmds, i, t, strict) matches Ok(r) ==> {
            &&& r.len() >= 2
            &&& r[0] == Some((with_standard_only(a, strict), t))
            &&& r[1] == Some((with_standard_only(b, strict), SelectorFuncType::Descendant))
        },
{
    reveal_strlit("*");
    reveal_strlit(">");
    reveal_strlit("+");
    reveal_strlit(",");
    let s1 = with_standard_only(a, strict);
    let s2 = with_standard_only(b, strict);
    match compile_from(cmds, i + 2, SelectorFuncType::Descendant, strict) {
        Ok(rest) => {
            assert(compile_from(cmds, i + 1, SelectorFuncType::Descendant, strict) == Ok::<Seq<StepSpec>, Seq<char>>(
                seq![Some((s2, SelectorFuncType::Descendant))] + rest,
            ));
            let r = seq![Some((s1, t))] + (seq![Some((s2, SelectorFuncType::Descendant))] + rest);
            assert(compile_from(cmds, i, t, strict) == Ok::<Seq<StepSpec>, Seq<char>>(r));
            assert(r[1] == Some((s2, SelectorFuncType::Descendant)));
        },
        Err(_) => {},
    }
}

/// For commands `s1 > s2 s3`, the steps are `s1` from where the group starts,
/// `s2` among the children of what `s1` found, and `s3` anywhere below what
/// `s2` found.
pub proof fn child_then_descendant(
    cmds: Seq<Seq<char>>,
    i: int,
    t: SelectorFuncType,
    strict: bool,
    a: SelectorSpec,
    b: SelectorSpec,
    d: SelectorSpec,
)
    requires
        selector_command(cmds, i),
        i + 1 < cmds.len() - 1,
        cmds[i + 1] == ">"@,
        selector_command(cmds, i + 2),
        selector_command(cmds, i + 3),
        parse_selector(cmds[i]) == Ok::<SelectorSpec, Seq<char>>(a),
        parse_selector(cmds[i + 2]) == Ok::<SelectorSpec, Seq<char>>(b),
        parse_selector(cmds[i + 3]) == Ok::<SelectorSpec, Seq<char>>(d),
    ensures
        compile_from(cmds, i, t, strict) matches Ok(r) ==> {
            &&& r.len() >= 3
            &&& r[0] == Some((with_standard_only(a, strict), t))
            &&& r[1] == Some((with_standard_only(b, strict), SelectorFuncType::Child))
            &&& r[2] == Some((with_standard_only(d, strict), SelectorFuncType::Descendant))
        },
{
    reveal_strlit("*");
    reveal_strlit(">");
    reveal_strlit("+");
    reveal_strlit(",");
    relation_returns_to_descendant(cmds, i + 2, SelectorFuncType::Child, strict, b, d);
    let s1 = with_standard_only(a, strict);
    assert(cmds[i + 1] == ">"@);
    assert(compile_from(cmds, i + 1, SelectorFuncType::Descendant, strict) == compile_from(cmds, i + 2, SelectorFuncType::Child, strict));
    match compile_from(cmds, i + 2, SelectorFuncType::Child, strict) {
        Ok(rest) => {
            let r = seq![Some((s1, t))] + rest;
            assert(compile_from(cmds, i, t, strict) == Ok::<Seq<StepSpec>, Seq<char>>(r));
            assert(r[1] == rest[0] && r[2] == rest[1]);
        },
        Err(_) => {},
    }
}

// ---------------------------------------------------------------------------
// Class and id shorthands.

/// Whether `c` can be written as a class or id name and as an unquoted
/// attribute value alike: none of `.`, `#`, `[`, `:`, space, `]` or `"`.
pub open spec fn plain_name(c: Seq<char>) -> bool {
    forall|j: int| 0 <= j < c.len() ==> {
        &&& !part_start(#[trigger] c[j])
        &&& c[j] != ' '
        &&& c[j] != ']'
        &&& c[j] != '"'
    }
}

proof fn lemma_scan_ident_to_end(s: Seq<char>, i: int)
    requires
        0 <= i <= s.len(),
        forall|j: int| i <= j < s.len() ==> !part_start(#[trigger] s[j]) && s[j] != ' ',
    ensures
        scan_ident(s, i) == s.len(),
    decreases s.len() - i,
{
    if i < s.len() {
        lemma_scan_ident_to_end(s, i + 1);
    }
}

proof fn lemma_scan_bracket_to(s: Seq<char>, i: int, k: int)
    requires
        0 <= i <= k < s.len(),
        s[k] == ']',
        forall|j: int| i <= j < k ==> #[trigger] s[j] != ']',
    ensures
        scan_bracket(s, i) == k,
    decreases k - i,
{
    if i < k {
        lemma_scan_bracket_to(s, i + 1, k);
    }
}

proof fn lemma_scan_key_to(s: Seq<char>, i: int, k: int)
    requires
        0 <= i <= k < s.len(),
        key_end(s[k]),
        forall|j: int| i <= j < k ==> !key_end(#[trigger] s[j]),
    ensures
        scan_key(s, i) == k,
    decreases k - i,
{
    if i < k {
        lemma_scan_key_to(s, i + 1, k);
    }
}

/// The parse of `prefix + c` when the prefix is `.` or `#`: one attribute
/// test on `key` with `pattern`, or the pattern's compile error.
proof fn lemma_shorthand_parse(prefix: char, c: Seq<char>)
    requires
        prefix == '.' || prefix == '#',
        plain_name(c),
    ensures
        parse_selector(seq![prefix] + c) == ({
            let key = if prefix == '.' { "class"@ } else { "id"@ };
            let pattern = if prefix == '.' { class_pattern(c) } else { id_pattern(c) };
            match regex_compile_error(pattern) {
                Some(m) => Err(m),
                None => Ok(SelectorSpec { tag: None, attrs: seq![(key, Some(pattern))], pseudo: None, standard_only: false }),
            }
        }),
{
    let s = seq![prefix] + c;
    assert(part_start(s[0]));
    assert(scan_tag(s, 0) == 0);
    assert forall|j: int| 1 <= j < s.len() implies !part_start(#[trigger] s[j]) && s[j] != ' ' by {
        assert(s[j] == c[j - 1]);
    }
    lemma_scan_ident_to_end(s, 1);
    assert(s.subrange(1, s.len() as int) =~= c);
}

/// The parse of `[class~=c]`.
#[verifier::spinoff_prover]
proof fn lemma_class_attr_parse(c: Seq<char>)
    requires
        plain_name(c),
    ensures
        parse_selector("[class~="@ + c + "]"@) == (match regex_compile_error(attr_pattern('~', c)) {
            Some(m) => Err(m),
            None => Ok(SelectorSpec { tag: None, attrs: seq![("class"@, Some(attr_pattern('~', c)))], pseudo: None, standard_only: false }),
        }),
{
    reveal_strlit("[class~=");
    reveal_strlit("]");
    reveal_strlit("class");
    let s = "[class~="@ + c + "]"@;
    let n = s.len() as int;
    assert(n == c.len() + 9);
    assert(s[0] == '[' && s[1] == 'c' && s[2] == 'l' && s[3] == 'a' && s[4] == 's' && s[5] == 's' && s[6] == '~' && s[7] == '=');
    assert(scan_tag(s, 0) == 0);
    assert forall|x: int| 1 <= x < 6 implies !key_end(#[trigger] s[x]) by {}
    lemma_scan_key_to(s, 1, 6);
    assert(s.subrange(1, 6) =~= "class"@);
    assert forall|x: int| 8 <= x < n - 1 implies #[trigger] s[x] != ']' by {
        assert(s[x] == c[x - 8]);
    }
    assert(s[n - 1] == ']');
    lemma_scan_bracket_to(s, 8, n - 1);
    assert(s.subrange(8, n - 1) =~= c);
    if c.len() > 0 {
        assert(s[8] == c[0]);
    }
    assert(s[8] != '"');
}

/// The parse of `[id=c]`.
#[verifier::spinoff_prover]
proof fn lemma_id_attr_parse(c: Seq<char>)
    requires
        plain_name(c),
    ensures
        parse_selector("[id="@ + c + "]"@) == (match regex_compile_error(attr_pattern('=', c)) {
            Some(m) => Err(m),
            None => Ok(SelectorSpec { tag: None, attrs: seq![("id"@, Some(attr_pattern('=', c)))], pseudo: None, standard_only: false }),
        }),
{
    reveal_strlit("[id=");
    reveal_strlit("]");
    reveal_strlit("id");
    let s = "[id="@ + c + "]"@;
    let n = s.len() as int;
    assert(n == c.len() + 5);
    assert(s[0] == '[' && s[1] == 'i' && s[2] == 'd' && s[3] == '=');
    assert(scan_tag(s, 0) == 0);
    assert forall|x: int| 1 <= x < 3 implies !key_end(#[trigger] s[x]) by {}
    lemma_scan_key_to(s, 1, 3);
    assert(s.subrange(1, 3) =~= "id"@);
    assert forall|x: int| 4 <= x < n - 1 implies #[trigger] s[x] != ']' by {
        assert(s[x] == c[x - 4]);
    }
    assert(s[n - 1] == ']');
    lemma_scan_bracket_to(s, 4, n - 1);
    assert(s.subrange(4, n - 1) =~= c);
    if c.len() > 0 {
        assert(s[4] == c[0]);
    }
    assert(s[4] != '"');
}

/// `.c` is the same selector as `[class~=c]`: an element whose class list
/// holds `c` as a whole word; `#c` is the same selector as `[id=c]`: an
/// element whose id is exactly `c`.
pub proof fn class_and_id_shorthands(c: Seq<char>)
    requires
        plain_name(c),
    ensures
        parse_selector("."@ + c) == parse_selector("[class~="@ + c + "]"@),
        parse_selector("#"@ + c) == parse_selector("[id="@ + c + "]"@),
{
    reveal_strlit(".");
    reveal_strlit("#");
    lemma_shorthand_parse('.', c);
    lemma_shorthand_parse('#', c);
    assert("."@ + c =~= seq!['.'] + c);
    assert("#"@ + c =~= seq!['#'] + c);
    lemma_class_attr_parse(c);
    lemma_id_attr_parse(c);
}

} // verus!
