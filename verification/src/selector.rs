use vstd::prelude::*;

use ego_tree::iter::Edge;
use scraper::{Html, Node};

use crate::dom::{
    balanced_walk, balanced_walk_builds_tree, document_from_events, merge_walk, merged_walk, same_shape, tree_of_events, Document, NodeKind,
    NodeView,
};
use crate::patterns::{captures, compile, escape, is_match, regex_capture_groups, regex_compile_error, regex_escaped, regex_is_match};
use crate::text::{chars_are, chars_of, chars_start_with, contains_chars, contains_seq, concat, string_from, sub_chars, surround, trim_bounds, trimmed};

verus! {

/// How a selector step relates the nodes it finds to the nodes it starts from.
#[derive(Clone, Copy, PartialEq, Eq, Structural, Debug)]
pub enum SelectorFuncType {
    /// Descendants (the nearest matching ones on each path down).
    Descendant,
    /// Direct children (`>`).
    Child,
    /// The next sibling element (`+`).
    NextSibling,
}

/// Which siblings an `nth-...` pseudo class counts.
#[derive(Clone, Copy, PartialEq, Eq, Structural, Debug)]
pub enum NthKind {
    /// `nth-child`: element siblings before the node.
    Child,
    /// `nth-last-child`: element siblings after the node.
    LastChild,
    /// `nth-of-type`: siblings of the same name before the node.
    OfType,
    /// `nth-last-of-type`: siblings of the same name after the node.
    LastOfType,
}

/// The test an `nth-...` pseudo class applies to the node's position.
#[derive(Clone, Copy, PartialEq, Eq, Structural, Debug)]
pub enum NthRule {
    Odd,
    Even,
    /// `an+b`: the position is `b` plus `a` times some `k >= 0` (with `a`
    /// of 0, the position is `b`).
    Cycle(i32, i32),
    /// `n+b`: the position is at least `b`.
    AtLeast(i32),
    /// A plain position.
    Exactly(i32),
}

/// A pseudo class of a selector.
pub enum Pseudo {
    Empty,
    FirstChild,
    LastChild,
    OnlyChild,
    FirstOfType,
    LastOfType,
    OnlyOfType,
    Contains(String),
    Matches(String),
    Nth(NthKind, NthRule),
    Not(Box<ContextualSelector>),
    ParentOf(Box<ContextualSelector>),
}

/// A selector for one node: an optional tag name, attribute tests (each a
/// key and, unless it only asks for the attribute, a regular expression over
/// its value), an optional pseudo class, and whether only elements of the
/// HTML standard may match.
pub struct ContextualSelector {
    tag: Option<String>,
    attrs: Vec<(String, Option<String>)>,
    pseudo: Option<Pseudo>,
    standard_only: bool,
}

/// A pseudo class as plain values.
pub enum PseudoSpec {
    Empty,
    FirstChild,
    LastChild,
    OnlyChild,
    FirstOfType,
    LastOfType,
    OnlyOfType,
    Contains(Seq<char>),
    Matches(Seq<char>),
    Nth(NthKind, NthRule),
    Not(Box<SelectorSpec>),
    ParentOf(Box<SelectorSpec>),
}

/// A selector as plain values.
pub struct SelectorSpec {
    pub tag: Option<Seq<char>>,
    pub attrs: Seq<(Seq<char>, Option<Seq<char>>)>,
    pub pseudo: Option<PseudoSpec>,
    pub standard_only: bool,
}

/// `s`, its matches kept to elements of the HTML standard when `strict` holds.
pub open spec fn with_standard_only(s: SelectorSpec, strict: bool) -> SelectorSpec {
    SelectorSpec { standard_only: strict, ..s }
}

/// The plain value of a selector.
pub closed spec fn selector_view(s: ContextualSelector) -> SelectorSpec
    decreases s,
{
    SelectorSpec {
        tag: match s.tag {
            Some(t) => Some(t@),
            None => None,
        },
        attrs: s.attrs.deep_view(),
        pseudo: match s.pseudo {
            Some(p) => Some(pseudo_view(p)),
            None => None,
        },
        standard_only: s.standard_only,
    }
}

/// The plain value of a pseudo class.
pub closed spec fn pseudo_view(p: Pseudo) -> PseudoSpec
    decreases p,
{
    match p {
        Pseudo::Empty => PseudoSpec::Empty,
        Pseudo::FirstChild => PseudoSpec::FirstChild,
        Pseudo::LastChild => PseudoSpec::LastChild,
        Pseudo::OnlyChild => PseudoSpec::OnlyChild,
        Pseudo::FirstOfType => PseudoSpec::FirstOfType,
        Pseudo::LastOfType => PseudoSpec::LastOfType,
        Pseudo::OnlyOfType => PseudoSpec::OnlyOfType,
        Pseudo::Contains(t) => PseudoSpec::Contains(t@),
        Pseudo::Matches(t) => PseudoSpec::Matches(t@),
        Pseudo::Nth(k, r) => PseudoSpec::Nth(k, r),
        Pseudo::Not(b) => PseudoSpec::Not(Box::new(selector_view(*b))),
        Pseudo::ParentOf(b) => PseudoSpec::ParentOf(Box::new(selector_view(*b))),
    }
}

impl View for ContextualSelector {
    type V = SelectorSpec;

    open spec fn view(&self) -> SelectorSpec {
        selector_view(*self)
    }
}

impl ContextualSelector {
    /// Every regular expression that a selector holds compiles.
    #[verifier::type_invariant]
    closed spec fn patterns_compile(self) -> bool {
        &&& forall|k: int|
            0 <= k < self.attrs@.len() ==> (#[trigger] self.attrs@[k].1 matches Some(p) ==> regex_compile_error(p@) is None)
        &&& (self.pseudo matches Some(Pseudo::Matches(p)) ==> regex_compile_error(p@) is None)
        &&& (self.pseudo matches Some(Pseudo::Nth(_, NthRule::Cycle(a, _))) ==> a >= 0)
    }
}

// ---------------------------------------------------------------------------
// Standard tags.

/// The elements of the HTML standard (the WHATWG HTML element index, with
/// `math` and `svg`, which HTML embeds).
pub open spec fn standard_tag(tag: Seq<char>) -> bool {
    ||| tag == "a"@
    ||| tag == "abbr"@
    ||| tag == "address"@
    ||| tag == "area"@
    ||| tag == "article"@
    ||| tag == "aside"@
    ||| tag == "audio"@
    ||| tag == "b"@
    ||| tag == "base"@
    ||| tag == "bdi"@
    ||| tag == "bdo"@
    ||| tag == "blockquote"@
    ||| tag == "body"@
    ||| tag == "br"@
    ||| tag == "button"@
    ||| tag == "canvas"@
    ||| tag == "caption"@
    ||| tag == "cite"@
    ||| tag == "code"@
    ||| tag == "col"@
    ||| tag == "colgroup"@
    ||| tag == "data"@
    ||| tag == "datalist"@
    ||| tag == "dd"@
    ||| tag == "del"@
    ||| tag == "details"@
    ||| tag == "dfn"@
    ||| tag == "dialog"@
    ||| tag == "div"@
    ||| tag == "dl"@
    ||| tag == "dt"@
    ||| tag == "em"@
    ||| tag == "embed"@
    ||| tag == "fieldset"@
    ||| tag == "figcaption"@
    ||| tag == "figure"@
    ||| tag == "footer"@
    ||| tag == "form"@
    ||| tag == "h1"@
    ||| tag == "h2"@
    ||| tag == "h3"@
    ||| tag == "h4"@
    ||| tag == "h5"@
    ||| tag == "h6"@
    ||| tag == "head"@
    ||| tag == "header"@
    ||| tag == "hgroup"@
    ||| tag == "hr"@
    ||| tag == "html"@
    ||| tag == "i"@
    ||| tag == "iframe"@
    ||| tag == "img"@
    ||| tag == "input"@
    ||| tag == "ins"@
    ||| tag == "kbd"@
    ||| tag == "label"@
    ||| tag == "legend"@
    ||| tag == "li"@
    ||| tag == "link"@
    ||| tag == "main"@
    ||| tag == "map"@
    ||| tag == "mark"@
    ||| tag == "math"@
    ||| tag == "menu"@
    ||| tag == "meta"@
    ||| tag == "meter"@
    ||| tag == "nav"@
    ||| tag == "noscript"@
    ||| tag == "object"@
    ||| tag == "ol"@
    ||| tag == "optgroup"@
    ||| tag == "option"@
    ||| tag == "output"@
    ||| tag == "p"@
    ||| tag == "param"@
    ||| tag == "picture"@
    ||| tag == "pre"@
    ||| tag == "progress"@
    ||| tag == "q"@
    ||| tag == "rp"@
    ||| tag == "rt"@
    ||| tag == "ruby"@
    ||| tag == "s"@
    ||| tag == "samp"@
    ||| tag == "script"@
    ||| tag == "search"@
    ||| tag == "section"@
    ||| tag == "select"@
    ||| tag == "slot"@
    ||| tag == "small"@
    ||| tag == "source"@
    ||| tag == "span"@
    ||| tag == "strong"@
    ||| tag == "style"@
    ||| tag == "sub"@
    ||| tag == "summary"@
    ||| tag == "sup"@
    ||| tag == "svg"@
    ||| tag == "table"@
    ||| tag == "tbody"@
    ||| tag == "td"@
    ||| tag == "template"@
    ||| tag == "textarea"@
    ||| tag == "tfoot"@
    ||| tag == "th"@
    ||| tag == "thead"@
    ||| tag == "time"@
    ||| tag == "title"@
    ||| tag == "tr"@
    ||| tag == "track"@
    ||| tag == "u"@
    ||| tag == "ul"@
    ||| tag == "var"@
    ||| tag == "video"@
    ||| tag == "wbr"@
}

/// Whether `tag` names an element of the HTML standard.
pub fn is_standard_tag(tag: &str) -> (b: bool)
    ensures
        b == standard_tag(tag@),
{
    let t = chars_of(tag);
    let t = t.as_slice();
    chars_are(t, "a") || chars_are(t, "abbr") || chars_are(t, "address") || chars_are(t, "area") || chars_are(t,
        "article") || chars_are(t, "aside") || chars_are(t, "audio") || chars_are(t, "b") || chars_are(t, "base") ||
        chars_are(t, "bdi") || chars_are(t, "bdo") || chars_are(t, "blockquote") || chars_are(t, "body") ||
        chars_are(t, "br") || chars_are(t, "button") || chars_are(t, "canvas") || chars_are(t, "caption") ||
        chars_are(t, "cite") || chars_are(t, "code") || chars_are(t, "col") || chars_are(t, "colgroup") ||
        chars_are(t, "data") || chars_are(t, "datalist") || chars_are(t, "dd") || chars_are(t, "del") || chars_are(t,
        "details") || chars_are(t, "dfn") || chars_are(t, "dialog") || chars_are(t, "div") || chars_are(t, "dl") ||
        chars_are(t, "dt") || chars_are(t, "em") || chars_are(t, "embed") || chars_are(t, "fieldset") || chars_are(t,
        "figcaption") || chars_are(t, "figure") || chars_are(t, "footer") || chars_are(t, "form") || chars_are(t,
        "h1") || chars_are(t, "h2") || chars_are(t, "h3") || chars_are(t, "h4") || chars_are(t, "h5") || chars_are(t,
        "h6") || chars_are(t, "head") || chars_are(t, "header") || chars_are(t, "hgroup") || chars_are(t, "hr") ||
        chars_are(t, "html") || chars_are(t, "i") || chars_are(t, "iframe") || chars_are(t, "img") || chars_are(t,
        "input") || chars_are(t, "ins") || chars_are(t, "kbd") || chars_are(t, "label") || chars_are(t, "legend") ||
        chars_are(t, "li") || chars_are(t, "link") || chars_are(t, "main") || chars_are(t, "map") || chars_are(t,
        "mark") || chars_are(t, "math") || chars_are(t, "menu") || chars_are(t, "meta") || chars_are(t, "meter") ||
        chars_are(t, "nav") || chars_are(t, "noscript") || chars_are(t, "object") || chars_are(t, "ol") ||
        chars_are(t, "optgroup") || chars_are(t, "option") || chars_are(t, "output") || chars_are(t, "p") ||
        chars_are(t, "param") || chars_are(t, "picture") || chars_are(t, "pre") || chars_are(t, "progress") ||
        chars_are(t, "q") || chars_are(t, "rp") || chars_are(t, "rt") || chars_are(t, "ruby") || chars_are(t, "s") ||
        chars_are(t, "samp") || chars_are(t, "script") || chars_are(t, "search") || chars_are(t, "section") ||
        chars_are(t, "select") || chars_are(t, "slot") || chars_are(t, "small") || chars_are(t, "source") ||
        chars_are(t, "span") || chars_are(t, "strong") || chars_are(t, "style") || chars_are(t, "sub") || chars_are(t,
        "summary") || chars_are(t, "sup") || chars_are(t, "svg") || chars_are(t, "table") || chars_are(t, "tbody") ||
        chars_are(t, "td") || chars_are(t, "template") || chars_are(t, "textarea") || chars_are(t, "tfoot") ||
        chars_are(t, "th") || chars_are(t, "thead") || chars_are(t, "time") || chars_are(t, "title") || chars_are(t,
        "tr") || chars_are(t, "track") || chars_are(t, "u") || chars_are(t, "ul") || chars_are(t, "var") ||
        chars_are(t, "video") || chars_are(t, "wbr")
}

// ---------------------------------------------------------------------------
// What a selector matches.

/// Whether node `i` is an element.
pub open spec fn is_element(v: Seq<NodeView>, i: int) -> bool {
    0 <= i < v.len() && v[i].kind == NodeKind::Element
}

/// The index in `attrs` of the first attribute named `key`, if any.
pub open spec fn first_attr(attrs: Seq<(Seq<char>, Seq<char>)>, key: Seq<char>) -> Option<int>
    decreases attrs.len(),
{
    if attrs.len() == 0 {
        None
    } else if attrs[0].0 == key {
        Some(0)
    } else {
        match first_attr(attrs.drop_first(), key) {
            Some(k) => Some(k + 1),
            None => None,
        }
    }
}

/// Whether the element has an attribute named `key` and, when there is a
/// pattern, the value of the first such attribute matches it.
pub open spec fn attr_test_holds(attrs: Seq<(Seq<char>, Seq<char>)>, key: Seq<char>, pattern: Option<Seq<char>>) -> bool {
    match first_attr(attrs, key) {
        Some(k) => match pattern {
            Some(p) => regex_is_match(p, attrs[k].1),
            None => true,
        },
        None => false,
    }
}

/// The siblings of node `i` before it, nearest last.
pub open spec fn prev_siblings(v: Seq<NodeView>, i: int) -> Seq<usize> {
    match v[i].parent {
        Some(p) => v[p as int].children.take(v[i].pos as int),
        None => seq![],
    }
}

/// The siblings of node `i` after it, nearest first.
pub open spec fn next_siblings(v: Seq<NodeView>, i: int) -> Seq<usize> {
    match v[i].parent {
        Some(p) => v[p as int].children.skip(v[i].pos + 1),
        None => seq![],
    }
}

/// How many of the nodes `s` are elements.
pub open spec fn count_elements(v: Seq<NodeView>, s: Seq<usize>) -> nat
    decreases s.len(),
{
    if s.len() == 0 {
        0
    } else {
        count_elements(v, s.drop_last()) + if is_element(v, s.last() as int) {
            1nat
        } else {
            0nat
        }
    }
}

/// How many of the nodes `s` are elements named `name`.
pub open spec fn count_named(v: Seq<NodeView>, s: Seq<usize>, name: Seq<char>) -> nat
    decreases s.len(),
{
    if s.len() == 0 {
        0
    } else {
        count_named(v, s.drop_last(), name) + if is_element(v, s.last() as int) && v[s.last() as int].text
            == name {
            1nat
        } else {
            0nat
        }
    }
}

/// The position of node `i` that an `nth-...` pseudo class tests, counting from 1.
pub open spec fn nth_position(v: Seq<NodeView>, i: int, kind: NthKind) -> int {
    match kind {
        NthKind::Child => 1 + count_elements(v, prev_siblings(v, i)) as int,
        NthKind::LastChild => 1 + count_elements(v, next_siblings(v, i)) as int,
        NthKind::OfType => 1 + count_named(v, prev_siblings(v, i), v[i].text) as int,
        NthKind::LastOfType => 1 + count_named(v, next_siblings(v, i), v[i].text) as int,
    }
}

/// Whether a position passes an `nth-...` rule.
pub open spec fn nth_rule_holds(rule: NthRule, n: int) -> bool {
    match rule {
        NthRule::Odd => n % 2 == 1,
        NthRule::Even => n % 2 == 0,
        NthRule::Cycle(a, b) => if a == 0 {
            n == b
        } else {
            n >= b && (n - b) % (a as int) == 0
        },
        NthRule::AtLeast(b) => n >= b,
        NthRule::Exactly(b) => n == b,
    }
}

/// Whether a text child of node `i` satisfies `test`.
pub open spec fn some_text_child(v: Seq<NodeView>, i: int, test: spec_fn(Seq<char>) -> bool) -> bool {
    exists|k: int|
        0 <= k < v[i].children.len() && v[v[i].children[k] as int].kind == NodeKind::Text && test(
            v[v[i].children[k] as int].text,
        )
}

/// Whether a child of node `i` satisfies `test`.
pub open spec fn empty_node(v: Seq<NodeView>, i: int) -> bool {
    forall|k: int|
        0 <= k < v[i].children.len() ==> {
            let c = #[trigger] v[i].children[k] as int;
            v[c].kind != NodeKind::Element && (v[c].kind == NodeKind::Text ==> trimmed(v[c].text).len()
                == 0)
        }
}

/// Whether node `i` of the tree `v` passes the pseudo class `p`.
pub open spec fn pseudo_matches(p: PseudoSpec, v: Seq<NodeView>, i: int) -> bool
    decreases p, 0int,
{
    match p {
        PseudoSpec::Empty => empty_node(v, i),
        PseudoSpec::FirstChild => count_elements(v, prev_siblings(v, i)) == 0,
        PseudoSpec::LastChild => count_elements(v, next_siblings(v, i)) == 0,
        PseudoSpec::OnlyChild => count_elements(v, prev_siblings(v, i)) == 0 && count_elements(
            v,
            next_siblings(v, i),
        ) == 0,
        PseudoSpec::FirstOfType => is_element(v, i) && count_named(v, prev_siblings(v, i), v[i].text)
            == 0,
        PseudoSpec::LastOfType => is_element(v, i) && count_named(v, next_siblings(v, i), v[i].text)
            == 0,
        PseudoSpec::OnlyOfType => is_element(v, i) && count_named(v, prev_siblings(v, i), v[i].text)
            == 0 && count_named(v, next_siblings(v, i), v[i].text) == 0,
        PseudoSpec::Contains(t) => some_text_child(v, i, |x: Seq<char>| contains_seq(x, t)),
        PseudoSpec::Matches(pat) => some_text_child(v, i, |x: Seq<char>| regex_is_match(pat, x)),
        PseudoSpec::Nth(kind, rule) => is_element(v, i) && nth_rule_holds(rule, nth_position(v, i, kind)),
        PseudoSpec::Not(s) => !selector_matches(*s, v, i),
        PseudoSpec::ParentOf(s) => exists|k: int|
            0 <= k < v[i].children.len() && is_element(v, v[i].children[k] as int) && selector_matches(
                *s,
                v,
                v[i].children[k] as int,
            ),
    }
}

/// Whether node `i` of the tree `v` matches the selector: it is an element,
/// of the HTML standard when the selector asks for it, of the tag's name if
/// there is one, passes every attribute test and the
/// pseudo class if there is one.
pub open spec fn selector_matches(s: SelectorSpec, v: Seq<NodeView>, i: int) -> bool
    decreases s, 1int,
{
    &&& is_element(v, i)
    &&& (s.standard_only ==> standard_tag(v[i].text))
    &&& (s.tag matches Some(t) ==> v[i].text == t)
    &&& forall|k: int| 0 <= k < s.attrs.len() ==> attr_test_holds(v[i].attrs, #[trigger] s.attrs[k].0, s.attrs[k].1)
    &&& (s.pseudo matches Some(p) ==> pseudo_matches(p, v, i))
}

// ---------------------------------------------------------------------------
// Testing a node.

/// Whether there is an attribute named `key` and, when there is a pattern,
/// the value of the first one matches it.
fn attr_test(attrs: &Vec<(String, String)>, key: &String, pattern: &Option<String>) -> (b: bool)
    requires
        pattern matches Some(p) ==> regex_compile_error(p@) is None,
    ensures
        b == attr_test_holds(attrs.deep_view(), key@, pattern.deep_view()),
{
    let ghost a = attrs.deep_view();
    let mut k: usize = 0;
    assert(a.skip(0) =~= a);
    while k < attrs.len()
        invariant
            a == attrs.deep_view(),
            k <= a.len(),
            pattern matches Some(p) ==> regex_compile_error(p@) is None,
            first_attr(a, key@) == match first_attr(a.skip(k as int), key@) {
                Some(j) => Some(j + k),
                None => None,
            },
        decreases a.len() - k,
    {
        assert(a.skip(k as int).drop_first() =~= a.skip(k + 1));
        assert(a.skip(k as int)[0] == a[k as int]);
        if attrs[k].0 == *key {
            assert(first_attr(a.skip(k as int), key@) == Some(0int));
            return match pattern {
                Some(p) => is_match(p.as_str(), attrs[k].1.as_str()),
                None => true,
            };
        }
        k += 1;
    }
    assert(a.skip(k as int).len() == 0);
    false
}

/// How many of the nodes `s[lo..hi]` are elements.
fn count_elements_in(doc: &Document, s: &Vec<usize>, lo: usize, hi: usize) -> (n: usize)
    requires
        lo <= hi <= s@.len(),
        forall|k: int| 0 <= k < s@.len() ==> #[trigger] s@[k] < doc@.len(),
    ensures
        n == count_elements(doc@, s@.subrange(lo as int, hi as int)),
        n <= hi - lo,
{
    let mut n: usize = 0;
    let mut k = lo;
    assert(s@.subrange(lo as int, lo as int).len() == 0);
    while k < hi
        invariant
            lo <= k <= hi <= s@.len(),
            forall|j: int| 0 <= j < s@.len() ==> #[trigger] s@[j] < doc@.len(),
            n == count_elements(doc@, s@.subrange(lo as int, k as int)),
            n <= k - lo,
        decreases hi - k,
    {
        assert(s@.subrange(lo as int, k + 1).drop_last() =~= s@.subrange(lo as int, k as int));
        if doc.kind(s[k]) == NodeKind::Element {
            n += 1;
        }
        k += 1;
    }
    n
}

/// How many of the nodes `s[lo..hi]` are elements named `name`.
fn count_named_in(doc: &Document, s: &Vec<usize>, lo: usize, hi: usize, name: &String) -> (n: usize)
    requires
        lo <= hi <= s@.len(),
        forall|k: int| 0 <= k < s@.len() ==> #[trigger] s@[k] < doc@.len(),
    ensures
        n == count_named(doc@, s@.subrange(lo as int, hi as int), name@),
        n <= hi - lo,
{
    let mut n: usize = 0;
    let mut k = lo;
    assert(s@.subrange(lo as int, lo as int).len() == 0);
    while k < hi
        invariant
            lo <= k <= hi <= s@.len(),
            forall|j: int| 0 <= j < s@.len() ==> #[trigger] s@[j] < doc@.len(),
            n == count_named(doc@, s@.subrange(lo as int, k as int), name@),
            n <= k - lo,
        decreases hi - k,
    {
        assert(s@.subrange(lo as int, k + 1).drop_last() =~= s@.subrange(lo as int, k as int));
        if doc.kind(s[k]) == NodeKind::Element && *doc.text(s[k]) == *name {
            n += 1;
        }
        k += 1;
    }
    n
}

/// The siblings of node `i` before (`before`) or after it, as a range of its
/// parent's children; `None` when it has no parent.
fn sibling_range(doc: &Document, i: usize, before: bool) -> (r: Option<(usize, usize, usize)>)
    requires
        i < doc@.len(),
    ensures
        match r {
            None => doc@[i as int].parent is None,
            Some((p, lo, hi)) => {
                &&& doc@[i as int].parent == Some(p)
                &&& p < doc@.len()
                &&& lo <= hi <= doc@[p as int].children.len()
                &&& forall|k: int|
                    0 <= k < doc@[p as int].children.len() ==> #[trigger] doc@[p as int].children[k] < doc@.len()
                &&& if before {
                    doc@[p as int].children.subrange(lo as int, hi as int) == prev_siblings(doc@, i as int)
                } else {
                    doc@[p as int].children.subrange(lo as int, hi as int) == next_siblings(doc@, i as int)
                }
            },
        },
{
    proof { use_type_invariant(doc); }
    match doc.parent(i) {
        None => None,
        Some(p) => {
            let ghost v = doc@;
            assert(v[i as int].parent matches Some(q) && q < i);
            let n = doc.children(p).len();
            let pos = doc.pos(i);
            assert forall|k: int| 0 <= k < v[p as int].children.len() implies #[trigger] v[p as int].children[k] < v.len() by {
                assert(p < v[p as int].children[k] < v.len());
            }
            if before {
                assert(v[p as int].children.subrange(0, pos as int) =~= v[p as int].children.take(pos as int));
                Some((p, 0, pos))
            } else {
                assert(v[p as int].children.subrange(pos + 1, n as int) =~= v[p as int].children.skip(pos + 1));
                Some((p, pos + 1, n))
            }
        },
    }
}

/// How many siblings before (`before`) or after node `i` are elements, or,
/// with `name`, elements of that name.
fn count_siblings(doc: &Document, i: usize, before: bool, name: Option<&String>) -> (n: usize)
    requires
        i < doc@.len(),
    ensures
        n == match name {
            None => count_elements(doc@, if before { prev_siblings(doc@, i as int) } else { next_siblings(doc@, i as int) }),
            Some(t) => count_named(doc@, if before { prev_siblings(doc@, i as int) } else { next_siblings(doc@, i as int) }, t@),
        },
        n < doc@.len(),
{
    proof { use_type_invariant(doc); }
    match sibling_range(doc, i, before) {
        None => {
            assert(prev_siblings(doc@, i as int).len() == 0);
            assert(next_siblings(doc@, i as int).len() == 0);
            0
        },
        Some((p, lo, hi)) => {
            let ch = doc.children(p);
            let n = match name {
                None => count_elements_in(doc, ch, lo, hi),
                Some(t) => count_named_in(doc, ch, lo, hi, t),
            };
            proof {
                assert(doc@[p as int].children.len() <= doc@.len()) by {
                    lemma_children_fewer_than_nodes(doc@, p as int);
                }
            }
            n
        },
    }
}

/// A node has fewer children than the tree has nodes.
proof fn lemma_children_fewer_than_nodes(v: Seq<NodeView>, p: int)
    requires
        crate::dom::tree_wf(v),
        0 <= p < v.len(),
    ensures
        v[p].children.len() < v.len(),
{
    let ch = v[p].children;
    assert forall|a: int, b: int| 0 <= a < ch.len() && 0 <= b < ch.len() && a != b implies ch[a] != ch[b] by {
        assert(v[ch[a] as int].pos == a);
        assert(v[ch[b] as int].pos == b);
    }
    lemma_distinct_below(ch, p, v.len() as int);
}

/// A sequence of distinct values, all in `(lo, hi)`, is shorter than `hi - lo`.
proof fn lemma_distinct_below(s: Seq<usize>, lo: int, hi: int)
    requires
        forall|k: int| 0 <= k < s.len() ==> lo < #[trigger] s[k] < hi,
        forall|a: int, b: int| 0 <= a < s.len() && 0 <= b < s.len() && a != b ==> s[a] != s[b],
        lo < hi,
    ensures
        s.len() < hi - lo,
    decreases hi - lo,
{
    if s.len() > 0 && hi - 1 <= lo {
        assert(lo < s[0] < hi);
    } else if s.len() > 0 {
        if exists|k: int| 0 <= k < s.len() && s[k] == hi - 1 {
            let k0 = choose|k: int| 0 <= k < s.len() && s[k] == hi - 1;
            let r = s.remove(k0);
            assert forall|k: int| 0 <= k < r.len() implies lo < #[trigger] r[k] < hi - 1 by {
                if k < k0 {
                    assert(r[k] == s[k]);
                } else {
                    assert(r[k] == s[k + 1]);
                }
            }
            assert forall|a: int, b: int| 0 <= a < r.len() && 0 <= b < r.len() && a != b implies r[a] != r[b] by {
                let a1 = if a < k0 { a } else { a + 1 };
                let b1 = if b < k0 { b } else { b + 1 };
                assert(r[a] == s[a1]);
                assert(r[b] == s[b1]);
            }
            if r.len() > 0 {
                lemma_distinct_below(r, lo, hi - 1);
            }
        } else {
            assert forall|k: int| 0 <= k < s.len() implies lo < #[trigger] s[k] < hi - 1 by {
                assert(s[k] != hi - 1);
            }
            lemma_distinct_below(s, lo, hi - 1);
        }
    }
}

impl ContextualSelector {
    /// Whether node `i` of the document matches the selector.
    pub fn matches(&self, doc: &Document, i: usize) -> (b: bool)
        requires
            i < doc@.len(),
        ensures
            b == selector_matches(self@, doc@, i as int),
        decreases self, 1int,
    {
        proof {
            use_type_invariant(self);
            use_type_invariant(doc);
        }
        let ghost v = doc@;
        let ghost sv = self@;
        if doc.kind(i) != NodeKind::Element {
            return false;
        }
        if self.standard_only && !is_standard_tag(doc.text(i).as_str()) {
            return false;
        }
        match &self.tag {
            Some(t) => {
                if !(*doc.text(i) == *t) {
                    return false;
                }
            },
            None => {},
        }
        let mut k: usize = 0;
        while k < self.attrs.len()
            invariant
                sv == self@,
                v == doc@,
                i < v.len(),
                sv.attrs == self.attrs.deep_view(),
                k <= sv.attrs.len(),
                forall|j: int| 0 <= j < self.attrs@.len() ==> (#[trigger] self.attrs@[j].1 matches Some(p) ==> regex_compile_error(p@) is None),
                forall|j: int| 0 <= j < k ==> attr_test_holds(v[i as int].attrs, #[trigger] sv.attrs[j].0, sv.attrs[j].1),
            decreases sv.attrs.len() - k,
        {
            assert(sv.attrs[k as int] == (self.attrs@[k as int].0@, self.attrs@[k as int].1.deep_view()));
            if !attr_test(doc.attrs(i), &self.attrs[k].0, &self.attrs[k].1) {
                assert(!attr_test_holds(v[i as int].attrs, sv.attrs[k as int].0, sv.attrs[k as int].1));
                return false;
            }
            k += 1;
        }
        match &self.pseudo {
            None => true,
            Some(p) => {
                assert(sv.pseudo == Some(pseudo_view(*p)));
                Self::pseudo_test(p, doc, i)
            },
        }
    }

    /// Whether node `i`, an element, passes the pseudo class `p`.
    fn pseudo_test(p: &Pseudo, doc: &Document, i: usize) -> (b: bool)
        requires
            i < doc@.len(),
            doc@[i as int].kind == NodeKind::Element,
            p matches Pseudo::Matches(pat) ==> regex_compile_error(pat@) is None,
            p matches Pseudo::Nth(_, NthRule::Cycle(a, _)) ==> a >= 0,
        ensures
            b == pseudo_matches(pseudo_view(*p), doc@, i as int),
        decreases p, 0int,
    {
        match p {
            Pseudo::Empty => empty_test(doc, i),
            Pseudo::FirstChild => count_siblings(doc, i, true, None) == 0,
            Pseudo::LastChild => count_siblings(doc, i, false, None) == 0,
            Pseudo::OnlyChild => count_siblings(doc, i, true, None) == 0 && count_siblings(doc, i, false, None) == 0,
            Pseudo::FirstOfType => count_siblings(doc, i, true, Some(doc.text(i))) == 0,
            Pseudo::LastOfType => count_siblings(doc, i, false, Some(doc.text(i))) == 0,
            Pseudo::OnlyOfType => count_siblings(doc, i, true, Some(doc.text(i))) == 0 && count_siblings(doc, i, false, Some(doc.text(i))) == 0,
            Pseudo::Contains(needle) => contains_test(doc, i, needle),
            Pseudo::Matches(pattern) => matches_test(doc, i, pattern),
            Pseudo::Nth(kind, rule) => {
                let count = match kind {
                    NthKind::Child => count_siblings(doc, i, true, None),
                    NthKind::LastChild => count_siblings(doc, i, false, None),
                    NthKind::OfType => count_siblings(doc, i, true, Some(doc.text(i))),
                    NthKind::LastOfType => count_siblings(doc, i, false, Some(doc.text(i))),
                };
                let n: i128 = count as i128 + 1;
                match rule {
                    NthRule::Odd => n % 2 == 1,
                    NthRule::Even => n % 2 == 0,
                    NthRule::Cycle(a, b) => {
                        let a: i128 = *a as i128;
                        let b: i128 = *b as i128;
                        if a == 0 {
                            n == b
                        } else {
                            n >= b && (n - b) % a == 0
                        }
                    },
                    NthRule::AtLeast(b) => n >= *b as i128,
                    NthRule::Exactly(b) => n == *b as i128,
                }
            },
            Pseudo::Not(inner) => {
                !inner.matches(doc, i)
            },
            Pseudo::ParentOf(inner) => Self::parent_of_test(inner, doc, i),
        }
    }

    /// Whether an element child of node `i` matches `inner`.
    fn parent_of_test(inner: &ContextualSelector, doc: &Document, i: usize) -> (b: bool)
        requires
            i < doc@.len(),
        ensures
            b == exists|k: int|
                0 <= k < doc@[i as int].children.len() && is_element(doc@, doc@[i as int].children[k] as int)
                    && selector_matches(inner@, doc@, doc@[i as int].children[k] as int),
        decreases inner, 2int,
    {
        proof {
            use_type_invariant(doc);
        }
        let ghost v = doc@;
        let ch = doc.children(i);
        let mut k: usize = 0;
        while k < ch.len()
            invariant
                v == doc@,
                i < v.len(),
                crate::dom::tree_wf(v),
                ch@ == v[i as int].children,
                k <= ch@.len(),
                forall|j: int| 0 <= j < k ==> !(is_element(v, #[trigger] v[i as int].children[j] as int)
                    && selector_matches(inner@, v, v[i as int].children[j] as int)),
            decreases ch@.len() - k,
        {
            let c = ch[k];
            assert(v[i as int].children[k as int] < v.len());
            if doc.kind(c) == NodeKind::Element && inner.matches(doc, c) {
                assert(v[i as int].children[k as int] == c);
                return true;
            }
            k += 1;
        }
        false
    }
}

/// Whether node `i` has no element child and no text child but white space.
fn empty_test(doc: &Document, i: usize) -> (b: bool)
    requires
        i < doc@.len(),
    ensures
        b == empty_node(doc@, i as int),
{
    proof {
        use_type_invariant(doc);
    }
    let ghost v = doc@;
    let ch = doc.children(i);
    let mut k: usize = 0;
    while k < ch.len()
        invariant
            v == doc@,
            i < v.len(),
            crate::dom::tree_wf(v),
            ch@ == v[i as int].children,
            k <= ch@.len(),
            forall|j: int| 0 <= j < k ==> {
                let c = #[trigger] v[i as int].children[j] as int;
                v[c].kind != NodeKind::Element && (v[c].kind == NodeKind::Text ==> trimmed(v[c].text).len() == 0)
            },
        decreases ch@.len() - k,
    {
        let c = ch[k];
        assert(v[i as int].children[k as int] < v.len());
        let kind = doc.kind(c);
        if kind == NodeKind::Element {
            assert(v[i as int].children[k as int] == c);
            return false;
        }
        if kind == NodeKind::Text {
            let t = chars_of(doc.text(c).as_str());
            let (a, e) = trim_bounds(&t);
            if a != e {
                assert(v[i as int].children[k as int] == c);
                return false;
            }
        }
        k += 1;
    }
    true
}

/// Whether a text child of node `i` contains `needle`.
fn contains_test(doc: &Document, i: usize, needle: &String) -> (b: bool)
    requires
        i < doc@.len(),
    ensures
        b == some_text_child(doc@, i as int, |x: Seq<char>| contains_seq(x, needle@)),
{
    proof {
        use_type_invariant(doc);
    }
    let ghost v = doc@;
    let needle_chars = chars_of(needle.as_str());
    let ch = doc.children(i);
    let mut k: usize = 0;
    while k < ch.len()
        invariant
            v == doc@,
            i < v.len(),
            crate::dom::tree_wf(v),
            ch@ == v[i as int].children,
            needle_chars@ == needle@,
            k <= ch@.len(),
            forall|j: int| 0 <= j < k ==> !(v[#[trigger] v[i as int].children[j] as int].kind == NodeKind::Text
                && contains_seq(v[v[i as int].children[j] as int].text, needle@)),
        decreases ch@.len() - k,
    {
        let c = ch[k];
        assert(v[i as int].children[k as int] < v.len());
        if doc.kind(c) == NodeKind::Text {
            let t = chars_of(doc.text(c).as_str());
            if contains_chars(&t, &needle_chars) {
                assert(v[i as int].children[k as int] == c);
                return true;
            }
        }
        k += 1;
    }
    false
}

/// Whether `pattern` matches a text child of node `i`.
fn matches_test(doc: &Document, i: usize, pattern: &String) -> (b: bool)
    requires
        i < doc@.len(),
        regex_compile_error(pattern@) is None,
    ensures
        b == some_text_child(doc@, i as int, |x: Seq<char>| regex_is_match(pattern@, x)),
{
    proof {
        use_type_invariant(doc);
    }
    let ghost v = doc@;
    let ch = doc.children(i);
    let mut k: usize = 0;
    while k < ch.len()
        invariant
            v == doc@,
            i < v.len(),
            crate::dom::tree_wf(v),
            ch@ == v[i as int].children,
            regex_compile_error(pattern@) is None,
            k <= ch@.len(),
            forall|j: int| 0 <= j < k ==> !(v[#[trigger] v[i as int].children[j] as int].kind == NodeKind::Text
                && regex_is_match(pattern@, v[v[i as int].children[j] as int].text)),
        decreases ch@.len() - k,
    {
        let c = ch[k];
        assert(v[i as int].children[k as int] < v.len());
        if doc.kind(c) == NodeKind::Text {
            if is_match(pattern.as_str(), doc.text(c).as_str()) {
                assert(v[i as int].children[k as int] == c);
                return true;
            }
        }
        k += 1;
    }
    false
}

// ---------------------------------------------------------------------------
// The selector language.

/// The characters that start a class, an id, an attribute test or a pseudo class.
pub open spec fn part_start(c: char) -> bool {
    c == '.' || c == '#' || c == '[' || c == ':'
}

/// The end of the tag name that starts at `i`: the first part start, or the end.
pub open spec fn scan_tag(s: Seq<char>, i: int) -> int
    decreases s.len() - i,
{
    if i < 0 || i >= s.len() || part_start(s[i]) {
        i
    } else {
        scan_tag(s, i + 1)
    }
}

/// The end of the class or id name that starts at `i`: the first part start
/// or space, or the end.
pub open spec fn scan_ident(s: Seq<char>, i: int) -> int
    decreases s.len() - i,
{
    if i < 0 || i >= s.len() || part_start(s[i]) || s[i] == ' ' {
        i
    } else {
        scan_ident(s, i + 1)
    }
}

/// The pattern for a class selector: the name as a whole word of the class list.
pub open spec fn class_pattern(name: Seq<char>) -> Seq<char> {
    "(^|\\s)"@ + regex_escaped(name) + "(\\s|$)"@
}

/// The pattern for an id selector: exactly the name.
pub open spec fn id_pattern(name: Seq<char>) -> Seq<char> {
    "^"@ + regex_escaped(name) + "$"@
}

/// Whether `c` ends the key of an attribute test.
pub open spec fn key_end(c: char) -> bool {
    c == ']' || c == '$' || c == '^' || c == '~' || c == '*' || c == '='
}

/// The end of the attribute key that starts at `i`.
pub open spec fn scan_key(s: Seq<char>, i: int) -> int
    decreases s.len() - i,
{
    if i < 0 || i >= s.len() || key_end(s[i]) {
        i
    } else {
        scan_key(s, i + 1)
    }
}

/// The first `]` at or after `i`, or the end.
pub open spec fn scan_bracket(s: Seq<char>, i: int) -> int
    decreases s.len() - i,
{
    if i < 0 || i >= s.len() || s[i] == ']' {
        i
    } else {
        scan_bracket(s, i + 1)
    }
}

/// `c` put in front of a parsed value; an error stays as it is.
pub open spec fn cons_value(c: char, r: Result<(Seq<char>, int), Seq<char>>) -> Result<(Seq<char>, int), Seq<char>> {
    match r {
        Ok((v, e)) => Ok((seq![c] + v, e)),
        Err(m) => Err(m),
    }
}

/// The quoted attribute value whose content starts at `i`: the characters up
/// to the closing quote, a backslash taking the next character as it is, and
/// the position after the closing quote (or the end).
pub open spec fn quoted_value(s: Seq<char>, i: int) -> Result<(Seq<char>, int), Seq<char>>
    decreases s.len() - i,
{
    if i < 0 || i >= s.len() {
        Ok((seq![], s.len() as int))
    } else if s[i] == '\\' {
        if i + 1 >= s.len() {
            Err("Unmatched open brace '['"@)
        } else {
            cons_value(s[i + 1], quoted_value(s, i + 2))
        }
    } else if s[i] == '"' {
        Ok((seq![], i + 1))
    } else {
        cons_value(s[i], quoted_value(s, i + 1))
    }
}

/// The pattern that an attribute test of the given kind builds from its value.
pub open spec fn attr_pattern(match_type: char, value: Seq<char>) -> Seq<char> {
    let e = regex_escaped(value);
    if match_type == '*' {
        e
    } else if match_type == '$' {
        e + "$"@
    } else if match_type == '^' {
        "^"@ + e
    } else if match_type == '~' {
        "(^|\\s)"@ + e + "(\\s|$)"@
    } else {
        "^"@ + e + "$"@
    }
}

/// The attribute test whose content starts at `i` (after `[`): its key, its
/// pattern and where the selector goes on.
pub open spec fn parse_attr(s: Seq<char>, i: int) -> Result<((Seq<char>, Option<Seq<char>>), int), Seq<char>> {
    let j = scan_key(s, i);
    let key = s.subrange(i, j);
    if 0 <= i <= j < s.len() && s[j] == ']' {
        Ok(((key, None), j + 1))
    } else if 0 <= i <= j < s.len() && s[j] != '=' && j + 1 < s.len() && s[j + 1] != '=' {
        Err("'"@ + seq![s[j]] + "' must be followed by a '='"@)
    } else if 0 <= i <= j < s.len() && s[j] != '=' && j + 1 >= s.len() {
        Err("'"@ + seq![s[j]] + "' must be followed by a '='"@)
    } else {
        let match_type = if 0 <= j < s.len() && s[j] != '=' { s[j] } else { '=' };
        let vstart = if 0 <= j < s.len() {
            if s[j] == '=' { j + 1 } else { j + 2 }
        } else {
            j
        };
        let value_end: Result<(Seq<char>, int), Seq<char>> = if 0 <= vstart < s.len() && s[vstart] == '"' {
            match quoted_value(s, vstart + 1) {
                Ok((v, p)) => if 0 <= p < s.len() && s[p] == ']' {
                    Ok((v, p + 1))
                } else {
                    Err("Quote must end at ']'"@)
                },
                Err(m) => Err(m),
            }
        } else {
            let k = scan_bracket(s, vstart);
            Ok((s.subrange(vstart, k), if k < s.len() { k + 1 } else { k }))
        };
        match value_end {
            Err(m) => Err(m),
            Ok((v, end)) => {
                let pattern = attr_pattern(match_type, v);
                match regex_compile_error(pattern) {
                    Some(m) => Err(m),
                    None => Ok(((key, Some(pattern)), end)),
                }
            },
        }
    }
}

/// The message for a malformed quoted argument of the pseudo class `name`.
pub open spec fn malformed_quoted(name: Seq<char>) -> Seq<char> {
    "Malformed '"@ + name + "(\"\")' selector"@
}

/// `c` put in front of a parsed argument; an error stays as it is.
pub open spec fn cons_arg(c: char, r: Result<Seq<char>, Seq<char>>) -> Result<Seq<char>, Seq<char>> {
    match r {
        Ok(v) => Ok(seq![c] + v),
        Err(m) => Err(m),
    }
}

/// The quoted argument of the pseudo class `name` from position `i` of `cmd`
/// on: it must close with `")` at the very end.
pub open spec fn quoted_arg_from(cmd: Seq<char>, i: int, name: Seq<char>) -> Result<Seq<char>, Seq<char>>
    decreases cmd.len() - i,
{
    if i < 0 || i >= cmd.len() {
        Err(malformed_quoted(name))
    } else if cmd[i] == '\\' {
        if i + 1 >= cmd.len() {
            Err(malformed_quoted(name))
        } else {
            cons_arg(cmd[i + 1], quoted_arg_from(cmd, i + 2, name))
        }
    } else if cmd[i] == '"' {
        if i + 1 >= cmd.len() || cmd[i + 1] != ')' {
            Err(malformed_quoted(name))
        } else if i + 2 < cmd.len() {
            Err("'"@ + name + "(\"\")' must end selector"@)
        } else {
            Ok(seq![])
        }
    } else {
        cons_arg(cmd[i], quoted_arg_from(cmd, i + 1, name))
    }
}

/// The quoted argument of the pseudo class `name`: `cmd` is what follows the `(`.
pub open spec fn quoted_arg(cmd: Seq<char>, name: Seq<char>) -> Result<Seq<char>, Seq<char>> {
    if cmd.len() == 0 || cmd[0] != '"' {
        Err(malformed_quoted(name))
    } else {
        quoted_arg_from(cmd, 1, name)
    }
}

/// The value of a decimal numeral.
pub open spec fn digits_value(d: Seq<char>) -> int
    decreases d.len(),
{
    if d.len() == 0 {
        0
    } else {
        10 * digits_value(d.drop_last()) + (d.last() as int - '0' as int)
    }
}

/// Whether `d` is made of ASCII decimal digits.
pub open spec fn all_digits(d: Seq<char>) -> bool {
    forall|k: int| 0 <= k < d.len() ==> '0' <= #[trigger] d[k] && d[k] <= '9'
}

/// What `str::parse::<i32>` gives: an optional sign, then at least one digit,
/// and a value that fits.
pub open spec fn decimal_i32(s: Seq<char>) -> Option<i32> {
    let neg = s.len() > 0 && s[0] == '-';
    let d = if s.len() > 0 && (s[0] == '-' || s[0] == '+') { s.drop_first() } else { s };
    let value = if neg { -digits_value(d) } else { digits_value(d) };
    if d.len() == 0 || !all_digits(d) || value < i32::MIN || value > i32::MAX {
        None
    } else {
        Some(value as i32)
    }
}

/// The pattern of `an+b` arguments.
pub open spec fn cycle_pattern() -> Seq<char> {
    "(\\d+)n\\s?\\+\\s?(\\d)"@
}

/// The pattern of `n+b` arguments.
pub open spec fn offset_pattern() -> Seq<char> {
    "n\\s?\\+\\s?(\\d)"@
}

/// The groups that `pattern` captures in `text`, or `None` when it does not
/// match (or does not compile).
pub open spec fn groups_of(pattern: Seq<char>, text: Seq<char>) -> Option<Seq<Seq<char>>> {
    if regex_compile_error(pattern) is None {
        regex_capture_groups(pattern, text)
    } else {
        None
    }
}

/// The message for an argument of the pseudo class `name` that is not a number.
pub open spec fn invalid_argument(number: Seq<char>, name: Seq<char>) -> Seq<char> {
    "Invalid argument '"@ + number + "' for '"@ + name + "'"@
}

/// The rule that the argument `number` of the pseudo class `name` gives,
/// from the groups that the `an+b` and `n+b` patterns capture in it:
/// `odd`, `even`, `an+b` (the first such match), `n+b`, or a positive number.
/// An `an+b` whose numbers do not fit is refused as an invalid argument.
pub open spec fn nth_rule_from(
    number: Seq<char>,
    name: Seq<char>,
    cycle_groups: Option<Seq<Seq<char>>>,
    offset_groups: Option<Seq<Seq<char>>>,
) -> Result<NthRule, Seq<char>> {
    if number == "odd"@ {
        Ok(NthRule::Odd)
    } else if number == "even"@ {
        Ok(NthRule::Even)
    } else if cycle_groups is Some {
        let g = cycle_groups.unwrap();
        if g.len() >= 3 && decimal_i32(g[1]) is Some && decimal_i32(g[1]).unwrap() >= 0 && decimal_i32(g[2]) is Some {
            Ok(NthRule::Cycle(decimal_i32(g[1]).unwrap(), decimal_i32(g[2]).unwrap()))
        } else {
            Err(invalid_argument(number, name))
        }
    } else if offset_groups is Some {
        let g = offset_groups.unwrap();
        if g.len() >= 2 && decimal_i32(g[1]) is Some {
            Ok(NthRule::AtLeast(decimal_i32(g[1]).unwrap()))
        } else {
            Err(invalid_argument(number, name))
        }
    } else {
        match decimal_i32(number) {
            Some(n) => if n > 0 {
                Ok(NthRule::Exactly(n))
            } else {
                Err("Argument to '"@ + name + "' must be greater than 0"@)
            },
            None => Err(invalid_argument(number, name)),
        }
    }
}

/// The rule that the argument `number` of the pseudo class `name` gives.
pub open spec fn nth_rule(number: Seq<char>, name: Seq<char>) -> Result<NthRule, Seq<char>> {
    nth_rule_from(number, name, groups_of(cycle_pattern(), number), groups_of(offset_pattern(), number))
}

/// The index of the first `c` in `s` at or after `i`, or the end.
pub open spec fn scan_char(s: Seq<char>, c: char, i: int) -> int
    decreases s.len() - i,
{
    if i < 0 || i >= s.len() || s[i] == c {
        i
    } else {
        scan_char(s, c, i + 1)
    }
}

/// The `nth-...` pseudo class `cmd`, given whole (as `nth-child(2)`).
pub open spec fn parse_nth(cmd: Seq<char>) -> Result<PseudoSpec, Seq<char>> {
    let open = scan_char(cmd, '(', 0);
    let name = cmd.subrange(0, open);
    let after = cmd.subrange(open + 1, cmd.len() as int);
    let close = scan_char(after, ')', 0);
    if open >= cmd.len() || close >= after.len() {
        Err("Unmatched '(' for pseudo class"@)
    } else if close != after.len() - 1 {
        Err(name + "(n) must end selector"@)
    } else {
        let number = after.subrange(0, close);
        let kind = if name == "nth-child"@ {
            Some(NthKind::Child)
        } else if name == "nth-of-type"@ {
            Some(NthKind::OfType)
        } else if name == "nth-last-child"@ {
            Some(NthKind::LastChild)
        } else if name == "nth-last-of-type"@ {
            Some(NthKind::LastOfType)
        } else {
            None
        };
        match kind {
            None => Err("Unrecognized pseudo '"@ + name + "'"@),
            Some(k) => match nth_rule(number, name) {
                Ok(r) => Ok(PseudoSpec::Nth(k, r)),
                Err(m) => Err(m),
            },
        }
    }
}

/// Whether `s` starts with `p`.
pub open spec fn starts_with(s: Seq<char>, p: Seq<char>) -> bool {
    p.len() <= s.len() && s.subrange(0, p.len() as int) == p
}

/// The selector in the parentheses of `:not(` or `:parent-of(`: `cmd` is
/// what follows the `(`; it must hold at least two characters and end with
/// `)`.
pub open spec fn paren_arg(cmd: Seq<char>, name: Seq<char>) -> Result<Seq<char>, Seq<char>> {
    if cmd.len() < 2 {
        Err("malformed ':"@ + name + "' selector"@)
    } else if cmd.last() != ')' {
        Err("unmatched '('"@)
    } else {
        Ok(cmd.drop_last())
    }
}

/// The selector written `s`: a tag name, then classes (`.c`), ids (`#i`),
/// attribute tests (`[k]`, `[k=v]`, `[k*=v]`, `[k$=v]`, `[k^=v]`, `[k~=v]`)
/// and, last, one pseudo class (`:...`).
pub open spec fn parse_selector(s: Seq<char>) -> Result<SelectorSpec, Seq<char>>
    decreases s.len(), s.len() + 2,
{
    let t = scan_tag(s, 0);
    if 0 <= t <= s.len() {
        match parse_parts(s, t, seq![]) {
            Ok((attrs, pseudo)) => Ok(
                SelectorSpec {
                    tag: if t > 0 { Some(s.subrange(0, t)) } else { None },
                    attrs,
                    pseudo,
                    standard_only: false,
                },
            ),
            Err(m) => Err(m),
        }
    } else {
        Err(seq![])
    }
}

/// The parts of the selector `s` from `pos` on, the attribute tests read so
/// far being `acc`.
pub open spec fn parse_parts(s: Seq<char>, pos: int, acc: Seq<(Seq<char>, Option<Seq<char>>)>) -> Result<
    (Seq<(Seq<char>, Option<Seq<char>>)>, Option<PseudoSpec>),
    Seq<char>,
>
    decreases s.len(), s.len() - pos,
{
    if pos < 0 || pos >= s.len() {
        Ok((acc, None))
    } else if s[pos] == '.' || s[pos] == '#' {
        let e = scan_ident(s, pos + 1);
        let name = s.subrange(pos + 1, e);
        let (key, pattern) = if s[pos] == '.' {
            ("class"@, class_pattern(name))
        } else {
            ("id"@, id_pattern(name))
        };
        match regex_compile_error(pattern) {
            Some(m) => Err(m),
            None => if pos < e <= s.len() {
                parse_parts(s, e, acc.push((key, Some(pattern))))
            } else {
                Err(seq![])
            },
        }
    } else if s[pos] == '[' {
        match parse_attr(s, pos + 1) {
            Err(m) => Err(m),
            Ok((kv, end)) => if pos < end <= s.len() {
                parse_parts(s, end, acc.push(kv))
            } else {
                Err(seq![])
            },
        }
    } else if s[pos] == ':' {
        match parse_pseudo(s.subrange(pos + 1, s.len() as int)) {
            Ok(p) => Ok((acc, Some(p))),
            Err(m) => Err(m),
        }
    } else {
        Err("Unexpected character '"@ + seq![s[pos]] + "' in selector"@)
    }
}

/// The pseudo class written `rest` (what follows the `:`).
pub open spec fn parse_pseudo(rest: Seq<char>) -> Result<PseudoSpec, Seq<char>>
    decreases rest.len(), 0int,
{
    if rest == "empty"@ {
        Ok(PseudoSpec::Empty)
    } else if rest == "first-child"@ {
        Ok(PseudoSpec::FirstChild)
    } else if rest == "last-child"@ {
        Ok(PseudoSpec::LastChild)
    } else if rest == "only-child"@ {
        Ok(PseudoSpec::OnlyChild)
    } else if rest == "first-of-type"@ {
        Ok(PseudoSpec::FirstOfType)
    } else if rest == "last-of-type"@ {
        Ok(PseudoSpec::LastOfType)
    } else if rest == "only-of-type"@ {
        Ok(PseudoSpec::OnlyOfType)
    } else if starts_with(rest, "contains("@) {
        match quoted_arg(rest.skip(9), "contains"@) {
            Ok(t) => Ok(PseudoSpec::Contains(t)),
            Err(m) => Err(m),
        }
    } else if starts_with(rest, "matches("@) {
        match quoted_arg(rest.skip(8), "matches"@) {
            Ok(t) => match regex_compile_error(t) {
                None => Ok(PseudoSpec::Matches(t)),
                Some(m) => Err(m),
            },
            Err(m) => Err(m),
        }
    } else if starts_with(rest, "nth-child("@) || starts_with(rest, "nth-last-child("@) || starts_with(
        rest,
        "nth-of-type("@,
    ) || starts_with(rest, "nth-last-of-type("@) {
        parse_nth(rest)
    } else if starts_with(rest, "not("@) {
        match paren_arg(rest.skip(4), "not"@) {
            Ok(inner) => if inner.len() < rest.len() {
                match parse_selector(inner) {
                    Ok(sel) => Ok(PseudoSpec::Not(Box::new(sel))),
                    Err(m) => Err(m),
                }
            } else {
                Err(seq![])
            },
            Err(m) => Err(m),
        }
    } else if starts_with(rest, "parent-of("@) {
        match paren_arg(rest.skip(10), "parent-of"@) {
            Ok(inner) => if inner.len() < rest.len() {
                match parse_selector(inner) {
                    Ok(sel) => Ok(PseudoSpec::ParentOf(Box::new(sel))),
                    Err(m) => Err(m),
                }
            } else {
                Err(seq![])
            },
            Err(m) => Err(m),
        }
    } else {
        Err(rest + " not a valid pseudo class"@)
    }
}

// ---------------------------------------------------------------------------
// Reading a selector.

fn scan_tag_exec(s: &[char], i: usize) -> (e: usize)
    requires
        i <= s@.len(),
    ensures
        e == scan_tag(s@, i as int),
        i <= e <= s@.len(),
{
    let mut k = i;
    while k < s.len() && !(s[k] == '.' || s[k] == '#' || s[k] == '[' || s[k] == ':')
        invariant
            i <= k <= s@.len(),
            scan_tag(s@, i as int) == scan_tag(s@, k as int),
        decreases s@.len() - k,
    {
        k += 1;
    }
    k
}

fn scan_ident_exec(s: &[char], i: usize) -> (e: usize)
    requires
        i <= s@.len(),
    ensures
        e == scan_ident(s@, i as int),
        i <= e <= s@.len(),
{
    let mut k = i;
    while k < s.len() && !(s[k] == '.' || s[k] == '#' || s[k] == '[' || s[k] == ':' || s[k] == ' ')
        invariant
            i <= k <= s@.len(),
            scan_ident(s@, i as int) == scan_ident(s@, k as int),
        decreases s@.len() - k,
    {
        k += 1;
    }
    k
}

fn scan_key_exec(s: &[char], i: usize) -> (e: usize)
    requires
        i <= s@.len(),
    ensures
        e == scan_key(s@, i as int),
        i <= e <= s@.len(),
{
    let mut k = i;
    while k < s.len() && !(s[k] == ']' || s[k] == '$' || s[k] == '^' || s[k] == '~' || s[k] == '*' || s[k] == '=')
        invariant
            i <= k <= s@.len(),
            scan_key(s@, i as int) == scan_key(s@, k as int),
        decreases s@.len() - k,
    {
        k += 1;
    }
    k
}

fn scan_bracket_exec(s: &[char], i: usize) -> (e: usize)
    requires
        i <= s@.len(),
    ensures
        e == scan_bracket(s@, i as int),
        i <= e <= s@.len(),
{
    let mut k = i;
    while k < s.len() && s[k] != ']'
        invariant
            i <= k <= s@.len(),
            scan_bracket(s@, i as int) == scan_bracket(s@, k as int),
        decreases s@.len() - k,
    {
        k += 1;
    }
    k
}

fn scan_char_exec(s: &[char], c: char, i: usize) -> (e: usize)
    requires
        i <= s@.len(),
    ensures
        e == scan_char(s@, c, i as int),
        i <= e <= s@.len(),
{
    let mut k = i;
    while k < s.len() && s[k] != c
        invariant
            i <= k <= s@.len(),
            scan_char(s@, c, i as int) == scan_char(s@, c, k as int),
        decreases s@.len() - k,
    {
        k += 1;
    }
    k
}

/// Reads a class or id name from `*pos`, up to the next part of the selector or space.
pub fn parse_identifier(chars: &[char], pos: &mut usize) -> (r: Result<String, String>)
    ensures
        *old(pos) <= chars@.len() ==> {
            &&& *final(pos) == scan_ident(chars@, *old(pos) as int)
            &&& *old(pos) <= *final(pos) <= chars@.len()
            &&& r matches Ok(name) && name@ == chars@.subrange(*old(pos) as int, *final(pos) as int)
        },
        *old(pos) > chars@.len() ==> *final(pos) == *old(pos) && (r matches Ok(name) && name@.len() == 0),
{
    if *pos > chars.len() {
        return Ok(String::new());
    }
    let start = *pos;
    let e = scan_ident_exec(chars, start);
    *pos = e;
    let name = sub_chars(chars, start, e);
    Ok(string_from(name.as_slice()))
}

/// `v` put in front of a parsed value; an error stays as it is.
pub open spec fn prefix_value(v: Seq<char>, r: Result<(Seq<char>, int), Seq<char>>) -> Result<(Seq<char>, int), Seq<char>> {
    match r {
        Ok((x, e)) => Ok((v + x, e)),
        Err(m) => Err(m),
    }
}

/// Reads a quoted attribute value whose content starts at `i`.
fn quoted_value_exec(s: &[char], i: usize) -> (r: Result<(Vec<char>, usize), String>)
    requires
        i <= s@.len(),
    ensures
        match quoted_value(s@, i as int) {
            Ok((v, e)) => r matches Ok((w, f)) && w@ == v && f == e,
            Err(m) => r matches Err(x) && x@ == m,
        },
        r matches Ok((_, f)) ==> i <= f <= s@.len(),
{
    let mut val: Vec<char> = Vec::new();
    let mut k = i;
    assert(prefix_value(seq![], quoted_value(s@, i as int)) == quoted_value(s@, i as int)) by {
        match quoted_value(s@, i as int) {
            Ok((x, e)) => { assert(seq![] + x =~= x); },
            Err(_) => {},
        }
    }
    while k < s.len()
        invariant
            i <= k <= s@.len(),
            quoted_value(s@, i as int) == prefix_value(val@, quoted_value(s@, k as int)),
        decreases s@.len() - k,
    {
        let ghost before = val@;
        if s[k] == '\\' {
            if k + 1 >= s.len() {
                return Err(String::from_str("Unmatched open brace '['"));
            }
            val.push(s[k + 1]);
            proof {
                match quoted_value(s@, k + 2) {
                    Ok((x, e)) => { assert(before + (seq![s@[k + 1]] + x) =~= val@ + x); },
                    Err(_) => {},
                }
            }
            k = k + 2;
        } else if s[k] == '"' {
            assert(val@ + seq![] =~= val@);
            return Ok((val, k + 1));
        } else {
            val.push(s[k]);
            proof {
                match quoted_value(s@, k + 1) {
                    Ok((x, e)) => { assert(before + (seq![s@[k as int]] + x) =~= val@ + x); },
                    Err(_) => {},
                }
            }
            k = k + 1;
        }
    }
    assert(val@ + seq![] =~= val@);
    Ok((val, s.len()))
}

/// The pattern that an attribute test of the given kind builds from its value.
fn attr_pattern_exec(match_type: char, value: &[char]) -> (r: String)
    ensures
        r@ == attr_pattern(match_type, value@),
{
    let v = string_from(value);
    let e = escape(v.as_str());
    if match_type == '*' {
        e
    } else if match_type == '$' {
        concat(e.as_str(), "$")
    } else if match_type == '^' {
        concat("^", e.as_str())
    } else if match_type == '~' {
        let head = concat("(^|\\s)", e.as_str());
        concat(head.as_str(), "(\\s|$)")
    } else {
        let head = concat("^", e.as_str());
        concat(head.as_str(), "$")
    }
}

/// Reads an attribute test whose content starts at `*pos` (after `[`).
fn parse_attr_matcher(chars: &[char], pos: &mut usize) -> (r: Result<(String, Option<String>), String>)
    requires
        *old(pos) <= chars@.len(),
    ensures
        match parse_attr(chars@, *old(pos) as int) {
            Ok(((k, p), end)) => r matches Ok((ks, ps)) && ks@ == k && ps.deep_view() == p && *final(pos) == end
                && (p matches Some(q) ==> regex_compile_error(q) is None),
            Err(m) => r matches Err(x) && x@ == m,
        },
        r is Ok ==> *old(pos) <= *final(pos) <= chars@.len(),
{
    let s = chars;
    let i = *pos;
    let j = scan_key_exec(s, i);
    let key_chars = sub_chars(s, i, j);
    let key = string_from(key_chars.as_slice());
    if j < s.len() && s[j] == ']' {
        *pos = j + 1;
        return Ok((key, None));
    }
    let mut match_type = '=';
    let mut vstart = j;
    if j < s.len() {
        if s[j] == '=' {
            vstart = j + 1;
        } else {
            match_type = s[j];
            if j + 1 >= s.len() || s[j + 1] != '=' {
                let c = [s[j]];
                assert(c@ == seq![s@[j as int]]);
                return Err(surround("'", &c, "' must be followed by a '='"));
            }
            vstart = j + 2;
        }
    }
    let (value, end) = if vstart < s.len() && s[vstart] == '"' {
        match quoted_value_exec(s, vstart + 1) {
            Err(m) => {
                return Err(m);
            },
            Ok((v, p)) => {
                if p >= s.len() || s[p] != ']' {
                    return Err(String::from_str("Quote must end at ']'"));
                }
                (v, p + 1)
            },
        }
    } else {
        let k = scan_bracket_exec(s, vstart);
        let v = sub_chars(s, vstart, k);
        (v, if k < s.len() { k + 1 } else { k })
    };
    let pattern = attr_pattern_exec(match_type, value.as_slice());
    match compile(pattern.as_str()) {
        Err(m) => Err(m),
        Ok(()) => {
            *pos = end;
            Ok((key, Some(pattern)))
        },
    }
}

/// `v` put in front of a parsed argument; an error stays as it is.
pub open spec fn prefix_arg(v: Seq<char>, r: Result<Seq<char>, Seq<char>>) -> Result<Seq<char>, Seq<char>> {
    match r {
        Ok(x) => Ok(v + x),
        Err(m) => Err(m),
    }
}

/// The message for a malformed quoted argument of the pseudo class `name`.
fn malformed_quoted_exec(name: &str) -> (r: String)
    ensures
        r@ == malformed_quoted(name@),
{
    let head = concat("Malformed '", name);
    concat(head.as_str(), "(\"\")' selector")
}

/// Reads the quoted argument of the pseudo class `name`: `cmd` is what follows the `(`.
fn quoted_arg_exec(cmd: &[char], name: &str) -> (r: Result<Vec<char>, String>)
    ensures
        match quoted_arg(cmd@, name@) {
            Ok(v) => r matches Ok(w) && w@ == v,
            Err(m) => r matches Err(x) && x@ == m,
        },
{
    if cmd.len() == 0 || cmd[0] != '"' {
        return Err(malformed_quoted_exec(name));
    }
    let mut text: Vec<char> = Vec::new();
    let mut k: usize = 1;
    assert(prefix_arg(seq![], quoted_arg_from(cmd@, 1, name@)) == quoted_arg_from(cmd@, 1, name@)) by {
        match quoted_arg_from(cmd@, 1, name@) {
            Ok(x) => { assert(seq![] + x =~= x); },
            Err(_) => {},
        }
    }
    while k < cmd.len()
        invariant
            1 <= k <= cmd@.len(),
            quoted_arg(cmd@, name@) == prefix_arg(text@, quoted_arg_from(cmd@, k as int, name@)),
        decreases cmd@.len() - k,
    {
        let ghost before = text@;
        if cmd[k] == '\\' {
            if k + 1 >= cmd.len() {
                return Err(malformed_quoted_exec(name));
            }
            text.push(cmd[k + 1]);
            proof {
                match quoted_arg_from(cmd@, k + 2, name@) {
                    Ok(x) => { assert(before + (seq![cmd@[k + 1]] + x) =~= text@ + x); },
                    Err(_) => {},
                }
            }
            k = k + 2;
        } else if cmd[k] == '"' {
            if k + 1 >= cmd.len() || cmd[k + 1] != ')' {
                return Err(malformed_quoted_exec(name));
            }
            if k + 2 < cmd.len() {
                let head = concat("'", name);
                return Err(concat(head.as_str(), "(\"\")' must end selector"));
            }
            assert(text@ + seq![] =~= text@);
            return Ok(text);
        } else {
            text.push(cmd[k]);
            proof {
                match quoted_arg_from(cmd@, k + 1, name@) {
                    Ok(x) => { assert(before + (seq![cmd@[k as int]] + x) =~= text@ + x); },
                    Err(_) => {},
                }
            }
            k = k + 1;
        }
    }
    Err(malformed_quoted_exec(name))
}

/// Reads a `contains("...")` argument: `cmd` is what follows the `(`.
fn parse_contains_pseudo(cmd: &[char]) -> (r: Result<Pseudo, String>)
    ensures
        match quoted_arg(cmd@, "contains"@) {
            Ok(t) => r matches Ok(p) && pseudo_view(p) == PseudoSpec::Contains(t) && pseudo_ok(p),
            Err(m) => r matches Err(x) && x@ == m,
        },
{
    match quoted_arg_exec(cmd, "contains") {
        Ok(t) => Ok(Pseudo::Contains(string_from(t.as_slice()))),
        Err(m) => Err(m),
    }
}

/// Reads a `matches("...")` argument, a regular expression: `cmd` is what follows the `(`.
fn parse_matches_pseudo(cmd: &[char]) -> (r: Result<Pseudo, String>)
    ensures
        match quoted_arg(cmd@, "matches"@) {
            Ok(t) => match regex_compile_error(t) {
                None => r matches Ok(p) && pseudo_view(p) == PseudoSpec::Matches(t) && pseudo_ok(p),
                Some(m) => r matches Err(x) && x@ == m,
            },
            Err(m) => r matches Err(x) && x@ == m,
        },
{
    match quoted_arg_exec(cmd, "matches") {
        Ok(t) => {
            let pattern = string_from(t.as_slice());
            match compile(pattern.as_str()) {
                Ok(()) => Ok(Pseudo::Matches(pattern)),
                Err(m) => Err(m),
            }
        },
        Err(m) => Err(m),
    }
}

proof fn lemma_digits_value_grows(d: Seq<char>, k: int)
    requires
        all_digits(d),
        0 <= k <= d.len(),
    ensures
        digits_value(d.subrange(0, k)) <= digits_value(d),
        0 <= digits_value(d.subrange(0, k)),
    decreases d.len(),
{
    if k < d.len() {
        assert(d.drop_last().subrange(0, k) =~= d.subrange(0, k));
        assert forall|j: int| 0 <= j < d.drop_last().len() implies '0' <= #[trigger] d.drop_last()[j] && d.drop_last()[j] <= '9' by {
            assert(d.drop_last()[j] == d[j]);
        }
        lemma_digits_value_grows(d.drop_last(), k);
        assert('0' <= d[d.len() - 1] <= '9');
    } else {
        assert(d.subrange(0, k) =~= d);
        lemma_digits_nonneg(d);
    }
}

proof fn lemma_digits_nonneg(d: Seq<char>)
    requires
        all_digits(d),
    ensures
        0 <= digits_value(d),
    decreases d.len(),
{
    if d.len() > 0 {
        assert forall|j: int| 0 <= j < d.drop_last().len() implies '0' <= #[trigger] d.drop_last()[j] && d.drop_last()[j] <= '9' by {
            assert(d.drop_last()[j] == d[j]);
        }
        lemma_digits_nonneg(d.drop_last());
        assert('0' <= d[d.len() - 1] <= '9');
    }
}

/// Reads a decimal `i32` as `str::parse` does.
#[verifier::loop_isolation(false)]
fn decimal_i32_exec(s: &[char]) -> (r: Option<i32>)
    ensures
        r == decimal_i32(s@),
{
    let neg = s.len() > 0 && s[0] == '-';
    let start: usize = if s.len() > 0 && (s[0] == '-' || s[0] == '+') { 1 } else { 0 };
    let ghost d = if s@.len() > 0 && (s@[0] == '-' || s@[0] == '+') { s@.drop_first() } else { s@ };
    assert(d =~= s@.subrange(start as int, s@.len() as int));
    if start >= s.len() {
        return None;
    }
    let mut k = start;
    let mut acc: i64 = 0;
    assert(d.subrange(0, 0) =~= seq![]);
    while k < s.len()
        invariant
            start <= k <= s@.len(),
            d == s@.subrange(start as int, s@.len() as int),
            forall|j: int| start <= j < k ==> '0' <= #[trigger] s@[j] && s@[j] <= '9',
            acc == digits_value(d.subrange(0, k - start)),
            0 <= acc <= 2147483648,
        decreases s@.len() - k,
    {
        let c = s[k];
        if c < '0' || c > '9' {
            assert(d[k - start] == c);
            return None;
        }
        let digit = (c as u32 - '0' as u32) as i64;
        proof {
            assert(d.subrange(0, k + 1 - start).drop_last() =~= d.subrange(0, k - start));
            assert(d.subrange(0, k + 1 - start).last() == c);
        }
        acc = acc * 10 + digit;
        if acc > 2147483648 {
            proof {
                if all_digits(d) {
                    lemma_digits_value_grows(d, k + 1 - start);
                }
            }
            return None;
        }
        k += 1;
    }
    assert(d.subrange(0, d.len() as int) =~= d);
    assert(all_digits(d)) by {
        assert forall|j: int| 0 <= j < d.len() implies '0' <= #[trigger] d[j] && d[j] <= '9' by {
            assert(d[j] == s@[j + start]);
        }
    }
    if neg {
        let v = -acc;
        if v < -2147483648 {
            return None;
        }
        Some(v as i32)
    } else {
        if acc > 2147483647 {
            return None;
        }
        Some(acc as i32)
    }
}

/// The groups that `pattern` captures in `text`, when it compiles and matches.
pub(crate) fn groups_exec(pattern: &str, text: &[char]) -> (r: Option<Vec<String>>)
    ensures
        r.deep_view() == groups_of(pattern@, text@),
{
    match compile(pattern) {
        Err(_) => None,
        Ok(()) => {
            let t = string_from(text);
            captures(pattern, t.as_str())
        },
    }
}

/// The message for an argument of the pseudo class `name` that is not a number.
fn invalid_argument_exec(number: &[char], name: &[char]) -> (r: String)
    ensures
        r@ == invalid_argument(number@, name@),
{
    let head = surround("Invalid argument '", number, "' for '");
    let n = string_from(name);
    let head = concat(head.as_str(), n.as_str());
    concat(head.as_str(), "'")
}

/// The rule that the argument `number` of the pseudo class `name` gives,
/// from the groups that the `an+b` and `n+b` patterns capture in it.
pub fn nth_rule_from_groups(
    number: &[char],
    name: &[char],
    cycle_groups: Option<Vec<String>>,
    offset_groups: Option<Vec<String>>,
) -> (r: Result<NthRule, String>)
    ensures
        match nth_rule_from(number@, name@, cycle_groups.deep_view(), offset_groups.deep_view()) {
            Ok(rule) => r matches Ok(x) && x == rule,
            Err(m) => r matches Err(x) && x@ == m,
        },
{
    if chars_are(number, "odd") {
        return Ok(NthRule::Odd);
    }
    if chars_are(number, "even") {
        return Ok(NthRule::Even);
    }
    match cycle_groups {
        Some(g) => {
            let ghost gv = g.deep_view();
            if g.len() >= 3 {
                let a_chars = chars_of(g[1].as_str());
                let b_chars = chars_of(g[2].as_str());
                assert(gv[1] == g@[1]@);
                assert(gv[2] == g@[2]@);
                match (decimal_i32_exec(a_chars.as_slice()), decimal_i32_exec(b_chars.as_slice())) {
                    (Some(a), Some(b)) => {
                        if a >= 0 {
                            return Ok(NthRule::Cycle(a, b));
                        }
                    },
                    _ => {},
                }
            }
            return Err(invalid_argument_exec(number, name));
        },
        None => {},
    }
    match offset_groups {
        Some(g) => {
            let ghost gv = g.deep_view();
            if g.len() >= 2 {
                let b_chars = chars_of(g[1].as_str());
                assert(gv[1] == g@[1]@);
                match decimal_i32_exec(b_chars.as_slice()) {
                    Some(b) => {
                        return Ok(NthRule::AtLeast(b));
                    },
                    None => {},
                }
            }
            return Err(invalid_argument_exec(number, name));
        },
        None => {},
    }
    match decimal_i32_exec(number) {
        Some(n) => {
            if n > 0 {
                Ok(NthRule::Exactly(n))
            } else {
                Err(surround("Argument to '", name, "' must be greater than 0"))
            }
        },
        None => Err(invalid_argument_exec(number, name)),
    }
}

/// Reads the argument `number` of the pseudo class `name` as a rule.
fn nth_rule_exec(number: &[char], name: &[char]) -> (r: Result<NthRule, String>)
    ensures
        match nth_rule(number@, name@) {
            Ok(rule) => r matches Ok(x) && x == rule,
            Err(m) => r matches Err(x) && x@ == m,
        },
{
    let cycle = String::from_str("(\\d+)n\\s?\\+\\s?(\\d)");
    let offset = String::from_str("n\\s?\\+\\s?(\\d)");
    let cycle_groups = groups_exec(cycle.as_str(), number);
    let offset_groups = groups_exec(offset.as_str(), number);
    nth_rule_from_groups(number, name, cycle_groups, offset_groups)
}

/// Reads an `nth-...` pseudo class, given whole (as `nth-child(2)`).
fn parse_nth_pseudo(cmd: &[char]) -> (r: Result<Pseudo, String>)
    ensures
        match parse_nth(cmd@) {
            Ok(p) => r matches Ok(q) && pseudo_view(q) == p && pseudo_ok(q),
            Err(m) => r matches Err(x) && x@ == m,
        },
{
    let open = scan_char_exec(cmd, '(', 0);
    let name = sub_chars(cmd, 0, open);
    if open >= cmd.len() {
        let e = String::from_str("Unmatched '(' for pseudo class");
        return Err(e);
    }
    let after = sub_chars(cmd, open + 1, cmd.len());
    let close = scan_char_exec(after.as_slice(), ')', 0);
    if close >= after.len() {
        return Err(String::from_str("Unmatched '(' for pseudo class"));
    }
    if close != after.len() - 1 {
        let n = string_from(name.as_slice());
        return Err(concat(n.as_str(), "(n) must end selector"));
    }
    let number = sub_chars(after.as_slice(), 0, close);
    let kind = if chars_are(name.as_slice(), "nth-child") {
        NthKind::Child
    } else if chars_are(name.as_slice(), "nth-of-type") {
        NthKind::OfType
    } else if chars_are(name.as_slice(), "nth-last-child") {
        NthKind::LastChild
    } else if chars_are(name.as_slice(), "nth-last-of-type") {
        NthKind::LastOfType
    } else {
        return Err(surround("Unrecognized pseudo '", name.as_slice(), "'"));
    };
    match nth_rule_exec(number.as_slice(), name.as_slice()) {
        Ok(rule) => Ok(Pseudo::Nth(kind, rule)),
        Err(m) => Err(m),
    }
}

/// What a pseudo class holds is well formed: its pattern compiles, its cycle is positive.
pub closed spec fn pseudo_ok(p: Pseudo) -> bool {
    &&& (p matches Pseudo::Matches(q) ==> regex_compile_error(q@) is None)
    &&& (p matches Pseudo::Nth(_, NthRule::Cycle(a, _)) ==> a >= 0)
}

/// Reads the parenthesised argument of `:not(` or `:parent-of(`.
fn paren_arg_exec(cmd: &[char], name: &str) -> (r: Result<Vec<char>, String>)
    ensures
        match paren_arg(cmd@, name@) {
            Ok(v) => r matches Ok(w) && w@ == v,
            Err(m) => r matches Err(x) && x@ == m,
        },
{
    if cmd.len() < 2 {
        let head = concat("malformed ':", name);
        return Err(concat(head.as_str(), "' selector"));
    }
    if cmd[cmd.len() - 1] != ')' {
        return Err(String::from_str("unmatched '('"));
    }
    let inner = sub_chars(cmd, 0, cmd.len() - 1);
    assert(inner@ =~= cmd@.drop_last());
    Ok(inner)
}

/// Reads `:not(...)`: `cmd` is what follows the `(`.
pub fn parse_not_pseudo(cmd: &[char]) -> (r: Result<Pseudo, String>)
    ensures
        match paren_arg(cmd@, "not"@) {
            Err(m) => r matches Err(x) && x@ == m,
            Ok(inner) => match parse_selector(inner) {
                Ok(sel) => r matches Ok(q) && pseudo_view(q) == PseudoSpec::Not(Box::new(sel)) && pseudo_ok(q),
                Err(m) => r matches Err(x) && x@ == m,
            },
        },
    decreases cmd@.len() + 1, 0int,
{
    let inner = match paren_arg_exec(cmd, "not") {
        Ok(v) => v,
        Err(m) => {
            return Err(m);
        },
    };
    match parse_contextual_selector(inner.as_slice()) {
        Ok(sel) => Ok(Pseudo::Not(Box::new(sel))),
        Err(m) => Err(m),
    }
}

/// Reads `:parent-of(...)`: `cmd` is what follows the `(`.
pub fn parse_parent_of_pseudo(cmd: &[char]) -> (r: Result<Pseudo, String>)
    ensures
        match paren_arg(cmd@, "parent-of"@) {
            Err(m) => r matches Err(x) && x@ == m,
            Ok(inner) => match parse_selector(inner) {
                Ok(sel) => r matches Ok(q) && pseudo_view(q) == PseudoSpec::ParentOf(Box::new(sel)) && pseudo_ok(q),
                Err(m) => r matches Err(x) && x@ == m,
            },
        },
    decreases cmd@.len() + 1, 0int,
{
    let inner = match paren_arg_exec(cmd, "parent-of") {
        Ok(v) => v,
        Err(m) => {
            return Err(m);
        },
    };
    match parse_contextual_selector(inner.as_slice()) {
        Ok(sel) => Ok(Pseudo::ParentOf(Box::new(sel))),
        Err(m) => Err(m),
    }
}

/// Reads the pseudo class that starts at `*pos` (after `:`); it runs to the end.
pub fn parse_pseudo_class(chars: &[char], pos: &mut usize) -> (r: Result<Pseudo, String>)
    requires
        *old(pos) <= chars@.len(),
    ensures
        *final(pos) == chars@.len(),
        match parse_pseudo(chars@.subrange(*old(pos) as int, chars@.len() as int)) {
            Ok(p) => r matches Ok(q) && pseudo_view(q) == p && pseudo_ok(q),
            Err(m) => r matches Err(x) && x@ == m,
        },
    decreases chars@.len() - *old(pos), 1int,
{
    let rest = sub_chars(chars, *pos, chars.len());
    *pos = chars.len();
    let rest = rest.as_slice();
    if chars_are(rest, "empty") {
        return Ok(Pseudo::Empty);
    }
    if chars_are(rest, "first-child") {
        return Ok(Pseudo::FirstChild);
    }
    if chars_are(rest, "last-child") {
        return Ok(Pseudo::LastChild);
    }
    if chars_are(rest, "only-child") {
        return Ok(Pseudo::OnlyChild);
    }
    if chars_are(rest, "first-of-type") {
        return Ok(Pseudo::FirstOfType);
    }
    if chars_are(rest, "last-of-type") {
        return Ok(Pseudo::LastOfType);
    }
    if chars_are(rest, "only-of-type") {
        return Ok(Pseudo::OnlyOfType);
    }
    if chars_start_with(rest, "contains(") {
        proof { reveal_strlit("contains("); }
        let arg = sub_chars(rest, 9, rest.len());
        assert(arg@ =~= rest@.skip(9));
        return parse_contains_pseudo(arg.as_slice());
    }
    if chars_start_with(rest, "matches(") {
        proof { reveal_strlit("matches("); }
        let arg = sub_chars(rest, 8, rest.len());
        assert(arg@ =~= rest@.skip(8));
        return parse_matches_pseudo(arg.as_slice());
    }
    if chars_start_with(rest, "nth-child(") || chars_start_with(rest, "nth-last-child(") || chars_start_with(
        rest,
        "nth-of-type(",
    ) || chars_start_with(rest, "nth-last-of-type(") {
        return parse_nth_pseudo(rest);
    }
    if chars_start_with(rest, "not(") {
        proof { reveal_strlit("not("); }
        let arg = sub_chars(rest, 4, rest.len());
        assert(arg@ =~= rest@.skip(4));
        return parse_not_pseudo(arg.as_slice());
    }
    if chars_start_with(rest, "parent-of(") {
        proof { reveal_strlit("parent-of("); }
        let arg = sub_chars(rest, 10, rest.len());
        assert(arg@ =~= rest@.skip(10));
        return parse_parent_of_pseudo(arg.as_slice());
    }
    let r = string_from(rest);
    Err(concat(r.as_str(), " not a valid pseudo class"))
}

/// Reads a selector: a tag name, then classes, ids, attribute tests and, last,
/// one pseudo class.
pub fn parse_contextual_selector(cmd: &[char]) -> (r: Result<ContextualSelector, String>)
    ensures
        match parse_selector(cmd@) {
            Ok(sel) => r matches Ok(x) && x@ == sel,
            Err(m) => r matches Err(x) && x@ == m,
        },
    decreases cmd@.len(), 2int,
{
    let t = scan_tag_exec(cmd, 0);
    let tag = if t > 0 {
        let name = sub_chars(cmd, 0, t);
        Some(string_from(name.as_slice()))
    } else {
        None
    };
    let mut attrs: Vec<(String, Option<String>)> = Vec::new();
    let mut pseudo: Option<Pseudo> = None;
    let mut pos = t;
    assert(attrs.deep_view() =~= seq![]);
    while pos < cmd.len()
        invariant
            t <= pos <= cmd@.len(),
            t == scan_tag(cmd@, 0),
            forall|k: int| 0 <= k < attrs@.len() ==> (#[trigger] attrs@[k].1 matches Some(p) ==> regex_compile_error(p@) is None),
            pseudo is None ==> parse_parts(cmd@, t as int, seq![]) == parse_parts(cmd@, pos as int, attrs.deep_view()),
            pseudo matches Some(p) ==> pos == cmd@.len() && pseudo_ok(p) && parse_parts(cmd@, t as int, seq![]) == Ok::<_, Seq<char>>((attrs.deep_view(), Some(pseudo_view(p)))),
        decreases cmd@.len() - pos,
    {
        let c = cmd[pos];
        let ghost before = attrs.deep_view();
        if c == '.' || c == '#' {
            pos += 1;
            let name = match parse_identifier(cmd, &mut pos) {
                Ok(n) => n,
                Err(m) => {
                    return Err(m);
                },
            };
            let e = escape(name.as_str());
            let (key, pattern) = if c == '.' {
                let head = concat("(^|\\s)", e.as_str());
                (String::from_str("class"), concat(head.as_str(), "(\\s|$)"))
            } else {
                let head = concat("^", e.as_str());
                (String::from_str("id"), concat(head.as_str(), "$"))
            };
            match compile(pattern.as_str()) {
                Err(m) => {
                    return Err(m);
                },
                Ok(()) => {},
            }
            let ghost pv = pattern@;
            attrs.push((key, Some(pattern)));
            assert(attrs.deep_view() =~= before.push((key@, Some(pv))));
        } else if c == '[' {
            pos += 1;
            match parse_attr_matcher(cmd, &mut pos) {
                Err(m) => {
                    return Err(m);
                },
                Ok((key, pattern)) => {
                    let ghost pv = pattern.deep_view();
                    attrs.push((key, pattern));
                    assert(attrs.deep_view() =~= before.push((key@, pv)));
                },
            }
        } else if c == ':' {
            pos += 1;
            match parse_pseudo_class(cmd, &mut pos) {
                Err(m) => {
                    return Err(m);
                },
                Ok(p) => {
                    pseudo = Some(p);
                },
            }
        } else {
            let one = [c];
            assert(one@ == seq![c]);
            return Err(surround("Unexpected character '", &one, "' in selector"));
        }
    }
    let sel = ContextualSelector { tag, attrs, pseudo, standard_only: false };
    Ok(sel)
}

// ---------------------------------------------------------------------------
// Selecting nodes.

/// The descendants of node `n` that the selector finds: each child that
/// matches, and below each child that does not, what it finds there, in
/// document order.
pub open spec fn select_below(s: SelectorSpec, v: Seq<NodeView>, n: int) -> Seq<usize>
    decreases v.len() - n, v[n].children.len() + 1,
{
    if 0 <= n < v.len() {
        select_below_from(s, v, n, 0)
    } else {
        seq![]
    }
}

/// What the selector finds from the `k`-th child of node `n` on.
pub open spec fn select_below_from(s: SelectorSpec, v: Seq<NodeView>, n: int, k: int) -> Seq<usize>
    decreases v.len() - n, v[n].children.len() - k,
{
    if 0 <= n < v.len() && 0 <= k < v[n].children.len() {
        let c = v[n].children[k];
        let here = if selector_matches(s, v, c as int) {
            seq![c]
        } else if n < c < v.len() {
            select_below(s, v, c as int)
        } else {
            seq![]
        };
        here + select_below_from(s, v, n, k + 1)
    } else {
        seq![]
    }
}

/// The children of node `n` from the `k`-th on that match the selector.
pub open spec fn matching_children_from(s: SelectorSpec, v: Seq<NodeView>, n: int, k: int) -> Seq<usize>
    decreases v[n].children.len() - k,
{
    if 0 <= k < v[n].children.len() {
        let c = v[n].children[k];
        (if selector_matches(s, v, c as int) {
            seq![c]
        } else {
            seq![]
        }) + matching_children_from(s, v, n, k + 1)
    } else {
        seq![]
    }
}

/// The first element among the nodes `sib`, if any.
pub open spec fn first_element(v: Seq<NodeView>, sib: Seq<usize>) -> Option<usize>
    decreases sib.len(),
{
    if sib.len() == 0 {
        None
    } else if is_element(v, sib[0] as int) {
        Some(sib[0])
    } else {
        first_element(v, sib.drop_first())
    }
}

/// What one selector step finds from node `n`.
pub open spec fn step_from(s: SelectorSpec, t: SelectorFuncType, v: Seq<NodeView>, n: int) -> Seq<usize> {
    match t {
        SelectorFuncType::Descendant => select_below(s, v, n),
        SelectorFuncType::Child => matching_children_from(s, v, n, 0),
        SelectorFuncType::NextSibling => match first_element(v, next_siblings(v, n)) {
            Some(c) => if selector_matches(s, v, c as int) {
                seq![c]
            } else {
                seq![]
            },
            None => seq![],
        },
    }
}

/// What one selector step finds from each of the nodes `nodes`, in turn.
pub open spec fn step_all(s: SelectorSpec, t: SelectorFuncType, v: Seq<NodeView>, nodes: Seq<usize>) -> Seq<usize>
    decreases nodes.len(),
{
    if nodes.len() == 0 {
        seq![]
    } else {
        step_all(s, t, v, nodes.drop_last()) + step_from(s, t, v, nodes.last() as int)
    }
}

/// Every node of `s` is a node of the tree.
pub open spec fn valid_nodes(v: Seq<NodeView>, s: Seq<usize>) -> bool {
    forall|k: int| 0 <= k < s.len() ==> #[trigger] s[k] < v.len()
}

impl ContextualSelector {
    /// Adds to `out` what the selector finds below node `n`.
    fn select_children_contextual(&self, doc: &Document, n: usize, out: &mut Vec<usize>)
        requires
            n < doc@.len(),
        ensures
            final(out)@ == old(out)@ + select_below(self@, doc@, n as int),
        decreases doc@.len() - n, 1int,
    {
        proof {
            use_type_invariant(doc);
        }
        let ghost v = doc@;
        let ghost start = out@;
        let ch = doc.children(n);
        let mut k: usize = 0;
        assert(select_below(self@, v, n as int) == select_below_from(self@, v, n as int, 0));
        while k < ch.len()
            invariant
                v == doc@,
                n < v.len(),
                crate::dom::tree_wf(v),
                ch@ == v[n as int].children,
                k <= ch@.len(),
                start + select_below(self@, v, n as int) == out@ + select_below_from(self@, v, n as int, k as int),
            decreases ch@.len() - k,
        {
            let c = ch[k];
            assert(v[n as int].children[k as int] == c);
            assert(n < c < v.len());
            let ghost before = out@;
            if self.matches(doc, c) {
                out.push(c);
            } else {
                self.select_children_contextual(doc, c, out);
            }
            assert(out@ + select_below_from(self@, v, n as int, k + 1) == before + select_below_from(self@, v, n as int, k as int));
            k += 1;
        }
        assert(select_below_from(self@, v, n as int, k as int).len() == 0);
        assert(out@ =~= start + select_below(self@, v, n as int));
    }

    /// The children of node `n` that match.
    fn select_from_children(&self, doc: &Document, n: usize, out: &mut Vec<usize>)
        requires
            n < doc@.len(),
        ensures
            final(out)@ == old(out)@ + matching_children_from(self@, doc@, n as int, 0),
    {
        proof {
            use_type_invariant(doc);
        }
        let ghost v = doc@;
        let ghost start = out@;
        let ch = doc.children(n);
        let mut k: usize = 0;
        while k < ch.len()
            invariant
                v == doc@,
                n < v.len(),
                crate::dom::tree_wf(v),
                ch@ == v[n as int].children,
                k <= ch@.len(),
                start + matching_children_from(self@, v, n as int, 0) == out@ + matching_children_from(self@, v, n as int, k as int),
            decreases ch@.len() - k,
        {
            let c = ch[k];
            assert(v[n as int].children[k as int] == c);
            assert(n < c < v.len());
            let ghost before = out@;
            if self.matches(doc, c) {
                out.push(c);
            }
            assert(out@ + matching_children_from(self@, v, n as int, k + 1) == before + matching_children_from(self@, v, n as int, k as int));
            k += 1;
        }
        assert(matching_children_from(self@, v, n as int, k as int).len() == 0);
        assert(out@ =~= start + matching_children_from(self@, v, n as int, 0));
    }

    /// The next sibling element of node `n`, when it matches.
    fn select_next_sibling(&self, doc: &Document, n: usize, out: &mut Vec<usize>)
        requires
            n < doc@.len(),
        ensures
            final(out)@ == old(out)@ + step_from(self@, SelectorFuncType::NextSibling, doc@, n as int),
    {
        proof {
            use_type_invariant(doc);
        }
        let ghost v = doc@;
        match sibling_range(doc, n, false) {
            None => {
                assert(next_siblings(v, n as int).len() == 0);
            },
            Some((p, lo, hi)) => {
                let ch = doc.children(p);
                let mut k = lo;
                let ghost sib = ch@.subrange(lo as int, hi as int);
                assert(ch@.subrange(lo as int, hi as int).skip(0) =~= sib);
                while k < hi
                    invariant
                        v == doc@,
                        lo <= k <= hi <= ch@.len(),
                        sib == next_siblings(v, n as int),
                        sib == ch@.subrange(lo as int, hi as int),
                        out@ == old(out)@,
                        forall|j: int| 0 <= j < ch@.len() ==> #[trigger] ch@[j] < v.len(),
                        first_element(v, sib) == first_element(v, ch@.subrange(k as int, hi as int)),
                    decreases hi - k,
                {
                    let c = ch[k];
                    assert(ch@.subrange(k as int, hi as int)[0] == c);
                    if doc.kind(c) == NodeKind::Element {
                        if self.matches(doc, c) {
                            out.push(c);
                        }
                        return;
                    }
                    assert(ch@.subrange(k as int, hi as int).drop_first() =~= ch@.subrange(k + 1, hi as int));
                    k += 1;
                }
                assert(ch@.subrange(k as int, hi as int).len() == 0);
            },
        }
    }
}

/// A selector step: a selector and how what it finds relates to where it starts.
pub struct SelectorFunc {
    selector: ContextualSelector,
    func_type: SelectorFuncType,
}

impl View for SelectorFunc {
    type V = (SelectorSpec, SelectorFuncType);

    closed spec fn view(&self) -> (SelectorSpec, SelectorFuncType) {
        (self.selector@, self.func_type)
    }
}

impl SelectorFunc {
    /// What the step finds from each of `nodes`, in turn.
    pub fn apply(&self, doc: &Document, nodes: &[usize]) -> (r: Vec<usize>)
        requires
            valid_nodes(doc@, nodes@),
        ensures
            r@ == step_all(self@.0, self@.1, doc@, nodes@),
            valid_nodes(doc@, r@),
    {
        let mut out: Vec<usize> = Vec::new();
        let mut k: usize = 0;
        assert(nodes@.take(0) =~= seq![]);
        while k < nodes.len()
            invariant
                valid_nodes(doc@, nodes@),
                k <= nodes@.len(),
                out@ == step_all(self@.0, self@.1, doc@, nodes@.take(k as int)),
            decreases nodes@.len() - k,
        {
            let n = nodes[k];
            assert(nodes@[k as int] < doc@.len());
            match self.func_type {
                SelectorFuncType::Descendant => self.selector.select_children_contextual(doc, n, &mut out),
                SelectorFuncType::Child => self.selector.select_from_children(doc, n, &mut out),
                SelectorFuncType::NextSibling => self.selector.select_next_sibling(doc, n, &mut out),
            }
            assert(nodes@.take(k + 1).drop_last() =~= nodes@.take(k as int));
            k += 1;
        }
        assert(nodes@.take(k as int) =~= nodes@);
        proof {
            use_type_invariant(doc);
            lemma_step_all_valid(self@.0, self@.1, doc@, nodes@);
        }
        out
    }
}

pub(crate) proof fn lemma_concat_valid(v: Seq<NodeView>, a: Seq<usize>, b: Seq<usize>)
    requires
        valid_nodes(v, a),
        valid_nodes(v, b),
    ensures
        valid_nodes(v, a + b),
{
    assert forall|k: int| 0 <= k < (a + b).len() implies #[trigger] (a + b)[k] < v.len() by {
        if k < a.len() {
            assert((a + b)[k] == a[k]);
        } else {
            assert((a + b)[k] == b[k - a.len()]);
        }
    }
}

proof fn lemma_below_valid(s: SelectorSpec, v: Seq<NodeView>, n: int)
    requires
        crate::dom::tree_wf(v),
    ensures
        valid_nodes(v, select_below(s, v, n)),
    decreases v.len() - n, v[n].children.len() + 1,
{
    if 0 <= n < v.len() {
        lemma_below_from_valid(s, v, n, 0);
    }
}

proof fn lemma_below_from_valid(s: SelectorSpec, v: Seq<NodeView>, n: int, k: int)
    requires
        crate::dom::tree_wf(v),
    ensures
        valid_nodes(v, select_below_from(s, v, n, k)),
    decreases v.len() - n, v[n].children.len() - k,
{
    if 0 <= n < v.len() && 0 <= k < v[n].children.len() {
        let c = v[n].children[k];
        assert(n < c < v.len());
        let here = if selector_matches(s, v, c as int) {
            seq![c]
        } else if n < c < v.len() {
            select_below(s, v, c as int)
        } else {
            seq![]
        };
        if !selector_matches(s, v, c as int) {
            lemma_below_valid(s, v, c as int);
        }
        lemma_below_from_valid(s, v, n, k + 1);
        lemma_concat_valid(v, here, select_below_from(s, v, n, k + 1));
    }
}

proof fn lemma_children_valid(s: SelectorSpec, v: Seq<NodeView>, n: int, k: int)
    requires
        crate::dom::tree_wf(v),
        0 <= n < v.len(),
    ensures
        valid_nodes(v, matching_children_from(s, v, n, k)),
    decreases v[n].children.len() - k,
{
    if 0 <= k < v[n].children.len() {
        let c = v[n].children[k];
        assert(n < c < v.len());
        lemma_children_valid(s, v, n, k + 1);
        let here = if selector_matches(s, v, c as int) { seq![c] } else { seq![] };
        lemma_concat_valid(v, here, matching_children_from(s, v, n, k + 1));
    }
}

proof fn lemma_first_element(v: Seq<NodeView>, sib: Seq<usize>)
    ensures
        first_element(v, sib) matches Some(c) ==> sib.contains(c) && is_element(v, c as int),
    decreases sib.len(),
{
    if sib.len() > 0 && !is_element(v, sib[0] as int) {
        lemma_first_element(v, sib.drop_first());
        match first_element(v, sib) {
            Some(c) => {
                let j = choose|j: int| 0 <= j < sib.drop_first().len() && sib.drop_first()[j] == c;
                assert(sib[j + 1] == c);
            },
            None => {},
        }
    } else if sib.len() > 0 {
        assert(sib[0] == sib[0]);
    }
}

proof fn lemma_step_all_valid(s: SelectorSpec, t: SelectorFuncType, v: Seq<NodeView>, nodes: Seq<usize>)
    requires
        crate::dom::tree_wf(v),
        valid_nodes(v, nodes),
    ensures
        valid_nodes(v, step_all(s, t, v, nodes)),
    decreases nodes.len(),
{
    if nodes.len() > 0 {
        let n = nodes.last() as int;
        assert(nodes[nodes.len() - 1] < v.len());
        lemma_step_all_valid(s, t, v, nodes.drop_last());
        match t {
            SelectorFuncType::Descendant => lemma_below_valid(s, v, n),
            SelectorFuncType::Child => lemma_children_valid(s, v, n, 0),
            SelectorFuncType::NextSibling => {
                lemma_first_element(v, next_siblings(v, n));
            },
        }
        lemma_concat_valid(v, step_all(s, t, v, nodes.drop_last()), step_from(s, t, v, n));
    }
}

/// Builds the selector step for the selector `cmd`.
/// With `strict`, the step finds only elements of the HTML standard.
pub fn build_selector_func(cmd: &str, func_type: SelectorFuncType, strict: bool) -> (r: Result<SelectorFunc, String>)
    ensures
        match parse_selector(cmd@) {
            Ok(sel) => r matches Ok(f) && f@ == (with_standard_only(sel, strict), func_type),
            Err(m) => r matches Err(x) && x@ == m,
        },
{
    let chars = chars_of(cmd);
    match parse_contextual_selector(chars.as_slice()) {
        Ok(selector) => {
            proof {
                use_type_invariant(&selector);
            }
            let mut selector = selector;
            selector.standard_only = strict;
            Ok(SelectorFunc { selector, func_type })
        },
        Err(m) => Err(m),
    }
}

// ---------------------------------------------------------------------------
// Parsing HTML.

/// The depth-first walk, as plain values, of the tree that
/// `scraper::Html::parse_document` builds from `html` (an HTML5 parse, done by
/// html5ever): each opening gives the node's kind code and its name, text or
/// data; each closing is `None`.
pub uninterp spec fn html5_walk(html: Seq<char>) -> Seq<Option<(u8, Seq<char>)>>;

/// The same walk as `html5_walk`, each opening giving the node's attributes
/// (none for a node that is not an element).
pub uninterp spec fn html5_walk_attrs(html: Seq<char>) -> Seq<Option<Seq<(Seq<char>, Seq<char>)>>>;

/// `scraper::Html::parse_document`, then a walk of the whole tree from its
/// root (`ego_tree`'s `traverse`), every node turned into its kind code and
/// text. The walk is named, not stated: what tree the HTML5 algorithm builds
/// is html5ever's business. What the contract does state is that the walk is
/// the walk of one tree: `traverse` opens the root first and closes it last,
/// each `Close` ends the node opened last, and every node gets one of the
/// seven codes.
#[verifier::external_body]
fn html_walk(html: &str) -> (w: Vec<Option<(u8, String)>>)
    ensures
        w.deep_view() == html5_walk(html@),
        balanced_walk(w.deep_view()),
{
    let doc = Html::parse_document(html);
    let walk = doc.tree.root().traverse().map(|edge| match edge {
        Edge::Close(_) => None,
        Edge::Open(node) => Some(match node.value() {
            Node::Document => (0, String::new()),
            Node::Fragment => (1, String::new()),
            Node::Doctype(_) => (2, String::new()),
            Node::Comment(c) => (3, c.to_string()),
            Node::Text(t) => (4, t.to_string()),
            Node::Element(e) => (5, e.name().to_string()),
            Node::ProcessingInstruction(_) => (6, String::new()),
        }),
    });
    walk.collect()
}

/// `scraper::Html::parse_document`, then the same walk as `html_walk`, each
/// opening giving the attributes of the node (`Element::attrs`, in the order
/// scraper keeps them), or none when it is not an element. The parse of the
/// same text gives the same tree, so this walk opens and closes at the same
/// steps as `html_walk`.
#[verifier::external_body]
fn html_walk_attrs(html: &str) -> (w: Vec<Option<Vec<(String, String)>>>)
    ensures
        w.deep_view() == html5_walk_attrs(html@),
        same_shape(html5_walk(html@), w.deep_view()),
{
    let doc = Html::parse_document(html);
    let walk = doc.tree.root().traverse().map(|edge| match edge {
        Edge::Close(_) => None,
        Edge::Open(node) => Some(match node.value().as_element() {
            Some(e) => e.attrs().map(|(k, v)| (k.to_string(), v.to_string())).collect(),
            None => Vec::new(),
        }),
    });
    walk.collect()
}

/// Parses an HTML document into its tree; every text parses.
pub fn parse_html(html: &str) -> (r: Result<Document, String>)
    ensures
        r is Ok,
        match merged_walk(html5_walk(html@), html5_walk_attrs(html@)) {
            Some(w) => match tree_of_events(w) {
                Some(v) => r matches Ok(d) && d@ == v,
                None => r is Err,
            },
            None => r is Err,
        },
{
    let nodes = html_walk(html);
    let attrs = html_walk_attrs(html);
    proof {
        balanced_walk_builds_tree(nodes.deep_view(), attrs.deep_view());
    }
    match merge_walk(nodes, attrs) {
        Some(w) => document_from_events(w),
        None => Err(String::from_str("malformed document tree")),
    }
}

} // verus!
