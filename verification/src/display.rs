use vstd::prelude::*;

use crate::config::Config;
use crate::dom::{Document, NodeKind, NodeView};
use crate::patterns::regex_capture_groups;
use crate::selector::{groups_exec, groups_of, is_element, scan_char, valid_nodes};
use crate::text::{char_string, chars_are, chars_of, chars_start_with, concat, is_white_space, string_from, sub_chars, trimmed, white_space};

verus! {

/// What the last command asks to print of the selected nodes, when it is a
/// display function.
pub enum DisplayType {
    /// `text{mods}`: the text below the nodes, changed by the `+`-separated modifiers.
    Text { mods: Vec<String> },
    /// `attr{name}`: the value of an attribute.
    Attr { attr: String },
    /// `json{}`: the nodes as JSON.
    Json,
}

/// A display function as plain values.
pub enum DisplaySpec {
    Text(Seq<Seq<char>>),
    Attr(Seq<char>),
    Json,
}

impl View for DisplayType {
    type V = DisplaySpec;

    open spec fn view(&self) -> DisplaySpec {
        match self {
            DisplayType::Text { mods } => DisplaySpec::Text(mods.deep_view()),
            DisplayType::Attr { attr } => DisplaySpec::Attr(attr@),
            DisplayType::Json => DisplaySpec::Json,
        }
    }
}

/// The pieces of `s` between the occurrences of `c` (`str::split` with a
/// character): empty pieces included, and one piece more than there are `c`.
pub open spec fn split_on(s: Seq<char>, c: char) -> Seq<Seq<char>>
    decreases s.len(),
{
    let i = scan_char(s, c, 0);
    if 0 <= i < s.len() {
        seq![s.subrange(0, i)] + split_on(s.subrange(i + 1, s.len() as int), c)
    } else {
        seq![s]
    }
}

/// The pattern of the `text{...}` display function.
pub open spec fn text_display_pattern() -> Seq<char> {
    "text\\{([\\w\\+]*)\\}"@
}

/// The pattern of the `attr{...}` display function.
pub open spec fn attr_display_pattern() -> Seq<char> {
    "attr\\{([^\\s\"'/>=\\x00-\\x1F]+)\\}"@
}

/// The display function that `cmd` names, given the groups that the
/// `text{...}` and `attr{...}` patterns capture in it: `json{}` exactly,
/// else the first `text{...}` found in it, else the first `attr{...}`.
pub open spec fn display_from(
    cmd: Seq<char>,
    text_groups: Option<Seq<Seq<char>>>,
    attr_groups: Option<Seq<Seq<char>>>,
) -> Result<DisplaySpec, Seq<char>> {
    if cmd == "json{}"@ {
        Ok(DisplaySpec::Json)
    } else if text_groups is Some && text_groups.unwrap().len() >= 2 {
        let mods = text_groups.unwrap()[1];
        Ok(DisplaySpec::Text(if mods.len() == 0 { seq![] } else { split_on(mods, '+') }))
    } else if attr_groups is Some && attr_groups.unwrap().len() >= 2 {
        Ok(DisplaySpec::Attr(attr_groups.unwrap()[1]))
    } else {
        Err("Unknown displayer"@)
    }
}

/// The display function that `cmd` names.
pub open spec fn display_of(cmd: Seq<char>) -> Result<DisplaySpec, Seq<char>> {
    display_from(cmd, groups_of(text_display_pattern(), cmd), groups_of(attr_display_pattern(), cmd))
}

/// `s` split at every `c`.
fn split_exec(s: &[char], c: char) -> (r: Vec<String>)
    ensures
        r.deep_view() == split_on(s@, c),
{
    let mut r: Vec<String> = Vec::new();
    let mut rest = sub_chars(s, 0, s.len());
    assert(rest@ =~= s@);
    assert(r.deep_view() =~= seq![]);
    loop
        invariant
            split_on(s@, c) == r.deep_view() + split_on(rest@, c),
        decreases rest@.len(),
    {
        let i = scan_char_pos(rest.as_slice(), c);
        if i >= rest.len() {
            let piece = string_from(rest.as_slice());
            let ghost before = r.deep_view();
            r.push(piece);
            assert(r.deep_view() =~= before + split_on(rest@, c));
            return r;
        }
        let piece = sub_chars(rest.as_slice(), 0, i);
        let next = sub_chars(rest.as_slice(), i + 1, rest.len());
        let ghost before = r.deep_view();
        r.push(string_from(piece.as_slice()));
        assert(r.deep_view() + split_on(next@, c) =~= before + split_on(rest@, c));
        rest = next;
    }
}

/// The index of the first `c` in `s`, or its length.
fn scan_char_pos(s: &[char], c: char) -> (e: usize)
    ensures
        e == scan_char(s@, c, 0),
        e <= s@.len(),
{
    let mut k: usize = 0;
    while k < s.len() && s[k] != c
        invariant
            k <= s@.len(),
            scan_char(s@, c, 0) == scan_char(s@, c, k as int),
        decreases s@.len() - k,
    {
        k += 1;
    }
    k
}

/// The display function that `cmd` names, from the groups that the
/// `text{...}` and `attr{...}` patterns capture in it.
pub fn displayer_from_groups(
    cmd: &str,
    text_groups: Option<Vec<String>>,
    attr_groups: Option<Vec<String>>,
) -> (r: Result<DisplayType, String>)
    ensures
        match display_from(cmd@, text_groups.deep_view(), attr_groups.deep_view()) {
            Ok(d) => r matches Ok(x) && x@ == d,
            Err(m) => r matches Err(x) && x@ == m,
        },
{
    let chars = chars_of(cmd);
    if chars_are(chars.as_slice(), "json{}") {
        return Ok(DisplayType::Json);
    }
    match text_groups {
        Some(g) => {
            if g.len() >= 2 {
                let ghost gv = g.deep_view();
                assert(gv[1] == g@[1]@);
                let mods_chars = chars_of(g[1].as_str());
                let mods = if mods_chars.len() == 0 {
                    let v: Vec<String> = Vec::new();
                    assert(v.deep_view() =~= seq![]);
                    v
                } else {
                    split_exec(mods_chars.as_slice(), '+')
                };
                return Ok(DisplayType::Text { mods });
            }
        },
        None => {},
    }
    match attr_groups {
        Some(g) => {
            if g.len() >= 2 {
                let ghost gv = g.deep_view();
                assert(gv[1] == g@[1]@);
                let attr = g[1].clone();
                return Ok(DisplayType::Attr { attr });
            }
        },
        None => {},
    }
    Err(String::from_str("Unknown displayer"))
}

/// Reads the display function that the last command names.
pub fn parse_displayer(cmd: &str) -> (r: Result<DisplayType, String>)
    ensures
        match display_of(cmd@) {
            Ok(d) => r matches Ok(x) && x@ == d,
            Err(m) => r matches Err(x) && x@ == m,
        },
{
    let chars = chars_of(cmd);
    let text_pattern = String::from_str("text\\{([\\w\\+]*)\\}");
    let attr_pattern = String::from_str("attr\\{([^\\s\"'/>=\\x00-\\x1F]+)\\}");
    let text_groups = groups_exec(text_pattern.as_str(), chars.as_slice());
    let attr_groups = groups_exec(attr_pattern.as_str(), chars.as_slice());
    displayer_from_groups(cmd, text_groups, attr_groups)
}

// ---------------------------------------------------------------------------
// Printed output.

/// How a piece of output is printed: plain, as part of a tag, an attribute's
/// name or value, a comment (each of these in its color when colors are on),
/// or as a warning on the error stream.
#[derive(Clone, Copy, PartialEq, Eq, Structural, Debug)]
pub enum Style {
    Plain,
    Tag,
    AttrName,
    AttrValue,
    Comment,
    Warning,
}

impl DeepView for Style {
    type V = Style;

    open spec fn deep_view(&self) -> Style {
        *self
    }
}

/// Output as plain values: pieces of text and how each is printed.
pub type Pieces = Seq<(Style, Seq<char>)>;

/// One plain piece.
pub open spec fn plain(s: Seq<char>) -> Pieces {
    seq![(Style::Plain, s)]
}

/// `s` with `&`, `<` and `>` written as HTML entities.
pub open spec fn html_text_escaped(s: Seq<char>) -> Seq<char>
    decreases s.len(),
{
    if s.len() == 0 {
        seq![]
    } else {
        let c = s[0];
        let head = if c == '&' {
            "&amp;"@
        } else if c == '<' {
            "&lt;"@
        } else if c == '>' {
            "&gt;"@
        } else {
            seq![c]
        };
        head + html_text_escaped(s.drop_first())
    }
}

/// `html_escape::encode_text`: `&`, `<` and `>` replaced by `&amp;`, `&lt;`
/// and `&gt;`, every other character kept, as the crate's documentation and
/// source state (its `escape_text` table holds exactly these three bytes).
#[verifier::external_body]
fn encode_text(s: &str) -> (r: String)
    ensures
        r@ == html_text_escaped(s@),
{
    html_escape::encode_text(s).to_string()
}

/// The text printed for `s`: escaped when the configuration asks for it.
pub open spec fn escaped(c: Config, s: Seq<char>) -> Seq<char> {
    if c.escape_html {
        html_text_escaped(s)
    } else {
        s
    }
}

/// The text printed for `s`, escaped when `escape` holds.
pub fn escape_html_text(s: &str, escape: bool) -> (r: String)
    ensures
        r@ == if escape { html_text_escaped(s@) } else { s@ },
{
    if escape {
        encode_text(s)
    } else {
        String::from_str(s)
    }
}

/// The elements that have no end tag.
pub open spec fn void_element(tag: Seq<char>) -> bool {
    ||| tag == "area"@
    ||| tag == "base"@
    ||| tag == "br"@
    ||| tag == "col"@
    ||| tag == "command"@
    ||| tag == "embed"@
    ||| tag == "hr"@
    ||| tag == "img"@
    ||| tag == "input"@
    ||| tag == "keygen"@
    ||| tag == "link"@
    ||| tag == "meta"@
    ||| tag == "param"@
    ||| tag == "source"@
    ||| tag == "track"@
    ||| tag == "wbr"@
}

/// Whether `tag` names an element without end tag.
pub fn is_void_element(tag: &str) -> (b: bool)
    ensures
        b == void_element(tag@),
{
    let t = chars_of(tag);
    let t = t.as_slice();
    chars_are(t, "area") || chars_are(t, "base") || chars_are(t, "br") || chars_are(t, "col") || chars_are(t, "command")
        || chars_are(t, "embed") || chars_are(t, "hr") || chars_are(t, "img") || chars_are(t, "input")
        || chars_are(t, "keygen") || chars_are(t, "link") || chars_are(t, "meta") || chars_are(t, "param")
        || chars_are(t, "source") || chars_are(t, "track") || chars_are(t, "wbr")
}

/// `level` indentations.
pub open spec fn indent(c: Config, level: nat) -> Pieces
    decreases level,
{
    if level == 0 {
        seq![]
    } else {
        indent(c, (level - 1) as nat) + plain(c.indent_string@)
    }
}

/// Adds `piece` to the output.
fn put(out: &mut Vec<(Style, String)>, style: Style, piece: String)
    ensures
        final(out).deep_view() == old(out).deep_view() + seq![(style, piece@)],
{
    let ghost before = out.deep_view();
    out.push((style, piece));
    assert(out.deep_view() =~= before + seq![(style, piece@)]);
}

/// Adds `level` indentations to the output.
fn put_indent(out: &mut Vec<(Style, String)>, level: usize, config: &Config)
    ensures
        final(out).deep_view() == old(out).deep_view() + indent(*config, level as nat),
{
    let mut i: usize = 0;
    while i < level
        invariant
            i <= level,
            out.deep_view() == old(out).deep_view() + indent(*config, i as nat),
        decreases level - i,
    {
        let ghost before = out.deep_view();
        put(out, Style::Plain, config.indent_string.clone());
        assert(out.deep_view() =~= old(out).deep_view() + indent(*config, (i + 1) as nat));
        i += 1;
    }
}

// ---------------------------------------------------------------------------
// The tree display.

/// One line break, unless the output is raw.
pub open spec fn newline(c: Config) -> Pieces {
    if c.raw {
        seq![]
    } else {
        plain("\n"@)
    }
}

/// Indentation, unless the output is raw.
pub open spec fn raw_indent(c: Config, level: nat) -> Pieces {
    if c.raw {
        seq![]
    } else {
        indent(c, level)
    }
}

/// The attributes of a start tag, each as ` key="value"`.
pub open spec fn attr_pieces(c: Config, attrs: Seq<(Seq<char>, Seq<char>)>) -> Pieces
    decreases attrs.len(),
{
    if attrs.len() == 0 {
        seq![]
    } else {
        let (k, val) = attrs[0];
        let e = escaped(c, val);
        let here = if c.color {
            seq![
                (Style::Plain, " "@),
                (Style::AttrName, k),
                (Style::AttrValue, "="@),
                (Style::AttrValue, "\""@ + e + "\""@),
            ]
        } else {
            plain(" "@ + k + "=\""@ + e + "\""@)
        };
        here + attr_pieces(c, attrs.drop_first())
    }
}

/// The attributes of a start tag in a preformatted block, without color.
pub open spec fn pre_attr_pieces(c: Config, attrs: Seq<(Seq<char>, Seq<char>)>) -> Pieces
    decreases attrs.len(),
{
    if attrs.len() == 0 {
        seq![]
    } else {
        plain(" "@ + attrs[0].0 + "=\""@ + escaped(c, attrs[0].1) + "\""@) + pre_attr_pieces(
            c,
            attrs.drop_first(),
        )
    }
}

/// A node inside a `<pre>` element, printed as it is.
pub open spec fn render_pre(v: Seq<NodeView>, c: Config, n: int) -> Pieces
    decreases v.len() - n, v[n].children.len() + 1,
{
    if 0 <= n < v.len() {
        let node = v[n];
        let children = render_pre_from(v, c, n, 0);
        match node.kind {
            NodeKind::Text => plain(escaped(c, node.text)) + children,
            NodeKind::Element => plain("<"@ + node.text) + pre_attr_pieces(c, node.attrs) + plain(">"@) + if void_element(
                node.text,
            ) {
                seq![]
            } else {
                children + plain("</"@ + node.text + ">"@)
            },
            NodeKind::Comment => plain("<!--"@ + escaped(c, node.text) + "-->"@) + newline(c) + children,
            NodeKind::Document | NodeKind::Doctype => children,
            _ => seq![],
        }
    } else {
        seq![]
    }
}

/// The children of node `n` from the `k`-th on, inside a `<pre>` element.
pub open spec fn render_pre_from(v: Seq<NodeView>, c: Config, n: int, k: int) -> Pieces
    decreases v.len() - n, v[n].children.len() - k,
{
    if 0 <= n < v.len() && 0 <= k < v[n].children.len() && n < v[n].children[k] < v.len() {
        render_pre(v, c, v[n].children[k] as int) + render_pre_from(v, c, n, k + 1)
    } else {
        seq![]
    }
}

/// The children of node `n`, one level down, or `...` past the deepest level printed.
pub open spec fn render_children(v: Seq<NodeView>, c: Config, n: int, level: nat) -> Pieces
    decreases v.len() - n, v[n].children.len() + 1,
{
    if c.max_print_level > -1 && level >= c.max_print_level {
        indent(c, level) + plain("...\n"@)
    } else {
        render_children_from(v, c, n, level, 0)
    }
}

/// The children of node `n` from the `k`-th on.
pub open spec fn render_children_from(v: Seq<NodeView>, c: Config, n: int, level: nat, k: int) -> Pieces
    decreases v.len() - n, v[n].children.len() - k,
{
    if 0 <= n < v.len() && 0 <= k < v[n].children.len() && n < v[n].children[k] < v.len() {
        render_node(v, c, v[n].children[k] as int, level) + render_children_from(v, c, n, level, k + 1)
    } else {
        seq![]
    }
}

/// The start tag of an element named `tag`, with its attributes.
pub open spec fn start_tag(c: Config, tag: Seq<char>, attrs: Seq<(Seq<char>, Seq<char>)>) -> Pieces {
    (if c.color {
        seq![(Style::Tag, "<"@), (Style::Tag, tag)]
    } else {
        plain("<"@ + tag)
    }) + attr_pieces(c, attrs) + if c.color {
        seq![(Style::Tag, ">"@)]
    } else {
        plain(">"@)
    }
}

/// The end tag of an element named `tag`.
pub open spec fn end_tag(c: Config, tag: Seq<char>) -> Pieces {
    if c.color {
        seq![(Style::Tag, "</"@), (Style::Tag, tag), (Style::Tag, ">"@)]
    } else {
        plain("</"@ + tag + ">"@)
    }
}

/// Node `n` printed as a tree at indentation `level`: text trimmed on a line
/// of its own, an element as its start tag, its children one level down and
/// its end tag, a comment on a line, the document through its children.
pub open spec fn render_node(v: Seq<NodeView>, c: Config, n: int, level: nat) -> Pieces
    decreases v.len() - n, v[n].children.len() + 2,
{
    if 0 <= n < v.len() {
        let node = v[n];
        match node.kind {
            NodeKind::Text => {
                let s = escaped(c, node.text);
                if c.raw {
                    plain(s)
                } else if crate::text::trimmed(s).len() > 0 {
                    indent(c, level) + plain(crate::text::trimmed(s) + "\n"@)
                } else {
                    seq![]
                }
            },
            NodeKind::Element => {
                let tag = node.text;
                if tag == "pre"@ && !c.color && c.pre {
                    raw_indent(c, level) + render_pre(v, c, n) + newline(c)
                } else {
                    raw_indent(c, level) + start_tag(c, tag, node.attrs) + newline(c) + if void_element(tag) {
                        seq![]
                    } else {
                        render_children(v, c, n, level + 1) + raw_indent(c, level) + end_tag(c, tag) + newline(c)
                    }
                }
            },
            NodeKind::Comment => {
                let text = "<!--"@ + escaped(c, node.text) + "-->"@;
                raw_indent(c, level) + (if c.color {
                    seq![(Style::Comment, text), (Style::Plain, "\n"@)]
                } else {
                    plain(text + "\n"@)
                }) + render_children(v, c, n, level)
            },
            NodeKind::Document | NodeKind::Doctype => render_children(v, c, n, level),
            _ => seq![],
        }
    } else {
        seq![]
    }
}

/// Every node of `nodes`, in turn, printed as a tree.
pub open spec fn render_tree(v: Seq<NodeView>, c: Config, nodes: Seq<usize>) -> Pieces
    decreases nodes.len(),
{
    if nodes.len() == 0 {
        seq![]
    } else {
        render_tree(v, c, nodes.drop_last()) + render_node(v, c, nodes.last() as int, 0)
    }
}

/// The `attrs` of a start tag, each as ` key="value"`.
fn put_attrs(out: &mut Vec<(Style, String)>, attrs: &Vec<(String, String)>, config: &Config, colored: bool)
    ensures
        final(out).deep_view() == old(out).deep_view() + if colored {
            attr_pieces(*config, attrs.deep_view())
        } else {
            pre_attr_pieces(*config, attrs.deep_view())
        },
{
    let ghost a = attrs.deep_view();
    let ghost start = out.deep_view();
    let mut k: usize = 0;
    assert(a.skip(0) =~= a);
    while k < attrs.len()
        invariant
            a == attrs.deep_view(),
            k <= a.len(),
            start + (if colored { attr_pieces(*config, a) } else { pre_attr_pieces(*config, a) }) == out.deep_view() + (if colored {
                attr_pieces(*config, a.skip(k as int))
            } else {
                pre_attr_pieces(*config, a.skip(k as int))
            }),
        decreases a.len() - k,
    {
        let ghost before = out.deep_view();
        assert(a.skip(k as int)[0] == a[k as int]);
        assert(a.skip(k as int).drop_first() =~= a.skip(k + 1));
        let key = &attrs[k].0;
        let e = escape_html_text(attrs[k].1.as_str(), config.escape_html);
        let quoted = concat("\"", e.as_str());
        let quoted = concat(quoted.as_str(), "\"");
        if colored && config.color {
            put(out, Style::Plain, String::from_str(" "));
            put(out, Style::AttrName, key.clone());
            put(out, Style::AttrValue, String::from_str("="));
            put(out, Style::AttrValue, quoted);
            assert(out.deep_view() =~= before + seq![
                (Style::Plain, " "@),
                (Style::AttrName, key@),
                (Style::AttrValue, "="@),
                (Style::AttrValue, "\""@ + e@ + "\""@),
            ]);
        } else {
            let piece = concat(" ", key.as_str());
            let piece = concat(piece.as_str(), "=");
            let piece = concat(piece.as_str(), quoted.as_str());
            put(out, Style::Plain, piece);
            assert(" "@ + key@ + "="@ + ("\""@ + e@ + "\""@) =~= " "@ + key@ + "=\""@ + e@ + "\""@) by {
                reveal_strlit("=");
                reveal_strlit("\"");
                reveal_strlit("=\"");
            }
        }
        proof {
            let x = if colored { attr_pieces(*config, a.skip(k as int)) } else { pre_attr_pieces(*config, a.skip(k as int)) };
            let y = if colored { attr_pieces(*config, a.skip(k + 1)) } else { pre_attr_pieces(*config, a.skip(k + 1)) };
            assert(before + x == out.deep_view() + y);
        }
        k += 1;
    }
    assert(a.skip(k as int).len() == 0);
    assert(out.deep_view() =~= out.deep_view() + seq![]);
}

/// Prints the start tag of the element `tag` with its attributes.
fn put_start_tag(out: &mut Vec<(Style, String)>, tag: &String, attrs: &Vec<(String, String)>, config: &Config)
    ensures
        final(out).deep_view() == old(out).deep_view() + start_tag(*config, tag@, attrs.deep_view()),
{
    let ghost s0 = out.deep_view();
    if config.color {
        put(out, Style::Tag, String::from_str("<"));
        put(out, Style::Tag, tag.clone());
    } else {
        put(out, Style::Plain, concat("<", tag.as_str()));
    }
    let ghost s1 = out.deep_view();
    put_attrs(out, attrs, config, true);
    let ghost s2 = out.deep_view();
    if config.color {
        put(out, Style::Tag, String::from_str(">"));
    } else {
        put(out, Style::Plain, String::from_str(">"));
    }
    assert(out.deep_view() =~= s0 + start_tag(*config, tag@, attrs.deep_view()));
}

/// Prints the end tag of the element `tag`.
fn put_end_tag(out: &mut Vec<(Style, String)>, tag: &String, config: &Config)
    ensures
        final(out).deep_view() == old(out).deep_view() + end_tag(*config, tag@),
{
    let ghost s0 = out.deep_view();
    if config.color {
        put(out, Style::Tag, String::from_str("</"));
        put(out, Style::Tag, tag.clone());
        put(out, Style::Tag, String::from_str(">"));
    } else {
        let close = concat("</", tag.as_str());
        put(out, Style::Plain, concat(close.as_str(), ">"));
    }
    assert(out.deep_view() =~= s0 + end_tag(*config, tag@));
}

/// Prints the text node `n` on a line of its own, trimmed, or as it is when raw.
fn print_text_line(doc: &Document, n: usize, level: usize, config: &Config, out: &mut Vec<(Style, String)>)
    requires
        n < doc@.len(),
        doc@[n as int].kind == NodeKind::Text,
    ensures
        final(out).deep_view() == old(out).deep_view() + render_node(doc@, *config, n as int, level as nat),
{
    let ghost start = out.deep_view();
    let text = doc.text(n);
    let s = escape_html_text(text.as_str(), config.escape_html);
    if config.raw {
        put(out, Style::Plain, s);
    } else {
        let t = crate::text::trim(s.as_str());
        if !t.as_str().is_empty() {
            put_indent(out, level, config);
            put(out, Style::Plain, concat(t.as_str(), "\n"));
        }
    }
    assert(out.deep_view() =~= start + render_node(doc@, *config, n as int, level as nat));
}

/// Prints the selected nodes as an indented tree of tags, text and comments.
pub struct TreeDisplayer;

impl TreeDisplayer {
    /// Prints node `n` of a `<pre>` element as it is.
    fn print_pre(&self, doc: &Document, n: usize, config: &Config, out: &mut Vec<(Style, String)>)
        requires
            n < doc@.len(),
        ensures
            final(out).deep_view() == old(out).deep_view() + render_pre(doc@, *config, n as int),
        decreases doc@.len() - n, 1int,
    {
        proof {
            use_type_invariant(doc);
        }
        let ghost v = doc@;
        let ghost start = out.deep_view();
        let kind = doc.kind(n);
        let text = doc.text(n);
        if kind == NodeKind::Text {
            put(out, Style::Plain, escape_html_text(text.as_str(), config.escape_html));
            self.print_pre_children(doc, n, config, out);
            assert(out.deep_view() =~= start + render_pre(v, *config, n as int));
        } else if kind == NodeKind::Element {
            put(out, Style::Plain, concat("<", text.as_str()));
            put_attrs(out, doc.attrs(n), config, false);
            put(out, Style::Plain, String::from_str(">"));
            let ghost mid = out.deep_view();
            if !is_void_element(text.as_str()) {
                self.print_pre_children(doc, n, config, out);
                let close = concat("</", text.as_str());
                put(out, Style::Plain, concat(close.as_str(), ">"));
            }
            assert(out.deep_view() =~= start + render_pre(v, *config, n as int));
        } else if kind == NodeKind::Comment {
            let data = escape_html_text(text.as_str(), config.escape_html);
            let open = concat("<!--", data.as_str());
            put(out, Style::Plain, concat(open.as_str(), "-->"));
            if !config.raw {
                put(out, Style::Plain, String::from_str("\n"));
            }
            self.print_pre_children(doc, n, config, out);
            assert(out.deep_view() =~= start + render_pre(v, *config, n as int));
        } else if kind == NodeKind::Document || kind == NodeKind::Doctype {
            self.print_pre_children(doc, n, config, out);
        }
    }

    /// Prints the children of node `n` of a `<pre>` element as they are.
    fn print_pre_children(&self, doc: &Document, n: usize, config: &Config, out: &mut Vec<(Style, String)>)
        requires
            n < doc@.len(),
        ensures
            final(out).deep_view() == old(out).deep_view() + render_pre_from(doc@, *config, n as int, 0),
        decreases doc@.len() - n, 0int,
    {
        proof {
            use_type_invariant(doc);
        }
        let ghost v = doc@;
        let ghost start = out.deep_view();
        let ch = doc.children(n);
        let mut k: usize = 0;
        while k < ch.len()
            invariant
                v == doc@,
                n < v.len(),
                crate::dom::tree_wf(v),
                ch@ == v[n as int].children,
                k <= ch@.len(),
                start + render_pre_from(v, *config, n as int, 0) == out.deep_view() + render_pre_from(v, *config, n as int, k as int),
            decreases ch@.len() - k,
        {
            let c = ch[k];
            assert(v[n as int].children[k as int] == c);
            assert(n < c < v.len());
            let ghost before = out.deep_view();
            self.print_pre(doc, c, config, out);
            assert(before + render_pre_from(v, *config, n as int, k as int) == out.deep_view() + render_pre_from(v, *config, n as int, k + 1));
            k += 1;
        }
        assert(out.deep_view() =~= start + render_pre_from(v, *config, n as int, 0));
    }

    /// Prints node `n` as a tree at indentation `level`.
    fn print_node(&self, doc: &Document, n: usize, level: usize, config: &Config, out: &mut Vec<(Style, String)>)
        requires
            n < doc@.len(),
            level <= n,
        ensures
            final(out).deep_view() == old(out).deep_view() + render_node(doc@, *config, n as int, level as nat),
        decreases doc@.len() - n, 4int,
    {
        let kind = doc.kind(n);
        if kind == NodeKind::Text {
            print_text_line(doc, n, level, config, out);
        } else if kind == NodeKind::Element {
            self.print_element(doc, n, level, config, out);
        } else if kind == NodeKind::Comment {
            let ghost start = out.deep_view();
            let text = doc.text(n);
            if !config.raw {
                put_indent(out, level, config);
            }
            let data = escape_html_text(text.as_str(), config.escape_html);
            let open = concat("<!--", data.as_str());
            let whole = concat(open.as_str(), "-->");
            if config.color {
                put(out, Style::Comment, whole);
                put(out, Style::Plain, String::from_str("\n"));
            } else {
                put(out, Style::Plain, concat(whole.as_str(), "\n"));
            }
            self.print_children(doc, n, level, config, out);
            assert(out.deep_view() =~= start + render_node(doc@, *config, n as int, level as nat));
        } else if kind == NodeKind::Document || kind == NodeKind::Doctype {
            self.print_children(doc, n, level, config, out);
        }
    }

    /// Prints the element `n` as a tree at indentation `level`.
    #[verifier::rlimit(50)]
    #[verifier::spinoff_prover]
    fn print_element(&self, doc: &Document, n: usize, level: usize, config: &Config, out: &mut Vec<(Style, String)>)
        requires
            n < doc@.len(),
            level <= n,
            doc@[n as int].kind == NodeKind::Element,
        ensures
            final(out).deep_view() == old(out).deep_view() + render_node(doc@, *config, n as int, level as nat),
        decreases doc@.len() - n, 3int,
    {
        proof {
            use_type_invariant(doc);
        }
        let ghost v = doc@;
        let ghost c = *config;
        let ghost start = out.deep_view();
        let text = doc.text(n);
        if !config.raw {
            put_indent(out, level, config);
        }
        if chars_are(chars_of(text.as_str()).as_slice(), "pre") && !config.color && config.pre {
            self.print_pre(doc, n, config, out);
            if !config.raw {
                put(out, Style::Plain, String::from_str("\n"));
            }
            assert(out.deep_view() =~= start + render_node(v, c, n as int, level as nat));
            return;
        }
        put_start_tag(out, text, doc.attrs(n), config);
        if !config.raw {
            put(out, Style::Plain, String::from_str("\n"));
        }
        let ghost after_start = out.deep_view();
        if !is_void_element(text.as_str()) {
            self.print_children(doc, n, level + 1, config, out);
            if !config.raw {
                put_indent(out, level, config);
            }
            put_end_tag(out, text, config);
            if !config.raw {
                put(out, Style::Plain, String::from_str("\n"));
            }
        }
        assert(out.deep_view() =~= start + render_node(v, c, n as int, level as nat));
    }

    /// Prints the children of node `n` at indentation `level`, or `...` past
    /// the deepest level printed.
    fn print_children(&self, doc: &Document, n: usize, level: usize, config: &Config, out: &mut Vec<(Style, String)>)
        requires
            n < doc@.len(),
            level <= n + 1,
        ensures
            final(out).deep_view() == old(out).deep_view() + render_children(doc@, *config, n as int, level as nat),
        decreases doc@.len() - n, 2int,
    {
        proof {
            use_type_invariant(doc);
        }
        let ghost v = doc@;
        let ghost start = out.deep_view();
        if config.max_print_level > -1 && level >= config.max_print_level as usize {
            put_indent(out, level, config);
            put(out, Style::Plain, String::from_str("...\n"));
            return;
        }
        let ch = doc.children(n);
        let mut k: usize = 0;
        while k < ch.len()
            invariant
                v == doc@,
                n < v.len(),
                level <= n + 1,
                crate::dom::tree_wf(v),
                ch@ == v[n as int].children,
                k <= ch@.len(),
                start + render_children_from(v, *config, n as int, level as nat, 0) == out.deep_view() + render_children_from(v, *config, n as int, level as nat, k as int),
            decreases ch@.len() - k,
        {
            let c = ch[k];
            assert(v[n as int].children[k as int] == c);
            assert(n < c < v.len());
            let ghost before = out.deep_view();
            self.print_node(doc, c, level, config, out);
            assert(before + render_children_from(v, *config, n as int, level as nat, k as int) == out.deep_view() + render_children_from(v, *config, n as int, level as nat, k + 1));
            k += 1;
        }
        assert(out.deep_view() =~= start + render_children_from(v, *config, n as int, level as nat, 0));
    }
}

// ---------------------------------------------------------------------------
// Displayers.

/// A JSON value of a node's object: a string, or the nodes whose objects make
/// up its `children` array.
pub enum JsonField {
    Text(String),
    Children(Vec<usize>),
}

/// A JSON field as plain values.
pub enum JsonFieldSpec {
    Text(Seq<char>),
    Children(Seq<usize>),
}

impl View for JsonField {
    type V = JsonFieldSpec;

    open spec fn view(&self) -> JsonFieldSpec {
        match self {
            JsonField::Text(t) => JsonFieldSpec::Text(t@),
            JsonField::Children(c) => JsonFieldSpec::Children(c@),
        }
    }
}

/// The object of one node: its fields in the order they are inserted into
/// the JSON map (a later insertion of a key replaces the earlier value).
pub struct JsonObject {
    pub fields: Vec<(String, JsonField)>,
}

/// The fields of an object as plain values.
pub open spec fn json_fields_view(f: Seq<(String, JsonField)>) -> Seq<(Seq<char>, JsonFieldSpec)> {
    f.map_values(|p: (String, JsonField)| (p.0@, p.1@))
}

/// What a displayer gives: styled pieces of text, or JSON objects that the
/// caller serializes.
pub enum Output {
    Styled(Vec<(Style, String)>),
    Json(Vec<JsonObject>),
}

/// Turns the selected nodes of a document into what is printed.
pub trait Displayer {
    fn display(&self, doc: &Document, nodes: &[usize], config: &Config) -> (r: Output)
        requires
            valid_nodes(doc@, nodes@),
    ;
}

impl Displayer for TreeDisplayer {
    /// Each node printed as a tree, in turn.
    fn display(&self, doc: &Document, nodes: &[usize], config: &Config) -> (r: Output)
        ensures
            r matches Output::Styled(p) && p.deep_view() == render_tree(doc@, *config, nodes@),
    {
        let mut out: Vec<(Style, String)> = Vec::new();
        let mut k: usize = 0;
        assert(out.deep_view() =~= seq![]);
        assert(nodes@.take(0) =~= seq![]);
        while k < nodes.len()
            invariant
                valid_nodes(doc@, nodes@),
                k <= nodes@.len(),
                out.deep_view() == render_tree(doc@, *config, nodes@.take(k as int)),
            decreases nodes@.len() - k,
        {
            let n = nodes[k];
            assert(nodes@[k as int] < doc@.len());
            self.print_node(doc, n, 0, config, &mut out);
            assert(nodes@.take(k + 1).drop_last() =~= nodes@.take(k as int));
            k += 1;
        }
        assert(nodes@.take(k as int) =~= nodes@);
        Output::Styled(out)
    }
}

/// `str::to_lowercase`: the Unicode lowercase mapping of `s`.
pub uninterp spec fn unicode_lowercase(s: Seq<char>) -> Seq<char>;

/// `str::to_uppercase`: the Unicode uppercase mapping of `s`.
pub uninterp spec fn unicode_uppercase(s: Seq<char>) -> Seq<char>;

/// `str::to_lowercase`, whose result is named, not stated (the Unicode case
/// tables are std's business).
#[verifier::external_body]
fn to_lowercase(s: &str) -> (r: String)
    ensures
        r@ == unicode_lowercase(s@),
{
    s.to_lowercase()
}

/// `str::to_uppercase`, whose result is named, not stated.
#[verifier::external_body]
fn to_uppercase(s: &str) -> (r: String)
    ensures
        r@ == unicode_uppercase(s@),
{
    s.to_uppercase()
}

/// Whether the text modifier `m` is one that `text{...}` knows.
pub open spec fn known_modifier(m: Seq<char>) -> bool {
    m == ""@ || m == "trim"@ || m == "lower"@ || m == "upper"@
}

/// `d` changed by the modifier `m`.
pub open spec fn modify(m: Seq<char>, d: Seq<char>) -> Seq<char> {
    if m == "trim"@ {
        trimmed(d)
    } else if m == "lower"@ {
        unicode_lowercase(d)
    } else if m == "upper"@ {
        unicode_uppercase(d)
    } else {
        d
    }
}

/// `d` changed by each modifier of `mods`, in turn.
pub open spec fn apply_mods(mods: Seq<Seq<char>>, d: Seq<char>) -> Seq<char>
    decreases mods.len(),
{
    if mods.len() == 0 {
        d
    } else {
        modify(mods.last(), apply_mods(mods.drop_last(), d))
    }
}

/// The warnings for the modifiers of `mods` that are not known.
pub open spec fn mod_warnings(mods: Seq<Seq<char>>) -> Pieces
    decreases mods.len(),
{
    if mods.len() == 0 {
        seq![]
    } else {
        mod_warnings(mods.drop_last()) + if known_modifier(mods.last()) {
            seq![]
        } else {
            seq![(Style::Warning, "Text modifier '"@ + mods.last() + "' not recognized, ignoring\n"@)]
        }
    }
}

/// The text below node `n`, each text node changed by the modifiers, on a
/// line of its own, in document order.
pub open spec fn render_text(v: Seq<NodeView>, c: Config, mods: Seq<Seq<char>>, n: int) -> Pieces
    decreases v.len() - n, v[n].children.len() + 1,
{
    if 0 <= n < v.len() {
        (if v[n].kind == NodeKind::Text {
            mod_warnings(mods) + plain(apply_mods(mods, escaped(c, v[n].text)) + "\n"@)
        } else {
            seq![]
        }) + render_text_from(v, c, mods, n, 0)
    } else {
        seq![]
    }
}

/// The text below the children of node `n` from the `k`-th on.
pub open spec fn render_text_from(v: Seq<NodeView>, c: Config, mods: Seq<Seq<char>>, n: int, k: int) -> Pieces
    decreases v.len() - n, v[n].children.len() - k,
{
    if 0 <= n < v.len() && 0 <= k < v[n].children.len() && n < v[n].children[k] < v.len() {
        render_text(v, c, mods, v[n].children[k] as int) + render_text_from(v, c, mods, n, k + 1)
    } else {
        seq![]
    }
}

/// The text below each node of `nodes`, in turn.
pub open spec fn render_texts(v: Seq<NodeView>, c: Config, mods: Seq<Seq<char>>, nodes: Seq<usize>) -> Pieces
    decreases nodes.len(),
{
    if nodes.len() == 0 {
        seq![]
    } else {
        render_texts(v, c, mods, nodes.drop_last()) + render_text(v, c, mods, nodes.last() as int)
    }
}

/// Prints the text below the selected nodes, changed by modifiers.
pub struct TextDisplayer {
    pub mods: Vec<String>,
}

impl TextDisplayer {
    /// The text of a text node changed by the modifiers, with a warning for
    /// each modifier not known.
    fn modified(&self, data: String, out: &mut Vec<(Style, String)>) -> (r: String)
        ensures
            r@ == apply_mods(self.mods.deep_view(), data@),
            final(out).deep_view() == old(out).deep_view() + mod_warnings(self.mods.deep_view()),
    {
        let ghost m = self.mods.deep_view();
        let mut d = data;
        let mut k: usize = 0;
        assert(m.take(0) =~= seq![]);
        while k < self.mods.len()
            invariant
                m == self.mods.deep_view(),
                k <= m.len(),
                d@ == apply_mods(m.take(k as int), data@),
                out.deep_view() == old(out).deep_view() + mod_warnings(m.take(k as int)),
            decreases m.len() - k,
        {
            let name = &self.mods[k];
            assert(m[k as int] == name@);
            assert(m.take(k + 1).drop_last() =~= m.take(k as int));
            assert(m.take(k + 1).last() == name@);
            let nc = chars_of(name.as_str());
            let ghost before = out.deep_view();
            proof {
                reveal_strlit("");
                reveal_strlit("trim");
                reveal_strlit("lower");
                reveal_strlit("upper");
            }
            if chars_are(nc.as_slice(), "") {
            } else if chars_are(nc.as_slice(), "trim") {
                d = crate::text::trim(d.as_str());
            } else if chars_are(nc.as_slice(), "lower") {
                d = to_lowercase(d.as_str());
            } else if chars_are(nc.as_slice(), "upper") {
                d = to_uppercase(d.as_str());
            } else {
                let w = concat("Text modifier '", name.as_str());
                put(out, Style::Warning, concat(w.as_str(), "' not recognized, ignoring\n"));
            }
            assert(out.deep_view() =~= old(out).deep_view() + mod_warnings(m.take(k + 1)));
            k += 1;
        }
        assert(m.take(k as int) =~= m);
        d
    }

    /// Prints the text below node `n`.
    fn display_node(&self, doc: &Document, n: usize, config: &Config, out: &mut Vec<(Style, String)>)
        requires
            n < doc@.len(),
        ensures
            final(out).deep_view() == old(out).deep_view() + render_text(doc@, *config, self.mods.deep_view(), n as int),
        decreases doc@.len() - n,
    {
        proof {
            use_type_invariant(doc);
        }
        let ghost v = doc@;
        let ghost m = self.mods.deep_view();
        let ghost start = out.deep_view();
        if doc.kind(n) == NodeKind::Text {
            let data = escape_html_text(doc.text(n).as_str(), config.escape_html);
            let data = self.modified(data, out);
            put(out, Style::Plain, concat(data.as_str(), "\n"));
        }
        let ghost mid = out.deep_view();
        let ch = doc.children(n);
        let mut k: usize = 0;
        while k < ch.len()
            invariant
                v == doc@,
                m == self.mods.deep_view(),
                n < v.len(),
                crate::dom::tree_wf(v),
                ch@ == v[n as int].children,
                k <= ch@.len(),
                mid + render_text_from(v, *config, m, n as int, 0) == out.deep_view() + render_text_from(v, *config, m, n as int, k as int),
            decreases ch@.len() - k,
        {
            let c = ch[k];
            assert(v[n as int].children[k as int] == c);
            assert(n < c < v.len());
            let ghost before = out.deep_view();
            self.display_node(doc, c, config, out);
            assert(before + render_text_from(v, *config, m, n as int, k as int) == out.deep_view() + render_text_from(v, *config, m, n as int, k + 1));
            k += 1;
        }
        assert(out.deep_view() =~= start + render_text(v, *config, m, n as int));
    }
}

impl Displayer for TextDisplayer {
    /// The text below each node, in turn.
    fn display(&self, doc: &Document, nodes: &[usize], config: &Config) -> (r: Output)
        ensures
            r matches Output::Styled(p) && p.deep_view() == render_texts(doc@, *config, self.mods.deep_view(), nodes@),
    {
        let mut out: Vec<(Style, String)> = Vec::new();
        let mut k: usize = 0;
        assert(out.deep_view() =~= seq![]);
        assert(nodes@.take(0) =~= seq![]);
        while k < nodes.len()
            invariant
                valid_nodes(doc@, nodes@),
                k <= nodes@.len(),
                out.deep_view() == render_texts(doc@, *config, self.mods.deep_view(), nodes@.take(k as int)),
            decreases nodes@.len() - k,
        {
            let n = nodes[k];
            assert(nodes@[k as int] < doc@.len());
            self.display_node(doc, n, config, &mut out);
            assert(nodes@.take(k + 1).drop_last() =~= nodes@.take(k as int));
            k += 1;
        }
        assert(nodes@.take(k as int) =~= nodes@);
        Output::Styled(out)
    }
}

/// The values of the attributes named `name`, each followed by a line break unless raw.
pub open spec fn attr_values(c: Config, attrs: Seq<(Seq<char>, Seq<char>)>, name: Seq<char>) -> Pieces
    decreases attrs.len(),
{
    if attrs.len() == 0 {
        seq![]
    } else {
        (if attrs[0].0 == name {
            plain(escaped(c, attrs[0].1)) + newline(c)
        } else {
            seq![]
        }) + attr_values(c, attrs.drop_first(), name)
    }
}

/// The values of the attribute `name` of each element of `nodes`, in turn.
pub open spec fn render_attr_values(v: Seq<NodeView>, c: Config, name: Seq<char>, nodes: Seq<usize>) -> Pieces
    decreases nodes.len(),
{
    if nodes.len() == 0 {
        seq![]
    } else {
        render_attr_values(v, c, name, nodes.drop_last()) + if is_element(v, nodes.last() as int) {
            attr_values(c, v[nodes.last() as int].attrs, name)
        } else {
            seq![]
        }
    }
}

/// Prints the value of one attribute of the selected elements.
pub struct AttrDisplayer {
    pub attr: String,
}

impl Displayer for AttrDisplayer {
    /// The value of the attribute for each element, in turn.
    fn display(&self, doc: &Document, nodes: &[usize], config: &Config) -> (r: Output)
        ensures
            r matches Output::Styled(p) && p.deep_view() == render_attr_values(doc@, *config, self.attr@, nodes@),
    {
        let mut out: Vec<(Style, String)> = Vec::new();
        let mut k: usize = 0;
        assert(out.deep_view() =~= seq![]);
        assert(nodes@.take(0) =~= seq![]);
        while k < nodes.len()
            invariant
                valid_nodes(doc@, nodes@),
                k <= nodes@.len(),
                out.deep_view() == render_attr_values(doc@, *config, self.attr@, nodes@.take(k as int)),
            decreases nodes@.len() - k,
        {
            let n = nodes[k];
            assert(nodes@[k as int] < doc@.len());
            let ghost before = out.deep_view();
            if doc.kind(n) == NodeKind::Element {
                let attrs = doc.attrs(n);
                let ghost a = attrs.deep_view();
                let mut j: usize = 0;
                assert(a.skip(0) =~= a);
                while j < attrs.len()
                    invariant
                        a == attrs.deep_view(),
                        j <= a.len(),
                        before + attr_values(*config, a, self.attr@) == out.deep_view() + attr_values(*config, a.skip(j as int), self.attr@),
                    decreases a.len() - j,
                {
                    let ghost b2 = out.deep_view();
                    assert(a.skip(j as int)[0] == a[j as int]);
                    assert(a.skip(j as int).drop_first() =~= a.skip(j + 1));
                    if attrs[j].0 == self.attr {
                        put(&mut out, Style::Plain, escape_html_text(attrs[j].1.as_str(), config.escape_html));
                        if !config.raw {
                            put(&mut out, Style::Plain, String::from_str("\n"));
                        }
                    }
                    assert(b2 + attr_values(*config, a.skip(j as int), self.attr@) == out.deep_view() + attr_values(*config, a.skip(j + 1), self.attr@));
                    j += 1;
                }
                assert(a.skip(j as int).len() == 0);
                assert(out.deep_view() =~= before + attr_values(*config, a, self.attr@));
            }
            assert(nodes@.take(k + 1).drop_last() =~= nodes@.take(k as int));
            k += 1;
        }
        assert(nodes@.take(k as int) =~= nodes@);
        Output::Styled(out)
    }
}

/// `parts` joined by `sep` (`[String]::join`).
pub open spec fn seq_join(parts: Seq<Seq<char>>, sep: Seq<char>) -> Seq<char>
    decreases parts.len(),
{
    if parts.len() == 0 {
        seq![]
    } else if parts.len() == 1 {
        parts[0]
    } else {
        seq_join(parts.drop_last(), sep) + sep + parts.last()
    }
}

/// The trimmed texts of the text children among the first `k` children of
/// the element `n`, leaving out those that are empty once trimmed; escaped
/// unless the element is a `script`.
pub open spec fn json_text_parts(v: Seq<NodeView>, c: Config, n: int, k: int) -> Seq<Seq<char>>
    decreases k,
{
    if k <= 0 || k > v[n].children.len() {
        seq![]
    } else {
        let ch = v[n].children[k - 1] as int;
        json_text_parts(v, c, n, k - 1) + if v[ch].kind == NodeKind::Text && trimmed(v[ch].text).len() > 0 {
            seq![if c.escape_html && v[n].text != "script"@ { html_text_escaped(trimmed(v[ch].text)) } else { trimmed(v[ch].text) }]
        } else {
            seq![]
        }
    }
}

/// The trimmed texts of the comments among the first `k` children of node `n`, escaped.
pub open spec fn json_comment_parts(v: Seq<NodeView>, c: Config, n: int, k: int) -> Seq<Seq<char>>
    decreases k,
{
    if k <= 0 || k > v[n].children.len() {
        seq![]
    } else {
        let ch = v[n].children[k - 1] as int;
        json_comment_parts(v, c, n, k - 1) + if v[ch].kind == NodeKind::Comment {
            seq![escaped(c, trimmed(v[ch].text))]
        } else {
            seq![]
        }
    }
}

/// The element children among the first `k` children of node `n`.
pub open spec fn json_element_children(v: Seq<NodeView>, n: int, k: int) -> Seq<usize>
    decreases k,
{
    if k <= 0 || k > v[n].children.len() {
        seq![]
    } else {
        json_element_children(v, n, k - 1) + if v[v[n].children[k - 1] as int].kind == NodeKind::Element {
            seq![v[n].children[k - 1]]
        } else {
            seq![]
        }
    }
}

/// The attributes as JSON fields, values escaped when asked.
pub open spec fn json_attr_fields(c: Config, attrs: Seq<(Seq<char>, Seq<char>)>) -> Seq<(Seq<char>, JsonFieldSpec)> {
    attrs.map_values(|a: (Seq<char>, Seq<char>)| (a.0, JsonFieldSpec::Text(escaped(c, a.1))))
}

/// The fields of the JSON object of node `n`, in insertion order: for an
/// element, `tag`, its attributes, then `text` (its text children joined by
/// spaces), `comment` and `children` when there are any; nothing for other nodes.
pub open spec fn json_object(v: Seq<NodeView>, c: Config, n: int) -> Seq<(Seq<char>, JsonFieldSpec)> {
    if !is_element(v, n) {
        seq![]
    } else {
        let k = v[n].children.len() as int;
        let texts = json_text_parts(v, c, n, k);
        let comments = json_comment_parts(v, c, n, k);
        let kids = json_element_children(v, n, k);
        seq![("tag"@, JsonFieldSpec::Text(v[n].text))] + json_attr_fields(c, v[n].attrs) + (if texts.len() > 0 {
            seq![("text"@, JsonFieldSpec::Text(seq_join(texts, " "@)))]
        } else {
            seq![]
        }) + (if comments.len() > 0 {
            seq![("comment"@, JsonFieldSpec::Text(seq_join(comments, " "@)))]
        } else {
            seq![]
        }) + if kids.len() > 0 {
            seq![("children"@, JsonFieldSpec::Children(kids))]
        } else {
            seq![]
        }
    }
}

/// `parts` joined by `sep`.
fn join(parts: &Vec<String>, sep: &str) -> (r: String)
    ensures
        r@ == seq_join(parts.deep_view(), sep@),
{
    let ghost p = parts.deep_view();
    let mut r = String::new();
    let mut k: usize = 0;
    assert(p.take(0) =~= seq![]);
    while k < parts.len()
        invariant
            p == parts.deep_view(),
            k <= p.len(),
            r@ == seq_join(p.take(k as int), sep@),
        decreases p.len() - k,
    {
        assert(p.take(k + 1).drop_last() =~= p.take(k as int));
        assert(p.take(k + 1).last() == parts@[k as int]@);
        if k > 0 {
            r.append(sep);
        } else {
            assert(p.take(1).len() == 1);
        }
        r.append(parts[k].as_str());
        k += 1;
    }
    assert(p.take(k as int) =~= p);
    r
}

/// Prints the selected nodes as a JSON array of objects.
pub struct JsonDisplayer;

impl JsonDisplayer {
    /// The JSON object of node `n`.
    pub fn jsonify(&self, doc: &Document, n: usize, config: &Config) -> (r: JsonObject)
        requires
            n < doc@.len(),
        ensures
            json_fields_view(r.fields@) == json_object(doc@, *config, n as int),
    {
        proof {
            use_type_invariant(doc);
        }
        let ghost v = doc@;
        let ghost c = *config;
        let mut fields: Vec<(String, JsonField)> = Vec::new();
        if doc.kind(n) != NodeKind::Element {
            assert(json_fields_view(fields@) =~= seq![]);
            return JsonObject { fields };
        }
        let name = doc.text(n);
        fields.push((String::from_str("tag"), JsonField::Text(name.clone())));
        let attrs = doc.attrs(n);
        let ghost a = attrs.deep_view();
        let mut j: usize = 0;
        assert(json_fields_view(fields@) =~= seq![("tag"@, JsonFieldSpec::Text(v[n as int].text))] + json_attr_fields(c, a.take(0)));
        while j < attrs.len()
            invariant
                a == attrs.deep_view(),
                a == v[n as int].attrs,
                name@ == v[n as int].text,
                j <= a.len(),
                json_fields_view(fields@) == seq![("tag"@, JsonFieldSpec::Text(v[n as int].text))] + json_attr_fields(c, a.take(j as int)),
                c == *config,
            decreases a.len() - j,
        {
            let val = escape_html_text(attrs[j].1.as_str(), config.escape_html);
            let ghost before = json_fields_view(fields@);
            fields.push((attrs[j].0.clone(), JsonField::Text(val)));
            assert(json_attr_fields(c, a.take(j + 1)) =~= json_attr_fields(c, a.take(j as int)).push((a[j as int].0, JsonFieldSpec::Text(escaped(c, a[j as int].1)))));
            assert(json_fields_view(fields@) =~= before.push((attrs@[j as int].0@, JsonFieldSpec::Text(val@))));
            j += 1;
        }
        assert(a.take(j as int) =~= a);
        let ch = doc.children(n);
        let is_script = chars_are(chars_of(name.as_str()).as_slice(), "script");
        let mut texts: Vec<String> = Vec::new();
        let mut comments: Vec<String> = Vec::new();
        let mut kids: Vec<usize> = Vec::new();
        let mut k: usize = 0;
        assert(texts.deep_view() =~= seq![]);
        assert(comments.deep_view() =~= seq![]);
        while k < ch.len()
            invariant
                v == doc@,
                c == *config,
                n < v.len(),
                crate::dom::tree_wf(v),
                ch@ == v[n as int].children,
                name@ == v[n as int].text,
                is_script == (name@ == "script"@),
                k <= ch@.len(),
                texts.deep_view() == json_text_parts(v, c, n as int, k as int),
                comments.deep_view() == json_comment_parts(v, c, n as int, k as int),
                kids@ == json_element_children(v, n as int, k as int),
            decreases ch@.len() - k,
        {
            let cid = ch[k];
            assert(v[n as int].children[k as int] == cid);
            assert(n < cid < v.len());
            let kind = doc.kind(cid);
            let ghost t0 = texts.deep_view();
            let ghost c0 = comments.deep_view();
            if kind == NodeKind::Element {
                kids.push(cid);
            } else if kind == NodeKind::Text {
                let t = crate::text::trim(doc.text(cid).as_str());
                if !t.as_str().is_empty() {
                    let part = if config.escape_html && !is_script {
                        escape_html_text(t.as_str(), true)
                    } else {
                        t
                    };
                    texts.push(part);
                    assert(texts.deep_view() =~= t0.push(part@));
                }
            } else if kind == NodeKind::Comment {
                let t = crate::text::trim(doc.text(cid).as_str());
                let part = escape_html_text(t.as_str(), config.escape_html);
                comments.push(part);
                assert(comments.deep_view() =~= c0.push(part@));
            }
            k += 1;
        }
        let ghost f0 = json_fields_view(fields@);
        if texts.len() > 0 {
            fields.push((String::from_str("text"), JsonField::Text(join(&texts, " "))));
        }
        let ghost f1 = json_fields_view(fields@);
        if comments.len() > 0 {
            fields.push((String::from_str("comment"), JsonField::Text(join(&comments, " "))));
        }
        let ghost f2 = json_fields_view(fields@);
        if kids.len() > 0 {
            fields.push((String::from_str("children"), JsonField::Children(kids)));
        }
        assert(json_fields_view(fields@) =~= json_object(v, c, n as int));
        JsonObject { fields }
    }
}

impl Displayer for JsonDisplayer {
    /// The JSON object of each node, in turn.
    fn display(&self, doc: &Document, nodes: &[usize], config: &Config) -> (r: Output)
        ensures
            r matches Output::Json(objs) && objs@.len() == nodes@.len() && forall|k: int|
                0 <= k < nodes@.len() ==> json_fields_view(#[trigger] objs@[k].fields@) == json_object(doc@, *config, nodes@[k] as int),
    {
        let mut objs: Vec<JsonObject> = Vec::new();
        let mut k: usize = 0;
        while k < nodes.len()
            invariant
                valid_nodes(doc@, nodes@),
                k <= nodes@.len(),
                objs@.len() == k,
                forall|j: int| 0 <= j < k ==> json_fields_view(#[trigger] objs@[j].fields@) == json_object(doc@, *config, nodes@[j] as int),
            decreases nodes@.len() - k,
        {
            assert(nodes@[k as int] < doc@.len());
            objs.push(self.jsonify(doc, nodes[k], config));
            k += 1;
        }
        Output::Json(objs)
    }
}

/// Whether an attribute named `k` identifies an element in the slim display:
/// `id`, `class`, `name`, `type`, `value` or `data-...`.
pub open spec fn identifier_key(k: Seq<char>) -> bool {
    k == "id"@ || k == "class"@ || k == "name"@ || k == "type"@ || k == "value"@ || crate::selector::starts_with(k, "data-"@)
}

/// Whether an attribute other than `id` and `class` is shown in the slim display.
pub open spec fn extra_key(k: Seq<char>) -> bool {
    k == "name"@ || k == "type"@ || k == "value"@ || (k != "id"@ && k != "class"@ && crate::selector::starts_with(k, "data-"@))
}

/// Whether one of the attributes identifies the element.
pub open spec fn has_identifier(attrs: Seq<(Seq<char>, Seq<char>)>) -> bool {
    exists|i: int| 0 <= i < attrs.len() && identifier_key(#[trigger] attrs[i].0)
}

/// Whether one of the attributes is `id`, `class`, `name`, `type`, `value` or `data-...`.
pub fn has_identifier_attrs(attrs: &Vec<(String, String)>) -> (b: bool)
    ensures
        b == has_identifier(attrs.deep_view()),
{
    let ghost a = attrs.deep_view();
    let mut k: usize = 0;
    while k < attrs.len()
        invariant
            a == attrs.deep_view(),
            k <= a.len(),
            forall|j: int| 0 <= j < k ==> !identifier_key(#[trigger] a[j].0),
        decreases a.len() - k,
    {
        if key_identifies(&attrs[k].0) {
            assert(a[k as int].0 == attrs@[k as int].0@);
            return true;
        }
        k += 1;
    }
    false
}

fn key_identifies(k: &String) -> (b: bool)
    ensures
        b == identifier_key(k@),
{
    let c = chars_of(k.as_str());
    let c = c.as_slice();
    chars_are(c, "id") || chars_are(c, "class") || chars_are(c, "name") || chars_are(c, "type") || chars_are(c, "value")
        || chars_start_with(c, "data-")
}

fn key_is_extra(k: &String) -> (b: bool)
    ensures
        b == extra_key(k@),
{
    let c = chars_of(k.as_str());
    let c = c.as_slice();
    chars_are(c, "name") || chars_are(c, "type") || chars_are(c, "value") || (!chars_are(c, "id") && !chars_are(c, "class")
        && chars_start_with(c, "data-"))
}

/// The value of the last attribute named `key`, if any.
pub open spec fn last_value(attrs: Seq<(Seq<char>, Seq<char>)>, key: Seq<char>) -> Option<Seq<char>>
    decreases attrs.len(),
{
    if attrs.len() == 0 {
        None
    } else if attrs.last().0 == key {
        Some(attrs.last().1)
    } else {
        last_value(attrs.drop_last(), key)
    }
}

/// The end of the word of `s` that starts at `i`.
pub open spec fn word_end(s: Seq<char>, i: int) -> int
    decreases s.len() - i,
{
    if i < 0 || i >= s.len() || white_space(s[i]) {
        i
    } else {
        word_end(s, i + 1)
    }
}

/// The words of `s`: its longest runs without white space (`str::split_whitespace`).
pub open spec fn words(s: Seq<char>) -> Seq<Seq<char>>
    decreases s.len(),
{
    if s.len() == 0 {
        seq![]
    } else if white_space(s[0]) {
        words(s.drop_first())
    } else {
        let e = word_end(s, 0);
        if 0 < e <= s.len() {
            seq![s.subrange(0, e)] + words(s.subrange(e, s.len() as int))
        } else {
            seq![]
        }
    }
}

/// Each word with a `.` before it.
pub open spec fn class_text(ws: Seq<Seq<char>>) -> Seq<char>
    decreases ws.len(),
{
    if ws.len() == 0 {
        seq![]
    } else {
        class_text(ws.drop_last()) + "."@ + ws.last()
    }
}

/// The shown attributes other than `id` and `class`, each as `[key=value]`.
pub open spec fn extra_text(attrs: Seq<(Seq<char>, Seq<char>)>) -> Seq<char>
    decreases attrs.len(),
{
    if attrs.len() == 0 {
        seq![]
    } else {
        extra_text(attrs.drop_last()) + if extra_key(attrs.last().0) {
            "["@ + attrs.last().0 + "="@ + attrs.last().1 + "]"@
        } else {
            seq![]
        }
    }
}

/// `level` indentations, as one text.
pub open spec fn indent_text(c: Config, level: nat) -> Seq<char>
    decreases level,
{
    if level == 0 {
        seq![]
    } else {
        indent_text(c, (level - 1) as nat) + c.indent_string@
    }
}

/// The slim line of an element: indentation, `#id`, `.class` for each class,
/// `[key=value]` for each other identifying attribute.
pub open spec fn slim_line(c: Config, level: nat, attrs: Seq<(Seq<char>, Seq<char>)>) -> Seq<char> {
    indent_text(c, level) + (match last_value(attrs, "id"@) {
        Some(id) => "#"@ + id,
        None => seq![],
    }) + (match last_value(attrs, "class"@) {
        Some(cl) => class_text(words(cl)),
        None => seq![],
    }) + extra_text(attrs)
}

/// The slim skeleton below node `n`: a line for each element with
/// identifying attributes, whose children go one level down; other nodes are
/// passed through.
pub open spec fn render_slim(v: Seq<NodeView>, c: Config, n: int, level: nat) -> Pieces
    decreases v.len() - n, v[n].children.len() + 1,
{
    if 0 <= n < v.len() {
        if is_element(v, n) && has_identifier(v[n].attrs) {
            plain(slim_line(c, level, v[n].attrs) + "\n"@) + render_slim_from(v, c, n, level + 1, 0)
        } else {
            render_slim_from(v, c, n, level, 0)
        }
    } else {
        seq![]
    }
}

/// The slim skeleton below the children of node `n` from the `k`-th on.
pub open spec fn render_slim_from(v: Seq<NodeView>, c: Config, n: int, level: nat, k: int) -> Pieces
    decreases v.len() - n, v[n].children.len() - k,
{
    if 0 <= n < v.len() && 0 <= k < v[n].children.len() && n < v[n].children[k] < v.len() {
        render_slim(v, c, v[n].children[k] as int, level) + render_slim_from(v, c, n, level, k + 1)
    } else {
        seq![]
    }
}

/// The slim skeleton below each node of `nodes`, in turn.
pub open spec fn render_slims(v: Seq<NodeView>, c: Config, nodes: Seq<usize>) -> Pieces
    decreases nodes.len(),
{
    if nodes.len() == 0 {
        seq![]
    } else {
        render_slims(v, c, nodes.drop_last()) + render_slim(v, c, nodes.last() as int, 0)
    }
}

/// The value of the last attribute named `key`, if any.
fn last_value_exec(attrs: &Vec<(String, String)>, key: &str) -> (r: Option<String>)
    ensures
        match last_value(attrs.deep_view(), key@) {
            Some(x) => r matches Some(y) && y@ == x,
            None => r is None,
        },
{
    let ghost a = attrs.deep_view();
    let key_string = String::from_str(key);
    let mut r: Option<String> = None;
    let mut k: usize = 0;
    assert(a.take(0) =~= seq![]);
    while k < attrs.len()
        invariant
            a == attrs.deep_view(),
            key_string@ == key@,
            k <= a.len(),
            match last_value(a.take(k as int), key@) {
                Some(x) => r matches Some(y) && y@ == x,
                None => r is None,
            },
        decreases a.len() - k,
    {
        assert(a.take(k + 1).drop_last() =~= a.take(k as int));
        assert(a.take(k + 1).last() == (attrs@[k as int].0@, attrs@[k as int].1@));
        if attrs[k].0 == key_string {
            r = Some(attrs[k].1.clone());
        }
        k += 1;
    }
    assert(a.take(k as int) =~= a);
    r
}

/// The words of `s`, each with a `.` before it.
fn class_text_exec(s: &str) -> (r: String)
    ensures
        r@ == class_text(words(s@)),
{
    let chars = chars_of(s);
    let mut r = String::new();
    let mut i: usize = 0;
    let ghost n = chars@.len();
    assert(chars@.subrange(0, n as int) =~= chars@);
    proof {
        lemma_class_text_after_concat(r@, words(chars@));
        assert(r@ + class_text(words(chars@)) =~= class_text(words(chars@)));
    }
    while i < chars.len()
        invariant
            n == chars@.len(),
            i <= n,
            class_text(words(chars@)) == class_text_after(r@, words(chars@.subrange(i as int, n as int))),
        decreases n - i,
    {
        let ghost rest = chars@.subrange(i as int, n as int);
        if is_white_space(chars[i]) {
            assert(rest.drop_first() =~= chars@.subrange(i + 1, n as int));
            i += 1;
        } else {
            let mut e = i;
            while e < chars.len() && !is_white_space(chars[e])
                invariant
                    i <= e <= n,
                    n == chars@.len(),
                    rest == chars@.subrange(i as int, n as int),
                    word_end(rest, 0) == word_end(rest, e - i),
                decreases n - e,
            {
                assert(rest[e - i] == chars@[e as int]);
                e += 1;
            }
            if e < chars.len() {
                assert(rest[e - i] == chars@[e as int]);
            }
            assert(word_end(rest, e - i) == e - i);
            assert(e > i);
            let word = sub_chars(chars.as_slice(), i, e);
            assert(word@ =~= rest.subrange(0, e - i));
            assert(rest.subrange(e - i, rest.len() as int) =~= chars@.subrange(e as int, n as int));
            let ghost before = r@;
            r.append(".");
            let w = string_from(word.as_slice());
            r.append(w.as_str());
            proof {
                lemma_class_text_after(before, word@, words(chars@.subrange(e as int, n as int)));
            }
            i = e;
        }
    }
    assert(chars@.subrange(i as int, n as int).len() == 0);
    assert(r@ =~= class_text_after(r@, seq![]));
    r
}

/// `r` followed by each word with a `.` before it.
pub open spec fn class_text_after(r: Seq<char>, ws: Seq<Seq<char>>) -> Seq<char>
    decreases ws.len(),
{
    if ws.len() == 0 {
        r
    } else {
        class_text_after(r + "."@ + ws[0], ws.drop_first())
    }
}

proof fn lemma_class_text_after_concat(r: Seq<char>, ws: Seq<Seq<char>>)
    ensures
        class_text_after(r, ws) == r + class_text(ws),
    decreases ws.len(),
{
    if ws.len() == 0 {
        assert(r + seq![] =~= r);
    } else {
        lemma_class_text_after_concat(r + "."@ + ws[0], ws.drop_first());
        lemma_class_text_front(ws);
        assert(r + "."@ + ws[0] + class_text(ws.drop_first()) =~= r + ("."@ + ws[0] + class_text(ws.drop_first())));
    }
}

proof fn lemma_class_text_front(ws: Seq<Seq<char>>)
    requires
        ws.len() > 0,
    ensures
        class_text(ws) == "."@ + ws[0] + class_text(ws.drop_first()),
    decreases ws.len(),
{
    if ws.len() == 1 {
        let e: Seq<Seq<char>> = seq![];
        assert(ws.drop_first() =~= e);
        assert(ws.drop_last() =~= e);
        assert(class_text(e) == Seq::<char>::empty());
        assert(class_text(ws) == class_text(e) + "."@ + ws.last());
        assert(class_text(ws) =~= "."@ + ws[0] + class_text(e));
    } else {
        lemma_class_text_front(ws.drop_last());
        assert(ws.drop_last().drop_first() =~= ws.drop_first().drop_last());
        assert(ws.drop_first().last() == ws.last());
        assert(ws.drop_last()[0] == ws[0]);
    }
}

proof fn lemma_class_text_after(before: Seq<char>, word: Seq<char>, rest: Seq<Seq<char>>)
    ensures
        class_text_after(before, seq![word] + rest) == class_text_after(before + "."@ + word, rest),
{
    assert((seq![word] + rest).drop_first() =~= rest);
}


/// The shown attributes other than `id` and `class`, each as `[key=value]`.
fn extra_text_exec(attrs: &Vec<(String, String)>) -> (r: String)
    ensures
        r@ == extra_text(attrs.deep_view()),
{
    let ghost a = attrs.deep_view();
    let mut r = String::new();
    let mut k: usize = 0;
    assert(a.take(0) =~= seq![]);
    while k < attrs.len()
        invariant
            a == attrs.deep_view(),
            k <= a.len(),
            r@ == extra_text(a.take(k as int)),
        decreases a.len() - k,
    {
        assert(a.take(k + 1).drop_last() =~= a.take(k as int));
        assert(a.take(k + 1).last() == (attrs@[k as int].0@, attrs@[k as int].1@));
        let ghost before = r@;
        if key_is_extra(&attrs[k].0) {
            r.append("[");
            r.append(attrs[k].0.as_str());
            r.append("=");
            r.append(attrs[k].1.as_str());
            r.append("]");
            assert(r@ =~= before + ("["@ + attrs@[k as int].0@ + "="@ + attrs@[k as int].1@ + "]"@));
        } else {
            assert(r@ =~= before + Seq::<char>::empty());
        }
        k += 1;
    }
    assert(a.take(k as int) =~= a);
    r
}

/// The slim line of an element with attributes `attrs` at indentation `level`.
fn slim_line_exec(attrs: &Vec<(String, String)>, level: usize, config: &Config) -> (r: String)
    ensures
        r@ == slim_line(*config, level as nat, attrs.deep_view()),
{
    let mut r = String::new();
    let mut i: usize = 0;
    while i < level
        invariant
            i <= level,
            r@ == indent_text(*config, i as nat),
        decreases level - i,
    {
        r.append(config.indent_string.as_str());
        i += 1;
    }
    let ghost ind = r@;
    let id = last_value_exec(attrs, "id");
    let ghost id_part: Seq<char> = match last_value(attrs.deep_view(), "id"@) {
        Some(x) => "#"@ + x,
        None => seq![],
    };
    match id {
        Some(x) => {
            r.append("#");
            r.append(x.as_str());
        },
        None => {},
    }
    assert(r@ =~= ind + id_part);
    let class = last_value_exec(attrs, "class");
    let ghost class_part: Seq<char> = match last_value(attrs.deep_view(), "class"@) {
        Some(cl) => class_text(words(cl)),
        None => seq![],
    };
    match class {
        Some(cl) => {
            let t = class_text_exec(cl.as_str());
            r.append(t.as_str());
        },
        None => {},
    }
    assert(r@ =~= ind + id_part + class_part);
    let extra = extra_text_exec(attrs);
    r.append(extra.as_str());
    r
}

/// Prints the minimal skeleton of the selected nodes: one line for each
/// element that carries an identifying attribute.
pub struct SlimDisplayer;

impl SlimDisplayer {
    /// Prints the skeleton below node `n` at indentation `level`.
    fn print_slim_node(&self, doc: &Document, n: usize, level: usize, config: &Config, out: &mut Vec<(Style, String)>)
        requires
            n < doc@.len(),
            level <= n,
        ensures
            final(out).deep_view() == old(out).deep_view() + render_slim(doc@, *config, n as int, level as nat),
        decreases doc@.len() - n, 1int,
    {
        let ghost start = out.deep_view();
        if doc.kind(n) == NodeKind::Element && has_identifier_attrs(doc.attrs(n)) {
            let total = doc.len();
            assert(level < total);
            let line = slim_line_exec(doc.attrs(n), level, config);
            put(out, Style::Plain, concat(line.as_str(), "\n"));
            self.print_slim_children(doc, n, level + 1, config, out);
        } else {
            self.print_slim_children(doc, n, level, config, out);
        }
        assert(out.deep_view() =~= start + render_slim(doc@, *config, n as int, level as nat));
    }

    /// Prints the skeleton below each child of node `n` at indentation `level`.
    fn print_slim_children(&self, doc: &Document, n: usize, level: usize, config: &Config, out: &mut Vec<(Style, String)>)
        requires
            n < doc@.len(),
            level <= n + 1,
        ensures
            final(out).deep_view() == old(out).deep_view() + render_slim_from(doc@, *config, n as int, level as nat, 0),
        decreases doc@.len() - n, 0int,
    {
        proof {
            use_type_invariant(doc);
        }
        let ghost v = doc@;
        let ghost start = out.deep_view();
        let ch = doc.children(n);
        let mut k: usize = 0;
        while k < ch.len()
            invariant
                v == doc@,
                n < v.len(),
                level <= n + 1,
                crate::dom::tree_wf(v),
                ch@ == v[n as int].children,
                k <= ch@.len(),
                start + render_slim_from(v, *config, n as int, level as nat, 0) == out.deep_view() + render_slim_from(v, *config, n as int, level as nat, k as int),
            decreases ch@.len() - k,
        {
            let c = ch[k];
            assert(v[n as int].children[k as int] == c);
            assert(n < c < v.len());
            let ghost before = out.deep_view();
            self.print_slim_node(doc, c, level, config, out);
            assert(before + render_slim_from(v, *config, n as int, level as nat, k as int) == out.deep_view() + render_slim_from(v, *config, n as int, level as nat, k + 1));
            k += 1;
        }
        assert(out.deep_view() =~= start + render_slim_from(v, *config, n as int, level as nat, 0));
    }
}

impl Displayer for SlimDisplayer {
    /// The skeleton below each node, in turn, each starting unindented.
    fn display(&self, doc: &Document, nodes: &[usize], config: &Config) -> (r: Output)
        ensures
            r matches Output::Styled(p) && p.deep_view() == render_slims(doc@, *config, nodes@),
    {
        let mut out: Vec<(Style, String)> = Vec::new();
        let mut k: usize = 0;
        assert(out.deep_view() =~= seq![]);
        assert(nodes@.take(0) =~= seq![]);
        while k < nodes.len()
            invariant
                valid_nodes(doc@, nodes@),
                k <= nodes@.len(),
                out.deep_view() == render_slims(doc@, *config, nodes@.take(k as int)),
            decreases nodes@.len() - k,
        {
            let n = nodes[k];
            assert(nodes@[k as int] < doc@.len());
            self.print_slim_node(doc, n, 0, config, &mut out);
            assert(nodes@.take(k + 1).drop_last() =~= nodes@.take(k as int));
            k += 1;
        }
        assert(nodes@.take(k as int) =~= nodes@);
        Output::Styled(out)
    }
}

// ---------------------------------------------------------------------------
// Choosing the displayer.

/// `s` with each pair of spaces in the indentation of a line (the spaces
/// before its first other character) replaced by `rep`; `at_start` tells
/// whether `s` begins inside such an indentation. Spaces after the first
/// other character of a line are kept.
pub open spec fn reindent_lines(s: Seq<char>, rep: Seq<char>, at_start: bool) -> Seq<char>
    decreases s.len(),
{
    if s.len() == 0 {
        seq![]
    } else if at_start && s.len() >= 2 && s[0] == ' ' && s[1] == ' ' {
        rep + reindent_lines(s.subrange(2, s.len() as int), rep, true)
    } else if s[0] == '\n' {
        seq!['\n'] + reindent_lines(s.drop_first(), rep, true)
    } else {
        seq![s[0]] + reindent_lines(s.drop_first(), rep, false)
    }
}

/// Pretty-printed JSON (indented by two spaces) re-indented with `indent`:
/// unchanged when `indent` is two spaces, else every pair of spaces that
/// indents a line replaced; string values and the rest of each line keep
/// their spaces.
pub fn reindent_json(json: &str, indent: &str) -> (r: String)
    ensures
        r@ == if indent@ == "  "@ { json@ } else { reindent_lines(json@, indent@, true) },
{
    let ind = chars_of(indent);
    if chars_are(ind.as_slice(), "  ") {
        return String::from_str(json);
    }
    let s = chars_of(json);
    let ghost n = s@.len();
    let mut r = String::new();
    let mut i: usize = 0;
    let mut at_start = true;
    assert(s@.subrange(0, n as int) =~= s@);
    while i < s.len()
        invariant
            n == s@.len(),
            i <= n,
            reindent_lines(json@, indent@, true) == r@ + reindent_lines(s@.subrange(i as int, n as int), indent@, at_start),
            s@ == json@,
        decreases n - i,
    {
        let ghost rest = s@.subrange(i as int, n as int);
        let ghost before = r@;
        if at_start && i + 1 < s.len() && s[i] == ' ' && s[i + 1] == ' ' {
            assert(rest.subrange(2, rest.len() as int) =~= s@.subrange(i + 2, n as int));
            r.append(indent);
            assert(r@ + reindent_lines(s@.subrange(i + 2, n as int), indent@, true) =~= before + reindent_lines(rest, indent@, at_start));
            i += 2;
        } else {
            assert(rest.drop_first() =~= s@.subrange(i + 1, n as int));
            let c = s[i];
            let one = char_string(c);
            r.append(one.as_str());
            let next_start = c == '\n';
            assert(r@ + reindent_lines(s@.subrange(i + 1, n as int), indent@, next_start) =~= before + reindent_lines(rest, indent@, at_start));
            at_start = next_start;
            i += 1;
        }
    }
    assert(s@.subrange(i as int, n as int).len() == 0);
    assert(r@ =~= r@ + reindent_lines(s@.subrange(i as int, n as int), indent@, at_start));
    r
}

/// One of the displayers.
pub enum AnyDisplayer {
    Tree(TreeDisplayer),
    Text(TextDisplayer),
    Attr(AttrDisplayer),
    Json(JsonDisplayer),
    Slim(SlimDisplayer),
}

/// The displayer that the commands ask for: the display function of the last
/// command when it is one, else the tree display.
pub fn create_displayer(cmds: &[String], last_is_displayer: bool) -> (d: AnyDisplayer)
    ensures
        if !last_is_displayer || cmds@.len() == 0 {
            d is Tree
        } else {
            match display_of(cmds@.last()@) {
                Ok(DisplaySpec::Json) => d is Json,
                Ok(DisplaySpec::Text(m)) => d matches AnyDisplayer::Text(t) && t.mods.deep_view() == m,
                Ok(DisplaySpec::Attr(a)) => d matches AnyDisplayer::Attr(t) && t.attr@ == a,
                Err(_) => d is Tree,
            }
        },
{
    if !last_is_displayer || cmds.len() == 0 {
        return AnyDisplayer::Tree(TreeDisplayer);
    }
    let last = cmds.len() - 1;
    match parse_displayer(cmds[last].as_str()) {
        Ok(DisplayType::Json) => AnyDisplayer::Json(JsonDisplayer),
        Ok(DisplayType::Text { mods }) => AnyDisplayer::Text(TextDisplayer { mods }),
        Ok(DisplayType::Attr { attr }) => AnyDisplayer::Attr(AttrDisplayer { attr }),
        Err(_) => AnyDisplayer::Tree(TreeDisplayer),
    }
}

impl Displayer for AnyDisplayer {
    /// What the chosen displayer prints.
    fn display(&self, doc: &Document, nodes: &[usize], config: &Config) -> (r: Output)
        ensures
            match self {
                AnyDisplayer::Tree(_) => r matches Output::Styled(p) && p.deep_view() == render_tree(doc@, *config, nodes@),
                AnyDisplayer::Text(t) => r matches Output::Styled(p) && p.deep_view() == render_texts(doc@, *config, t.mods.deep_view(), nodes@),
                AnyDisplayer::Attr(a) => r matches Output::Styled(p) && p.deep_view() == render_attr_values(doc@, *config, a.attr@, nodes@),
                AnyDisplayer::Json(_) => r matches Output::Json(objs) && objs@.len() == nodes@.len() && forall|k: int|
                    0 <= k < nodes@.len() ==> json_fields_view(#[trigger] objs@[k].fields@) == json_object(doc@, *config, nodes@[k] as int),
                AnyDisplayer::Slim(_) => r matches Output::Styled(p) && p.deep_view() == render_slims(doc@, *config, nodes@),
            },
    {
        match self {
            AnyDisplayer::Tree(t) => t.display(doc, nodes, config),
            AnyDisplayer::Text(t) => t.display(doc, nodes, config),
            AnyDisplayer::Attr(t) => t.display(doc, nodes, config),
            AnyDisplayer::Json(t) => t.display(doc, nodes, config),
            AnyDisplayer::Slim(t) => t.display(doc, nodes, config),
        }
    }
}

} // verus!
