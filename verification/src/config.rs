use vstd::prelude::*;

verus! {

/// How the selected nodes are printed.
pub struct Config {
    /// Print with colors.
    pub color: bool,
    /// Escape `&`, `<` and `>` in printed text.
    pub escape_html: bool,
    /// Print without indentation or line breaks.
    pub raw: bool,
    /// Ignore non-standard HTML tags.
    pub strict: bool,
    /// Print `<pre>` elements as they are.
    pub pre: bool,
    /// The deepest level printed; -1 for no limit.
    pub max_print_level: i32,
    /// What one level of indentation is.
    pub indent_string: String,
    /// The input's character set.
    pub charset: Option<String>,
}

impl Default for Config {
    fn default() -> (c: Self)
        ensures
            !c.color,
            c.escape_html,
            !c.raw,
            !c.strict,
            !c.pre,
            c.max_print_level == -1,
            c.indent_string@ == " "@,
            c.charset is None,
    {
        Config {
            color: false,
            escape_html: true,
            raw: false,
            strict: false,
            pre: false,
            max_print_level: -1,
            indent_string: String::from_str(" "),
            charset: None,
        }
    }
}

} // verus!
