use vstd::prelude::*;

use crate::text::{chars_of, string_from, string_of_range};

verus! {

/// Where the quoted section whose content starts at `i` ends: the index of the
/// closing quote `q`, skipping every character that follows a backslash.
/// `None` when the input ends first.
pub open spec fn closing_quote(s: Seq<char>, q: char, i: int) -> Option<int>
    decreases s.len() - i,
{
    if i < 0 || i >= s.len() {
        None
    } else if s[i] == '\\' {
        if i + 1 >= s.len() {
            None
        } else {
            closing_quote(s, q, i + 2)
        }
    } else if s[i] == q {
        Some(i)
    } else {
        closing_quote(s, q, i + 1)
    }
}

/// The token `s[last..next]`, as a one-element list, or nothing when it is empty.
pub open spec fn pending_token(s: Seq<char>, last: int, next: int) -> Seq<Seq<char>> {
    if next > last {
        seq![s.subrange(last, next)]
    } else {
        seq![]
    }
}

/// `pre` put in front of the tokens of `r`; an error stays as it is.
pub open spec fn prepend_tokens(pre: Seq<Seq<char>>, r: Result<Seq<Seq<char>>, char>) -> Result<
    Seq<Seq<char>>,
    char,
> {
    match r {
        Ok(t) => Ok(pre + t),
        Err(q) => Err(q),
    }
}

/// The command language: tokens are separated by spaces; a comma ends the
/// current token and is a token of its own; a single or double quote opens a
/// section, running to the next unescaped quote of the same kind, in which
/// spaces and commas belong to the token. The current token started at `last`
/// and the scan stands at `next`. `Err(q)` when a section opened by `q` is
/// never closed.
pub open spec fn tokenize(s: Seq<char>, last: int, next: int) -> Result<Seq<Seq<char>>, char>
    decreases s.len() - next,
{
    if next < 0 || last < 0 || last > next {
        Ok(seq![])
    } else if next >= s.len() {
        Ok(pending_token(s, last, s.len() as int))
    } else if s[next] == ' ' {
        prepend_tokens(pending_token(s, last, next), tokenize(s, next + 1, next + 1))
    } else if s[next] == ',' {
        prepend_tokens(
            pending_token(s, last, next) + seq![seq![',']],
            tokenize(s, next + 1, next + 1),
        )
    } else if s[next] == '\'' || s[next] == '"' {
        match closing_quote(s, s[next], next + 1) {
            None => Err(s[next]),
            Some(j) => if next < j < s.len() {
                tokenize(s, last, j + 1)
            } else {
                Ok(seq![])
            },
        }
    } else {
        tokenize(s, last, next + 1)
    }
}

/// The message given for a quote `q` that is never closed.
pub open spec fn unmatched_quote_message(q: char) -> Seq<char> {
    seq!['U', 'n', 'm', 'a', 't', 'c', 'h', 'e', 'd', ' ', 'o', 'p', 'e', 'n', ' ', 'q', 'u', 'o', 't', 'e', ' ', '(', q, ')']
}

pub(crate) proof fn lemma_closing_quote_bounds(s: Seq<char>, q: char, i: int)
    ensures
        closing_quote(s, q, i) matches Some(j) ==> i <= j < s.len() && s[j] == q,
    decreases s.len() - i,
{
    if i < 0 || i >= s.len() {
    } else if s[i] == '\\' {
        if i + 1 < s.len() {
            lemma_closing_quote_bounds(s, q, i + 2);
        }
    } else if s[i] == q {
    } else {
        lemma_closing_quote_bounds(s, q, i + 1);
    }
}

proof fn lemma_prepend_tokens_assoc(a: Seq<Seq<char>>, b: Seq<Seq<char>>, r: Result<Seq<Seq<char>>, char>)
    ensures
        prepend_tokens(a, prepend_tokens(b, r)) == prepend_tokens(a + b, r),
{
    match r {
        Ok(t) => {
            assert(a + (b + t) == (a + b) + t);
        },
        Err(_) => {},
    }
}

/// Finds the end of the quoted section whose content starts at `start`.
fn find_closing_quote(chars: &Vec<char>, q: char, start: usize) -> (r: Option<usize>)
    requires
        start <= chars@.len(),
    ensures
        r matches Some(j) ==> closing_quote(chars@, q, start as int) == Some(j as int),
        r is None ==> closing_quote(chars@, q, start as int) is None,
{
    let max = chars.len();
    let mut i = start;
    while i < max
        invariant
            start <= i <= max == chars@.len(),
            closing_quote(chars@, q, start as int) == closing_quote(chars@, q, i as int),
        decreases max - i,
    {
        if chars[i] == '\\' {
            if i + 1 >= max {
                return None;
            }
            i = i + 2;
        } else if chars[i] == q {
            return Some(i);
        } else {
            i = i + 1;
        }
    }
    None
}

/// Splits a command line into selector and display tokens, aware of quotes and commas.
pub fn parse_commands(input: &str) -> (r: Result<Vec<String>, String>)
    ensures
        match tokenize(input@, 0, 0) {
            Ok(t) => r matches Ok(cmds) && cmds.deep_view() == t,
            Err(q) => r matches Err(msg) && msg@ == unmatched_quote_message(q),
        },
{
    let chars = chars_of(input);
    let ghost s = chars@;
    let max = chars.len();
    let mut cmds: Vec<String> = Vec::new();
    let mut last: usize = 0;
    let mut next: usize = 0;
    while next < max
        invariant
            s == chars@,
            s == input@,
            max == s.len(),
            last <= next <= max,
            tokenize(s, 0, 0) == prepend_tokens(cmds.deep_view(), tokenize(s, last as int, next as int)),
        decreases max - next,
    {
        let c = chars[next];
        let ghost before = cmds.deep_view();
        if c == ' ' {
            if next > last {
                cmds.push(string_of_range(&chars, last, next));
            }
            proof {
                assert(cmds.deep_view() == before + pending_token(s, last as int, next as int));
                lemma_prepend_tokens_assoc(before, pending_token(s, last as int, next as int), tokenize(s, next + 1, next + 1));
            }
            last = next + 1;
            next = next + 1;
        } else if c == ',' {
            if next > last {
                cmds.push(string_of_range(&chars, last, next));
            }
            let comma_chars = [','];
            let comma = string_from(&comma_chars);
            proof {
                assert(comma_chars@ == seq![',']);
            }
            cmds.push(comma);
            proof {
                assert(cmds.deep_view() == before + (pending_token(s, last as int, next as int) + seq![seq![',']]));
                lemma_prepend_tokens_assoc(
                    before,
                    pending_token(s, last as int, next as int) + seq![seq![',']],
                    tokenize(s, next + 1, next + 1),
                );
            }
            last = next + 1;
            next = next + 1;
        } else if c == '\'' || c == '"' {
            match find_closing_quote(&chars, c, next + 1) {
                None => {
                    let msg = string_from(&['U', 'n', 'm', 'a', 't', 'c', 'h', 'e', 'd', ' ', 'o', 'p', 'e', 'n', ' ', 'q', 'u', 'o', 't', 'e', ' ', '(', c, ')']);
                    return Err(msg);
                },
                Some(j) => {
                    proof { lemma_closing_quote_bounds(s, c, next + 1); }
                    next = j + 1;
                },
            }
        } else {
            next = next + 1;
        }
    }
    if next > last {
        cmds.push(string_of_range(&chars, last, next));
    }
    Ok(cmds)
}

} // verus!
