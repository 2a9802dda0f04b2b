use vstd::prelude::*;

use crate::display::{display_of, parse_displayer};
use crate::dom::{Document, NodeView};
use crate::selector::{build_selector_func, parse_selector, step_all, valid_nodes, with_standard_only, SelectorFunc, SelectorFuncType, SelectorSpec};
use crate::text::{chars_are, chars_of};

verus! {

/// A selector step as plain values: `None` for a `,`.
pub type StepSpec = Option<(SelectorSpec, SelectorFuncType)>;

/// The steps as plain values.
pub open spec fn steps_view(steps: Seq<Option<SelectorFunc>>) -> Seq<StepSpec> {
    steps.map_values(|o: Option<SelectorFunc>| match o {
        Some(f) => Some(f@),
        None => None,
    })
}

/// Whether the last command names a display function.
pub open spec fn ends_with_displayer(cmds: Seq<Seq<char>>) -> bool {
    cmds.len() > 0 && display_of(cmds.last()) is Ok
}

/// The steps that the commands from the `i`-th on give, the next selector
/// relating to what comes before it by `t`: `*` is skipped, `>` and `+` set
/// how the next selector relates, `,` ends a group, a last command that names
/// a display function is left out, and every other command is a selector,
/// kept to elements of the HTML standard when `strict` holds (the first one
/// that does not parse is the error).
pub open spec fn compile_from(cmds: Seq<Seq<char>>, i: int, t: SelectorFuncType, strict: bool) -> Result<Seq<StepSpec>, Seq<char>>
    decreases cmds.len() - i,
{
    if i < 0 || i >= cmds.len() {
        Ok(seq![])
    } else if i == cmds.len() - 1 && display_of(cmds[i]) is Ok {
        Ok(seq![])
    } else if cmds[i] == "*"@ {
        compile_from(cmds, i + 1, t, strict)
    } else if cmds[i] == ">"@ {
        compile_from(cmds, i + 1, SelectorFuncType::Child, strict)
    } else if cmds[i] == "+"@ {
        compile_from(cmds, i + 1, SelectorFuncType::NextSibling, strict)
    } else if cmds[i] == ","@ {
        match compile_from(cmds, i + 1, t, strict) {
            Ok(r) => Ok(seq![None] + r),
            Err(e) => Err(e),
        }
    } else {
        match parse_selector(cmds[i]) {
            Err(m) => Err(m),
            Ok(s) => match compile_from(cmds, i + 1, SelectorFuncType::Descendant, strict) {
                Ok(r) => Ok(seq![Some((with_standard_only(s, strict), t))] + r),
                Err(e) => Err(e),
            },
        }
    }
}

/// `acc` put before the steps of `r`.
pub open spec fn after(acc: Seq<StepSpec>, r: Result<Seq<StepSpec>, Seq<char>>) -> Result<Seq<StepSpec>, Seq<char>> {
    match r {
        Ok(x) => Ok(acc + x),
        Err(e) => Err(e),
    }
}

/// The commands compiled: the selector steps in order, `None` for each `,`,
/// and whether the last command names a display function.
pub struct Compiled {
    pub steps: Vec<Option<SelectorFunc>>,
    pub last_is_displayer: bool,
}

/// Compiles the commands into selector steps, or gives the error of the
/// first selector that does not parse.
#[verifier::rlimit(40)]
pub fn compile_commands(cmds: &[String], strict: bool) -> (r: Result<Compiled, String>)
    ensures
        match compile_from(cmds.deep_view(), 0, SelectorFuncType::Descendant, strict) {
            Ok(steps) => r matches Ok(c) && steps_view(c.steps@) == steps && c.last_is_displayer == ends_with_displayer(cmds.deep_view()),
            Err(m) => r matches Err(e) && e@ == m,
        },
{
    let ghost v = cmds.deep_view();
    let mut steps: Vec<Option<SelectorFunc>> = Vec::new();
    let mut t = SelectorFuncType::Descendant;
    let mut last_is_displayer = false;
    let mut i: usize = 0;
    assert(steps_view(steps@) =~= seq![]);
    assert(after(seq![], compile_from(v, 0, SelectorFuncType::Descendant, strict)) == compile_from(v, 0, SelectorFuncType::Descendant, strict));
    while i < cmds.len()
        invariant
            v == cmds.deep_view(),
            i <= v.len(),
            compile_from(v, 0, SelectorFuncType::Descendant, strict) == after(steps_view(steps@), compile_from(v, i as int, t, strict)),
            last_is_displayer == (i == v.len() && ends_with_displayer(v)),
        decreases v.len() - i,
    {
        assert(v[i as int] == cmds@[i as int]@);
        let ghost acc = steps_view(steps@);
        if i == cmds.len() - 1 && parse_displayer(cmds[i].as_str()).is_ok() {
            last_is_displayer = true;
            assert(compile_from(v, i as int, t, strict) == compile_from(v, i + 1, t, strict));
            i += 1;
            assert(v.last() == v[i - 1]);
            continue;
        }
        let cmd = chars_of(cmds[i].as_str());
        if chars_are(cmd.as_slice(), "*") {
        } else if chars_are(cmd.as_slice(), ">") {
            t = SelectorFuncType::Child;
        } else if chars_are(cmd.as_slice(), "+") {
            t = SelectorFuncType::NextSibling;
        } else if chars_are(cmd.as_slice(), ",") {
            steps.push(None);
            assert(steps_view(steps@) =~= acc + seq![None]);
            proof {
                match compile_from(v, i + 1, t, strict) {
                    Ok(r) => assert(acc + seq![None] + r =~= acc + (seq![None] + r)),
                    Err(_) => {},
                }
            }
        } else {
            match build_selector_func(cmds[i].as_str(), t, strict) {
                Ok(f) => {
                    let ghost fv = f@;
                    steps.push(Some(f));
                    assert(steps_view(steps@) =~= acc + seq![Some(fv)]);
                    proof {
                        match compile_from(v, i + 1, SelectorFuncType::Descendant, strict) {
                            Ok(r) => assert(acc + seq![Some(fv)] + r =~= acc + (seq![Some(fv)] + r)),
                            Err(_) => {},
                        }
                    }
                    t = SelectorFuncType::Descendant;
                },
                Err(e) => {
                    return Err(e);
                },
            }
        }
        proof {
            if i + 1 == v.len() {
                assert(!ends_with_displayer(v));
            }
        }
        i += 1;
    }
    Ok(Compiled { steps, last_is_displayer })
}

/// The nodes selected so far and the nodes of the current group after the
/// steps `steps`, starting from the root: a step maps the current group's
/// nodes; a `,` adds them to the selection and starts again from the root.
pub open spec fn run_state(v: Seq<NodeView>, steps: Seq<StepSpec>) -> (Seq<usize>, Seq<usize>)
    decreases steps.len(),
{
    if steps.len() == 0 {
        (seq![], seq![0usize])
    } else {
        let (sel, cur) = run_state(v, steps.drop_last());
        match steps.last() {
            None => (sel + cur, seq![0usize]),
            Some((s, t)) => (sel, step_all(s, t, v, cur)),
        }
    }
}

/// The nodes that the steps select: every group's result, in turn.
pub open spec fn selected(v: Seq<NodeView>, steps: Seq<StepSpec>) -> Seq<usize> {
    run_state(v, steps).0 + run_state(v, steps).1
}

/// Runs the steps on the document from its root.
pub fn select_nodes(doc: &Document, steps: &Vec<Option<SelectorFunc>>) -> (r: Vec<usize>)
    ensures
        r@ == selected(doc@, steps_view(steps@)),
        valid_nodes(doc@, r@),
{
    let ghost v = doc@;
    let ghost sv = steps_view(steps@);
    let mut sel: Vec<usize> = Vec::new();
    let mut cur: Vec<usize> = vec![0];
    let mut k: usize = 0;
    proof {
        use_type_invariant(doc);
        assert(sv.take(0) =~= seq![]);
        assert(sel@ =~= seq![]);
        assert(cur@ =~= seq![0usize]);
    }
    while k < steps.len()
        invariant
            v == doc@,
            sv == steps_view(steps@),
            k <= sv.len(),
            run_state(v, sv.take(k as int)) == (sel@, cur@),
            valid_nodes(v, sel@),
            valid_nodes(v, cur@),
        decreases sv.len() - k,
    {
        proof {
            use_type_invariant(doc);
            assert(sv.take(k + 1).drop_last() =~= sv.take(k as int));
            assert(sv.take(k + 1).last() == sv[k as int]);
        }
        match &steps[k] {
            None => {
                let ghost before = sel@;
                let mut j: usize = 0;
                while j < cur.len()
                    invariant
                        j <= cur@.len(),
                        sel@ == before + cur@.take(j as int),
                    decreases cur@.len() - j,
                {
                    sel.push(cur[j]);
                    assert(cur@.take(j + 1) =~= cur@.take(j as int).push(cur@[j as int]));
                    j += 1;
                }
                assert(cur@.take(j as int) =~= cur@);
                proof {
                    crate::selector::lemma_concat_valid(v, before, cur@);
                }
                cur = vec![0];
                assert(cur@ =~= seq![0usize]);
            },
            Some(f) => {
                cur = f.apply(doc, &cur);
            },
        }
        k += 1;
    }
    assert(sv.take(k as int) =~= sv);
    let mut j: usize = 0;
    let ghost before = sel@;
    while j < cur.len()
        invariant
            j <= cur@.len(),
            sel@ == before + cur@.take(j as int),
        decreases cur@.len() - j,
    {
        sel.push(cur[j]);
        assert(cur@.take(j + 1) =~= cur@.take(j as int).push(cur@[j as int]));
        j += 1;
    }
    assert(cur@.take(j as int) =~= cur@);
    proof {
        crate::selector::lemma_concat_valid(v, before, cur@);
    }
    sel
}

} // verus!
