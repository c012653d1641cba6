//! Recipes: a rule with the shell commands that make its outputs.

use vstd::prelude::*;
use crate::chars::to_chars;
use crate::scan::views;
use crate::stages::copy_chars;
use crate::vars::VarMap;
use crate::words::{decimal, join, join_words, to_decimal};

verus! {

/// A rule: the outputs it makes, and its inputs in groups (separated by `|` in a header).
#[derive(Debug)]
pub struct Rule {
    pub outputs: Vec<String>,
    pub steps: Vec<Vec<String>>,
}

/// One command line of a recipe, before expansion; `debug` when it was marked with `+`.
#[derive(Debug)]
pub struct ShellCommand {
    pub line: String,
    pub debug: bool,
}

/// A rule and its commands, in order.
#[derive(Debug)]
pub struct Recipe {
    pub rule: Rule,
    pub commands: Vec<ShellCommand>,
}

/// The characters of each string.
pub open spec fn strings(v: Seq<String>) -> Seq<Seq<char>> {
    v.map_values(|s: String| s@)
}

/// The groups flattened: all inputs in order.
pub open spec fn flat(groups: Seq<Seq<Seq<char>>>) -> Seq<Seq<char>>
    decreases groups.len(),
{
    if groups.len() == 0 {
        seq![]
    } else {
        flat(groups.drop_last()) + groups.last()
    }
}

/// `vars` with the names `prefix` followed by 1, 2, ... bound to the words in order.
pub open spec fn bind_numbered(vars: Map<Seq<char>, Seq<char>>, prefix: Seq<char>, ws: Seq<Seq<char>>) -> Map<Seq<char>, Seq<char>>
    decreases ws.len(),
{
    if ws.len() == 0 {
        vars
    } else {
        bind_numbered(vars, prefix, ws.drop_last()).insert(prefix + decimal(ws.len()), ws.last())
    }
}

impl Rule {
    /// The outputs, as characters.
    pub open spec fn outputs_view(&self) -> Seq<Seq<char>> {
        strings(self.outputs@)
    }

    /// The input groups, as characters.
    pub open spec fn steps_view(&self) -> Seq<Seq<Seq<char>>> {
        self.steps@.map_values(|g: Vec<String>| strings(g@))
    }

    /// All inputs, over every group, in order.
    pub open spec fn inputs_view(&self) -> Seq<Seq<char>> {
        flat(self.steps_view())
    }

    /// All inputs, over every group, in order.
    pub fn inputs(&self) -> (r: Vec<Vec<char>>)
        ensures
            views(r@) == self.inputs_view(),
    {
        let mut out: Vec<Vec<char>> = Vec::new();
        let mut g: usize = 0;
        while g < self.steps.len()
            invariant
                g <= self.steps@.len(),
                views(out@) == flat(self.steps_view().take(g as int)),
            decreases self.steps@.len() - g,
        {
            let ghost before = views(out@);
            let group = &self.steps[g];
            let mut k: usize = 0;
            while k < group.len()
                invariant
                    g < self.steps@.len(),
                    group == self.steps@[g as int],
                    k <= group@.len(),
                    views(out@) == before + strings(group@).take(k as int),
                decreases group@.len() - k,
            {
                let ghost mid = views(out@);
                out.push(to_chars(group[k].as_str()));
                assert(views(out@) =~= mid.push(group@[k as int]@));
                assert(views(out@) =~= before + strings(group@).take(k + 1));
                k += 1;
            }
            proof {
                let t = self.steps_view().take(g + 1);
                assert(t.drop_last() =~= self.steps_view().take(g as int));
                assert(t.last() == strings(group@));
                assert(strings(group@).take(k as int) =~= strings(group@));
            }
            g += 1;
        }
        assert(self.steps_view().take(g as int) =~= self.steps_view());
        out
    }

    pub fn output_chars(&self) -> (r: Vec<Vec<char>>)
        ensures
            views(r@) == self.outputs_view(),
    {
        let mut out: Vec<Vec<char>> = Vec::new();
        let mut k: usize = 0;
        while k < self.outputs.len()
            invariant
                k <= self.outputs@.len(),
                views(out@) == self.outputs_view().take(k as int),
            decreases self.outputs@.len() - k,
        {
            let ghost before = views(out@);
            out.push(to_chars(self.outputs[k].as_str()));
            assert(views(out@) =~= before.push(self.outputs@[k as int]@));
            assert(views(out@) =~= self.outputs_view().take(k + 1));
            k += 1;
        }
        assert(self.outputs_view().take(k as int) =~= self.outputs_view());
        out
    }
}

/// The variables a recipe's commands see: the global ones, with `1`, `2`, ... bound to the
/// inputs, `out1`, `out2`, ... to the outputs, `all` to the inputs and `out` to the outputs
/// joined by spaces.
pub open spec fn recipe_vars(rule: &Rule, globals: Map<Seq<char>, Seq<char>>) -> Map<Seq<char>, Seq<char>> {
    let ins = rule.inputs_view();
    let outs = rule.outputs_view();
    bind_numbered(bind_numbered(globals, seq![], ins), "out"@, outs)
        .insert("all"@, join(ins, seq![' ']))
        .insert("out"@, join(outs, seq![' ']))
}

fn bind_words(vars: &mut VarMap, prefix: &[char], ws: &Vec<Vec<char>>)
    requires
        old(vars).wf(),
    ensures
        final(vars).wf(),
        final(vars)@ == bind_numbered(old(vars)@, prefix@, views(ws@)),
{
    let ghost start = vars@;
    let mut k: usize = 0;
    while k < ws.len()
        invariant
            vars.wf(),
            k <= ws@.len(),
            vars@ == bind_numbered(start, prefix@, views(ws@).take(k as int)),
        decreases ws@.len() - k,
    {
        let mut name = copy_chars(prefix);
        let mut digits = to_decimal(k + 1);
        let ghost p = name@;
        let ghost d = digits@;
        name.append(&mut digits);
        assert(name@ =~= prefix@ + decimal((k + 1) as nat));
        vars.bind(name, copy_chars(&ws[k]));
        proof {
            let t = views(ws@).take(k + 1);
            assert(t.drop_last() =~= views(ws@).take(k as int));
            assert(t.len() == k + 1);
        }
        k += 1;
    }
    assert(views(ws@).take(k as int) =~= views(ws@));
}

impl Recipe {
    /// A recipe for `rule`, with no commands yet.
    pub fn from(rule: Rule) -> (r: Recipe)
        ensures
            r.rule == rule,
            r.commands@.len() == 0,
    {
        Recipe { rule, commands: Vec::new() }
    }

    /// Adds a command line at the end.
    pub fn add_command(&mut self, line: String, debug: bool)
        ensures
            final(self).rule == old(self).rule,
            final(self).commands@.len() == old(self).commands@.len() + 1,
            forall|i: int| 0 <= i < old(self).commands@.len() ==> final(self).commands@[i] == old(self).commands@[i],
            final(self).commands@.last().line@ == line@,
            final(self).commands@.last().debug == debug,
    {
        self.commands.push(ShellCommand { line, debug });
    }

    /// The variables this recipe's commands are expanded with.
    pub fn local_vars(&self, globals: &VarMap) -> (r: VarMap)
        requires
            globals.wf(),
        ensures
            r.wf(),
            r@ == recipe_vars(&self.rule, globals@),
    {
        let mut vars = globals.clone();
        let ins = self.rule.inputs();
        let outs = self.rule.output_chars();
        let none: Vec<char> = Vec::new();
        assert(none@ =~= seq![]);
        bind_words(&mut vars, &none, &ins);
        let out_name = to_chars("out");
        bind_words(&mut vars, &out_name, &outs);
        let mut sep: Vec<char> = Vec::new();
        sep.push(' ');
        assert(sep@ =~= seq![' ']);
        vars.bind(to_chars("all"), join_words(&ins, &sep));
        vars.bind(to_chars("out"), join_words(&outs, &sep));
        vars
    }
}

} // verus!
