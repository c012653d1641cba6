//! Pipelines: `state | command args | command args ...`.

use vstd::prelude::*;
use crate::chars::{from_chars, to_chars};
use crate::scan::{balanced_parts, find_from, run_end, split_balanced, slice_chars, tokenize, tokens, views};
use crate::stages::{command_result, copy_chars, is_word, run_command, spaced};
use crate::vars::VarMap;
use crate::words::{first_non_white, join_words, trim, trim_chars};
use crate::chars::is_whitespace;

verus! {

/// Runs shell commands for the `shell` stage: the command gets `input` on its standard
/// input, and the result is what it wrote to standard output, or `None` when it failed.
pub trait Launcher {
    fn run(&mut self, command: &str, input: &str) -> Option<String>;
}

/// The characters of an optional string.
pub open spec fn text_of(r: Option<String>) -> Option<Seq<char>> {
    match r {
        Some(s) => Some(s@),
        None => None,
    }
}

/// The characters of an optional character vector.
pub open spec fn chars_of(r: Option<Vec<char>>) -> Option<Seq<char>> {
    match r {
        Some(s) => Some(s@),
        None => None,
    }
}

/// The command of a stage and its argument tokens: the first run of non-white characters,
/// then the tokens of the rest of that line.
pub open spec fn stage_parts(p: Seq<char>) -> Option<(Seq<char>, Seq<Seq<char>>)> {
    let a = first_non_white(p, 0);
    if a < 0 || a >= p.len() {
        None
    } else {
        let e = run_end(p, a);
        let k = first_non_white(p, e);
        let stop = find_from(p, k, '\n');
        Some((p.subrange(a, e), tokens(p.subrange(k, stop))))
    }
}

/// `vars` with each of `names` bound to `value`.
pub open spec fn define_all(vars: Map<Seq<char>, Seq<char>>, names: Seq<Seq<char>>, value: Seq<char>) -> Map<Seq<char>, Seq<char>>
    decreases names.len(),
{
    if names.len() == 0 {
        vars
    } else {
        define_all(vars, names.drop_last(), value).insert(names.last(), value)
    }
}

/// The command line and the standard input that a `shell` stage hands to the launcher.
pub open spec fn shell_call(args: Seq<Seq<char>>, state: Seq<char>) -> (Seq<char>, Seq<char>) {
    (spaced(args), spaced(tokens(state)))
}

/// The result of the stages from `i` on, applied to `state`, and the variables after
/// them; `outs[i]` is what the launcher gave for stage `i` when that stage is `shell`.
pub open spec fn run_stages(
    parts: Seq<Seq<char>>,
    i: int,
    state: Seq<char>,
    vars: Map<Seq<char>, Seq<char>>,
    outs: Seq<Option<Seq<char>>>,
) -> (Option<Seq<char>>, Map<Seq<char>, Seq<char>>)
    decreases parts.len() - i,
{
    if i < 0 || i >= parts.len() {
        (Some(trim(state)), vars)
    } else {
        match stage_parts(parts[i]) {
            None => (None, vars),
            Some((c, args)) => {
                if c == "shell"@ {
                    if i < outs.len() && outs[i] is Some {
                        run_stages(parts, i + 1, outs[i]->0, vars, outs)
                    } else {
                        (None, vars)
                    }
                } else if c == "def"@ {
                    run_stages(parts, i + 1, state, define_all(vars, args, state), outs)
                } else if c == "stop"@ {
                    (Some(trim(state)), vars)
                } else {
                    match command_result(c, args, state) {
                        Some(next) => run_stages(parts, i + 1, next, vars, outs),
                        None => (None, vars),
                    }
                }
            },
        }
    }
}

/// The segments of a pipeline: its non-empty parts between unquoted `|`.
pub open spec fn segments(text: Seq<char>) -> Seq<Seq<char>> {
    balanced_parts(text, '|', '\'').map_values(|p: (int, Seq<char>)| p.1)
}

/// The result of the pipeline `text` and the variables after it, given what the launcher
/// gave for each `shell` stage. `None` stands for a failed pipeline.
pub open spec fn pipeline(text: Seq<char>, vars: Map<Seq<char>, Seq<char>>, outs: Seq<Option<Seq<char>>>) -> (Option<Seq<char>>, Map<Seq<char>, Seq<char>>) {
    let parts = segments(text);
    if parts.len() == 0 {
        (Some(seq![]), vars)
    } else {
        run_stages(parts, 1, trim(parts[0]), vars, outs)
    }
}

/// The command and the argument tokens of a stage.
pub fn parse_stage(p: &[char]) -> (r: Option<(Vec<char>, Vec<Vec<char>>)>)
    ensures
        r.is_some() == stage_parts(p@).is_some(),
        r.is_some() ==> r.unwrap().0@ == stage_parts(p@).unwrap().0 && views(r.unwrap().1@)
            == stage_parts(p@).unwrap().1,
{
    let a = skip_white(p, 0);
    if a >= p.len() {
        return None;
    }
    let mut e = a;
    while e < p.len() && !is_whitespace(p[e])
        invariant
            a <= e <= p@.len(),
            run_end(p@, a as int) == run_end(p@, e as int),
        decreases p@.len() - e,
    {
        e += 1;
    }
    let k = skip_white(p, e);
    let mut stop = k;
    while stop < p.len() && p[stop] != '\n'
        invariant
            k <= stop <= p@.len(),
            find_from(p@, k as int, '\n') == find_from(p@, stop as int, '\n'),
        decreases p@.len() - stop,
    {
        stop += 1;
    }
    let rest = slice_chars(p, k, stop);
    Some((slice_chars(p, a, e), tokenize(&rest)))
}

fn skip_white(p: &[char], i: usize) -> (r: usize)
    requires
        i <= p@.len(),
    ensures
        r as int == first_non_white(p@, i as int),
        i <= r <= p@.len(),
{
    let mut j = i;
    while j < p.len() && is_whitespace(p[j])
        invariant
            i <= j <= p@.len(),
            first_non_white(p@, i as int) == first_non_white(p@, j as int),
        decreases p@.len() - j,
    {
        j += 1;
    }
    j
}

/// The command line and standard input of a `shell` stage with arguments `args` on `state`.
pub fn shell_request(args: &Vec<Vec<char>>, state: &[char]) -> (r: (Vec<char>, Vec<char>))
    ensures
        r.0@ == shell_call(views(args@), state@).0,
        r.1@ == shell_call(views(args@), state@).1,
{
    let mut sep: Vec<char> = Vec::new();
    sep.push(' ');
    assert(sep@ =~= seq![' ']);
    let ins = tokenize(state);
    (join_words(args, &sep), join_words(&ins, &sep))
}

fn define_names(vars: &mut VarMap, names: &Vec<Vec<char>>, value: &[char])
    requires
        old(vars).wf(),
    ensures
        final(vars).wf(),
        final(vars)@ == define_all(old(vars)@, views(names@), value@),
{
    let ghost start = vars@;
    let mut j: usize = 0;
    while j < names.len()
        invariant
            vars.wf(),
            j <= names@.len(),
            vars@ == define_all(start, views(names@).take(j as int), value@),
        decreases names@.len() - j,
    {
        vars.bind(copy_chars(&names[j]), copy_chars(value));
        assert(views(names@).take(j + 1).drop_last() =~= views(names@).take(j as int));
        j += 1;
    }
    assert(views(names@).take(j as int) =~= views(names@));
}

/// Evaluates the pipeline `text`: splits it on unquoted `|`, takes the first segment as the
/// state and runs each further segment as a command on it. `def` binds names in `vars`;
/// `shell` goes through `launcher`. `None` when the pipeline fails.
pub fn subcall<L: Launcher>(text: &str, vars: &mut VarMap, launcher: &mut L) -> (r: Option<String>)
    requires
        old(vars).wf(),
    ensures
        final(vars).wf(),
        exists|outs: Seq<Option<Seq<char>>>| #[trigger] pipeline(text@, old(vars)@, outs)
            == (text_of(r), final(vars)@),
{
    let t = to_chars(text);
    let r = eval_pipeline(&t, vars, launcher);
    match r {
        Some(v) => Some(from_chars(&v)),
        None => None,
    }
}

/// `subcall` on characters.
pub fn eval_pipeline<L: Launcher>(text: &[char], vars: &mut VarMap, launcher: &mut L) -> (r: Option<Vec<char>>)
    requires
        old(vars).wf(),
    ensures
        final(vars).wf(),
        exists|outs: Seq<Option<Seq<char>>>| #[trigger] pipeline(text@, old(vars)@, outs)
            == (chars_of(r), final(vars)@),
{
    let ghost v0 = vars@;
    let split = split_balanced(text, '|', '\'');
    let ghost parts = segments(text@);
    assert(parts.len() == split@.len());
    if split.len() == 0 {
        assert(pipeline(text@, v0, seq![]) == (Some(Seq::<char>::empty()), v0));
        return Some(Vec::new());
    }
    let mut state = trim_chars(&split[0].1);
    let ghost s0 = state@;
    let ghost mut acc: Seq<Option<Seq<char>>> = seq![None];
    let mut i: usize = 1;
    assert(forall|k: int| 0 <= k < split@.len() ==> split@[k].1@ == #[trigger] parts[k]);
    while i < split.len()
        invariant
            1 <= i <= split@.len(),
            parts == segments(text@),
            parts.len() == split@.len(),
            forall|k: int| 0 <= k < split@.len() ==> split@[k].1@ == #[trigger] parts[k],
            acc.len() == i,
            vars.wf(),
            parts.len() > 0,
            s0 == trim(parts[0]),
            v0 == old(vars)@,
            forall|o: Seq<Option<Seq<char>>>| o.len() >= i && o.take(i as int) == acc ==> #[trigger] run_stages(parts, 1, s0, v0, o)
                == run_stages(parts, i as int, state@, vars@, o),
        decreases split@.len() - i,
    {
        let ghost vi = vars@;
        let ghost si = state@;
        let ghost ii = i as int;
        let stage = parse_stage(&split[i].1);
        match stage {
            None => {
                let ghost o = acc.push(None);
                assert(o.take(ii) =~= acc);
                assert(run_stages(parts, 1, s0, v0, o) == (None::<Seq<char>>, vi));
                assert(pipeline(text@, v0, o) == run_stages(parts, 1, s0, v0, o));
                return None;
            },
            Some((c, args)) => {
                if is_word(&c, "shell") {
                    let (cmd, input) = shell_request(&args, &state);
                    let out = launcher.run(from_chars(&cmd).as_str(), from_chars(&input).as_str());
                    match out {
                        Some(o_text) => {
                            let next = to_chars(o_text.as_str());
                            proof {
                                let acc2 = acc.push(Some(next@));
                                assert forall|o: Seq<Option<Seq<char>>>| o.len() >= ii + 1 && o.take(ii + 1) == acc2 implies #[trigger] run_stages(parts, 1, s0, v0, o)
                                    == run_stages(parts, ii + 1, next@, vi, o) by {
                                    assert(o.take(ii) =~= acc);
                                    assert(o.take(ii + 1)[ii] == o[ii]);
                                }
                                acc = acc2;
                            }
                            state = next;
                        },
                        None => {
                            let ghost o = acc.push(None);
                            assert(o.take(ii) =~= acc);
                            assert(run_stages(parts, 1, s0, v0, o) == (None::<Seq<char>>, vi));
                            assert(pipeline(text@, v0, o) == run_stages(parts, 1, s0, v0, o));
                            return None;
                        },
                    }
                } else if is_word(&c, "def") {
                    define_names(vars, &args, &state);
                    proof {
                        let acc2 = acc.push(None);
                        assert forall|o: Seq<Option<Seq<char>>>| o.len() >= ii + 1 && o.take(ii + 1) == acc2 implies #[trigger] run_stages(parts, 1, s0, v0, o)
                            == run_stages(parts, ii + 1, si, vars@, o) by {
                            assert(o.take(ii) =~= acc);
                        }
                        acc = acc2;
                    }
                } else if is_word(&c, "stop") {
                    let ghost o = acc.push(None);
                    assert(o.take(ii) =~= acc);
                    let r = trim_chars(&state);
                    assert(run_stages(parts, 1, s0, v0, o) == (Some(r@), vi));
                    assert(pipeline(text@, v0, o) == run_stages(parts, 1, s0, v0, o));
                    return Some(r);
                } else {
                    match run_command(&c, &args, &state) {
                        Some(next) => {
                            proof {
                                let acc2 = acc.push(None);
                                assert forall|o: Seq<Option<Seq<char>>>| o.len() >= ii + 1 && o.take(ii + 1) == acc2 implies #[trigger] run_stages(parts, 1, s0, v0, o)
                                    == run_stages(parts, ii + 1, next@, vi, o) by {
                                    assert(o.take(ii) =~= acc);
                                }
                                acc = acc2;
                            }
                            state = next;
                        },
                        None => {
                            let ghost o = acc.push(None);
                            assert(o.take(ii) =~= acc);
                            assert(run_stages(parts, 1, s0, v0, o) == (None::<Seq<char>>, vi));
                            assert(pipeline(text@, v0, o) == run_stages(parts, 1, s0, v0, o));
                            return None;
                        },
                    }
                }
            },
        }
        i += 1;
    }
    assert(acc.take(i as int) =~= acc);
    let r = trim_chars(&state);
    assert(run_stages(parts, 1, s0, v0, acc) == (Some(r@), vars@));
    assert(pipeline(text@, v0, acc) == run_stages(parts, 1, s0, v0, acc));
    Some(r)
}

} // verus!
