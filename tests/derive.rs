use haymaker::expand::{self, Runaway};
use haymaker::pipeline::{subcall, Launcher};
use haymaker::vars::VarMap;

/// Stands in for `sh -c` with the few commands these tests run: `echo -n`, and `wc -c`
/// alone or after `cat |`. Anything else fails as an unknown command would.
struct Sh;

impl Launcher for Sh {
    fn run(&mut self, command: &str, input: &str) -> Option<String> {
        if let Some(text) = command.strip_prefix("echo -n ") {
            return Some(text.to_string());
        }
        if command == "wc -c" || command == "cat | wc -c" {
            return Some(format!("{}\n", input.len()));
        }
        None
    }
}

fn derive(text: &str, vars: &mut VarMap, launcher: &mut Sh) -> Result<String, Runaway> {
    expand::derive(text, vars, launcher)
}

fn run(case: &str, vars: &mut VarMap) -> String {
    subcall(case, vars, &mut Sh).unwrap_or_default()
}

#[test]
fn test_subcalls() {
    let cases = [
        ("a bb ccc", "a bb ccc"),
        ("a bb ccc | invalid | add x", ""),
        ("a bb ccc | noop |", "a bb ccc"),
        ("", ""),
        ("|", ""),
        ("a bb ccc | concat", "abbccc"),
        ("a bb ccc | include bb", "bb"),
        ("a bb ccc | exclude bb", "a ccc"),
        ("a bb ccc | append x y", "ax ay bbx bby cccx cccy"),
        ("a bb ccc | prepend xxy ''", "xxya a xxybb bb xxyccc ccc"),
        ("a bb ccc | prepend xxy \"\"", r#"xxya ""a xxybb ""bb xxyccc ""ccc"#),
        ("a bb ccc | concat | debug_dash | add xx yyy z | noop", "------ xx yyy z"),
        ("a bb ccc \" \" | noop a b \"< >\"", "a bb ccc \" \""),
        ("a bb ccc \" \" | debug_dash", "- -- --- ---"),
        ("a bb ccc ' ' | debug_dash", "- -- --- -"),
        ("wow,this,is,cool | split ,", "wow this is cool"),
        ("wow,this,is,cool | split , o", "w w this is c l"),
        ("wow,this,is,cool | split is t s", "wow, h , ,cool"),
        ("a definition | def key1 key2", "a definition"),
        ("please remove my es | append ~ | split e | concat | split ~", "plas rmov my s"),
        ("a b c d | pop | pop", "a b"),
        ("a b c d | pop | drop", "b c"),
        ("a b c d | pop 2 | drop", "b"),
        ("a b c d | drop 2 | pop", "c"),
        ("one two three four 5 6 seven | count", "7"),
        ("one two three four 5 6 seven | between 3 5", "three four 5"),
        ("one two three four 5 6 seven | between 6", "6 seven"),
        ("one two three four 5 6 seven | index 4 1 5", "four one 5"),
        ("one two three four 5 6 seven | index 8 -2 3 -1 -8 -7 0", "6 three seven one one"),
        ("one two three four 5 6 seven | first", "one"),
        ("one two three four 5 6 seven | last", "seven"),
        ("one two three four 5 6 seven | index 8 lol | add xx", ""),
        (" | first | add xx", ""),
        (" | last  | add xx", ""),
        ("0 3 9 10 33 | sort", "0 10 3 33 9"),
        ("0 3 9 10 33 | has yy 10", "0 3 9 10 33"),
        ("this | stop  | add xx", "this"),
        ("this | error | add xx", ""),
        (" | shell echo -n hello", "hello"),
        (" | shell fail -n hello", ""),
        ("humanity <3 | shell wc -c", "11"),
        ("a a bb bb a c | shell cat '|' wc -c", "13"),
    ];

    let mut vars = VarMap::new();

    for (case, correct) in cases {
        let text = run(case, &mut vars);
        assert_eq!(&text, &correct);
    }

    assert_eq!(vars.get("key1"), Some(String::from("a definition")));
    assert_eq!(vars.get("key2"), Some(String::from("a definition")));
}

#[test]
fn test_derivation() {
    let mut vars = VarMap::new();
    vars.insert("out", "bin");
    vars.insert("1", "aa");
    vars.insert("2", "bb");

    let cases = [
        ("echo hi", "echo hi"),
        ("@1 @out @1 '@out' @( '@' | noop)2", "aa bin aa '@out' bb"),
        ("@1 '@2' @('@' | noop)", "aa '@2' @"),
        ("@(out) @out @(@(out)) @(@(out | noop)) out", "bin bin   out"),
        ("@( out) @( out | noop) @(1)", "out out aa"),
    ];

    for (case, correct) in cases {
        let line = derive(case, &mut vars, &mut Sh).unwrap();
        assert_eq!(&line, &correct);
    }
}

#[test]
fn text_without_at_is_unchanged() {
    let mut vars = VarMap::new();
    vars.insert("x", "y");
    let line = "gcc -o main (main.c) | tee 'log'";
    assert_eq!(derive(line, &mut vars, &mut Sh).unwrap(), line);
    assert_eq!(vars.get("x"), Some(String::from("y")));
}

#[test]
fn quoted_span_is_unchanged() {
    let mut vars = VarMap::new();
    vars.insert("x", "y");
    let line = "'@x @(x | noop) @'";
    assert_eq!(derive(line, &mut vars, &mut Sh).unwrap(), line);
}

#[test]
fn missing_variable_is_empty() {
    let mut vars = VarMap::new();
    assert_eq!(derive("@nothing", &mut vars, &mut Sh).unwrap(), "");
    assert_eq!(derive("a @nothing b", &mut vars, &mut Sh).unwrap(), "a  b");
}

#[test]
fn self_reference_runs_away() {
    let mut vars = VarMap::new();
    vars.insert("a", "@a");
    assert_eq!(derive("@a", &mut vars, &mut Sh), Err(Runaway));
    vars.insert("b", "@c");
    vars.insert("c", "x @b");
    assert_eq!(derive("@b", &mut vars, &mut Sh), Err(Runaway));
}

#[test]
fn unbound_chain_terminates() {
    let mut vars = VarMap::new();
    vars.insert("a", "@b");
    vars.insert("b", "@c");
    vars.insert("c", "done");
    assert_eq!(derive("@a!", &mut vars, &mut Sh).unwrap(), "done!");
}

#[test]
fn sort_twice_is_sort_once() {
    let mut vars = VarMap::new();
    let once = run("pear apple fig apple | sort", &mut vars);
    let twice = run("pear apple fig apple | sort | sort", &mut vars);
    assert_eq!(once, "apple apple fig pear");
    assert_eq!(twice, once);
}

#[test]
fn count_matches_noop_words() {
    let mut vars = VarMap::new();
    let count = run("a  b\tc 'd e' | count", &mut vars);
    let noop = run("a  b\tc 'd e' | noop", &mut vars);
    assert_eq!(count, "4");
    assert_eq!(noop, "a b c d e");
    assert_eq!(run("x y z | count", &mut vars), "3");
    assert_eq!(run(" | count", &mut vars), "0");
}

#[test]
fn quote_then_unquote_restores_words() {
    let mut vars = VarMap::new();
    assert_eq!(run("a bb ccc | quote", &mut vars), "'a' 'bb' 'ccc'");
    assert_eq!(run("a bb ccc | quote | unquote", &mut vars), "a bb ccc");
    assert_eq!(run("\"a\" b\" | unquote", &mut vars), "a b\"");
}

#[test]
fn def_keeps_state_and_binds() {
    let mut vars = VarMap::new();
    let with_def = run("x  y | def k | noop", &mut vars);
    assert_eq!(with_def, run("x  y | noop", &mut vars));
    assert_eq!(vars.get("k"), Some(String::from("x  y")));
    assert_eq!(derive("@k", &mut vars, &mut Sh).unwrap(), "x  y");
}

#[test]
fn number_arguments() {
    let mut vars = VarMap::new();
    assert_eq!(run("a b c | drop +1", &mut vars), "b c");
    assert_eq!(run("a b c | drop -1", &mut vars), "");
    assert_eq!(run("a b c | drop 18446744073709551616", &mut vars), "");
    assert_eq!(run("a b c | drop 18446744073709551615", &mut vars), "");
    assert_eq!(run("a b c | pop 5", &mut vars), "");
    assert_eq!(run("a b c | between 0 2", &mut vars), "a b");
    assert_eq!(run("a b c | between 3 2", &mut vars), "");
}

#[test]
fn reserved_commands_keep_state() {
    let mut vars = VarMap::new();
    assert_eq!(run("a  b | filter x | sift | replace", &mut vars), "a  b");
    assert_eq!(run("a b | suppress_errors", &mut vars), "");
    assert_eq!(run("a b | has c", &mut vars), "");
}

#[test]
fn split_on_empty_separator() {
    let mut vars = VarMap::new();
    assert_eq!(run("ab c | split ''", &mut vars), "a b c");
}
