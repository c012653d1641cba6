use haymaker::comments::uncomment;
use haymaker::graph::build_order;
use haymaker::hayfile::{HayError, Hayfile};
use haymaker::pipeline::Launcher;
use haymaker::recipe::{Recipe, Rule};
use haymaker::text::Text;
use haymaker::gui::Tab;
use haymaker::highlight::add_highlights;

struct NoShell;

impl Launcher for NoShell {
    fn run(&mut self, _command: &str, _input: &str) -> Option<String> {
        None
    }
}

fn read(source: &str) -> Result<Hayfile, HayError> {
    let mut hay = Hayfile::new();
    for line in uncomment(source, "") {
        hay.read_line(&line, &mut NoShell)?;
    }
    Ok(hay)
}

fn rule(outputs: &[&str], steps: &[&[&str]]) -> Rule {
    Rule {
        outputs: outputs.iter().map(|s| s.to_string()).collect(),
        steps: steps.iter().map(|g| g.iter().map(|s| s.to_string()).collect()).collect(),
    }
}

#[test]
fn comments_are_stripped() {
    let lines = uncomment("a # b\nc // d\ne /* f\ng */ h", "-");
    assert_eq!(lines, vec!["a ", "c ", "e ----", "---- h"]);
    let nested = uncomment("x /* y /* z */ w */ v", "");
    assert_eq!(nested, vec!["x  v"]);
    let stray = uncomment("a */ b", "-");
    assert_eq!(stray, vec!["a */ b"]);
    assert_eq!(uncomment("", ""), vec![""]);
    assert_eq!(uncomment("a\n", ""), vec!["a", ""]);
}

#[test]
fn line_comment_inside_block_keeps_block_open() {
    let lines = uncomment("/* a # */ b\nc */ d", "-");
    assert_eq!(lines, vec!["-----------", "---- d"]);
}

#[test]
fn rules_and_commands() {
    let hay = read("out = bin\nbin main.o: main.c util.c | libm\n\tcc -o @out @all\n\t+echo done\n").unwrap();
    assert_eq!(hay.recipes.len(), 1);
    let recipe = &hay.recipes[0];
    assert_eq!(recipe.rule.outputs, vec!["bin", "main.o"]);
    assert_eq!(recipe.rule.steps, vec![vec!["main.c", "util.c"], vec!["libm"]]);
    assert_eq!(recipe.commands.len(), 2);
    assert_eq!(recipe.commands[0].line, "cc -o @out @all");
    assert!(!recipe.commands[0].debug);
    assert_eq!(recipe.commands[1].line, "echo done");
    assert!(recipe.commands[1].debug);
    assert_eq!(hay.vars.get("out"), Some(String::from("bin")));
}

#[test]
fn chained_assignment() {
    let hay = read("A B = C = value  \n").unwrap();
    assert_eq!(hay.vars.get("A"), Some(String::from("value")));
    assert_eq!(hay.vars.get("B"), Some(String::from("value")));
    assert_eq!(hay.vars.get("C"), Some(String::from("value")));
}

#[test]
fn header_expands_variables() {
    let hay = read("name = prog\n@name: @name.c\n").unwrap();
    assert_eq!(hay.recipes[0].rule.outputs, vec!["prog"]);
    assert_eq!(hay.recipes[0].rule.steps, vec![vec!["prog.c"]]);
}

#[test]
fn errors_while_reading() {
    assert!(matches!(read("\techo stray"), Err(HayError::StrayShell { column: 1 })));
    assert!(matches!(read("  +echo stray"), Err(HayError::StrayShell { column: 3 })));
    assert!(matches!(read("not a rule"), Err(HayError::ParseError)));
    assert!(matches!(read("a | b: c"), Err(HayError::ParseError)));
    assert!(matches!(read("a: b | | c"), Err(HayError::ParseError)));
    assert!(matches!(read("= value"), Err(HayError::AssignmentMalformed)));
    assert!(matches!(read("x = @x\n@x: y"), Err(HayError::ExpansionRunaway)));
}

#[test]
fn empty_steps_are_legal() {
    let hay = read("all:\n").unwrap();
    assert_eq!(hay.recipes[0].rule.outputs, vec!["all"]);
    assert!(hay.recipes[0].rule.steps.is_empty());
}

#[test]
fn include_lists_files() {
    let mut hay = Hayfile::new();
    let import = hay.read_line("include a.hay 'b c.hay'", &mut NoShell).unwrap().unwrap();
    assert_eq!(import.files, vec!["a.hay", "'b c.hay'"]);
    assert!(hay.recipes.is_empty());
}

#[test]
fn cycle_is_detected() {
    let hay = read("a: b\n\techo a\nb: a\n\techo b\n").unwrap();
    let stuck = build_order(&hay.recipes).unwrap_err();
    assert_eq!(stuck, vec![0, 1]);
}

#[test]
fn order_follows_dependencies() {
    let recipes = vec![
        Recipe::from(rule(&["app"], &[&["lib.o", "main.o"]])),
        Recipe::from(rule(&["main.o"], &[&["main.c", "lib.h"]])),
        Recipe::from(rule(&["lib.o", "lib.h"], &[&["lib.c"]])),
    ];
    assert_eq!(build_order(&recipes).unwrap(), vec![2, 1, 0]);
}

#[test]
fn waiting_on_a_cycle_is_stuck_too() {
    let recipes = vec![
        Recipe::from(rule(&["a"], &[&["b"]])),
        Recipe::from(rule(&["b"], &[&["c"]])),
        Recipe::from(rule(&["c"], &[&["b"]])),
        Recipe::from(rule(&["d"], &[])),
    ];
    assert_eq!(build_order(&recipes).unwrap_err(), vec![0, 1, 2]);
}

#[test]
fn own_output_is_no_dependency() {
    let recipes = vec![Recipe::from(rule(&["a"], &[&["a"]]))];
    assert_eq!(build_order(&recipes).unwrap(), vec![0]);
}

#[test]
fn local_variables() {
    let hay = read("cc = gcc\nbin lib: x.c y.c | z.o\n").unwrap();
    let vars = hay.recipes[0].local_vars(&hay.vars);
    assert_eq!(vars.get("cc"), Some(String::from("gcc")));
    assert_eq!(vars.get("1"), Some(String::from("x.c")));
    assert_eq!(vars.get("3"), Some(String::from("z.o")));
    assert_eq!(vars.get("out2"), Some(String::from("lib")));
    assert_eq!(vars.get("all"), Some(String::from("x.c y.c z.o")));
    assert_eq!(vars.get("out"), Some(String::from("bin lib")));
    assert_eq!(vars.get("4"), None);
}

#[test]
fn balanced_split() {
    let parts = "a | 'b | c' |  | d".split_when_balanced('|', '\'');
    assert_eq!(parts, vec!["a ", " 'b | c' ", "  ", " d"]);
    let offsets = "x y  z".split_when_balanced_with_offsets(' ', '\'');
    assert_eq!(offsets, vec![(0, String::from("x")), (2, String::from("y")), (5, String::from("z"))]);
    assert_eq!("".or_quotes(), "''");
    assert_eq!("ab".or_quotes(), "ab");
}

#[test]
fn tab_width() {
    let tab = Tab::new("héllo");
    assert_eq!(tab.width, 7);
    assert_eq!(tab.title, "héllo");
    assert!(tab.printer.is_empty());
}

#[test]
fn add_command_appends() {
    let mut recipe = Recipe::from(rule(&["x"], &[]));
    recipe.add_command(String::from("one"), false);
    recipe.add_command(String::from("two"), true);
    assert_eq!(recipe.commands.len(), 2);
    assert_eq!(recipe.commands[1].line, "two");
    assert!(recipe.commands[1].debug);
}

#[test]
fn non_ascii_white_space_and_names() {
    let mut hay = Hayfile::new();
    hay.read_line("név = érték", &mut NoShell).unwrap();
    assert_eq!(hay.vars.get("név"), Some(String::from("érték")));
    let parts = uncomment("a\u{00A0}b", "");
    assert_eq!(parts, vec!["a\u{00A0}b"]);
}

#[test]
fn highlights() {
    let grey = "\x1b[0;0m\x1b[90m";
    let blue = "\x1b[34;1m";
    let pink = "\x1b[38;5;161;1m";
    let clear = "\x1b[0;0m";
    assert_eq!(add_highlights("a @b c"), format!("{grey}{grey}a {pink}@b{grey} c{clear}"));
    assert_eq!(
        add_highlights("@(x | y) '@z'"),
        format!("{grey}{grey}{blue}@({pink}x{grey} {blue}|{grey} y{blue}){grey} '@z'{clear}")
    );
}
