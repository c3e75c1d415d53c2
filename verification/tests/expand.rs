//! Expansion: parameters, arithmetic, substitution, fields, patterns.

use rsh::arith::eval_arithmetic;
use rsh::expand::{
    command_substs, expand_args, expand_braced_param, expand_command_subst, expand_pattern,
    expand_tilde, expand_vars, has_unmarked_glob_char, is_assignment_word, is_valid_name,
    mark_all_special, split_fields, strip_marks, to_glob_pattern, WordInputs,
};
use rsh::tokenizer::MARK;
use rsh::vars::{lookup_var, Vars};

fn texts(v: &[&str]) -> Vec<String> {
    v.iter().map(|s| s.to_string()).collect()
}

fn outputs(v: &[&str]) -> WordInputs {
    WordInputs {
        outputs: texts(v),
        paths: vec![],
    }
}

fn paths(v: &[&str]) -> WordInputs {
    WordInputs {
        outputs: vec![],
        paths: texts(v),
    }
}

#[test]
fn test_expand_var() {
    let mut vars = Vars::new();
    vars.insert("FOO".to_string(), "bar".to_string());
    assert_eq!(expand_vars("hola $FOO!", &mut vars, &[], 0), "hola bar!");
}

#[test]
fn test_expand_status() {
    let mut vars = Vars::new();
    assert_eq!(
        expand_vars("exit code: $?", &mut vars, &[], 42),
        "exit code: 42"
    );
}

#[test]
fn test_expand_status_inside_double_quotes() {
    // Inside double quotes the tokenizer marks the `?` as literal, so
    // the expansion sees `$` + MARK + `?`. It must still become the status.
    let mut vars = Vars::new();
    // Build `"status=$"` + MARK + `?` by hand (as the tokenizer would emit).
    let mut raw = String::from("status=$");
    raw.push(MARK);
    raw.push('?');
    assert_eq!(expand_vars(&raw, &mut vars, &[], 7), "status=7");
}

#[test]
fn test_default_value() {
    let mut vars = Vars::new();
    assert_eq!(expand_vars("${FOO:-bar}", &mut vars, &[], 0), "bar");
}

#[test]
fn test_assign_default() {
    let mut vars = Vars::new();
    expand_vars("${FOO:=bar}", &mut vars, &[], 0);
    assert_eq!(vars.get("FOO"), Some(&"bar".to_string()));
}

#[test]
fn test_length() {
    let mut vars = Vars::new();
    vars.insert("FOO".to_string(), "hola".to_string());
    assert_eq!(expand_vars("${#FOO}", &mut vars, &[], 0), "4");
}

#[test]
fn test_single_quote_protects_dollar() {
    let marked = format!("{}$FOO", MARK); // marked $ = literal
    let mut vars = Vars::new();
    vars.insert("FOO".to_string(), "bar".to_string());
    let result = strip_marks(&expand_vars(&marked, &mut vars, &[], 0));
    assert_eq!(result, "$FOO");
}

#[test]
fn test_arithmetic_basic() {
    let vars = Vars::new();
    assert_eq!(eval_arithmetic("(1+2)", &vars, &[]), 3);
    assert_eq!(eval_arithmetic("(10-4)", &vars, &[]), 6);
    assert_eq!(eval_arithmetic("(6*7)", &vars, &[]), 42);
    assert_eq!(eval_arithmetic("(10/3)", &vars, &[]), 3);
    assert_eq!(eval_arithmetic("(10%3)", &vars, &[]), 1);
}

#[test]
fn test_arithmetic_precedence_and_parens() {
    let vars = Vars::new();
    assert_eq!(eval_arithmetic("((2+3)*4)", &vars, &[]), 20);
    assert_eq!(eval_arithmetic("(((1+1)*(2+2)))", &vars, &[]), 8);
    assert_eq!(eval_arithmetic("(-5+2)", &vars, &[]), -3);
}

#[test]
fn test_arithmetic_variables() {
    let mut vars = Vars::new();
    vars.insert("n".to_string(), "2".to_string());
    assert_eq!(eval_arithmetic("(n*5)", &vars, &[]), 10);
}

#[test]
fn test_arithmetic_expansion_inside_vars() {
    // `$((1+2))` expands to the integer result via expand_vars.
    let mut vars = Vars::new();
    assert_eq!(expand_vars("r=$((1+2))", &mut vars, &[], 0), "r=3");
}

#[test]
fn test_positional_params() {
    let mut vars = Vars::new();
    let pos = ["a".to_string(), "b".to_string(), "c".to_string()];
    assert_eq!(expand_vars("$1 $2 $3", &mut vars, &pos, 0), "a b c");
    assert_eq!(expand_vars("$#", &mut vars, &pos, 0), "3");
    assert_eq!(expand_vars("$@", &mut vars, &pos, 0), "a b c");
    assert_eq!(expand_vars("$0", &mut vars, &pos, 0), "rsh");
    assert_eq!(expand_vars("${2}", &mut vars, &pos, 0), "b");
}

#[test]
fn test_arithmetic_positional() {
    let positionals = ["3".to_string(), "4".to_string()];
    let mut vars = Vars::new();
    // Inside $(( ... )), `$1`/`$2` resolve from positional parameters.
    assert_eq!(
        expand_vars("$(( $1 + $2 ))", &mut vars, &positionals, 0),
        "7"
    );
}

#[test]
fn test_field_splitting_unmarked() {
    assert_eq!(split_fields("a b c"), vec!["a", "b", "c"]);
    assert_eq!(split_fields("  a  b  "), vec!["a", "b"]); // trimmed
}

#[test]
fn test_field_splitting_protected() {
    // A MARK-ed space comes from quotes and must stay inside the field.
    let protected = format!("a{} b", MARK);
    assert_eq!(split_fields(&protected), vec!["a b"]);
}

#[test]
fn test_field_splitting_dollar_at() {
    // Unquoted `$@` expands to one field per positional parameter.
    let mut vars = Vars::new();
    let pos = ["a".to_string(), "b".to_string(), "c".to_string()];
    let fields = expand_args(&["$@".to_string()], &mut vars, &pos, 0, &[]);
    assert_eq!(fields, vec!["a", "b", "c"]);
}

#[test]
fn test_command_subst_quoted_paren_inner() {
    // A `)` inside double quotes is part of the substitution, not its end.
    let word = "$(echo \"hi) there\")";
    let captured = command_substs(word);
    let out = expand_command_subst(word, &["OK".to_string()]);
    assert_eq!(captured, vec!["echo \"hi) there\""]);
    assert_eq!(out, "OK");
}

#[test]
fn test_assignment_value_not_field_split() {
    // An assignment's RHS is not field-split, even with whitespace.
    let mut vars = Vars::new();
    let inputs = [outputs(&["a b c"])];
    let out = expand_args(&["v=$(x)".to_string()], &mut vars, &[], 0, &inputs);
    assert_eq!(out, vec!["v=a b c"]);
}

#[test]
fn test_command_arg_is_field_split() {
    // A normal argument IS field-split after an unquoted expansion.
    let mut vars = Vars::new();
    let inputs = [outputs(&["b c"])];
    let out = expand_args(&["a $(x)".to_string()], &mut vars, &[], 0, &inputs);
    assert_eq!(out, vec!["a", "b", "c"]);
}

#[test]
fn test_assignment_glob_not_expanded() {
    // Pathname expansion is not performed on an assignment's value.
    let mut vars = Vars::new();
    let inputs = [paths(&["an_err_file"])];
    let out = expand_args(&["g=*err*".to_string()], &mut vars, &[], 0, &inputs);
    assert_eq!(out, vec!["g=*err*"]);
}

#[test]
fn test_is_assignment_word() {
    assert!(is_assignment_word("VAR=1"));
    assert!(is_assignment_word("_x=hello"));
    assert!(is_assignment_word("A="));
    assert!(!is_assignment_word("not assignment"));
    assert!(!is_assignment_word("1BAD=x"));
    assert!(!is_assignment_word("noequals"));
    assert!(!is_assignment_word("=value"));
}

#[test]
fn variables_come_from_the_shell_then_the_environment() {
    let mut vars = Vars::new();
    vars.env.insert("A".to_string(), "env".to_string());
    assert_eq!(lookup_var("A", &vars), "env");
    vars.insert("A".to_string(), "shell".to_string());
    assert_eq!(lookup_var("A", &vars), "shell");
    vars.unset("A");
    assert_eq!(lookup_var("A", &vars), "");
    assert_eq!(vars.env.get("A"), None);
}

#[test]
fn export_reaches_the_environment_and_assignment_does_not() {
    let mut vars = Vars::new();
    vars.insert("A".to_string(), "1".to_string());
    assert_eq!(vars.env.get("A"), None);
    vars.export("A".to_string(), "2".to_string());
    assert_eq!(vars.env.get("A"), Some(&"2".to_string()));
    assert_eq!(vars.get("A"), Some(&"2".to_string()));
    vars.export("B=C".to_string(), "3".to_string());
    assert_eq!(vars.env.get("B=C"), None);
}

#[test]
fn assigned_defaults_are_exported() {
    let mut vars = Vars::new();
    assert_eq!(expand_vars("${FOO:=bar}$FOO", &mut vars, &[], 0), "barbar");
    assert_eq!(vars.env.get("FOO"), Some(&"bar".to_string()));
    assert_eq!(expand_vars("${FOO:=other}", &mut vars, &[], 0), "bar");
    assert_eq!(expand_vars("${QUX:-x}$QUX.", &mut vars, &[], 0), "x.");
}

#[test]
fn alternatives_and_diagnostics() {
    let mut vars = Vars::new();
    vars.insert("A".to_string(), "v".to_string());
    assert_eq!(expand_vars("${A:+alt}|${B:+alt}", &mut vars, &[], 0), "alt|");
    assert_eq!(
        expand_vars("${A:?no}|${B:?is missing}|", &mut vars, &[], 0),
        "v||"
    );
    assert_eq!(expand_vars("${C:?}", &mut vars, &[], 0), "");
    assert_eq!(
        vars.notices,
        vec!["rsh: B: is missing", "rsh: C: parameter null or not set"]
    );
}

#[test]
fn the_operator_nearest_to_the_name_decides() {
    let mut vars = Vars::new();
    assert_eq!(expand_braced_param("X:=a:-b", &mut vars, &[]), "a:-b");
    assert_eq!(vars.get("X"), Some(&"a:-b".to_string()));
    assert_eq!(expand_braced_param("Y:-a:=b:?c", &mut vars, &[]), "a:=b:?c");
    assert_eq!(vars.get("Y"), None);
    assert_eq!(expand_braced_param("X:+:-:", &mut vars, &[]), ":-:");
}

#[test]
fn an_assigned_default_has_no_marks() {
    let mut vars = Vars::new();
    let raw = format!("${{X:=a{} b}}", MARK);
    assert_eq!(
        expand_vars(&raw, &mut vars, &[], 0),
        format!("a{} b", MARK)
    );
    assert_eq!(vars.get("X"), Some(&"a b".to_string()));
}

#[test]
fn quoted_parameters_are_protected() {
    let mut vars = Vars::new();
    vars.insert("V".to_string(), format!("a *{}", MARK));
    let raw = format!("$V|${m}V|${m}{{V}}|${m}{{W:-x y}}|${m}@|${m}#", m = MARK);
    assert_eq!(
        expand_vars(&raw, &mut vars, &texts(&["p q", "r"]), 0),
        format!(
            "a *{m}|a{m} {m}*{m}{m}|a{m} {m}*{m}{m}|x{m} y|p{m} q{m} r|2",
            m = MARK
        )
    );
}

#[test]
fn quoted_commands_are_protected() {
    let raw = format!("${m}(echo 'a b')$(c)", m = MARK);
    assert_eq!(command_substs(&raw), texts(&["echo 'a b'", "c"]));
    assert_eq!(
        expand_command_subst(&raw, &texts(&["x *", "y *"])),
        format!("x{m} {m}*y {m}*", m = MARK)
    );
}

#[test]
fn lengths_and_counts() {
    let mut vars = Vars::new();
    vars.insert("W".to_string(), "áéí".to_string());
    let pos = texts(&["a", "b"]);
    assert_eq!(
        expand_vars("${#W} ${#} $# ${@} ${0}", &mut vars, &pos, 0),
        "3 2 2 a b rsh"
    );
    assert_eq!(expand_vars("[$9][${7}]", &mut vars, &pos, 0), "[][]");
}

#[test]
fn what_is_no_expansion_stays() {
    let mut vars = Vars::new();
    assert_eq!(
        expand_vars("a$ $- ${x $((1", &mut vars, &[], 0),
        "a$ $- ${x $((1"
    );
}

#[test]
fn statuses_may_be_negative() {
    let mut vars = Vars::new();
    assert_eq!(expand_vars("$?", &mut vars, &[], -7), "-7");
    assert_eq!(expand_vars("$?", &mut vars, &[], i32::MIN), "-2147483648");
}

#[test]
fn arithmetic_rounds_towards_zero() {
    let vars = Vars::new();
    assert_eq!(eval_arithmetic("-7/2", &vars, &[]), -3);
    assert_eq!(eval_arithmetic("-7%2", &vars, &[]), -1);
    assert_eq!(eval_arithmetic("7/-2", &vars, &[]), -3);
    assert_eq!(eval_arithmetic("7%-2", &vars, &[]), 1);
}

#[test]
fn arithmetic_problems_count_as_zero() {
    let vars = Vars::new();
    assert_eq!(eval_arithmetic("", &vars, &[]), 0);
    assert_eq!(eval_arithmetic("1/0", &vars, &[]), 0);
    assert_eq!(eval_arithmetic("5%0+2", &vars, &[]), 0);
    assert_eq!(eval_arithmetic("(1+)", &vars, &[]), 0);
    assert_eq!(eval_arithmetic("(1+5/0)", &vars, &[]), 0);
    assert_eq!(eval_arithmetic("1+9223372036854775807*2", &vars, &[]), 0);
    assert_eq!(eval_arithmetic("1+9223372036854775808", &vars, &[]), 0);
    assert_eq!(eval_arithmetic("9223372036854775807+1", &vars, &[]), 0);
    assert_eq!(eval_arithmetic("9223372036854775808", &vars, &[]), 0);
    assert_eq!(
        eval_arithmetic("0-9223372036854775807-1", &vars, &[]),
        i64::MIN
    );
    assert_eq!(
        eval_arithmetic("(0-9223372036854775807-1)/-1", &vars, &[]),
        0
    );
    assert_eq!(eval_arithmetic("1 2", &vars, &[]), 0);
    assert_eq!(eval_arithmetic("(1+2", &vars, &[]), 0);
    assert_eq!(eval_arithmetic("1+2)", &vars, &[]), 0);
    assert_eq!(eval_arithmetic("1+$", &vars, &[]), 0);
    assert_eq!(eval_arithmetic("1+${x", &vars, &[]), 0);
    assert_eq!(eval_arithmetic("1+x", &vars, &[]), 1);
    assert_eq!(eval_arithmetic(" 1 + 2 ", &vars, &[]), 3);
}

#[test]
fn arithmetic_names_and_references() {
    let mut vars = Vars::new();
    vars.insert("n".to_string(), " 12 ".to_string());
    vars.insert("t".to_string(), "text".to_string());
    let pos = texts(&["5"]);
    assert_eq!(eval_arithmetic("$n + ${n} + n + $1 + t", &vars, &pos), 41);
    assert_eq!(eval_arithmetic("- - 3 * + 2", &vars, &pos), 6);
}

#[test]
fn arithmetic_within_double_quotes() {
    // `*` arrives marked there.
    let mut vars = Vars::new();
    let raw = format!("$((2{}*{} 3))", MARK, MARK);
    assert_eq!(expand_vars(&raw, &mut vars, &[], 0), "6");
}

#[test]
fn a_product_binds_more_tightly_than_a_sum() {
    let mut vars = Vars::new();
    assert_eq!(expand_vars("$(( 1 + 2 * 3 ))", &mut vars, &[], 0), "7");
    assert_eq!(expand_vars("$((10-4-3))", &mut vars, &[], 0), "3");
    assert_eq!(expand_vars("$((-(2+3)*2))", &mut vars, &[], 0), "-10");
}

#[test]
fn the_tilde_is_the_home_directory() {
    let mut vars = Vars::new();
    assert_eq!(expand_tilde("~/a", &vars.env), "~/a");
    vars.env.insert("HOME".to_string(), "/home/u".to_string());
    assert_eq!(expand_tilde("~", &vars.env), "/home/u");
    assert_eq!(expand_tilde("~/a", &vars.env), "/home/u/a");
    assert_eq!(expand_tilde("~x", &vars.env), "~x");
    assert_eq!(expand_tilde("a~", &vars.env), "a~");
}

#[test]
fn patterns_and_marks() {
    assert!(has_unmarked_glob_char("a*"));
    assert!(!has_unmarked_glob_char(&format!("a{}*", MARK)));
    assert_eq!(
        to_glob_pattern(&format!("{m}*{m}?{m}[{m}~*", m = MARK)),
        "[*][?][[]~*"
    );
    assert_eq!(strip_marks(&format!("{m}*a{m}$", m = MARK)), "*a$");
}

#[test]
fn output_is_protected() {
    let marked = mark_all_special("a $x * ~");
    assert_eq!(strip_marks(&marked), "a $x * ~");
    assert!(!has_unmarked_glob_char(&marked));
    let mut vars = Vars::new();
    vars.insert("x".to_string(), "no".to_string());
    assert_eq!(expand_vars(&marked, &mut vars, &[], 0), marked);
}

#[test]
fn no_field_is_empty() {
    let m = MARK;
    assert_eq!(split_fields(&format!("{}", m)), Vec::<String>::new());
    assert_eq!(split_fields(&format!(" a  b{} {}", m, m)), texts(&["a", "b "]));
    assert_eq!(split_fields(&format!("a{}\rb", m)), texts(&["a\rb"]));
}

#[test]
fn a_pattern_without_matches_stays() {
    let mut vars = Vars::new();
    let args = texts(&["ls", "*.zz"]);
    assert_eq!(
        expand_args(&args, &mut vars, &[], 0, &[]),
        texts(&["ls", "*.zz"])
    );
    let inputs = [outputs(&[]), paths(&["a.zz", "b c.zz"])];
    assert_eq!(
        expand_args(&args, &mut vars, &[], 0, &inputs),
        texts(&["ls", "a.zz", "b c.zz"])
    );
}

#[test]
fn substitutions_run_from_left_to_right() {
    let word = "a$(x $(y))b$(z)$((1+1))";
    assert_eq!(command_substs(word), texts(&["x $(y)", "z"]));
    assert_eq!(
        expand_command_subst(word, &texts(&["X", "Z"])),
        "aXbZ$((1+1))"
    );
}

#[test]
fn case_patterns_keep_quoted_characters_literal() {
    let mut vars = Vars::new();
    vars.insert("p".to_string(), "x*".to_string());
    assert_eq!(
        expand_pattern("*.txt", &[], &mut vars, &[], 0, false),
        (texts(&["*.txt"]), true)
    );
    assert_eq!(
        expand_pattern(&format!("{}*", MARK), &[], &mut vars, &[], 0, false),
        (texts(&["[*]"]), true)
    );
    assert_eq!(
        expand_pattern("$p", &[], &mut vars, &[], 0, false),
        (texts(&["x*"]), true)
    );
    assert_eq!(
        expand_pattern("a=b", &[], &mut vars, &[], 0, false),
        (texts(&["a=b"]), false)
    );
}

#[test]
fn names() {
    assert!(is_valid_name("a1_"));
    assert!(is_valid_name("_Z9"));
    assert!(!is_valid_name("ñ"));
    assert!(!is_valid_name("añ"));
    assert!(!is_valid_name(""));
    assert!(!is_valid_name("1a"));
    assert!(!is_valid_name("a-b"));
}

#[test]
fn odd_whitespace_splits_and_letters_do_not() {
    assert_eq!(split_fields("a\u{3000}b\u{a0}ñ"), vec!["a", "b", "ñ"]);
}
