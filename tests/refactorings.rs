use whiteref::instruction::{from_str, is_whitespace, Instruction};
use whiteref::method::{convert_methods_to_instructions, get_methods_from_instructions, Method};
use whiteref::program::{
    construct_instruction_set, construct_program, parse_program_text, perform_refactorings,
    refactor_text, render_program_text,
};
use whiteref::refactor::{get_replacement_method, refactor_double_method, refactor_unused_label};

fn program(lines: &[&str]) -> Vec<Instruction> {
    lines.iter().map(|l| from_str(l)).collect()
}

fn text(instructions: &[Instruction]) -> Vec<String> {
    instructions.iter().map(|i| i.render()).collect()
}

#[test]
fn from_str_reads_command_and_parameter() {
    let i = from_str("    call  _foo");
    assert_eq!(i.command, "call");
    assert_eq!(i.parameter, Some("_foo".to_string()));
}

#[test]
fn from_str_without_parameter() {
    let i = from_str("  add  ");
    assert_eq!(i.command, "add");
    assert_eq!(i.parameter, None);
}

#[test]
fn from_str_splits_on_tabs_and_drops_extra_words() {
    let i = from_str("\tpush\t5 extra words");
    assert_eq!(i.command, "push");
    assert_eq!(i.parameter, Some("5".to_string()));
}

#[test]
fn from_str_blank_line_has_empty_command() {
    let i = from_str("   ");
    assert_eq!(i.command, "");
    assert_eq!(i.parameter, None);
}

#[test]
fn construct_program_string_adds_newline() {
    assert_eq!(from_str("push 1").construct_program_string(), "push 1\n");
    assert_eq!(from_str("add").construct_program_string(), "add\n");
}

#[test]
fn get_parameter_and_set_parameter() {
    let mut i = from_str("jmp _a");
    assert_eq!(i.get_command(), "jmp");
    assert_eq!(i.get_parameter(), Some("_a".to_string()));
    i.set_parameter(Some("_b".to_string()));
    assert_eq!(i.render(), "jmp _b");
}

#[test]
fn segmenter_splits_blocks() {
    let p = program(&["push 1", "_foo:", "push 2", "ret"]);
    let ms = get_methods_from_instructions(&p);
    assert_eq!(ms.len(), 2);
    assert_eq!(ms[0].label, ("main".to_string(), 0));
    assert_eq!(text(&ms[0].instructions), vec!["push 1"]);
    assert_eq!(ms[1].label, ("foo".to_string(), 1));
    assert_eq!(text(&ms[1].instructions), vec!["push 2", "ret"]);
    assert_eq!(ms[1].get_label(), "_foo");
}

#[test]
fn segmenter_on_empty_input_yields_empty_entry_block() {
    let ms = get_methods_from_instructions(&Vec::new());
    assert_eq!(ms.len(), 1);
    assert_eq!(ms[0].label, ("main".to_string(), 0));
    assert!(ms[0].instructions.is_empty());
}

#[test]
fn flatten_restores_declarations() {
    let p = program(&["push 1", "_foo:", "push 2"]);
    let ms = get_methods_from_instructions(&p);
    let back = convert_methods_to_instructions(ms);
    assert_eq!(text(&back), vec!["push 1", "_foo:", "push 2"]);
}

#[test]
fn eliminate_drops_uncalled_block() {
    let p = program(&["call _foo", "_foo:", "push 1", "_bar:", "push 1"]);
    let r = refactor_unused_label(p);
    assert_eq!(text(&r), vec!["call _foo", "_foo:", "push 1"]);
}

#[test]
fn merge_retargets_duplicate_block() {
    let p = program(&["call _a", "call _b", "exit", "_a:", "push 5", "add", "_b:", "push 5", "add"]);
    let r = refactor_double_method(p);
    assert_eq!(text(&r), vec!["call _a", "call _a", "exit", "_a:", "push 5", "add"]);
}

#[test]
fn merge_groups_blocks_that_are_not_adjacent() {
    let p = program(&["jz _a", "jn _c", "_a:", "push 5", "_b:", "push 6", "_c:", "push 5"]);
    let r = refactor_double_method(p);
    assert_eq!(text(&r), vec!["jz _a", "jn _a", "_a:", "push 5", "_b:", "push 6"]);
}

#[test]
fn empty_program_is_unchanged() {
    assert!(refactor_unused_label(Vec::new()).is_empty());
    assert!(refactor_double_method(Vec::new()).is_empty());
    assert_eq!(refactor_text(""), "");
}

#[test]
fn self_recursive_block_is_kept() {
    let p = program(&["push 1", "_r:", "call _r"]);
    let r = refactor_unused_label(p);
    assert_eq!(text(&r), vec!["push 1", "_r:", "call _r"]);
}

#[test]
fn merge_twice_equals_merge_once() {
    let p = program(&["call _a", "jmp _b", "_a:", "push 5", "add", "_b:", "push 5", "add"]);
    let once = refactor_double_method(p);
    let twice = refactor_double_method(once.clone());
    assert_eq!(text(&once), text(&twice));
}

#[test]
fn replacement_is_first_of_group() {
    let a = Method::new("a".to_string(), 0, program(&["push 5"]));
    let b = Method::new("b".to_string(), 2, program(&["push 5"]));
    let groups = vec![vec![a.duplicate(), b]];
    let r = get_replacement_method(&groups, from_str("call _b"));
    assert_eq!(r, Some(a));
    assert_eq!(get_replacement_method(&groups, from_str("call _z")), None);
    assert_eq!(get_replacement_method(&groups, from_str("ret")), None);
}

#[test]
fn modify_label_jumps_rewrites_removed_labels_only() {
    let a = Method::new("a".to_string(), 0, program(&["push 5"]));
    let b = Method::new("b".to_string(), 2, program(&["push 5"]));
    let groups = vec![vec![a, b]];
    let mut m = Method::new("main".to_string(), 0, program(&["call _b", "jmp _c", "push _b"]));
    m.modify_label_jumps(&vec!["_b".to_string()], &groups);
    assert_eq!(text(&m.instructions), vec!["call _a", "jmp _c", "push _b"]);
}

#[test]
fn parse_program_text_skips_blank_lines() {
    let p = parse_program_text("    push  1\n\n_foo:\n    add\n");
    assert_eq!(text(&p), vec!["push 1", "_foo:", "add"]);
}

#[test]
fn render_program_text_one_line_each() {
    let p = program(&["push 1", "_foo:", "add"]);
    assert_eq!(render_program_text(p), "push 1\n_foo:\nadd\n");
}

#[test]
fn refactor_text_eliminates_then_merges() {
    let input = "    call  _a\n    call  _b\n    exit\n_a:\n    push  5\n    ret\n_b:\n    push  5\n    ret\n_dead:\n    push  7\n";
    assert_eq!(refactor_text(input), "call _a\ncall _a\nexit\n_a:\npush 5\nret\n");
}

#[test]
fn merge_can_expose_new_duplicates() {
    let p = program(&[
        "call _a", "call _b", "exit", "_a:", "call _x", "_b:", "call _y", "_x:", "push 1", "_y:", "push 1",
    ]);
    let once = refactor_double_method(p);
    assert_eq!(text(&once), vec!["call _a", "call _b", "exit", "_a:", "call _x", "_b:", "call _x", "_x:", "push 1"]);
    let twice = refactor_double_method(once);
    assert_eq!(text(&twice), vec!["call _a", "call _a", "exit", "_a:", "call _x", "_x:", "push 1"]);
}

#[test]
fn merged_transfers_name_surviving_blocks() {
    let p = program(&[
        "call _a", "jz _b", "jn _c", "jmp _d", "_a:", "push 2", "_b:", "push 2", "_c:", "push 3", "_d:", "push 3",
    ]);
    let r = refactor_double_method(p);
    let blocks = get_methods_from_instructions(&r);
    let labels: Vec<String> = blocks.iter().map(|m| m.get_label()).collect();
    for b in &blocks {
        for i in &b.instructions {
            if ["call", "jmp", "jz", "jn"].contains(&i.command.as_str()) {
                assert!(labels.contains(i.parameter.as_ref().unwrap()));
            }
        }
    }
    assert_eq!(text(&r), vec!["call _a", "jz _a", "jn _c", "jmp _c", "_a:", "push 2", "_c:", "push 3"]);
}

#[test]
fn eliminate_keeps_entry_and_referenced_blocks() {
    let p = program(&["jz _b", "_a:", "push 1", "_b:", "push 2", "_c:", "jmp _a"]);
    let r = refactor_unused_label(p);
    assert_eq!(text(&r), vec!["jz _b", "_a:", "push 1", "_b:", "push 2"]);
}

#[test]
fn perform_refactorings_on_assembled_program() {
    let source = "    call _a\n    call _b\n    exit\n_a:\n    push 5\n    ret\n_b:\n    push 5\n    ret\n_dead:\n    push 7\n    ret\n";
    let program = whitespacers::Program::assemble(source.to_string()).unwrap();
    let before = construct_instruction_set(&program);
    assert_eq!(before.len(), 12);
    let refactored = perform_refactorings(program).unwrap();
    let after = construct_instruction_set(&refactored);
    assert_eq!(text(&after), vec!["call _a", "call _a", "exit", "_a:", "push 5", "ret"]);
}

#[test]
fn construct_program_reports_bad_text() {
    assert!(construct_program(program(&["bogus"])).is_err());
    let ok = construct_program(program(&["push 1", "pnum", "exit"])).unwrap();
    assert_eq!(text(&construct_instruction_set(&ok)), vec!["push 1", "pnum", "exit"]);
}

#[test]
fn is_whitespace_agrees_with_char() {
    for n in 0u32..0x110000 {
        if let Some(c) = char::from_u32(n) {
            assert_eq!(is_whitespace(c), c.is_whitespace(), "{:x}", n);
        }
    }
}

#[test]
fn transfer_without_parameter_is_left_alone() {
    let p = program(&["call", "_a:", "push 1", "_b:", "push 1"]);
    let r = refactor_unused_label(p);
    assert_eq!(text(&r), vec!["call"]);
    let p = program(&["jmp", "_a:", "push 1", "_b:", "push 1"]);
    let r = refactor_double_method(p);
    assert_eq!(text(&r), vec!["jmp", "_a:", "push 1"]);
}

#[test]
fn duplicate_of_entry_block_is_sent_to_main() {
    let p = program(&["push 1", "_a:", "push 1"]);
    let q = program(&["call _a", "_a:", "call _a"]);
    assert_eq!(text(&refactor_double_method(p)), vec!["push 1"]);
    assert_eq!(text(&refactor_double_method(q)), vec!["call _main"]);
}
