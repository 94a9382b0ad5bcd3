use scssc::compiler::compile;
use scssc::lexer::Lexer;
use scssc::parse::parse;
use scssc::types::{Block, Style};

fn compile_source(source: &str) -> String {
    let tokens = Lexer::new(source.to_string()).get_tokens().unwrap();
    let classes = parse(tokens).unwrap();
    compile(classes)
}

#[test]
fn compile_single_rule_exact_text() {
    let css = compile_source(".class { color: red; margin: 10px; }");
    assert_eq!(css, ".class {\n    color: red;\n    margin: 10px;\n}\n\n");
}

#[test]
fn compile_parent_reference_substitution() {
    let css = compile_source(".parent { &.child { color: blue; } }");
    assert!(css.contains(".parent.child {\n    color: blue;\n}\n\n"));
    assert!(!css.contains(".parent .child"));
    assert_eq!(css, ".parent {\n}\n\n.parent.child {\n    color: blue;\n}\n\n");
}

#[test]
fn compile_descendant_combinator_default() {
    let block = Block::new(
        ".parent".to_string(),
        vec![],
        vec![Block::new(
            ".child".to_string(),
            vec![Style {
                name: "color".to_string(),
                value: "red".to_string(),
            }],
            vec![],
        )],
    );
    let css = compile(vec![block]);
    assert_eq!(css, ".parent {\n}\n\n.parent .child {\n    color: red;\n}\n\n");
}

#[test]
fn compile_marker_replaced_at_every_occurrence() {
    let css = compile_source(".p { &>& { x: y; } }");
    assert!(css.contains(".p>.p {\n    x: y;\n}\n\n"));
}

#[test]
fn compile_emission_is_preorder() {
    let css = compile_source(".a { x: y; .b { u: v; .c { q: r; } } }");
    let parent = css.find(".a {\n    x: y;\n}").unwrap();
    let child = css.find(".a .b {\n    u: v;\n}").unwrap();
    let grandchild = css.find(".a .b .c {\n    q: r;\n}").unwrap();
    assert!(parent < child);
    assert!(child < grandchild);
}

#[test]
fn compile_is_a_pure_function_of_the_tree() {
    fn tree() -> Vec<Block> {
        vec![Block::new(
            ".a".to_string(),
            vec![Style {
                name: "x".to_string(),
                value: "y".to_string(),
            }],
            vec![Block::new("&.b".to_string(), vec![], vec![])],
        )]
    }
    let first = compile(tree());
    let second = compile(tree());
    assert_eq!(first, second);
    assert_eq!(first.as_bytes(), second.as_bytes());
}

#[test]
fn compile_block_without_declarations_emits_empty_rule() {
    let css = compile_source(".a { }");
    assert_eq!(css, ".a {\n}\n\n");
}

#[test]
fn compile_empty_tree_emits_nothing() {
    let css = compile(vec![]);
    assert_eq!(css, "");
}

#[test]
fn compile_sibling_subtrees_in_order() {
    let css = compile_source(".a { .b { x: y; } .c { u: v; } }");
    assert_eq!(
        css,
        ".a {\n}\n\n.a .b {\n    x: y;\n}\n\n.a .c {\n    u: v;\n}\n\n"
    );
}

#[test]
fn block_new_keeps_its_parts() {
    let b = Block::new(
        ".sel".to_string(),
        vec![Style {
            name: "n".to_string(),
            value: "v".to_string(),
        }],
        vec![],
    );
    assert_eq!(b.selector, ".sel");
    assert_eq!(b.styles.len(), 1);
    assert_eq!(b.styles[0].name, "n");
    assert_eq!(b.styles[0].value, "v");
    assert!(b.sub_blocks.is_empty());
}
