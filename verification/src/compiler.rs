//! Flattening: a tree of blocks to ordered rule-per-block style text.
//!
//! A top-level block's resolved selector is its raw selector verbatim. A
//! nested block's raw selector either holds the parent-reference marker
//! `&`, and resolves by replacing every marker with the parent's resolved
//! selector, or it does not, and resolves to the parent's resolved
//! selector, one space, and the raw selector. Emission is pre-order: each
//! block's own rule comes first, then its children's subtrees in order.

use crate::types::{blocks_model, lemma_blocks_model, styles_model, Block, BlockModel, Style,
    StyleModel};
use vstd::prelude::*;

verus! {

/// One emitted declaration line: four spaces, the name, `: `, the value,
/// `;` and a newline.
pub open spec fn style_line(st: StyleModel) -> Seq<char> {
    seq![' ', ' ', ' ', ' '] + st.name + seq![':', ' '] + st.value + seq![';', '\n']
}

/// The declaration lines of `ss` from index `i` on, in order.
pub open spec fn styles_text_from(ss: Seq<StyleModel>, i: int) -> Seq<char>
    decreases ss.len() - i,
{
    if i < 0 || i >= ss.len() {
        Seq::empty()
    } else {
        style_line(ss[i]) + styles_text_from(ss, i + 1)
    }
}

/// One emitted rule: the resolved selector, ` {`, a newline, the
/// declaration lines, `}` and a blank separator line.
pub open spec fn rule_text(sel: Seq<char>, ss: Seq<StyleModel>) -> Seq<char> {
    sel + seq![' ', '{', '\n'] + styles_text_from(ss, 0) + seq!['}', '\n', '\n']
}

/// `s` from index `i` on with every parent-reference marker replaced by
/// `p`.
pub open spec fn replace_parent_from(s: Seq<char>, p: Seq<char>, i: int) -> Seq<char>
    decreases s.len() - i,
{
    if i < 0 || i >= s.len() {
        Seq::empty()
    } else if s[i] == '&' {
        p + replace_parent_from(s, p, i + 1)
    } else {
        seq![s[i]] + replace_parent_from(s, p, i + 1)
    }
}

/// `s` with every occurrence of the parent-reference marker replaced by
/// `p`, nothing inserted between.
pub open spec fn replace_parent(s: Seq<char>, p: Seq<char>) -> Seq<char> {
    replace_parent_from(s, p, 0)
}

/// The resolved selector of a nested block: marker substitution when the
/// raw selector holds the parent-reference marker, otherwise the
/// descendant form `parent`, one space, `raw`.
pub open spec fn resolved_selector(parent: Seq<char>, raw: Seq<char>) -> Seq<char> {
    if raw.contains('&') {
        replace_parent(raw, parent)
    } else {
        parent + seq![' '] + raw
    }
}

/// The whole emitted text of one block under its resolved selector: its
/// own rule first, then each child's subtree in order.
pub open spec fn block_text(b: BlockModel, resolved: Seq<char>) -> Seq<char>
    decreases b, 0int,
{
    rule_text(resolved, b.styles) + children_text_from(b.children, resolved, 0)
}

/// The emitted texts of the children from index `i` on, each resolved
/// against `parent`, in order.
pub open spec fn children_text_from(cs: Seq<BlockModel>, parent: Seq<char>, i: int) -> Seq<char>
    decreases cs, cs.len() - i,
{
    if i < 0 || i >= cs.len() {
        Seq::empty()
    } else {
        block_text(cs[i], resolved_selector(parent, cs[i].selector)) + children_text_from(
            cs,
            parent,
            i + 1,
        )
    }
}

/// The emitted texts of the top-level blocks from index `i` on; each
/// top-level block is its own resolved selector.
pub open spec fn stylesheet_text_from(bs: Seq<BlockModel>, i: int) -> Seq<char>
    decreases bs.len() - i,
{
    if i < 0 || i >= bs.len() {
        Seq::empty()
    } else {
        block_text(bs[i], bs[i].selector) + stylesheet_text_from(bs, i + 1)
    }
}

/// The whole emitted stylesheet of a block tree.
pub open spec fn stylesheet_text(bs: Seq<BlockModel>) -> Seq<char> {
    stylesheet_text_from(bs, 0)
}

/// Resolves a nested block's raw selector against its parent's resolved
/// selector: marker substitution when a `&` occurs in it, otherwise the
/// descendant form with one inserted space.
fn resolve_selector(parent: &str, raw: &str) -> (r: String)
    ensures
        r@ == resolved_selector(parent@, raw@),
{
    let n = raw.unicode_len();
    let mut has_marker = false;
    let mut i: usize = 0;
    while i < n
        invariant
            n == raw@.len(),
            i <= n,
            has_marker == (exists|k: int| 0 <= k < i && raw@[k] == '&'),
        decreases n - i,
    {
        if raw.get_char(i) == '&' {
            has_marker = true;
        }
        i = i + 1;
    }
    proof {
        assert(has_marker == raw@.contains('&'));
    }
    if has_marker {
        let mut out = String::new();
        let mut j: usize = 0;
        while j < n
            invariant
                n == raw@.len(),
                j <= n,
                out@ + replace_parent_from(raw@, parent@, j as int) == replace_parent(
                    raw@,
                    parent@,
                ),
        decreases n - j,
        {
            let ghost out_before = out@;
            if raw.get_char(j) == '&' {
                out.append(parent);
                proof {
                    assert((out_before + parent@) + replace_parent_from(raw@, parent@, j + 1)
                        =~= out_before + (parent@ + replace_parent_from(raw@, parent@, j + 1)));
                }
            } else {
                let piece = raw.substring_char(j, j + 1);
                out.append(piece);
                proof {
                    assert(piece@ =~= seq![raw@[j as int]]);
                    assert((out_before + piece@) + replace_parent_from(raw@, parent@, j + 1)
                        =~= out_before + (piece@ + replace_parent_from(raw@, parent@, j + 1)));
                }
            }
            j = j + 1;
        }
        proof {
            assert(out@ + Seq::<char>::empty() =~= out@);
        }
        out
    } else {
        let mut out = String::from_str(parent);
        out.append(" ");
        out.append(raw);
        proof {
            reveal_strlit(" ");
            assert(" "@ =~= seq![' ']);
            assert((parent@ + " "@) + raw@ =~= parent@ + seq![' '] + raw@);
        }
        out
    }
}

/// Emits one rule: the resolved selector, its brace, every declaration
/// line in order, and the closing brace with a blank separator line.
fn compile_block(selector: &String, styles: &Vec<Style>) -> (r: String)
    ensures
        r@ == rule_text(selector@, styles_model(styles@)),
{
    let ghost ssm = styles_model(styles@);
    let mut css = String::new();
    css.append(selector.as_str());
    css.append(" {\n");
    let ghost pre = selector@ + seq![' ', '{', '\n'];
    proof {
        reveal_strlit(" {\n");
        assert(" {\n"@ =~= seq![' ', '{', '\n']);
        assert(css@ == pre);
    }
    let mut i: usize = 0;
    while i < styles.len()
        invariant
            i <= styles.len(),
            ssm == styles_model(styles@),
            ssm.len() == styles@.len(),
            pre == selector@ + seq![' ', '{', '\n'],
            css@ + styles_text_from(ssm, i as int) == pre + styles_text_from(ssm, 0),
        decreases styles.len() - i,
    {
        let ghost css_before = css@;
        let st = &styles[i];
        css.append("    ");
        css.append(st.name.as_str());
        css.append(": ");
        css.append(st.value.as_str());
        css.append(";\n");
        proof {
            reveal_strlit("    ");
            reveal_strlit(": ");
            reveal_strlit(";\n");
            assert("    "@ =~= seq![' ', ' ', ' ', ' ']);
            assert(": "@ =~= seq![':', ' ']);
            assert(";\n"@ =~= seq![';', '\n']);
            assert(ssm[i as int] == styles@[i as int]@);
            assert(css@ =~= css_before + style_line(ssm[i as int]));
            assert((css_before + style_line(ssm[i as int])) + styles_text_from(ssm, i + 1)
                =~= css_before + (style_line(ssm[i as int]) + styles_text_from(ssm, i + 1)));
        }
        i = i + 1;
    }
    css.append("}\n\n");
    proof {
        reveal_strlit("}\n\n");
        assert("}\n\n"@ =~= seq!['}', '\n', '\n']);
        assert(styles_text_from(ssm, styles@.len() as int) =~= Seq::<char>::empty());
        assert(css@ =~= rule_text(selector@, ssm));
    }
    css
}

/// Emits a nested block's whole subtree under the given parent resolved
/// selector: its own rule first, then each child's subtree in order.
fn compile_sub_block(block: &Block, parent_selector: &str) -> (r: String)
    ensures
        r@ == block_text(block@, resolved_selector(parent_selector@, block@.selector)),
    decreases block,
{
    let compiled_selector = resolve_selector(parent_selector, block.selector.as_str());
    let ghost resolved = resolved_selector(parent_selector@, block@.selector);
    let mut css = compile_block(&compiled_selector, &block.styles);
    let ghost cm = block@.children;
    proof {
        lemma_blocks_model(block.sub_blocks@);
    }
    let mut i: usize = 0;
    while i < block.sub_blocks.len()
        invariant
            i <= block.sub_blocks.len(),
            compiled_selector@ == resolved,
            resolved == resolved_selector(parent_selector@, block@.selector),
            cm == block@.children,
            cm == blocks_model(block.sub_blocks@),
            cm.len() == block.sub_blocks@.len(),
            forall|k: int| 0 <= k < cm.len() ==> cm[k] == block.sub_blocks@[k]@,
            css@ + children_text_from(cm, resolved, i as int) == rule_text(
                resolved,
                block@.styles,
            ) + children_text_from(cm, resolved, 0),
        decreases block.sub_blocks@.len() - i,
    {
        let ghost css_before = css@;
        let piece = compile_sub_block(&block.sub_blocks[i], compiled_selector.as_str());
        css.append(piece.as_str());
        proof {
            assert(piece@ == block_text(cm[i as int], resolved_selector(
                resolved,
                cm[i as int].selector,
            )));
            assert((css_before + piece@) + children_text_from(cm, resolved, i + 1) =~= css_before
                + (piece@ + children_text_from(cm, resolved, i + 1)));
        }
        i = i + 1;
    }
    proof {
        assert(children_text_from(cm, resolved, cm.len() as int) =~= Seq::<char>::empty());
        assert(css@ + Seq::<char>::empty() =~= css@);
    }
    css
}

/// Emits a top-level block's whole subtree: its rule under its raw
/// selector verbatim, then each child's subtree resolved against it.
fn compile_top_level_block(block: &Block) -> (r: String)
    ensures
        r@ == block_text(block@, block@.selector),
{
    let mut css = compile_block(&block.selector, &block.styles);
    let ghost resolved = block@.selector;
    let ghost cm = block@.children;
    proof {
        lemma_blocks_model(block.sub_blocks@);
    }
    let mut i: usize = 0;
    while i < block.sub_blocks.len()
        invariant
            i <= block.sub_blocks.len(),
            resolved == block@.selector,
            resolved == block.selector@,
            cm == block@.children,
            cm == blocks_model(block.sub_blocks@),
            cm.len() == block.sub_blocks@.len(),
            forall|k: int| 0 <= k < cm.len() ==> cm[k] == block.sub_blocks@[k]@,
            css@ + children_text_from(cm, resolved, i as int) == rule_text(
                resolved,
                block@.styles,
            ) + children_text_from(cm, resolved, 0),
        decreases block.sub_blocks@.len() - i,
    {
        let ghost css_before = css@;
        let piece = compile_sub_block(&block.sub_blocks[i], block.selector.as_str());
        css.append(piece.as_str());
        proof {
            assert(piece@ == block_text(cm[i as int], resolved_selector(
                resolved,
                cm[i as int].selector,
            )));
            assert((css_before + piece@) + children_text_from(cm, resolved, i + 1) =~= css_before
                + (piece@ + children_text_from(cm, resolved, i + 1)));
        }
        i = i + 1;
    }
    proof {
        assert(children_text_from(cm, resolved, cm.len() as int) =~= Seq::<char>::empty());
        assert(css@ + Seq::<char>::empty() =~= css@);
    }
    css
}

/// Flattens a block tree into the whole stylesheet text: each top-level
/// block's subtree in order, emitted pre-order with selectors resolved as
/// the tree prescribes. The output is a function of the tree alone.
pub fn compile(blocks: Vec<Block>) -> (r: String)
    ensures
        r@ == stylesheet_text(blocks_model(blocks@)),
{
    let ghost bm = blocks_model(blocks@);
    proof {
        lemma_blocks_model(blocks@);
    }
    let mut css = String::new();
    let mut i: usize = 0;
    while i < blocks.len()
        invariant
            i <= blocks.len(),
            bm == blocks_model(blocks@),
            bm.len() == blocks@.len(),
            forall|k: int| 0 <= k < bm.len() ==> bm[k] == blocks@[k]@,
            css@ + stylesheet_text_from(bm, i as int) == stylesheet_text_from(bm, 0),
        decreases blocks@.len() - i,
    {
        let ghost css_before = css@;
        let piece = compile_top_level_block(&blocks[i]);
        css.append(piece.as_str());
        proof {
            assert(piece@ == block_text(bm[i as int], bm[i as int].selector));
            assert((css_before + piece@) + stylesheet_text_from(bm, i + 1) =~= css_before + (
            piece@ + stylesheet_text_from(bm, i + 1)));
        }
        i = i + 1;
    }
    proof {
        assert(stylesheet_text_from(bm, bm.len() as int) =~= Seq::<char>::empty());
        assert(css@ + Seq::<char>::empty() =~= css@);
    }
    css
}

/// Law: a nested selector that holds the parent-reference marker resolves
/// by replacing every occurrence of the marker with the parent's resolved
/// selector, verbatim and with no inserted space.
pub proof fn lemma_parent_reference_substitution(parent: Seq<char>, raw: Seq<char>)
    requires
        raw.contains('&'),
    ensures
        resolved_selector(parent, raw) == replace_parent(raw, parent),
{
}

/// Law: a nested selector without the parent-reference marker resolves to
/// the parent's resolved selector, exactly one space, and the raw
/// selector.
pub proof fn lemma_descendant_combinator_default(parent: Seq<char>, raw: Seq<char>)
    requires
        !raw.contains('&'),
    ensures
        resolved_selector(parent, raw) == parent + seq![' '] + raw,
{
}

/// Law: emission is pre-order. A block's text opens with its own rule,
/// before anything of its descendants; the children's subtrees follow,
/// left to right, each complete before the next begins.
pub proof fn lemma_emission_order(b: BlockModel, resolved: Seq<char>)
    ensures
        block_text(b, resolved) == rule_text(resolved, b.styles) + children_text_from(
            b.children,
            resolved,
            0,
        ),
        forall|i: int|
            0 <= i < b.children.len() ==> children_text_from(b.children, resolved, i)
                == block_text(
                b.children[i],
                resolved_selector(resolved, b.children[i].selector),
            ) + children_text_from(b.children, resolved, i + 1),
{
}

} // verus!
