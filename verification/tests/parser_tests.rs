use earley_parser::grammar::{build_grammar, Grammar, GrammarFormatError};
use earley_parser::parser::{
    build_ast, is_accepted, parse, recognize, reverse_and_sort, ASTNode, EarleyItem,
};
use earley_parser::tokenizer::{tokenize, Token};

fn grammar(text: &str) -> Grammar {
    build_grammar(text).expect("grammar should build")
}

fn tokens(g: &Grammar, text: &str) -> Vec<Token> {
    tokenize(g, text).expect("tokenization should succeed")
}

fn sym_name<'a>(g: &'a Grammar, id: usize) -> &'a str {
    g.symbols[id].name.as_str()
}

fn node_name<'a>(g: &'a Grammar, t: &ASTNode) -> &'a str {
    sym_name(g, t.value)
}

fn leaf_count(t: &ASTNode) -> usize {
    if t.children.is_empty() {
        1
    } else {
        t.children.iter().map(leaf_count).sum()
    }
}

fn nesting_depth(g: &Grammar, t: &ASTNode, name: &str) -> usize {
    let below = t
        .children
        .iter()
        .map(|c| nesting_depth(g, c, name))
        .max()
        .unwrap_or(0);
    if node_name(g, t) == name {
        below + 1
    } else {
        below
    }
}

const SUM_GRAMMAR: &str = "Sum -> Number\nSum -> Number '+' Sum\nNumber -> '1'\nNumber -> Number '1'";

#[test]
fn grammar_tables_from_text() {
    let g = grammar(SUM_GRAMMAR);
    assert_eq!(g.start, 1);
    assert_eq!(g.rules.len(), 4);
    assert_eq!(sym_name(&g, 0), "End of input");
    assert!(g.symbols[0].is_terminal);
    assert_eq!(sym_name(&g, 1), "Sum");
    assert!(!g.symbols[1].is_terminal);
    assert_eq!(sym_name(&g, 2), "Number");
    assert!(!g.symbols[2].is_terminal);
    assert_eq!(sym_name(&g, 3), "+");
    assert!(g.symbols[3].is_terminal);
    assert_eq!(sym_name(&g, 4), "1");
    assert!(g.symbols[4].is_terminal);
    assert_eq!(g.rules[1].start, 1);
    assert_eq!(g.rules[1].symbols, vec![2, 3, 1]);
    assert_eq!(g.rules[3].start, 2);
    assert_eq!(g.rules[3].symbols, vec![2, 4]);
}

#[test]
fn head_status_overrides_quoted_status() {
    // `x` is first seen quoted (terminal), then appears as a head and must
    // be forced non-terminal.
    let g = grammar("A -> 'x' 'y'\nx -> 'y'");
    let x = g
        .symbols
        .iter()
        .find(|s| s.name == "x")
        .expect("symbol x should exist");
    assert!(!x.is_terminal);
    let y = g.symbols.iter().find(|s| s.name == "y").unwrap();
    assert!(y.is_terminal);
}

#[test]
fn quote_marks_strip_from_both_ends() {
    let g = grammar("A -> ''x'' 'y'");
    let x = g.symbols.iter().find(|s| s.name == "x").expect("symbol x");
    assert!(x.is_terminal);
    assert!(g.symbols.iter().all(|s| !s.name.contains('\'')));
}

#[test]
fn malformed_grammar_missing_arrow_is_rejected() {
    // The second line lacks the arrow in second position.
    let r = build_grammar("Sum -> Number\nSum Number");
    assert_eq!(r.err(), Some(GrammarFormatError { line: 1 }));
}

#[test]
fn malformed_grammar_empty_body_is_rejected() {
    let r = build_grammar("A ->");
    assert_eq!(r.err(), Some(GrammarFormatError { line: 0 }));
}

#[test]
fn empty_grammar_text_is_rejected() {
    let r = build_grammar("");
    assert_eq!(r.err(), Some(GrammarFormatError { line: 0 }));
}

#[test]
fn print_rule_renders_head_arrow_and_body() {
    let g = grammar(SUM_GRAMMAR);
    let mut out = String::new();
    g.print_rule(&mut out, &g.rules[1]);
    assert_eq!(out, "Sum ->  Number + Sum");
}

#[test]
fn tokenize_maps_atoms_and_appends_end_of_input() {
    let g = grammar(SUM_GRAMMAR);
    let toks = tokens(&g, "1 + 1 1");
    assert_eq!(toks.len(), 5);
    assert_eq!(toks[0].symbol, 4);
    assert_eq!(toks[0].text, "1");
    assert_eq!(toks[1].symbol, 3);
    assert_eq!(toks[1].text, "+");
    assert_eq!(toks[4].symbol, 0);
    assert_eq!(toks[4].text, "End of input");
}

#[test]
fn tokenize_trims_surrounding_whitespace() {
    let g = grammar(SUM_GRAMMAR);
    let toks = tokens(&g, "  \t1 +\u{20}1\n");
    assert_eq!(toks.len(), 4);
    assert_eq!(toks[0].symbol, 4);
    assert_eq!(toks[1].symbol, 3);
    assert_eq!(toks[2].symbol, 4);
    assert_eq!(toks[3].symbol, 0);
}

#[test]
fn tokenize_of_blank_text_yields_only_end_of_input() {
    let g = grammar(SUM_GRAMMAR);
    let toks = tokens(&g, "   ");
    assert_eq!(toks.len(), 1);
    assert_eq!(toks[0].symbol, 0);
}

#[test]
fn unknown_token_is_rejected_before_any_chart() {
    let g = grammar(SUM_GRAMMAR);
    let err = tokenize(&g, "1 two 1").err().expect("should fail");
    assert_eq!(err.atom, "two");
}

#[test]
fn non_terminal_name_is_not_a_token() {
    // `Number` names a non-terminal; as input text it is unknown.
    let g = grammar(SUM_GRAMMAR);
    let err = tokenize(&g, "Number").err().expect("should fail");
    assert_eq!(err.atom, "Number");
}

#[test]
fn recognizing_twice_yields_identical_charts() {
    let g = grammar(SUM_GRAMMAR);
    let toks1 = tokens(&g, "1 + 1 1");
    let toks2 = tokens(&g, "1 + 1 1");
    let chart1 = recognize(&g, &toks1);
    let chart2 = recognize(&g, &toks2);
    assert_eq!(chart1, chart2);
}

#[test]
fn state_sets_hold_no_duplicate_items() {
    let g = grammar(SUM_GRAMMAR);
    let toks = tokens(&g, "1 + 1 1");
    let chart = recognize(&g, &toks);
    for set in &chart {
        for a in 0..set.len() {
            for b in (a + 1)..set.len() {
                assert_ne!(set[a], set[b]);
            }
        }
    }
}

#[test]
fn chart_length_is_token_count_plus_one() {
    let g = grammar(SUM_GRAMMAR);
    let toks = tokens(&g, "1 + 1");
    let chart = recognize(&g, &toks);
    assert_eq!(chart.len(), toks.len() + 1);
}

#[test]
fn acceptance_matches_language_membership() {
    let g = grammar(SUM_GRAMMAR);
    let in_language = ["1", "1 1", "1 + 1", "1 + 1 1", "1 1 + 1 + 1"];
    let not_in_language = ["+", "1 +", "+ 1", "1 + + 1", "1 1 +"];
    for text in in_language {
        let toks = tokens(&g, text);
        let chart = recognize(&g, &toks);
        assert!(is_accepted(&g, &chart, toks.len() - 1), "should accept {:?}", text);
    }
    for text in not_in_language {
        let toks = tokens(&g, text);
        let chart = recognize(&g, &toks);
        assert!(!is_accepted(&g, &chart, toks.len() - 1), "should reject {:?}", text);
    }
}

#[test]
fn rejected_input_fails_extraction() {
    let g = grammar(SUM_GRAMMAR);
    let toks = tokens(&g, "1 +");
    assert!(parse(&g, &toks).is_err());
}

#[test]
fn end_to_end_scenario_produces_the_expected_tree() {
    let g = grammar(SUM_GRAMMAR);
    let toks = tokens(&g, "1 + 1 1");
    let chart = recognize(&g, &toks);
    assert!(is_accepted(&g, &chart, 4));
    let tree = parse(&g, &toks).expect("extraction should succeed");
    // Sum over [0, 4): Number("1"), "+", and a nested Sum covering "1 1".
    assert_eq!(node_name(&g, &tree), "Sum");
    assert_eq!(tree.children.len(), 3);
    let first = &tree.children[0];
    assert_eq!(node_name(&g, first), "Number");
    assert_eq!(first.children.len(), 1);
    assert_eq!(node_name(&g, &first.children[0]), "1");
    assert!(first.children[0].children.is_empty());
    let plus = &tree.children[1];
    assert_eq!(node_name(&g, plus), "+");
    assert!(plus.children.is_empty());
    let nested = &tree.children[2];
    assert_eq!(node_name(&g, nested), "Sum");
    assert_eq!(nested.children.len(), 1);
    // The nested Sum decomposes into Number(Number("1"), "1").
    let number = &nested.children[0];
    assert_eq!(node_name(&g, number), "Number");
    assert_eq!(number.children.len(), 2);
    assert_eq!(node_name(&g, &number.children[0]), "Number");
    assert_eq!(number.children[0].children.len(), 1);
    assert_eq!(node_name(&g, &number.children[0].children[0]), "1");
    assert_eq!(node_name(&g, &number.children[1]), "1");
    assert!(number.children[1].children.is_empty());
}

#[test]
fn leaf_count_equals_real_token_count() {
    let g = grammar(SUM_GRAMMAR);
    for text in ["1", "1 + 1", "1 + 1 1", "1 1 1 + 1"] {
        let toks = tokens(&g, text);
        let tree = parse(&g, &toks).expect("extraction should succeed");
        assert_eq!(leaf_count(&tree), toks.len() - 1, "leaf count for {:?}", text);
    }
}

#[test]
fn left_recursion_parses_fifty_tokens_and_nests_fifty_deep() {
    let g = grammar("Number -> '1'\nNumber -> Number '1'");
    let text = vec!["1"; 50].join(" ");
    let toks = tokens(&g, &text);
    let tree = parse(&g, &toks).expect("extraction should succeed");
    assert_eq!(leaf_count(&tree), 50);
    assert_eq!(nesting_depth(&g, &tree, "Number"), 50);
}

#[test]
fn build_ast_reconstructs_a_subspan() {
    let g = grammar(SUM_GRAMMAR);
    let toks = tokens(&g, "1 + 1 1");
    let chart = recognize(&g, &toks);
    let edges = reverse_and_sort(&chart, &g);
    // The nested Sum over [2, 4) alone.
    let tree = build_ast(2, 4, 1, &edges, &g, 1024).expect("subspan should build");
    assert_eq!(node_name(&g, &tree), "Sum");
    assert_eq!(leaf_count(&tree), 2);
}

#[test]
fn edge_index_holds_only_completed_spans() {
    let g = grammar(SUM_GRAMMAR);
    let toks = tokens(&g, "1 + 1 1");
    let chart = recognize(&g, &toks);
    let edges = reverse_and_sort(&chart, &g);
    assert_eq!(edges.len(), chart.len());
    for (origin, bucket) in edges.iter().enumerate() {
        for e in bucket {
            // `start` now carries the end position; `position` the full
            // body length.
            assert!(origin <= e.start && e.start < edges.len());
            assert_eq!(e.position, g.rules[e.rule_id].symbols.len());
        }
    }
    // The accepting Sum edge over the whole real input exists at origin 0.
    assert!(edges[0]
        .iter()
        .any(|e| g.rules[e.rule_id].start == g.start && e.start == 4));
}

#[test]
fn item_rendering_shows_origin_and_dot() {
    let g = grammar(SUM_GRAMMAR);
    let mid = EarleyItem { rule_id: 1, position: 2, start: 0 };
    assert_eq!(mid.to_string(&g), "(0) Sum -> Number +  \\*/ Sum ");
    let done = EarleyItem { rule_id: 2, position: 1, start: 3 };
    assert_eq!(done.to_string(&g), "(3) Number -> 1  \\*/ ");
    let fresh = EarleyItem { rule_id: 3, position: 0, start: 2 };
    assert_eq!(fresh.to_string(&g), "(2) Number ->  \\*/ Number 1 ");
}

#[test]
fn tree_rendering_indents_by_nesting() {
    let g = grammar(SUM_GRAMMAR);
    let toks = tokens(&g, "1 + 1 1");
    let tree = parse(&g, &toks).expect("extraction should succeed");
    let rendered = tree.to_string(&g, "", true);
    let expected = "\\-Sum\n  |-Number\n  | \\-1\n  |-+\n  \\-Sum\n    \\-Number\n      |-Number\n      | \\-1\n      \\-1\n";
    assert_eq!(rendered, expected);
}

#[test]
fn items_compare_structurally() {
    let a = EarleyItem { rule_id: 1, position: 2, start: 3 };
    let b = EarleyItem { rule_id: 1, position: 2, start: 3 };
    let c = EarleyItem { rule_id: 1, position: 2, start: 4 };
    assert_eq!(a, b);
    assert_ne!(a, c);
}
