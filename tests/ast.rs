use clarity::ast::{ast_from_pre_expressions, build_ast, check_stack_depth, identify_all};
use clarity::costs::{ExecutionCost, LimitedCostTracker};
use clarity::errors::ParseErrors;
use clarity::parser::{parse, PreSymbolicExpression, PreSymbolicExpressionType};
use clarity::types::QualifiedContractIdentifier;

fn collect_ids(es: &[PreSymbolicExpression], out: &mut Vec<u64>) {
    for e in es {
        out.push(e.id);
        match &e.pre_expr {
            PreSymbolicExpressionType::List(ch) | PreSymbolicExpressionType::Tuple(ch) => collect_ids(ch, out),
            _ => {}
        }
    }
}

#[test]
fn ids_count_up_in_document_order() {
    let exprs = identify_all(parse("(define-data-var bar int 0) (foo {a: 1, b: (x y)})").unwrap()).unwrap();
    let mut ids = Vec::new();
    collect_ids(&exprs, &mut ids);
    let expected: Vec<u64> = (1..=ids.len() as u64).collect();
    assert_eq!(ids, expected);
    assert_eq!(ids.len(), 14);
}

#[test]
fn deep_nesting_is_rejected() {
    let ok = format!("{}{}", "(".repeat(64), ")".repeat(64));
    assert_eq!(check_stack_depth(&parse(&ok).unwrap()), Ok(()));
    let deep = format!("{}{}", "(".repeat(65), ")".repeat(65));
    assert_eq!(check_stack_depth(&parse(&deep).unwrap()), Err(ParseErrors::ExpressionStackDepthTooDeep));
}

#[test]
fn build_ast_charges_the_source_length() {
    let mut costs = LimitedCostTracker::new_max_limit();
    let src = "(let ((x 1) (y 2)) (+ x y))";
    let ast = build_ast(QualifiedContractIdentifier::transient(), src, &mut costs).unwrap();
    assert_eq!(ast.expressions.len(), 1);
    assert_eq!(ast.expressions[0].id, 1);
    assert_eq!(costs.get_total().runtime, src.len() as u64);
}

#[test]
fn build_ast_stops_at_the_budget() {
    let mut costs = LimitedCostTracker::new(ExecutionCost { runtime: 10, ..ExecutionCost::max_value() });
    let r = build_ast(QualifiedContractIdentifier::transient(), "(let ((x 1) (y 2)) (+ x y))", &mut costs);
    match r {
        Err(ParseErrors::CostBalanceExceeded(total, limit)) => {
            assert!(total.runtime > 10);
            assert_eq!(limit.runtime, 10);
        }
        Err(other) => panic!("unexpected {:?}", other),
        Ok(_) => panic!("unexpected success"),
    }
}

#[test]
fn definitions_come_before_their_users() {
    let mut costs = LimitedCostTracker::new_max_limit();
    let src = "(define-private (b) (a)) (define-private (a) 1) (b)";
    let ast = build_ast(QualifiedContractIdentifier::transient(), src, &mut costs).unwrap();
    let order = ast.top_level_expression_sorting;
    let pos = |i: usize| order.iter().position(|x| *x == i).unwrap();
    assert_eq!(order.len(), 3);
    assert!(pos(1) < pos(0));
    assert!(pos(0) < pos(2));
}

#[test]
fn independent_forms_keep_their_order() {
    let mut costs = LimitedCostTracker::new_max_limit();
    let src = "(define-data-var bar int 0) (define-public (get-bar) (ok (var-get bar)))";
    let ast = build_ast(QualifiedContractIdentifier::transient(), src, &mut costs).unwrap();
    assert_eq!(ast.top_level_expression_sorting, vec![0, 1]);
}

#[test]
fn circular_definitions_are_rejected() {
    let mut costs = LimitedCostTracker::new_max_limit();
    let r = build_ast(QualifiedContractIdentifier::transient(), "(define-private (a) (b)) (define-private (b) (a))", &mut costs);
    match r {
        Err(ParseErrors::CircularReference(names)) => {
            assert_eq!(names, vec![b"a".to_vec(), b"b".to_vec()]);
        }
        Err(other) => panic!("unexpected {:?}", other),
        Ok(_) => panic!("unexpected success"),
    }
    let mut costs = LimitedCostTracker::new_max_limit();
    let r = build_ast(QualifiedContractIdentifier::transient(), "(define-private (a) (a))", &mut costs);
    assert!(matches!(r.err(), Some(ParseErrors::CircularReference(_))));
}

#[test]
fn ast_passes_on_parsed_forms() {
    let pre = parse("(define-private (a) (b)) (define-private (b) 1)").unwrap();
    let ast = ast_from_pre_expressions(QualifiedContractIdentifier::transient(), pre).unwrap();
    assert_eq!(ast.top_level_expression_sorting, vec![1, 0]);
    let pre = parse("(define-private (a) (b)) (define-private (b) (a))").unwrap();
    assert!(matches!(
        ast_from_pre_expressions(QualifiedContractIdentifier::transient(), pre).err(),
        Some(ParseErrors::CircularReference(_))
    ));
    let mut costs = LimitedCostTracker::new_max_limit();
    let src = "(define-private (a) 1)";
    build_ast(QualifiedContractIdentifier::transient(), src, &mut costs).unwrap();
    build_ast(QualifiedContractIdentifier::transient(), src, &mut costs).unwrap();
    assert_eq!(costs.get_total().runtime, 2 * src.len() as u64);
}

#[test]
fn build_ast_expands_sugar_under_the_issuer() {
    let mut costs = LimitedCostTracker::new_max_limit();
    let id = QualifiedContractIdentifier::transient();
    let ast = build_ast(id, "(contract-call? .my-contract foo)", &mut costs).unwrap();
    match &ast.expressions[0].expr {
        clarity::sugar::SymbolicExpressionType::List(items) => assert!(matches!(
            &items[1].expr,
            clarity::sugar::SymbolicExpressionType::LiteralValue(clarity::types::Value::Principal(_))
        )),
        _ => panic!("expected a list"),
    }
}
