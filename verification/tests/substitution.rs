use const_subst::arena::Arena;
use const_subst::node::{BinaryOperator, Node, NodeId, NumberBase, Span};
use const_subst::substitute::SubstitutionPass;
use const_subst::visit::PassError;

fn span(start: u32, end: u32) -> Span {
    Span { start, end }
}

fn identifier(arena: &mut Arena, start: u32, end: u32, name: &str) -> NodeId {
    arena.allocate(Node::Identifier { span: span(start, end), name: name.to_string() }).unwrap()
}

fn number(arena: &mut Arena, start: u32, end: u32, value: f64, base: NumberBase) -> NodeId {
    arena
        .allocate(Node::NumericLiteral { span: span(start, end), value: value.to_bits(), base })
        .unwrap()
}

fn declarator(arena: &mut Arena, start: u32, end: u32, name: &str, init: Option<NodeId>) -> NodeId {
    arena
        .allocate(Node::VariableDeclarator { span: span(start, end), name: name.to_string(), init })
        .unwrap()
}

fn binary(arena: &mut Arena, start: u32, end: u32, left: NodeId, right: NodeId) -> NodeId {
    arena
        .allocate(Node::BinaryExpression {
            span: span(start, end),
            operator: BinaryOperator::Addition,
            left,
            right,
        })
        .unwrap()
}

fn other(arena: &mut Arena, start: u32, end: u32, children: Vec<NodeId>) -> NodeId {
    arena.allocate(Node::Other { span: span(start, end), children }).unwrap()
}

fn program(arena: &mut Arena, end: u32, body: Vec<NodeId>) -> NodeId {
    arena.allocate(Node::Program { span: span(0, end), body }).unwrap()
}

fn children_of(arena: &Arena, id: NodeId) -> Vec<NodeId> {
    let node = arena.get(id).unwrap();
    (0..node.child_count()).map(|k| node.child(k).unwrap()).collect()
}

fn literal(start: u32, end: u32, value: f64) -> Node {
    Node::NumericLiteral { span: span(start, end), value: value.to_bits(), base: NumberBase::Decimal }
}

// const PI = 3.14; console.log(PI + PI);
#[test]
fn captures_then_rewrites_both_operands() {
    let mut arena = Arena::new();
    let init = number(&mut arena, 11, 15, 3.14, NumberBase::Float);
    let pi = declarator(&mut arena, 6, 15, "PI", Some(init));
    let declaration = other(&mut arena, 0, 16, vec![pi]);
    let console = identifier(&mut arena, 17, 24, "console");
    let callee = other(&mut arena, 17, 28, vec![console]);
    let left = identifier(&mut arena, 29, 31, "PI");
    let right = identifier(&mut arena, 34, 36, "PI");
    let sum = binary(&mut arena, 29, 36, left, right);
    let call = other(&mut arena, 17, 37, vec![callee, sum]);
    let root = program(&mut arena, 38, vec![declaration, call]);
    let slots = arena.len();

    let mut pass = SubstitutionPass::new("PI".to_string());
    assert_eq!(pass.run(&mut arena, root), Ok(()));

    assert_eq!(pass.captured, Some(3.14f64.to_bits()));
    assert_eq!(children_of(&arena, root), vec![declaration, call]);
    assert_eq!(children_of(&arena, call), vec![callee, sum]);
    let operands = children_of(&arena, sum);
    assert_eq!(operands.len(), 2);
    assert_eq!(arena.get(operands[0]), Some(&literal(29, 31, 3.14)));
    assert_eq!(arena.get(operands[1]), Some(&literal(34, 36, 3.14)));
    // The declaration keeps its own literal, and the reads stay in the arena.
    assert_eq!(children_of(&arena, pi), vec![init]);
    assert_eq!(
        arena.get(init),
        Some(&Node::NumericLiteral {
            span: span(11, 15),
            value: 3.14f64.to_bits(),
            base: NumberBase::Float
        })
    );
    assert_eq!(arena.len(), slots + 2);
    assert_eq!(
        arena.get(left),
        Some(&Node::Identifier { span: span(29, 31), name: "PI".to_string() })
    );
}

// const PI = "x"; PI + 1;
#[test]
fn initializer_that_is_no_number_captures_nothing() {
    let mut arena = Arena::new();
    let text = other(&mut arena, 11, 14, vec![]);
    let pi = declarator(&mut arena, 6, 14, "PI", Some(text));
    let left = identifier(&mut arena, 16, 18, "PI");
    let right = number(&mut arena, 21, 22, 1.0, NumberBase::Decimal);
    let sum = binary(&mut arena, 16, 22, left, right);
    let root = program(&mut arena, 23, vec![pi, sum]);

    let mut pass = SubstitutionPass::new("PI".to_string());
    assert_eq!(pass.run(&mut arena, root), Err(PassError::UnboundConstant));
    assert_eq!(pass.captured, None);
    assert_eq!(children_of(&arena, sum), vec![left, right]);
}

// const PI = 1; const PI = 2; x + PI;
#[test]
fn last_declarator_visited_wins() {
    let mut arena = Arena::new();
    let one = number(&mut arena, 11, 12, 1.0, NumberBase::Decimal);
    let first = declarator(&mut arena, 6, 12, "PI", Some(one));
    let two = number(&mut arena, 25, 26, 2.0, NumberBase::Decimal);
    let second = declarator(&mut arena, 20, 26, "PI", Some(two));
    let x = identifier(&mut arena, 28, 29, "x");
    let read = identifier(&mut arena, 32, 34, "PI");
    let sum = binary(&mut arena, 28, 34, x, read);
    let root = program(&mut arena, 35, vec![first, second, sum]);

    let mut pass = SubstitutionPass::new("PI".to_string());
    assert_eq!(pass.run(&mut arena, root), Ok(()));
    assert_eq!(pass.captured, Some(2.0f64.to_bits()));
    let operands = children_of(&arena, sum);
    assert_eq!(operands[0], x);
    assert_eq!(arena.get(operands[1]), Some(&literal(32, 34, 2.0)));
}

// const PI = 3.14; f(PI);
#[test]
fn call_argument_is_left_alone() {
    let mut arena = Arena::new();
    let init = number(&mut arena, 11, 15, 3.14, NumberBase::Float);
    let pi = declarator(&mut arena, 6, 15, "PI", Some(init));
    let f = identifier(&mut arena, 17, 18, "f");
    let argument = identifier(&mut arena, 19, 21, "PI");
    let call = other(&mut arena, 17, 22, vec![f, argument]);
    let root = program(&mut arena, 23, vec![pi, call]);
    let slots = arena.len();

    let mut pass = SubstitutionPass::new("PI".to_string());
    assert_eq!(pass.run(&mut arena, root), Ok(()));
    assert_eq!(pass.captured, Some(3.14f64.to_bits()));
    assert_eq!(children_of(&arena, call), vec![f, argument]);
    assert_eq!(
        arena.get(argument),
        Some(&Node::Identifier { span: span(19, 21), name: "PI".to_string() })
    );
    assert_eq!(arena.len(), slots);
}

// PI + 1;
#[test]
fn read_without_declaration_fails() {
    let mut arena = Arena::new();
    let left = identifier(&mut arena, 0, 2, "PI");
    let right = number(&mut arena, 5, 6, 1.0, NumberBase::Decimal);
    let sum = binary(&mut arena, 0, 6, left, right);
    let root = program(&mut arena, 7, vec![sum]);
    let slots = arena.len();

    let mut pass = SubstitutionPass::new("PI".to_string());
    assert_eq!(pass.run(&mut arena, root), Err(PassError::UnboundConstant));
    assert_eq!(pass.captured, None);
    assert_eq!(arena.len(), slots);
    assert_eq!(children_of(&arena, root), vec![sum]);
    assert_eq!(children_of(&arena, sum), vec![left, right]);
}

// const PI = 3.14; PI + PI;  run twice
#[test]
fn second_run_changes_nothing() {
    let mut arena = Arena::new();
    let init = number(&mut arena, 11, 15, 3.14, NumberBase::Float);
    let pi = declarator(&mut arena, 6, 15, "PI", Some(init));
    let left = identifier(&mut arena, 17, 19, "PI");
    let right = identifier(&mut arena, 22, 24, "PI");
    let sum = binary(&mut arena, 17, 24, left, right);
    let root = program(&mut arena, 25, vec![pi, sum]);

    let mut first = SubstitutionPass::new("PI".to_string());
    assert_eq!(first.run(&mut arena, root), Ok(()));
    let slots = arena.len();
    let operands = children_of(&arena, sum);

    let mut second = SubstitutionPass::new("PI".to_string());
    assert_eq!(second.run(&mut arena, root), Ok(()));
    assert_eq!(second, first);
    assert_eq!(arena.len(), slots);
    assert_eq!(children_of(&arena, sum), operands);
    assert_eq!(arena.get(operands[0]), Some(&literal(17, 19, 3.14)));
    assert_eq!(arena.get(operands[1]), Some(&literal(22, 24, 3.14)));
}

// let PI; PI + 1;
#[test]
fn declarator_without_initializer_captures_nothing() {
    let mut arena = Arena::new();
    let pi = declarator(&mut arena, 4, 6, "PI", None);
    let left = identifier(&mut arena, 8, 10, "PI");
    let right = number(&mut arena, 13, 14, 1.0, NumberBase::Decimal);
    let sum = binary(&mut arena, 8, 14, left, right);
    let root = program(&mut arena, 15, vec![pi, sum]);

    let mut pass = SubstitutionPass::new("PI".to_string());
    assert_eq!(pass.run(&mut arena, root), Err(PassError::UnboundConstant));
    assert_eq!(pass.captured, None);
}

// const E = 2.71; PI;
#[test]
fn declarator_of_another_name_captures_nothing() {
    let mut arena = Arena::new();
    let init = number(&mut arena, 10, 14, 2.71, NumberBase::Float);
    let e = declarator(&mut arena, 6, 14, "E", Some(init));
    let read = identifier(&mut arena, 16, 18, "PI");
    let root = program(&mut arena, 19, vec![e, read]);

    let mut pass = SubstitutionPass::new("PI".to_string());
    assert_eq!(pass.run(&mut arena, root), Err(PassError::UnboundConstant));
    assert_eq!(pass.captured, None);
    assert_eq!(children_of(&arena, root), vec![e, read]);
}

// PI + 1; const PI = 3;
#[test]
fn read_before_the_declaration_fails() {
    let mut arena = Arena::new();
    let left = identifier(&mut arena, 0, 2, "PI");
    let right = number(&mut arena, 5, 6, 1.0, NumberBase::Decimal);
    let sum = binary(&mut arena, 0, 6, left, right);
    let init = number(&mut arena, 19, 20, 3.0, NumberBase::Decimal);
    let pi = declarator(&mut arena, 14, 20, "PI", Some(init));
    let root = program(&mut arena, 21, vec![sum, pi]);

    let mut pass = SubstitutionPass::new("PI".to_string());
    assert_eq!(pass.run(&mut arena, root), Err(PassError::UnboundConstant));
    // The walk stopped at the read: the declarator after it was never seen.
    assert_eq!(pass.captured, None);
    assert_eq!(children_of(&arena, sum), vec![left, right]);
}

// const PI = 3; x + PI; with nothing to replace on the left
#[test]
fn failure_leaves_the_tree_as_it_was() {
    let mut arena = Arena::new();
    let x = identifier(&mut arena, 0, 1, "x");
    let y = identifier(&mut arena, 4, 5, "y");
    let first = binary(&mut arena, 0, 5, x, y);
    let left = identifier(&mut arena, 7, 8, "z");
    let read = identifier(&mut arena, 11, 13, "PI");
    let second = binary(&mut arena, 7, 13, left, read);
    let root = program(&mut arena, 14, vec![first, second]);
    let slots = arena.len();

    let mut pass = SubstitutionPass::new("PI".to_string());
    assert_eq!(pass.run(&mut arena, root), Err(PassError::UnboundConstant));
    assert_eq!(arena.len(), slots);
    assert_eq!(children_of(&arena, root), vec![first, second]);
    assert_eq!(children_of(&arena, first), vec![x, y]);
    assert_eq!(children_of(&arena, second), vec![left, read]);
}

// const PI = 3.14; const y = PI + 1;
#[test]
fn initializer_of_a_declarator_is_not_entered() {
    let mut arena = Arena::new();
    let init = number(&mut arena, 11, 15, 3.14, NumberBase::Float);
    let pi = declarator(&mut arena, 6, 15, "PI", Some(init));
    let read = identifier(&mut arena, 27, 29, "PI");
    let one = number(&mut arena, 32, 33, 1.0, NumberBase::Decimal);
    let sum = binary(&mut arena, 27, 33, read, one);
    let y = declarator(&mut arena, 23, 33, "y", Some(sum));
    let root = program(&mut arena, 34, vec![pi, y]);
    let slots = arena.len();

    let mut pass = SubstitutionPass::new("PI".to_string());
    assert_eq!(pass.run(&mut arena, root), Ok(()));
    assert_eq!(arena.len(), slots);
    assert_eq!(children_of(&arena, y), vec![sum]);
    assert_eq!(children_of(&arena, sum), vec![read, one]);
}

// const y = PI;  with nothing captured: the read is never met
#[test]
fn unreached_read_does_not_fail_the_pass() {
    let mut arena = Arena::new();
    let read = identifier(&mut arena, 10, 12, "PI");
    let y = declarator(&mut arena, 6, 12, "y", Some(read));
    let argument = identifier(&mut arena, 16, 18, "PI");
    let call = other(&mut arena, 14, 19, vec![argument]);
    let root = program(&mut arena, 20, vec![y, call]);

    let mut pass = SubstitutionPass::new("PI".to_string());
    assert_eq!(pass.run(&mut arena, root), Ok(()));
    assert_eq!(pass.captured, None);
    assert_eq!(children_of(&arena, y), vec![read]);
    assert_eq!(children_of(&arena, call), vec![argument]);
}

// const PI = 0x10; PI;
#[test]
fn bare_read_becomes_a_decimal_literal() {
    let mut arena = Arena::new();
    let init = number(&mut arena, 11, 15, 16.0, NumberBase::Hex);
    let pi = declarator(&mut arena, 6, 15, "PI", Some(init));
    let read = identifier(&mut arena, 17, 19, "PI");
    let root = program(&mut arena, 20, vec![pi, read]);

    let mut pass = SubstitutionPass::new("PI".to_string());
    assert_eq!(pass.run(&mut arena, root), Ok(()));
    let body = children_of(&arena, root);
    assert_eq!(body.len(), 2);
    assert_eq!(body[0], pi);
    assert_ne!(body[1], read);
    assert_eq!(arena.get(body[1]), Some(&literal(17, 19, 16.0)));
}

// const PI = 3; (PI * 2) + (x - PI);
#[test]
fn nested_operands_are_rewritten() {
    let mut arena = Arena::new();
    let init = number(&mut arena, 11, 12, 3.0, NumberBase::Decimal);
    let pi = declarator(&mut arena, 6, 12, "PI", Some(init));
    let a = identifier(&mut arena, 15, 17, "PI");
    let two = number(&mut arena, 20, 21, 2.0, NumberBase::Decimal);
    let product = binary(&mut arena, 15, 21, a, two);
    let x = identifier(&mut arena, 26, 27, "x");
    let b = identifier(&mut arena, 30, 32, "PI");
    let difference = binary(&mut arena, 26, 32, x, b);
    let sum = binary(&mut arena, 14, 33, product, difference);
    let root = program(&mut arena, 34, vec![pi, sum]);

    let mut pass = SubstitutionPass::new("PI".to_string());
    assert_eq!(pass.run(&mut arena, root), Ok(()));
    assert_eq!(children_of(&arena, sum), vec![product, difference]);
    let left = children_of(&arena, product);
    assert_eq!(arena.get(left[0]), Some(&literal(15, 17, 3.0)));
    assert_eq!(left[1], two);
    let right = children_of(&arena, difference);
    assert_eq!(right[0], x);
    assert_eq!(arena.get(right[1]), Some(&literal(30, 32, 3.0)));
}

// const a = 1, TAU = 6.28; g(h(TAU + 1), TAU);
#[test]
fn walk_passes_through_other_nodes() {
    let mut arena = Arena::new();
    let one = number(&mut arena, 10, 11, 1.0, NumberBase::Decimal);
    let a = declarator(&mut arena, 6, 11, "a", Some(one));
    let init = number(&mut arena, 19, 23, 6.28, NumberBase::Float);
    let tau = declarator(&mut arena, 13, 23, "TAU", Some(init));
    let declaration = other(&mut arena, 0, 24, vec![a, tau]);
    let g = identifier(&mut arena, 25, 26, "g");
    let h = identifier(&mut arena, 27, 28, "h");
    let read = identifier(&mut arena, 29, 32, "TAU");
    let increment = number(&mut arena, 35, 36, 1.0, NumberBase::Decimal);
    let sum = binary(&mut arena, 29, 36, read, increment);
    let inner = other(&mut arena, 27, 37, vec![h, sum]);
    let argument = identifier(&mut arena, 39, 42, "TAU");
    let outer = other(&mut arena, 25, 43, vec![g, inner, argument]);
    let root = program(&mut arena, 44, vec![declaration, outer]);

    let mut pass = SubstitutionPass::new("TAU".to_string());
    assert_eq!(pass.run(&mut arena, root), Ok(()));
    assert_eq!(pass.captured, Some(6.28f64.to_bits()));
    assert_eq!(pass.target, "TAU");
    assert_eq!(children_of(&arena, outer), vec![g, inner, argument]);
    assert_eq!(children_of(&arena, inner), vec![h, sum]);
    let operands = children_of(&arena, sum);
    assert_eq!(arena.get(operands[0]), Some(&literal(29, 32, 6.28)));
    assert_eq!(operands[1], increment);
}

#[test]
fn root_that_is_a_read_is_left_alone() {
    let mut arena = Arena::new();
    let read = identifier(&mut arena, 0, 2, "PI");
    let mut pass = SubstitutionPass { target: "PI".to_string(), captured: Some(1.5f64.to_bits()) };
    assert_eq!(pass.run(&mut arena, read), Ok(()));
    assert_eq!(arena.len(), 1);
    assert_eq!(arena.get(read), Some(&Node::Identifier { span: span(0, 2), name: "PI".to_string() }));
}

#[test]
fn new_pass_has_captured_nothing() {
    let pass = SubstitutionPass::new("PI".to_string());
    assert_eq!(pass.target, "PI");
    assert_eq!(pass.captured, None);
}

// PI + 2, walked from the expression itself by a pass that holds a value
#[test]
fn captured_value_is_used_as_it_is() {
    let mut arena = Arena::new();
    let read = identifier(&mut arena, 0, 2, "PI");
    let two = number(&mut arena, 5, 6, 2.0, NumberBase::Decimal);
    let sum = binary(&mut arena, 0, 6, read, two);
    let value = f64::NAN.to_bits() | 1;
    let mut pass = SubstitutionPass { target: "PI".to_string(), captured: Some(value) };
    assert_eq!(pass.run(&mut arena, sum), Ok(()));
    let operands = children_of(&arena, sum);
    assert_eq!(
        arena.get(operands[0]),
        Some(&Node::NumericLiteral { span: span(0, 2), value, base: NumberBase::Decimal })
    );
}
