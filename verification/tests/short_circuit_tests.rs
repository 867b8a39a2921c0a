use simple_parser_ll1::codegen::{JumpTarget, Quad};
use simple_parser_ll1::lexer::tokenize;
use simple_parser_ll1::sd_parser::parse_bool;

/// Runs the jump code from quadruple 0, the conditional jump at index `k`
/// taken when `outcome(k)` holds; returns the pending jump control leaves by.
fn exit_index(quads: &[Quad], outcome: &dyn Fn(usize) -> bool) -> usize {
    let mut pc = 0;
    loop {
        let (taken, target) = match &quads[pc] {
            Quad::JumpIf { target, .. } => (outcome(pc), target),
            Quad::Jump { target } => (true, target),
            _ => {
                pc += 1;
                continue;
            }
        };
        if !taken {
            pc += 1;
            continue;
        }
        match target {
            JumpTarget::Pending => return pc,
            JumpTarget::Target(t) => {
                assert!(*t > pc, "jumps only go forward");
                pc = *t;
            }
        }
    }
}

fn conditional_jumps(quads: &[Quad]) -> Vec<usize> {
    quads
        .iter()
        .enumerate()
        .filter(|(_, q)| matches!(q, Quad::JumpIf { .. }))
        .map(|(i, _)| i)
        .collect()
}

/// For every combination of comparison outcomes, control leaves by the
/// true chain exactly when `expected` holds of the outcomes (in order).
fn check_decides(input: &str, expected: &dyn Fn(&[bool]) -> bool) {
    let tokens = tokenize(input).unwrap();
    let out = parse_bool(&tokens).unwrap();
    let quads = &out.codegen.quads;
    let conds = conditional_jumps(quads);
    let n = conds.len();
    for bits in 0..(1u32 << n) {
        let values: Vec<bool> = (0..n).map(|i| bits & (1 << i) != 0).collect();
        let outcome = |pc: usize| {
            let i = conds.iter().position(|&c| c == pc).unwrap();
            values[i]
        };
        let exit = exit_index(quads, &outcome);
        let by_true = out.attr.tc.contains(&exit);
        let by_false = out.attr.fc.contains(&exit);
        assert!(by_true != by_false, "{input}: exit {exit} in exactly one chain");
        assert_eq!(by_true, expected(&values), "{input}: outcomes {values:?}");
    }
}

#[test]
fn single_comparison_decides_itself() {
    check_decides("a < b", &|v| v[0]);
}

#[test]
fn and_is_short_circuit_conjunction() {
    check_decides("a < b and c > d", &|v| v[0] && v[1]);
}

#[test]
fn or_is_short_circuit_disjunction() {
    check_decides("a < b or c > d", &|v| v[0] || v[1]);
}

#[test]
fn not_negates() {
    check_decides("not a < b", &|v| !v[0]);
}

#[test]
fn and_binds_tighter_than_or() {
    check_decides("a < b or c > d and e != f", &|v| v[0] || (v[1] && v[2]));
}

#[test]
fn parentheses_group_first() {
    check_decides("(a < b or c > d) and e != f", &|v| (v[0] || v[1]) && v[2]);
}

#[test]
fn literals_and_arithmetic_operands() {
    check_decides("not false and a + 1 >= b * 2 or true", &|v| (true && v[0]) || true);
    check_decides("false or a - b == c", &|v| v[0]);
}

#[test]
fn nested_not_and_groups() {
    check_decides("not (a < b and not c > d) or e <= f", &|v| !(v[0] && !v[1]) || v[2]);
}
