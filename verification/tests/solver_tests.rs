//! End-to-end tests of the solver pipeline, driven by a real IEEE
//! double-precision arithmetic oracle.

use dice_solver::CalculateResult;
use dice_solver::FloatAnswer;
use dice_solver::FloatQuery;
use dice_solver::IntermediateResult;
use dice_solver::OpKind;
use dice_solver::PairingEntry;
use dice_solver::SolverConfig;
use dice_solver::calculate_result;
use dice_solver::calculate_results;
use dice_solver::format_equation;
use dice_solver::get_operations;
use dice_solver::get_pairing_permutations;
use dice_solver::get_sortable_equation;
use dice_solver::operations_catalog;
use dice_solver::validate_solver_config;

fn real_oracle(q: FloatQuery) -> FloatAnswer {
    match q {
        FloatQuery::FaceValue(v) => FloatAnswer::Bits((v as f64).to_bits()),
        FloatQuery::Combine(k, a, b) => {
            let x = f64::from_bits(a);
            let y = f64::from_bits(b);
            let r = match k {
                OpKind::Plus => x + y,
                OpKind::Minus => x - y,
                OpKind::Multiply => x * y,
                OpKind::Divide => x / y,
                OpKind::Power => x.powf(y),
                OpKind::Root => x.powf(1.00_f64 / y),
                OpKind::Modulo => x % y,
            };
            FloatAnswer::Bits(r.to_bits())
        }
        FloatQuery::Less(a, b) => FloatAnswer::Flag(f64::from_bits(a) < f64::from_bits(b)),
        FloatQuery::IsNan(a) => FloatAnswer::Flag(f64::from_bits(a).is_nan()),
        FloatQuery::IsIntegral(a) => FloatAnswer::Flag(f64::from_bits(a).fract() == 0.0),
        FloatQuery::AtLeast(a, min) => FloatAnswer::Flag(f64::from_bits(a) >= min as f64),
        FloatQuery::AtMost(a, max) => FloatAnswer::Flag(f64::from_bits(a) <= max as f64),
        FloatQuery::ToTotal(a) => FloatAnswer::Int(f64::from_bits(a) as u64),
        FloatQuery::Render(a) => FloatAnswer::Text(format!("{}", f64::from_bits(a))),
    }
}

fn single(v: isize) -> PairingEntry {
    PairingEntry::Single(v)
}

fn pair(left: PairingEntry, right: PairingEntry) -> PairingEntry {
    PairingEntry::Pair {
        left: Box::new(left),
        right: Box::new(right),
    }
}

fn new_pair_group_first_123() -> PairingEntry {
    pair(pair(single(1), single(2)), single(3))
}

fn new_pair_group_last_123() -> PairingEntry {
    pair(single(1), pair(single(2), single(3)))
}

fn new_pair_group_first_321() -> PairingEntry {
    pair(pair(single(3), single(2)), single(1))
}

fn chars(s: &str) -> Vec<char> {
    s.chars().collect()
}

fn all_ids() -> Vec<String> {
    vec![
        "plus".to_string(),
        "minus".to_string(),
        "multiply".to_string(),
        "divide".to_string(),
        "power".to_string(),
        "root".to_string(),
        "modulo".to_string(),
    ]
}

fn fringe_of(t: &PairingEntry) -> Vec<isize> {
    match t {
        PairingEntry::Single(v) => vec![*v],
        PairingEntry::Pair { left, right } => {
            let mut out = fringe_of(left);
            out.extend(fringe_of(right));
            out
        }
    }
}

#[test]
fn test_get_sortable_equation() {
    assert_eq!(
        get_sortable_equation(&"4 = (1 + 3)".to_string()),
        "4 Z X1 + 3Y"
    );
}

#[test]
fn test_get_pairing_permutations() {
    assert_eq!(
        get_pairing_permutations(&vec![single(1), single(2), single(3)]),
        vec![new_pair_group_first_123(), new_pair_group_last_123()]
    );
}

#[test]
fn test_calculate_result_with_commutative_swap() {
    let result = calculate_result(
        &new_pair_group_first_321(),
        &vec![OpKind::Plus, OpKind::Minus],
        true,
        &real_oracle,
    );

    assert_eq!(
        result.unwrap(),
        IntermediateResult {
            total_bits: 4.00_f64.to_bits(),
            equation: chars("(2 + 3) - 1"),
            is_leaf: false,
        }
    );
}

#[test]
fn test_calculate_result_without_commutative_swap() {
    let result = calculate_result(
        &new_pair_group_first_123(),
        &vec![OpKind::Plus, OpKind::Minus],
        true,
        &real_oracle,
    );

    assert_eq!(
        result.unwrap(),
        IntermediateResult {
            total_bits: 0.00_f64.to_bits(),
            equation: chars("(1 + 2) - 3"),
            is_leaf: false,
        }
    );
}

#[test]
fn test_pairing_permutations_catalan_counts() {
    // One leaf order of n faces yields (n-1)! generated trees, of which
    // exactly Catalan(n-1) are distinct.
    let two = get_pairing_permutations(&vec![single(1), single(2)]);
    assert_eq!(two.len(), 1);

    let four = get_pairing_permutations(&vec![single(1), single(2), single(3), single(4)]);
    assert_eq!(four.len(), 6);
    let mut distinct: Vec<&PairingEntry> = Vec::new();
    for t in four.iter() {
        if !distinct.iter().any(|d| *d == t) {
            distinct.push(t);
        }
    }
    assert_eq!(distinct.len(), 5);

    for t in four.iter() {
        assert_eq!(fringe_of(t), vec![1, 2, 3, 4]);
    }
}

#[test]
fn test_format_equation_known_operation() {
    assert_eq!(
        format_equation("plus".to_string(), "2".to_string(), "3".to_string()),
        Ok("2 + 3".to_string())
    );
    assert_eq!(
        format_equation("root".to_string(), "8".to_string(), "3".to_string()),
        Ok("root(8)(3)".to_string())
    );
    assert_eq!(
        format_equation("modulo".to_string(), "7".to_string(), "4".to_string()),
        Ok("7 % 4".to_string())
    );
}

#[test]
fn test_format_equation_unknown_operation() {
    assert_eq!(
        format_equation("unknown".to_string(), "2".to_string(), "3".to_string()),
        Err("Failed to find operation with id of 'unknown'.".to_string())
    );
}

#[test]
fn test_get_operations_catalog_snapshot() {
    let ops = get_operations();
    let expected = [
        ("plus", "Plus", true),
        ("minus", "Minus", false),
        ("multiply", "Multiply", true),
        ("divide", "Divide", false),
        ("power", "Power", false),
        ("root", "Root", false),
        ("modulo", "Modulo", false),
    ];
    assert_eq!(ops.len(), expected.len());
    for (op, (id, name, commutative)) in ops.iter().zip(expected.iter()) {
        assert_eq!(op.id, *id);
        assert_eq!(op.name, *name);
        assert_eq!(op.is_commutative, *commutative);
    }
}

#[test]
fn test_operations_catalog_kinds_match_descriptors() {
    let catalog = operations_catalog();
    let snapshot = get_operations();
    assert_eq!(catalog.len(), snapshot.len());
    for (entry, op) in catalog.iter().zip(snapshot.iter()) {
        assert_eq!(entry.operation, *op);
    }
    assert_eq!(catalog[0].kind, OpKind::Plus);
    assert_eq!(catalog[6].kind, OpKind::Modulo);
}

#[test]
fn test_solve_end_to_end_456() {
    let config = SolverConfig {
        minTotal: 1,
        maxTotal: 36,
        faces: vec![4, 5, 6],
        operation_ids: all_ids(),
    };
    let results = calculate_results(&config, &real_oracle).unwrap();
    assert_eq!(results.len(), 106);
    for r in results.iter() {
        assert!(r.total >= 1 && r.total <= 36);
        assert_eq!(r.fullEquation, format!("{} = {}", r.total, r.equation));
        assert_eq!(
            r.sortableEquation,
            get_sortable_equation(&format!("{:0>4} = {}", r.total, r.equation))
        );
    }
    for w in results.windows(2) {
        assert!(w[0].sortableEquation <= w[1].sortableEquation);
    }
    for i in 0..results.len() {
        for j in (i + 1)..results.len() {
            assert_ne!(results[i], results[j]);
        }
    }
}

#[test]
fn test_solve_is_idempotent() {
    let config = SolverConfig {
        minTotal: 1,
        maxTotal: 20,
        faces: vec![2, 3, 5],
        operation_ids: all_ids(),
    };
    let first = calculate_results(&config, &real_oracle).unwrap();
    let second = calculate_results(&config, &real_oracle).unwrap();
    assert_eq!(first, second);
}

#[test]
fn test_solve_rejects_unknown_operation() {
    let config = SolverConfig {
        minTotal: 1,
        maxTotal: 36,
        faces: vec![4, 5, 6],
        operation_ids: vec!["plus".to_string(), "bogus".to_string()],
    };
    assert_eq!(
        calculate_results(&config, &real_oracle),
        Err("Invalid operation bogus".to_string())
    );
    assert_eq!(
        validate_solver_config(&config),
        Err("Invalid operation bogus".to_string())
    );
}

#[test]
fn test_solve_short_circuits_to_empty() {
    let one_face = SolverConfig {
        minTotal: 0,
        maxTotal: 100,
        faces: vec![4],
        operation_ids: all_ids(),
    };
    assert_eq!(calculate_results(&one_face, &real_oracle), Ok(Vec::new()));

    let no_faces = SolverConfig {
        minTotal: 0,
        maxTotal: 100,
        faces: Vec::new(),
        operation_ids: all_ids(),
    };
    assert_eq!(calculate_results(&no_faces, &real_oracle), Ok(Vec::new()));

    let no_ops = SolverConfig {
        minTotal: 0,
        maxTotal: 100,
        faces: vec![4, 5, 6],
        operation_ids: Vec::new(),
    };
    assert_eq!(calculate_results(&no_ops, &real_oracle), Ok(Vec::new()));
}

#[test]
fn test_solve_drops_unsolvable_candidates() {
    // 0 / 0 is not a number: with only division selected, two zero faces
    // produce no results rather than an error.
    let config = SolverConfig {
        minTotal: 0,
        maxTotal: 100,
        faces: vec![0, 0],
        operation_ids: vec!["divide".to_string()],
    };
    assert_eq!(calculate_results(&config, &real_oracle), Ok(Vec::new()));
}

#[test]
fn test_solve_two_faces_plus_only() {
    let config = SolverConfig {
        minTotal: 0,
        maxTotal: 100,
        faces: vec![2, 3],
        operation_ids: vec!["plus".to_string()],
    };
    let results = calculate_results(&config, &real_oracle).unwrap();
    // Both leaf orders collapse to the same canonical text.
    assert_eq!(results.len(), 1);
    assert_eq!(results[0].total, 5);
    assert_eq!(results[0].equation, "2 + 3");
    assert_eq!(results[0].fullEquation, "5 = 2 + 3");
    assert_eq!(results[0].sortableEquation, "0005 Z 2 + 3");
}

#[test]
fn test_solve_duplicate_faces_collapse() {
    // Duplicate face values yield duplicate positional permutations; the
    // final deduplication collapses them.
    let config = SolverConfig {
        minTotal: 0,
        maxTotal: 100,
        faces: vec![2, 2],
        operation_ids: vec!["plus".to_string(), "multiply".to_string()],
    };
    let results = calculate_results(&config, &real_oracle).unwrap();
    assert_eq!(results.len(), 2);
    assert_eq!(results[0].fullEquation, "4 = 2 * 2");
    assert_eq!(results[1].fullEquation, "4 = 2 + 2");
}

#[test]
fn test_solve_drops_negative_totals() {
    // Totals below the non-negative range are filtered, not errors.
    let config = SolverConfig {
        minTotal: 0,
        maxTotal: 100,
        faces: vec![2, 5],
        operation_ids: vec!["minus".to_string()],
    };
    let results = calculate_results(&config, &real_oracle).unwrap();
    assert_eq!(results.len(), 1);
    assert_eq!(results[0].fullEquation, "3 = 5 - 2");
}

#[test]
fn test_calculate_result_depth_synchronized_operations() {
    // With assignment [multiply, plus], the root uses plus and both
    // depth-one pairs use multiply: (1*2) + (3*4) = 14.
    let t = pair(
        pair(single(1), single(2)),
        pair(single(3), single(4)),
    );
    let result = calculate_result(
        &t,
        &vec![OpKind::Multiply, OpKind::Plus],
        true,
        &real_oracle,
    )
    .unwrap();
    assert_eq!(f64::from_bits(result.total_bits), 14.0);
    assert_eq!(result.equation, chars("(1 * 2) + (3 * 4)"));
}

#[test]
fn test_calculate_result_cannot_solve() {
    // root(-2)(2) is the square root of a negative number: not a number.
    let t = pair(single(-2), single(2));
    let result = calculate_result(&t, &vec![OpKind::Root], true, &real_oracle);
    assert!(result.is_err());
    assert_eq!(result.unwrap_err().equation, "root(-2)(2)");
}

#[test]
fn test_sortable_equation_leaves_other_text_alone() {
    assert_eq!(
        get_sortable_equation(&"10 = root(4)(2) * 5".to_string()),
        "10 Z rootX4YX2Y * 5"
    );
}
