use veloci::expression::{
    chars_of, float_literal_at, Arithmetic, Operand, OperatorType, PlanError, ScoreExpression,
};

fn is_float(text: &str) -> bool {
    let cs = chars_of(text);
    float_literal_at(&cs, 0, cs.len())
}

fn describe(ops: &Vec<OperatorType>) -> Vec<String> {
    ops.iter()
        .map(|o| match o {
            OperatorType::Division => "/".to_string(),
            OperatorType::Mul => "*".to_string(),
            OperatorType::Add => "+".to_string(),
            OperatorType::Sub => "-".to_string(),
            OperatorType::_Score_ => "$SCORE".to_string(),
            OperatorType::Float(text) => format!("f:{}", text),
        })
        .collect()
}

fn tokens(expression: &str) -> Vec<String> {
    describe(ScoreExpression::new(expression.to_string()).ops())
}

fn operand_value(o: &Operand, rank: f32) -> f32 {
    match o {
        Operand::Score => rank,
        Operand::Number(text) => text.parse::<f32>().unwrap(),
    }
}

fn score(expression: &str, rank: f32) -> f32 {
    let plan = ScoreExpression::new(expression.to_string()).plan().unwrap();
    let left = operand_value(&plan.left, rank);
    let right = operand_value(&plan.right, rank);
    match plan.operator {
        Arithmetic::Division => left / right,
        Arithmetic::Mul => left * right,
        Arithmetic::Add => left + right,
        Arithmetic::Sub => left - right,
    }
}

#[test]
fn test_parser() {
    assert_eq!(score("$SCORE + 2.0", 10.0), 12.0);
    assert_eq!(score("10.0 / $SCORE", 10.0), 1.0);
    assert_eq!(score("$SCORE * $SCORE", 10.0), 100.0);
}

#[test]
fn float_grammar_agrees_with_std() {
    let cases = [
        "", "0", "1", "12", "1.", ".5", ".", "1.5", "1.5.2", "+1", "-1", "+", "-", "1e5", "1E5",
        "1e", "1e+5", "1e-5", "1e+", "e5", ".e5", "1.e5", ".5e5", "inf", "INF", "Inf", "-inf",
        "+infinity", "Infinity", "infin", "nan", "NaN", "-nan", "+NAN", "nana", "1_000", " 1",
        "1 ", "0x10", "1e5.0", "--1", "+-1", "١", "1.5E+10", "00012.0500", "$SCORE", "2.0*3",
        "e", "E", "1ee5", "1e5e5", "infinityy", "in", "na",
    ];
    for case in cases.iter() {
        assert_eq!(is_float(case), case.parse::<f32>().is_ok(), "case {:?}", case);
    }
}

#[test]
fn expressions_read_into_tokens() {
    assert_eq!(tokens("$SCORE + 2.0"), vec!["$SCORE", "+", "f:2.0"]);
    assert_eq!(tokens("10.0 / $SCORE"), vec!["f:10.0", "/", "$SCORE"]);
    assert_eq!(tokens("$SCORE * $SCORE"), vec!["$SCORE", "*", "$SCORE"]);
    assert_eq!(tokens("$SCORE - 1"), vec!["$SCORE", "-", "f:1"]);
}

#[test]
fn operators_end_a_word_at_once() {
    // A sign is taken as an operator before the number after it.
    assert_eq!(tokens("-5"), vec!["-", "f:5"]);
    assert_eq!(tokens("+1"), vec!["+", "f:1"]);
    assert_eq!(tokens("$SCORE+2"), vec!["$SCORE", "+", "f:2"]);
    // A word that never spells an operator and is no number is dropped.
    assert_eq!(tokens("2.0*3"), Vec::<String>::new());
    assert_eq!(tokens("abc"), Vec::<String>::new());
    assert_eq!(tokens(""), Vec::<String>::new());
    assert_eq!(tokens("   "), Vec::<String>::new());
    assert_eq!(tokens("1e5  inf"), vec!["f:1e5", "f:inf"]);
}

#[test]
fn expression_keeps_its_text() {
    let e = ScoreExpression::new("$SCORE + 2.0".to_string());
    assert_eq!(e.expression(), "$SCORE + 2.0");
}

#[test]
fn plan_reports_what_is_missing() {
    let plan = |s: &str| ScoreExpression::new(s.to_string()).plan().map(|_| ());
    assert_eq!(plan(""), Err(PlanError::MissingToken(0)));
    assert_eq!(plan("+"), Err(PlanError::BadStart));
    assert_eq!(plan("1"), Err(PlanError::MissingToken(2)));
    assert_eq!(plan("1 +"), Err(PlanError::MissingToken(2)));
    assert_eq!(plan("1 + +"), Err(PlanError::BadEnd));
    assert_eq!(plan("1 2 3"), Err(PlanError::BadOperator));
    assert_eq!(plan("1 - 3"), Ok(()));
}

#[test]
fn plan_of_a_written_expression() {
    let p = ScoreExpression::new("2.5 - $SCORE".to_string()).plan().unwrap();
    assert!(matches!(p.left, Operand::Number(ref t) if t == "2.5"));
    assert_eq!(p.operator, Arithmetic::Sub);
    assert!(matches!(p.right, Operand::Score));
    assert_eq!(score("2.5 - $SCORE", 1.0), 1.5);
}

#[test]
fn joining_with_a_space_joins_the_tokens() {
    let texts = ["", "$SCORE", "2.0", "+", "-5", "1 +", "abc", "$SCORE*", "inf"];
    for a in texts.iter() {
        for b in texts.iter() {
            let mut joined = tokens(a);
            joined.extend(tokens(b));
            assert_eq!(tokens(&format!("{} {}", a, b)), joined, "{:?} {:?}", a, b);
        }
    }
}
