use argus::ast::{AggOp, BinOp, Expr, Grouping, Matcher};
use argus::error::QueryError;
use argus::lexer::lex;
use argus::parser::{parse, parse_tokens};
use argus::plan::{Plan, lower, plan};
use argus::query::TimeRange;
use argus::timestamp::Timestamp;
use argus::token::Token;

fn parse_str(input: &str) -> Result<Expr, QueryError> {
    parse_tokens(&lex(input).unwrap())
}

#[test]
fn lexes_a_full_query() {
    let tokens = lex("sum by (status) (rate(http_requests_total[5m]))").unwrap();
    assert_eq!(tokens[0], Token::Ident("sum".into()));
    assert!(tokens.contains(&Token::Duration(300_000)));
    assert_eq!(tokens.last(), Some(&Token::Eof));
}

#[test]
fn distinguishes_numbers_and_durations() {
    assert_eq!(lex("0.95").unwrap()[0], Token::Number("0.95".into()));
    assert_eq!(lex("500ms").unwrap()[0], Token::Duration(500));
    assert_eq!(lex("2h").unwrap()[0], Token::Duration(7_200_000));
}

#[test]
fn lexes_matchers() {
    let tokens = lex(r#"x{a="b",c!="d"}"#).unwrap();
    assert!(tokens.contains(&Token::Eq));
    assert!(tokens.contains(&Token::Ne));
    assert!(tokens.contains(&Token::Str("b".into())));
}

#[test]
fn lexer_reports_its_errors() {
    assert_eq!(
        lex("a ! b"),
        Err(QueryError::Lex("expected '=' or '~' after '!'".into()))
    );
    assert_eq!(lex("\"open"), Err(QueryError::Lex("unterminated string".into())));
    assert_eq!(
        lex("a # b"),
        Err(QueryError::Lex("unexpected character '#'".into()))
    );
}

#[test]
fn lexer_handles_escapes_regex_and_units() {
    let tokens = lex(r#"m{a=~'x\'y', b!~"z"} 3d 1w 7s 10m 1.5"#).unwrap();
    assert_eq!(
        tokens,
        vec![
            Token::Ident("m".into()),
            Token::LBrace,
            Token::Ident("a".into()),
            Token::EqRegex,
            Token::Str("x'y".into()),
            Token::Comma,
            Token::Ident("b".into()),
            Token::NeRegex,
            Token::Str("z".into()),
            Token::RBrace,
            Token::Duration(259_200_000),
            Token::Duration(604_800_000),
            Token::Duration(7_000),
            Token::Duration(600_000),
            Token::Number("1.5".into()),
            Token::Eof,
        ]
    );
    // Unicode whitespace separates tokens too.
    assert_eq!(lex("a\u{3000}b").unwrap().len(), 3);
}

#[test]
fn parses_aggregation_over_range_function() {
    let expr = parse_str("sum by (status) (rate(http_requests_total[5m]))").unwrap();
    match expr {
        Expr::Aggregate {
            op: AggOp::Sum,
            grouping: Grouping::By(labels),
            arg,
            param: None,
        } => {
            assert_eq!(labels, vec!["status".to_owned()]);
            assert!(matches!(*arg, Expr::Call { .. }));
        }
        other => panic!("unexpected: {other:?}"),
    }
}

#[test]
fn respects_arithmetic_precedence() {
    // 1 + 2 * 3  parses as  1 + (2 * 3)
    let expr = parse_str("1 + 2 * 3").unwrap();
    match expr {
        Expr::Binary {
            op: BinOp::Add,
            rhs,
            ..
        } => {
            assert!(matches!(*rhs, Expr::Binary { op: BinOp::Mul, .. }));
        }
        other => panic!("unexpected: {other:?}"),
    }
}

#[test]
fn parses_quantile_with_param() {
    let expr = parse_str("quantile(0.95, http_request_duration_ms)").unwrap();
    assert!(matches!(
        expr,
        Expr::Aggregate {
            op: AggOp::Quantile,
            param: Some(_),
            ..
        }
    ));
}

#[test]
fn rejects_trailing_garbage() {
    assert!(parse_str("foo bar").is_err());
}

#[test]
fn subtraction_associates_to_the_left() {
    // 8 - 2 - 1 parses as (8 - 2) - 1
    match parse("8 - 2 - 1").unwrap() {
        Expr::Binary { op: BinOp::Sub, lhs, rhs } => {
            assert!(matches!(*lhs, Expr::Binary { op: BinOp::Sub, .. }));
            assert_eq!(*rhs, Expr::Number("1".into()));
        }
        other => panic!("unexpected: {other:?}"),
    }
}

#[test]
fn parses_selectors_with_matchers_and_ranges() {
    match parse(r#"-up{job="api" instance!="a"}[1m]"#).unwrap() {
        Expr::Neg(inner) => match *inner {
            Expr::Selector(sel) => {
                assert_eq!(sel.metric, "up");
                assert_eq!(
                    sel.matchers,
                    vec![
                        Matcher::Eq("job".into(), "api".into()),
                        Matcher::Ne("instance".into(), "a".into())
                    ]
                );
                assert_eq!(sel.range_ms, Some(60_000));
            }
            other => panic!("unexpected: {other:?}"),
        },
        other => panic!("unexpected: {other:?}"),
    }
}

#[test]
fn parse_errors_name_what_was_found() {
    assert_eq!(
        parse("foo bar"),
        Err(QueryError::Parse("expected Eof, found Ident(\"bar\")".into()))
    );
    assert_eq!(
        parse("sum(a, b)"),
        Err(QueryError::Parse("sum expects one argument".into()))
    );
    assert_eq!(
        parse("quantile(a)"),
        Err(QueryError::Parse("quantile expects (scalar, vector)".into()))
    );
    assert_eq!(
        parse("x[5]"),
        Err(QueryError::Parse("expected a duration like [5m], found Number(5)".into()))
    );
    assert_eq!(parse(")"), Err(QueryError::Parse("unexpected token RParen".into())));
    assert_eq!(
        parse("x{a b}"),
        Err(QueryError::Parse("expected string value, found RBrace".into()))
    );
}

#[test]
fn error_messages_name_their_stage() {
    assert_eq!(QueryError::Lex("x".into()).message(), "lex error: x");
    assert_eq!(QueryError::Parse("x".into()).message(), "parse error: x");
    assert_eq!(QueryError::Unsupported("x".into()).message(), "unsupported: x");
    assert_eq!(QueryError::Eval("x".into()).message(), "evaluation error: x");
}

#[test]
fn aggregation_names_round_trip() {
    for op in [AggOp::Sum, AggOp::Avg, AggOp::Min, AggOp::Max, AggOp::Count, AggOp::Quantile] {
        assert_eq!(AggOp::from_name(op.name()), Some(op));
    }
    assert_eq!(AggOp::from_name("median"), None);
    assert_eq!(BinOp::Div.symbol(), "/");
}

#[test]
fn plans_render_as_a_tree() {
    let plan = plan(r#"sum by (status) (count_over_time(http_request_duration_ms{status!="500"}[10m]))"#)
        .unwrap();
    assert_eq!(
        plan.to_string(),
        "Aggregate sum by (status)\n  Func count_over_time\n    Select http_request_duration_ms{status!=\"500\"} [10m]\n"
    );
    let scaled = plan_of("avg_over_time(x[90s]) / 1000.50");
    assert_eq!(
        scaled.to_string(),
        "Binary /\n  Func avg_over_time\n    Select x [90s]\n  Scalar 1000.5\n"
    );
    let q = plan_of("quantile_over_time(0.950, x[1500ms])");
    assert_eq!(q.to_string(), "Func quantile_over_time (φ=0.95)\n  Select x [1500ms]\n");
    let neg = plan_of("-quantile without (a, b) (0.5, rate(x[2h]))");
    assert_eq!(
        neg.to_string(),
        "Neg\n  Aggregate quantile without (a, b) (φ=0.5)\n    Func rate\n      Select x [2h]\n"
    );
}

fn plan_of(q: &str) -> Plan {
    plan(q).unwrap()
}

#[test]
fn planner_rejects_ill_typed_queries() {
    let unsupported = |q: &str, m: &str| {
        assert_eq!(lower(&parse(q).unwrap()).err(), Some(QueryError::Unsupported(m.into())));
    };
    unsupported("x[5m]", "result is a range vector; wrap it in a function such as rate()");
    unsupported("-x[5m]", "cannot negate a range vector");
    unsupported(r#"x{a=~"b"}"#, "regex matchers (=~, !~) are not supported yet");
    unsupported("foo(x[5m])", "unknown function `foo`");
    unsupported("rate(x)", "rate expects a range vector like metric[5m]");
    unsupported("sum(x[5m])", "sum expects an instant vector");
    unsupported("x + y", "binary operations between two vectors are not supported yet");
    unsupported("x[5m] * 2", "range vectors are only allowed inside functions");
    unsupported("quantile(1 + 1, y)", "quantile parameter must be a constant number");
    assert_eq!(
        plan("quantile(x, y)").err(),
        Some(QueryError::Parse("quantile parameter must be a scalar".into()))
    );
    assert_eq!(
        plan("rate(x[1m], y[1m])").err(),
        Some(QueryError::Parse("rate expects one argument".into()))
    );
    assert_eq!(
        plan("quantile_over_time(x[1m])").err(),
        Some(QueryError::Parse("quantile_over_time expects (scalar, range vector)".into()))
    );
    assert!(plan("2 * -rate(x[5m]) + 1").is_ok());
}

#[test]
fn lookback_windows_clamp_at_the_epoch() {
    let eval = Timestamp::from_unix_millis(10_000);
    let window = TimeRange::lookback(eval, 3_000);
    assert_eq!(window.start, Timestamp::from_unix_millis(7_000));
    assert_eq!(window.end, eval);
    assert_eq!(TimeRange::lookback(eval, 20_000).start, Timestamp::epoch());
    assert_eq!(TimeRange::lookback(eval, u64::MAX).start, Timestamp::epoch());
}

#[test]
fn evaluation_errors_carry_their_messages() {
    assert_eq!(
        QueryError::range_outside_function().message(),
        "evaluation error: range vector evaluated outside a function"
    );
    assert_eq!(QueryError::expected_vector().message(), "evaluation error: expected a vector");
    assert_eq!(
        QueryError::vector_operands().message(),
        "unsupported: binary operations between two vectors"
    );
    assert_eq!(
        QueryError::range_argument_expected("rate").message(),
        "evaluation error: rate expects a range vector argument"
    );
}
