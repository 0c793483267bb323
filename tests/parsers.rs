use dice_nom::generators::{
    ArithOp, ArithTermGenerator, ComparisonOp, ExprGenerator, Generator, HitsGenerator,
    PoolGenerator, PoolOp, SuccGenerator, SuccessOp, TargetOp, TermGenerator,
};
use dice_nom::parse;
use dice_nom::parsers::{
    expr_parser, generator_parser, hits_parser, optional_num_parser, pool_op_parser,
    range_parser, succ_gen_parser, succ_next_op_parser, succ_op_parser, term_parser,
    tgt_op_parser,
};

fn pool_term(op: ArithOp, count: i32, range: i32, pool_op: Option<PoolOp>) -> ArithTermGenerator {
    ArithTermGenerator { op, term: TermGenerator::Pool(PoolGenerator { count, range, op: pool_op }) }
}

#[test]
fn generator_parser_examples() {
    let (input, gen) = generator_parser("3d8").unwrap();
    assert_eq!(input, "");
    assert_eq!(gen.op, None);

    let (input, gen) = generator_parser("3d8 > 4d6").unwrap();
    assert_eq!(input, "");
    assert_eq!(
        gen.op,
        Some(ComparisonOp::GT(SuccGenerator {
            hits: HitsGenerator {
                expr: ExprGenerator { terms: vec![pool_term(ArithOp::ImplicitAdd, 4, 6, None)] },
                op: None,
            },
            op: None,
        }))
    );
}

#[test]
fn succ_gen_parser_examples() {
    let (input, succ) = succ_gen_parser("3d8 {15}").unwrap();
    assert_eq!(input, "");
    assert_eq!(succ.op, Some(SuccessOp::TargetSucc(15)));

    let (input, succ) = succ_gen_parser("(4d4** + 5 + 2d12)").unwrap();
    assert_eq!(input, "");
    assert_eq!(succ.op, None);

    let (input, succ) = succ_gen_parser("10d6(4){3, 2}").unwrap();
    assert_eq!(input, "");
    assert_eq!(succ.op, Some(SuccessOp::TargetSuccNext(3, 2)));
}

#[test]
fn hits_parser_examples() {
    let (input, hits) = hits_parser("( 2d4 + 3d6 + 2d8 )[4]").unwrap();
    assert_eq!(input, "");
    assert_eq!(hits.expr.terms.len(), 3);
    assert_eq!(hits.op, Some(TargetOp::TargetHigh(4)));

    let (input, hits) = hits_parser("d4 d8 d10 d12 (3)").unwrap();
    assert_eq!(input, "");
    assert_eq!(hits.expr.terms.len(), 4);
    assert_eq!(hits.op, Some(TargetOp::TargetLow(3)));
}

#[test]
fn expr_parser_examples() {
    let (input, expr) = expr_parser("3d4 + 2d6 - d8").unwrap();
    assert_eq!(input, "");
    assert_eq!(expr.terms.len(), 3);
    assert_eq!(expr.terms[0].op, ArithOp::ImplicitAdd);
    assert_eq!(expr.terms[1].op, ArithOp::Add);
    assert_eq!(expr.terms[2].op, ArithOp::Sub);
    assert_eq!(expr.terms[2].term, TermGenerator::Pool(PoolGenerator { count: 1, range: 8, op: None }));
}

#[test]
fn term_parser_examples() {
    assert_eq!(term_parser("10 "), Ok((" ", TermGenerator::Constant(10))));
    assert_eq!(
        term_parser("2d6**"),
        Ok(("", TermGenerator::Pool(PoolGenerator { count: 2, range: 6, op: Some(PoolOp::ExplodeEachUntil(None)) })))
    );
    assert_eq!(
        term_parser("3d10!!4"),
        Ok(("", TermGenerator::Pool(PoolGenerator { count: 3, range: 10, op: Some(PoolOp::ExplodeUntil(Some(4))) })))
    );
    assert!(term_parser("x").is_err());
}

#[test]
fn range_parser_examples() {
    assert_eq!(range_parser("1234[12]"), Ok(("[12]", 1234)));
    assert_eq!(range_parser("%[12]"), Ok(("[12]", 100)));
    assert_eq!(range_parser("%%test"), Ok(("test", 1000)));
    assert_eq!(range_parser("%%%4567"), Ok(("4567", 10000)));
    assert_eq!(range_parser("%%%%%%%%"), Ok(("", 1_000_000_000)));
    assert_eq!(range_parser("%%%%%%%%%x"), Ok(("x", 100)));
    assert_eq!(range_parser("%%%%%%%%%%%%"), Ok(("", 100)));
    assert_eq!(range_parser("x"), Err("x"));
}

#[test]
fn tgt_op_parser_examples() {
    assert_eq!(tgt_op_parser("[12]"), Ok(("", TargetOp::TargetHigh(12))));
    assert_eq!(tgt_op_parser("[ 12 ]"), Ok(("", TargetOp::TargetHigh(12))));
    assert_eq!(tgt_op_parser("(12)"), Ok(("", TargetOp::TargetLow(12))));
    assert_eq!(tgt_op_parser("( 12 )"), Ok(("", TargetOp::TargetLow(12))));
}

#[test]
fn succ_op_parser_examples() {
    assert_eq!(succ_op_parser("{123}"), Ok(("", SuccessOp::TargetSucc(123))));
    assert_eq!(succ_op_parser("{ 123 }"), Ok(("", SuccessOp::TargetSucc(123))));
}

#[test]
fn succ_next_op_parser_examples() {
    assert_eq!(succ_next_op_parser("{123,45}"), Ok(("", SuccessOp::TargetSuccNext(123, 45))));
    assert_eq!(succ_next_op_parser("{ 123, 45 }"), Ok(("", SuccessOp::TargetSuccNext(123, 45))));
}

#[test]
fn pool_op_parser_examples() {
    assert_eq!(pool_op_parser("!"), Ok(("", PoolOp::Explode(None))));
    assert_eq!(pool_op_parser(" ++ 3"), Ok(("", PoolOp::AddEach(Some(3)))));
    assert_eq!(pool_op_parser(" ADV"), Ok(("", PoolOp::Advantage)));
    assert_eq!(pool_op_parser("!!"), Ok(("", PoolOp::ExplodeUntil(None))));
    assert_eq!(pool_op_parser("**2"), Ok(("", PoolOp::ExplodeEachUntil(Some(2)))));
    assert_eq!(pool_op_parser("*"), Ok(("", PoolOp::ExplodeEach(None))));
    assert_eq!(pool_op_parser("--"), Ok(("", PoolOp::SubEach(None))));
    assert_eq!(pool_op_parser("~3"), Ok(("", PoolOp::TakeMid(3))));
    assert_eq!(pool_op_parser("`3"), Ok(("", PoolOp::TakeLow(3))));
    assert_eq!(pool_op_parser("^3"), Ok(("", PoolOp::TakeHigh(3))));
    assert_eq!(pool_op_parser(" DIS "), Ok(("", PoolOp::Disadvantage)));
    assert_eq!(pool_op_parser("Y"), Ok(("", PoolOp::BestGroup)));
    assert_eq!(pool_op_parser("?"), Err("?"));
}

#[test]
fn optional_num_parser_examples() {
    assert_eq!(optional_num_parser("test"), Ok(("test", None)));
    assert_eq!(optional_num_parser("123test"), Ok(("test", Some(123))));
    assert_eq!(optional_num_parser("  123test"), Ok(("test", Some(123))));
    assert_eq!(optional_num_parser("99999999999"), Err("99999999999"));
}

#[test]
fn parse_rejects_what_is_not_a_whole_generator() {
    assert_eq!(parse("3d").err(), Some("3d"));
    assert_eq!(parse("3d6 x").err(), Some("3d6 x"));
    assert_eq!(parse("").err(), Some(""));
    assert_eq!(parse("99999999999d6").err(), Some("99999999999d6"));
    assert!(parse("d%").is_ok());
    assert_eq!(
        parse("d%").unwrap().succ.hits.expr.terms[0].term,
        TermGenerator::Pool(PoolGenerator { count: 1, range: 100, op: None })
    );
}

fn hand_built() -> Generator {
    let lhs = SuccGenerator {
        hits: HitsGenerator {
            expr: ExprGenerator {
                terms: vec![
                    pool_term(ArithOp::ImplicitAdd, 4, 6, Some(PoolOp::TakeHigh(3))),
                    pool_term(ArithOp::Add, 2, 8, Some(PoolOp::ExplodeUntil(None))),
                    pool_term(ArithOp::Sub, 1, 4, Some(PoolOp::Advantage)),
                    ArithTermGenerator { op: ArithOp::Add, term: TermGenerator::Constant(3) },
                ],
            },
            op: Some(TargetOp::TargetHigh(4)),
        },
        op: Some(SuccessOp::TargetSuccNext(2, 3)),
    };
    let rhs = SuccGenerator {
        hits: HitsGenerator {
            expr: ExprGenerator { terms: vec![pool_term(ArithOp::ImplicitAdd, 3, 10, Some(PoolOp::AddEach(None)))] },
            op: None,
        },
        op: Some(SuccessOp::TargetSucc(15)),
    };
    Generator { succ: lhs, op: Some(ComparisonOp::CMP(rhs)) }
}

#[test]
fn rendered_tree_parses_back() {
    let gen = hand_built();
    let text = gen.to_string();
    assert_eq!(text, "4d6^3 + 2d8!! - 1d4 ADV + 3[4]{2, 3} <=> 3d10++{15}");
    let back = parse(&text).unwrap();
    assert_eq!(back, gen);
    assert_eq!(back.to_string(), text);
}

#[test]
fn rendered_implicit_addition_parses_as_addition() {
    let gen = Generator {
        succ: SuccGenerator {
            hits: HitsGenerator {
                expr: ExprGenerator {
                    terms: vec![
                        pool_term(ArithOp::ImplicitAdd, 2, 6, Some(PoolOp::Explode(None))),
                        pool_term(ArithOp::ImplicitAdd, 1, 4, Some(PoolOp::BestGroup)),
                    ],
                },
                op: None,
            },
            op: None,
        },
        op: None,
    };
    let text = gen.to_string();
    assert_eq!(text, "2d6! + 1d4Y");
    let back = parse(&text).unwrap();
    assert_eq!(back.succ.hits.expr.terms[0], gen.succ.hits.expr.terms[0]);
    assert_eq!(back.succ.hits.expr.terms[1].op, ArithOp::Add);
    assert_eq!(back.succ.hits.expr.terms[1].term, gen.succ.hits.expr.terms[1].term);
}

#[test]
fn pool_op_text() {
    assert_eq!(PoolOp::Explode(Some(5)).to_string(), "!5");
    assert_eq!(PoolOp::Disadvantage.to_string(), " DIS");
    assert_eq!(PoolGenerator { count: 3, range: 6, op: Some(PoolOp::SubEach(Some(2))) }.to_string(), "3d6--2");
    assert_eq!(TermGenerator::Constant(-7).to_string(), "-7");
}

#[test]
fn every_pool_operator_round_trips() {
    let ops = [
        None,
        Some(PoolOp::Explode(None)),
        Some(PoolOp::Explode(Some(5))),
        Some(PoolOp::ExplodeUntil(None)),
        Some(PoolOp::ExplodeUntil(Some(0))),
        Some(PoolOp::ExplodeEach(None)),
        Some(PoolOp::ExplodeEach(Some(12))),
        Some(PoolOp::ExplodeEachUntil(None)),
        Some(PoolOp::ExplodeEachUntil(Some(3))),
        Some(PoolOp::AddEach(None)),
        Some(PoolOp::AddEach(Some(7))),
        Some(PoolOp::SubEach(None)),
        Some(PoolOp::SubEach(Some(2))),
        Some(PoolOp::TakeMid(2)),
        Some(PoolOp::TakeLow(1)),
        Some(PoolOp::TakeHigh(3)),
        Some(PoolOp::Disadvantage),
        Some(PoolOp::Advantage),
        Some(PoolOp::BestGroup),
    ];
    let targets = [None, Some(TargetOp::TargetHigh(4)), Some(TargetOp::TargetLow(2))];
    let successes = [None, Some(SuccessOp::TargetSucc(9)), Some(SuccessOp::TargetSuccNext(3, 2))];
    for op in ops.iter() {
        for target in targets.iter() {
            for success in successes.iter() {
                let side = |first: ArithOp| SuccGenerator {
                    hits: HitsGenerator {
                        expr: ExprGenerator {
                            terms: vec![
                                pool_term(first, 4, 6, *op),
                                pool_term(ArithOp::Sub, 2, 100, *op),
                                ArithTermGenerator { op: ArithOp::Add, term: TermGenerator::Constant(0) },
                            ],
                        },
                        op: *target,
                    },
                    op: *success,
                };
                for first in [ArithOp::ImplicitAdd, ArithOp::Add, ArithOp::Sub] {
                    let plain = Generator { succ: side(first), op: None };
                    let text = plain.to_string();
                    assert_eq!(parse(&text).unwrap(), plain, "{}", text);
                    let compared = Generator { succ: side(first), op: Some(ComparisonOp::LE(side(first))) };
                    let text = compared.to_string();
                    assert_eq!(parse(&text).unwrap(), compared, "{}", text);
                }
            }
        }
    }
}
