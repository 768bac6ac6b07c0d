//! The documented behavior of the parser on its boundary cases, and
//! concrete instances of the simplifier laws.

use search_query_parser::{parse_query_to_condition, Condition, LayeredQueries, Operator};

#[test]
fn simplify_twice_equals_simplify_once() {
    let messy = || {
        Condition::Operator(
            Operator::Or,
            vec![
                Condition::Operator(
                    Operator::Or,
                    vec![
                        Condition::Keyword("a".into()),
                        Condition::Not(Box::new(Condition::Not(Box::new(Condition::Keyword(
                            "b".into(),
                        ))))),
                    ],
                ),
                Condition::Operator(Operator::And, vec![Condition::Keyword(" ".into())]),
                Condition::Not(Box::new(Condition::Empty)),
                Condition::PhraseKeyword("c d".into()),
            ],
        )
    };
    let once = messy().simplify();
    let twice = messy().simplify().simplify();
    assert_eq!(once, twice);
}

#[test]
fn simplified_tree_is_canonical_in_shape() {
    let out = Condition::Operator(
        Operator::And,
        vec![
            Condition::Operator(
                Operator::And,
                vec![
                    Condition::Keyword("a".into()),
                    Condition::Keyword("  ".into()),
                    Condition::Keyword("b".into()),
                ],
            ),
            Condition::Not(Box::new(Condition::Not(Box::new(Condition::Keyword(
                "c".into(),
            ))))),
        ],
    )
    .simplify();
    assert_eq!(
        out,
        Condition::Operator(
            Operator::And,
            vec![
                Condition::Keyword("a".into()),
                Condition::Keyword("b".into()),
                Condition::Keyword("c".into()),
            ]
        )
    );
}

#[test]
fn parse_empty_and_blank_queries() {
    assert_eq!(parse_query_to_condition(""), Condition::Empty);
    assert_eq!(parse_query_to_condition("   "), Condition::Empty);
    assert_eq!(parse_query_to_condition("　　"), Condition::Empty);
}

#[test]
fn parse_single_keyword() {
    assert_eq!(
        parse_query_to_condition("ABC"),
        Condition::Keyword("ABC".into())
    );
}

#[test]
fn parse_single_phrase() {
    assert_eq!(
        parse_query_to_condition("\"A B\""),
        Condition::PhraseKeyword("A B".into())
    );
}

#[test]
fn parse_space_means_and() {
    assert_eq!(
        parse_query_to_condition("A B"),
        Condition::Operator(
            Operator::And,
            vec![
                Condition::Keyword("A".into()),
                Condition::Keyword("B".into())
            ]
        )
    );
}

#[test]
fn parse_or_keyword() {
    assert_eq!(
        parse_query_to_condition("A or B"),
        Condition::Operator(
            Operator::Or,
            vec![
                Condition::Keyword("A".into()),
                Condition::Keyword("B".into())
            ]
        )
    );
}

#[test]
fn parse_negated_keyword_and_phrase() {
    assert_eq!(
        parse_query_to_condition("-A"),
        Condition::Not(Box::new(Condition::Keyword("A".into())))
    );
    assert_eq!(
        parse_query_to_condition("-\"A B\""),
        Condition::Not(Box::new(Condition::PhraseKeyword("A B".into())))
    );
}

#[test]
fn parse_group_binds_to_neighbor() {
    assert_eq!(
        parse_query_to_condition("(A or B) and C"),
        Condition::Operator(
            Operator::And,
            vec![
                Condition::Operator(
                    Operator::Or,
                    vec![
                        Condition::Keyword("A".into()),
                        Condition::Keyword("B".into())
                    ]
                ),
                Condition::Keyword("C".into()),
            ]
        )
    );
}

#[test]
fn parse_negated_group() {
    assert_eq!(
        parse_query_to_condition("-(A or B)"),
        Condition::Not(Box::new(Condition::Operator(
            Operator::Or,
            vec![
                Condition::Keyword("A".into()),
                Condition::Keyword("B".into())
            ]
        )))
    );
}

#[test]
fn parse_redundant_nesting_collapses() {
    assert_eq!(
        parse_query_to_condition("((A and B))"),
        parse_query_to_condition("A and B")
    );
}

#[test]
fn parse_consumes_one_leading_dash() {
    assert_eq!(
        parse_query_to_condition("--A"),
        Condition::Not(Box::new(Condition::Keyword("-A".into())))
    );
}

#[test]
fn ideographic_space_phrase_is_kept() {
    assert_eq!(
        parse_query_to_condition("A \"　\" B"),
        Condition::Operator(
            Operator::And,
            vec![
                Condition::Keyword("A".into()),
                Condition::PhraseKeyword("　".into()),
                Condition::Keyword("B".into())
            ]
        )
    );
}

#[test]
fn get_condition_resolves_indices() {
    let conds = vec![
        Condition::Keyword("a".into()),
        Condition::PhraseKeyword("b".into()),
    ];
    assert_eq!(
        LayeredQueries::get_condition("1".into(), &conds),
        Condition::PhraseKeyword("b".into())
    );
    assert_eq!(
        LayeredQueries::get_condition("7".into(), &conds),
        Condition::Empty
    );
    assert_eq!(
        LayeredQueries::get_condition("x".into(), &conds),
        Condition::Empty
    );
}
