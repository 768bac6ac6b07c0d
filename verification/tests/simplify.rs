//! The simplifier's behavior on hand-built condition trees.

use search_query_parser::{Condition, Operator};

#[test]
fn test_simplify_none() {
    assert_eq!(Condition::Empty.simplify(), Condition::Empty)
}

#[test]
fn test_simplify_keyword() {
    assert_eq!(
        Condition::Keyword("keyword".into()).simplify(),
        Condition::Keyword("keyword".into())
    )
}

#[test]
fn test_simplify_empty_keyword() {
    assert_eq!(Condition::Keyword("".into()).simplify(), Condition::Empty)
}

#[test]
fn test_simplify_blank_keyword() {
    assert_eq!(
        Condition::Keyword(" 　　 ".into()).simplify(),
        Condition::Keyword(" 　　 ".into())
    )
}

#[test]
fn test_simplify_phrase_keyword() {
    assert_eq!(
        Condition::PhraseKeyword("phrase keyword".into()).simplify(),
        Condition::PhraseKeyword("phrase keyword".into())
    )
}

#[test]
fn test_simplify_empty_phrase_keyword() {
    assert_eq!(
        Condition::PhraseKeyword("".into()).simplify(),
        Condition::Empty
    )
}

#[test]
fn test_simplify_blank_phrase_keyword() {
    assert_eq!(
        Condition::PhraseKeyword(" 　　 ".into()).simplify(),
        Condition::PhraseKeyword(" 　　 ".into())
    )
}

#[test]
fn test_simplify_negative_none() {
    assert_eq!(
        Condition::Not(Box::new(Condition::Empty)).simplify(),
        Condition::Empty
    )
}

#[test]
fn test_simplify_negative_keyword() {
    assert_eq!(
        Condition::Not(Box::new(Condition::Keyword("keyword".into()))).simplify(),
        Condition::Not(Box::new(Condition::Keyword("keyword".into())))
    )
}

#[test]
fn test_simplify_negative_empty_keyword() {
    assert_eq!(
        Condition::Not(Box::new(Condition::Keyword("".into()))).simplify(),
        Condition::Empty
    )
}

#[test]
fn test_simplify_negative_phrase_keyword() {
    assert_eq!(
        Condition::Not(Box::new(Condition::PhraseKeyword("phrase keyword".into())))
            .simplify(),
        Condition::Not(Box::new(Condition::PhraseKeyword("phrase keyword".into())))
    )
}

#[test]
fn test_simplify_negative_empty_phrase_keyword() {
    assert_eq!(
        Condition::Not(Box::new(Condition::PhraseKeyword("".into()))).simplify(),
        Condition::Empty
    )
}

#[test]
fn test_simplify_negative_negative() {
    assert_eq!(
        Condition::Not(Box::new(Condition::Not(Box::new(Condition::Keyword(
            "keyword".into()
        )))))
        .simplify(),
        Condition::Keyword("keyword".into())
    )
}

#[test]
fn test_simplify_negative_negative_negative() {
    assert_eq!(
        Condition::Not(Box::new(Condition::Not(Box::new(Condition::Not(
            Box::new(Condition::Keyword("keyword".into()))
        )))))
        .simplify(),
        Condition::Not(Box::new(Condition::Keyword("keyword".into())))
    )
}

#[test]
fn test_simplify_negative_operator_and() {
    assert_eq!(
        Condition::Not(Box::new(Condition::Operator(
            Operator::And,
            vec![
                Condition::Keyword("keyword".into()),
                Condition::Not(Box::new(Condition::PhraseKeyword("phrase keyword".into())))
            ]
        )))
        .simplify(),
        Condition::Not(Box::new(Condition::Operator(
            Operator::And,
            vec![
                Condition::Keyword("keyword".into()),
                Condition::Not(Box::new(Condition::PhraseKeyword("phrase keyword".into())))
            ]
        )))
    )
}

#[test]
fn test_simplify_negative_operator_or() {
    assert_eq!(
        Condition::Not(Box::new(Condition::Operator(
            Operator::Or,
            vec![
                Condition::Keyword("keyword".into()),
                Condition::Not(Box::new(Condition::PhraseKeyword("phrase keyword".into())))
            ]
        )))
        .simplify(),
        Condition::Not(Box::new(Condition::Operator(
            Operator::Or,
            vec![
                Condition::Keyword("keyword".into()),
                Condition::Not(Box::new(Condition::PhraseKeyword("phrase keyword".into())))
            ]
        )))
    )
}

#[test]
fn test_simplify_operator_and_empty() {
    assert_eq!(
        Condition::Operator(Operator::And, vec![]).simplify(),
        Condition::Empty
    )
}

#[test]
fn test_simplify_operator_and_with_only_none() {
    assert_eq!(
        Condition::Operator(Operator::And, vec![Condition::Empty]).simplify(),
        Condition::Empty
    )
}

#[test]
fn test_simplify_operator_and_with_only_keyword() {
    assert_eq!(
        Condition::Operator(Operator::And, vec![Condition::Keyword("keyword".into())])
            .simplify(),
        Condition::Keyword("keyword".into())
    )
}

#[test]
fn test_simplify_operator_and_with_only_phrase_keyword() {
    assert_eq!(
        Condition::Operator(
            Operator::And,
            vec![Condition::PhraseKeyword("phrase keyword".into())]
        )
        .simplify(),
        Condition::PhraseKeyword("phrase keyword".into())
    )
}

#[test]
fn test_simplify_operator_and_with_only_negative() {
    assert_eq!(
        Condition::Operator(
            Operator::And,
            vec![Condition::Not(Box::new(Condition::Keyword("not".into())))]
        )
        .simplify(),
        Condition::Not(Box::new(Condition::Keyword("not".into())))
    )
}

#[test]
fn test_simplify_operator_and_with_only_operator() {
    assert_eq!(
        Condition::Operator(
            Operator::And,
            vec![Condition::Operator(
                Operator::Or,
                vec![
                    Condition::Keyword("keyword".into()),
                    Condition::PhraseKeyword("phrase keyword".into()),
                ]
            )]
        )
        .simplify(),
        Condition::Operator(
            Operator::Or,
            vec![
                Condition::Keyword("keyword".into()),
                Condition::PhraseKeyword("phrase keyword".into()),
            ]
        )
    )
}

#[test]
fn test_simplify_operator_and_with_only_operator_recursively() {
    assert_eq!(
        Condition::Operator(
            Operator::And,
            vec![Condition::Operator(
                Operator::Or,
                vec![Condition::Keyword("keyword".into()),]
            )]
        )
        .simplify(),
        Condition::Keyword("keyword".into())
    )
}

#[test]
fn test_simplify_operator_and_with_all_conditions() {
    assert_eq!(
        Condition::Operator(
            Operator::And,
            vec![
                Condition::Keyword("keyword".into()),
                Condition::Empty,
                Condition::PhraseKeyword("phrase keyword".into()),
                Condition::Empty,
                Condition::Not(Box::new(Condition::Keyword("not".into()))),
                Condition::Operator(
                    Operator::Or,
                    vec![
                        Condition::Keyword("keyword".into()),
                        Condition::PhraseKeyword("phrase keyword".into()),
                    ]
                )
            ]
        )
        .simplify(),
        Condition::Operator(
            Operator::And,
            vec![
                Condition::Keyword("keyword".into()),
                Condition::PhraseKeyword("phrase keyword".into()),
                Condition::Not(Box::new(Condition::Keyword("not".into()))),
                Condition::Operator(
                    Operator::Or,
                    vec![
                        Condition::Keyword("keyword".into()),
                        Condition::PhraseKeyword("phrase keyword".into()),
                    ]
                )
            ]
        )
    )
}

#[test]
fn test_simplify_operator_or_empty() {
    assert_eq!(
        Condition::Operator(Operator::Or, vec![]).simplify(),
        Condition::Empty
    )
}

#[test]
fn test_simplify_operator_or_with_only_none() {
    assert_eq!(
        Condition::Operator(Operator::Or, vec![Condition::Empty]).simplify(),
        Condition::Empty
    )
}

#[test]
fn test_simplify_operator_or_with_only_keyword() {
    assert_eq!(
        Condition::Operator(Operator::Or, vec![Condition::Keyword("keyword".into())])
            .simplify(),
        Condition::Keyword("keyword".into())
    )
}

#[test]
fn test_simplify_operator_or_with_only_phrase_keyword() {
    assert_eq!(
        Condition::Operator(
            Operator::Or,
            vec![Condition::PhraseKeyword("phrase keyword".into())]
        )
        .simplify(),
        Condition::PhraseKeyword("phrase keyword".into())
    )
}

#[test]
fn test_simplify_operator_or_with_only_negative() {
    assert_eq!(
        Condition::Operator(
            Operator::Or,
            vec![Condition::Not(Box::new(Condition::Keyword("not".into())))]
        )
        .simplify(),
        Condition::Not(Box::new(Condition::Keyword("not".into())))
    )
}

#[test]
fn test_simplify_operator_or_with_only_operator() {
    assert_eq!(
        Condition::Operator(
            Operator::Or,
            vec![Condition::Operator(
                Operator::And,
                vec![
                    Condition::Keyword("keyword".into()),
                    Condition::PhraseKeyword("phrase keyword".into()),
                ]
            )]
        )
        .simplify(),
        Condition::Operator(
            Operator::And,
            vec![
                Condition::Keyword("keyword".into()),
                Condition::PhraseKeyword("phrase keyword".into()),
            ]
        )
    )
}

#[test]
fn test_simplify_operator_or_with_only_operator_recursively() {
    assert_eq!(
        Condition::Operator(
            Operator::Or,
            vec![Condition::Operator(
                Operator::And,
                vec![Condition::Keyword("keyword".into()),]
            )]
        )
        .simplify(),
        Condition::Keyword("keyword".into()),
    )
}

#[test]
fn test_simplify_remove_same_operator_or_layer() {
    assert_eq!(
        Condition::Operator(
            Operator::Or,
            vec![
                Condition::Operator(
                    Operator::And,
                    vec![
                        Condition::Keyword("keyword1".into()),
                        Condition::Keyword("keyword2".into()),
                    ]
                ),
                Condition::PhraseKeyword("keyword3".into()),
                Condition::Operator(
                    Operator::Or,
                    vec![
                        Condition::Keyword("keyword4".into()),
                        Condition::Keyword("keyword5".into()),
                    ]
                ),
                Condition::Keyword("keyword6".into()),
                Condition::Not(Box::new(Condition::Keyword("keyword7".into())))
            ]
        )
        .simplify(),
        Condition::Operator(
            Operator::Or,
            vec![
                Condition::Operator(
                    Operator::And,
                    vec![
                        Condition::Keyword("keyword1".into()),
                        Condition::Keyword("keyword2".into()),
                    ]
                ),
                Condition::PhraseKeyword("keyword3".into()),
                Condition::Keyword("keyword4".into()),
                Condition::Keyword("keyword5".into()),
                Condition::Keyword("keyword6".into()),
                Condition::Not(Box::new(Condition::Keyword("keyword7".into())))
            ]
        ),
    )
}

#[test]
fn test_simplify_remove_same_operator_and_layer() {
    assert_eq!(
        Condition::Operator(
            Operator::And,
            vec![
                Condition::Operator(
                    Operator::Or,
                    vec![
                        Condition::Keyword("keyword1".into()),
                        Condition::Keyword("keyword2".into()),
                    ]
                ),
                Condition::PhraseKeyword("keyword3".into()),
                Condition::Operator(
                    Operator::And,
                    vec![
                        Condition::Keyword("keyword4".into()),
                        Condition::Keyword("keyword5".into()),
                    ]
                ),
                Condition::Keyword("keyword6".into()),
                Condition::Not(Box::new(Condition::Keyword("keyword7".into())))
            ]
        )
        .simplify(),
        Condition::Operator(
            Operator::And,
            vec![
                Condition::Operator(
                    Operator::Or,
                    vec![
                        Condition::Keyword("keyword1".into()),
                        Condition::Keyword("keyword2".into()),
                    ]
                ),
                Condition::PhraseKeyword("keyword3".into()),
                Condition::Keyword("keyword4".into()),
                Condition::Keyword("keyword5".into()),
                Condition::Keyword("keyword6".into()),
                Condition::Not(Box::new(Condition::Keyword("keyword7".into())))
            ]
        ),
    )
}

#[test]
fn test_simplify_operator_or_with_all_conditions() {
    assert_eq!(
        Condition::Operator(
            Operator::Or,
            vec![
                Condition::Keyword("keyword".into()),
                Condition::Empty,
                Condition::PhraseKeyword("phrase keyword".into()),
                Condition::Empty,
                Condition::Not(Box::new(Condition::Keyword("not".into()))),
                Condition::Empty,
                Condition::Operator(
                    Operator::And,
                    vec![
                        Condition::Keyword("keyword 1".into()),
                        Condition::PhraseKeyword("phrase keyword 1".into()),
                    ]
                )
            ]
        )
        .simplify(),
        Condition::Operator(
            Operator::Or,
            vec![
                Condition::Keyword("keyword".into()),
                Condition::PhraseKeyword("phrase keyword".into()),
                Condition::Not(Box::new(Condition::Keyword("not".into()))),
                Condition::Operator(
                    Operator::And,
                    vec![
                        Condition::Keyword("keyword 1".into()),
                        Condition::PhraseKeyword("phrase keyword 1".into()),
                    ]
                )
            ]
        )
    )
}

#[test]
fn condition_test_simplify_none() {
    assert_eq!(Condition::Empty.simplify(), Condition::Empty)
}

#[test]
fn condition_test_simplify_keyword() {
    assert_eq!(
        Condition::Keyword("keyword".into()).simplify(),
        Condition::Keyword("keyword".into())
    )
}

#[test]
fn condition_test_simplify_empty_keyword() {
    assert_eq!(Condition::Keyword("".into()).simplify(), Condition::Empty)
}

#[test]
fn condition_test_simplify_blank_keyword() {
    assert_eq!(
        Condition::Keyword(" 　　 ".into()).simplify(),
        Condition::Keyword(" 　　 ".into())
    )
}

#[test]
fn condition_test_simplify_phrase_keyword() {
    assert_eq!(
        Condition::PhraseKeyword("phrase keyword".into()).simplify(),
        Condition::PhraseKeyword("phrase keyword".into())
    )
}

#[test]
fn condition_test_simplify_empty_phrase_keyword() {
    assert_eq!(
        Condition::PhraseKeyword("".into()).simplify(),
        Condition::Empty
    )
}

#[test]
fn condition_test_simplify_blank_phrase_keyword() {
    assert_eq!(
        Condition::PhraseKeyword(" 　　 ".into()).simplify(),
        Condition::PhraseKeyword(" 　　 ".into())
    )
}

#[test]
fn condition_test_simplify_negative_none() {
    assert_eq!(
        Condition::Not(Box::new(Condition::Empty)).simplify(),
        Condition::Empty
    )
}

#[test]
fn condition_test_simplify_negative_keyword() {
    assert_eq!(
        Condition::Not(Box::new(Condition::Keyword("keyword".into()))).simplify(),
        Condition::Not(Box::new(Condition::Keyword("keyword".into())))
    )
}

#[test]
fn condition_test_simplify_negative_empty_keyword() {
    assert_eq!(
        Condition::Not(Box::new(Condition::Keyword("".into()))).simplify(),
        Condition::Empty
    )
}

#[test]
fn condition_test_simplify_negative_phrase_keyword() {
    assert_eq!(
        Condition::Not(Box::new(Condition::PhraseKeyword("phrase keyword".into())))
            .simplify(),
        Condition::Not(Box::new(Condition::PhraseKeyword("phrase keyword".into())))
    )
}

#[test]
fn condition_test_simplify_negative_empty_phrase_keyword() {
    assert_eq!(
        Condition::Not(Box::new(Condition::PhraseKeyword("".into()))).simplify(),
        Condition::Empty
    )
}

#[test]
fn condition_test_simplify_negative_negative() {
    assert_eq!(
        Condition::Not(Box::new(Condition::Not(Box::new(Condition::Keyword(
            "keyword".into()
        )))))
        .simplify(),
        Condition::Keyword("keyword".into())
    )
}

#[test]
fn condition_test_simplify_negative_negative_negative() {
    assert_eq!(
        Condition::Not(Box::new(Condition::Not(Box::new(Condition::Not(
            Box::new(Condition::Keyword("keyword".into()))
        )))))
        .simplify(),
        Condition::Not(Box::new(Condition::Keyword("keyword".into())))
    )
}

#[test]
fn condition_test_simplify_negative_operator_and() {
    assert_eq!(
        Condition::Not(Box::new(Condition::Operator(
            Operator::And,
            vec![
                Condition::Keyword("keyword".into()),
                Condition::Not(Box::new(Condition::PhraseKeyword("phrase keyword".into())))
            ]
        )))
        .simplify(),
        Condition::Not(Box::new(Condition::Operator(
            Operator::And,
            vec![
                Condition::Keyword("keyword".into()),
                Condition::Not(Box::new(Condition::PhraseKeyword("phrase keyword".into())))
            ]
        )))
    )
}

#[test]
fn condition_test_simplify_negative_operator_or() {
    assert_eq!(
        Condition::Not(Box::new(Condition::Operator(
            Operator::Or,
            vec![
                Condition::Keyword("keyword".into()),
                Condition::Not(Box::new(Condition::PhraseKeyword("phrase keyword".into())))
            ]
        )))
        .simplify(),
        Condition::Not(Box::new(Condition::Operator(
            Operator::Or,
            vec![
                Condition::Keyword("keyword".into()),
                Condition::Not(Box::new(Condition::PhraseKeyword("phrase keyword".into())))
            ]
        )))
    )
}

#[test]
fn condition_test_simplify_operator_and_empty() {
    assert_eq!(
        Condition::Operator(Operator::And, vec![]).simplify(),
        Condition::Empty
    )
}

#[test]
fn condition_test_simplify_operator_and_with_only_none() {
    assert_eq!(
        Condition::Operator(Operator::And, vec![Condition::Empty]).simplify(),
        Condition::Empty
    )
}

#[test]
fn condition_test_simplify_operator_and_with_only_keyword() {
    assert_eq!(
        Condition::Operator(Operator::And, vec![Condition::Keyword("keyword".into())])
            .simplify(),
        Condition::Keyword("keyword".into())
    )
}

#[test]
fn condition_test_simplify_operator_and_with_only_phrase_keyword() {
    assert_eq!(
        Condition::Operator(
            Operator::And,
            vec![Condition::PhraseKeyword("phrase keyword".into())]
        )
        .simplify(),
        Condition::PhraseKeyword("phrase keyword".into())
    )
}

#[test]
fn condition_test_simplify_operator_and_with_only_negative() {
    assert_eq!(
        Condition::Operator(
            Operator::And,
            vec![Condition::Not(Box::new(Condition::Keyword("not".into())))]
        )
        .simplify(),
        Condition::Not(Box::new(Condition::Keyword("not".into())))
    )
}

#[test]
fn condition_test_simplify_operator_and_with_only_operator() {
    assert_eq!(
        Condition::Operator(
            Operator::And,
            vec![Condition::Operator(
                Operator::Or,
                vec![
                    Condition::Keyword("keyword".into()),
                    Condition::PhraseKeyword("phrase keyword".into()),
                ]
            )]
        )
        .simplify(),
        Condition::Operator(
            Operator::Or,
            vec![
                Condition::Keyword("keyword".into()),
                Condition::PhraseKeyword("phrase keyword".into()),
            ]
        )
    )
}

#[test]
fn condition_test_simplify_operator_and_with_only_operator_recursively() {
    assert_eq!(
        Condition::Operator(
            Operator::And,
            vec![Condition::Operator(
                Operator::Or,
                vec![Condition::Keyword("keyword".into()),]
            )]
        )
        .simplify(),
        Condition::Keyword("keyword".into())
    )
}

#[test]
fn condition_test_simplify_operator_and_with_all_conditions() {
    assert_eq!(
        Condition::Operator(
            Operator::And,
            vec![
                Condition::Keyword("keyword".into()),
                Condition::Empty,
                Condition::PhraseKeyword("phrase keyword".into()),
                Condition::Empty,
                Condition::Not(Box::new(Condition::Keyword("not".into()))),
                Condition::Operator(
                    Operator::Or,
                    vec![
                        Condition::Keyword("keyword".into()),
                        Condition::PhraseKeyword("phrase keyword".into()),
                    ]
                )
            ]
        )
        .simplify(),
        Condition::Operator(
            Operator::And,
            vec![
                Condition::Keyword("keyword".into()),
                Condition::PhraseKeyword("phrase keyword".into()),
                Condition::Not(Box::new(Condition::Keyword("not".into()))),
                Condition::Operator(
                    Operator::Or,
                    vec![
                        Condition::Keyword("keyword".into()),
                        Condition::PhraseKeyword("phrase keyword".into()),
                    ]
                )
            ]
        )
    )
}

#[test]
fn condition_test_simplify_operator_or_empty() {
    assert_eq!(
        Condition::Operator(Operator::Or, vec![]).simplify(),
        Condition::Empty
    )
}

#[test]
fn condition_test_simplify_operator_or_with_only_none() {
    assert_eq!(
        Condition::Operator(Operator::Or, vec![Condition::Empty]).simplify(),
        Condition::Empty
    )
}

#[test]
fn condition_test_simplify_operator_or_with_only_keyword() {
    assert_eq!(
        Condition::Operator(Operator::Or, vec![Condition::Keyword("keyword".into())])
            .simplify(),
        Condition::Keyword("keyword".into())
    )
}

#[test]
fn condition_test_simplify_operator_or_with_only_phrase_keyword() {
    assert_eq!(
        Condition::Operator(
            Operator::Or,
            vec![Condition::PhraseKeyword("phrase keyword".into())]
        )
        .simplify(),
        Condition::PhraseKeyword("phrase keyword".into())
    )
}

#[test]
fn condition_test_simplify_operator_or_with_only_negative() {
    assert_eq!(
        Condition::Operator(
            Operator::Or,
            vec![Condition::Not(Box::new(Condition::Keyword("not".into())))]
        )
        .simplify(),
        Condition::Not(Box::new(Condition::Keyword("not".into())))
    )
}

#[test]
fn condition_test_simplify_operator_or_with_only_operator() {
    assert_eq!(
        Condition::Operator(
            Operator::Or,
            vec![Condition::Operator(
                Operator::And,
                vec![
                    Condition::Keyword("keyword".into()),
                    Condition::PhraseKeyword("phrase keyword".into()),
                ]
            )]
        )
        .simplify(),
        Condition::Operator(
            Operator::And,
            vec![
                Condition::Keyword("keyword".into()),
                Condition::PhraseKeyword("phrase keyword".into()),
            ]
        )
    )
}

#[test]
fn condition_test_simplify_operator_or_with_only_operator_recursively() {
    assert_eq!(
        Condition::Operator(
            Operator::Or,
            vec![Condition::Operator(
                Operator::And,
                vec![Condition::Keyword("keyword".into()),]
            )]
        )
        .simplify(),
        Condition::Keyword("keyword".into()),
    )
}

#[test]
fn condition_test_simplify_operator_or_with_all_conditions() {
    assert_eq!(
        Condition::Operator(
            Operator::Or,
            vec![
                Condition::Keyword("keyword".into()),
                Condition::Empty,
                Condition::PhraseKeyword("phrase keyword".into()),
                Condition::Empty,
                Condition::Not(Box::new(Condition::Keyword("not".into()))),
                Condition::Empty,
                Condition::Operator(
                    Operator::And,
                    vec![
                        Condition::Keyword("keyword 1".into()),
                        Condition::PhraseKeyword("phrase keyword 1".into()),
                    ]
                )
            ]
        )
        .simplify(),
        Condition::Operator(
            Operator::Or,
            vec![
                Condition::Keyword("keyword".into()),
                Condition::PhraseKeyword("phrase keyword".into()),
                Condition::Not(Box::new(Condition::Keyword("not".into()))),
                Condition::Operator(
                    Operator::And,
                    vec![
                        Condition::Keyword("keyword 1".into()),
                        Condition::PhraseKeyword("phrase keyword 1".into()),
                    ]
                )
            ]
        )
    )
}
