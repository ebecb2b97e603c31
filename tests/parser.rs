use compass::builder::{Input, InputKind};
use compass::geom::Vec2;
use compass::parser::{ParseError, Parser};

#[test]
fn given_points_become_free_inputs() {
    let b = Parser::parse("given point A, point B, point C1, .").unwrap();
    assert_eq!(b.inputs.len(), 3);
    for i in &b.inputs {
        assert_eq!(*i, Input { pos: Vec2 { x: 0, y: 0 }, kind: InputKind::Free });
    }
    assert!(b.steps.is_empty());
    assert!(b.constructs.is_empty());
}

#[test]
fn several_statements_and_white_space() {
    let b = Parser::parse("  given\tpoint A ,\n.\nlet given point B,.  ").unwrap();
    assert_eq!(b.inputs.len(), 2);
    assert_eq!(Parser::parse("").unwrap().inputs.len(), 0);
    assert_eq!(Parser::parse("let x").unwrap().inputs.len(), 0);
    assert_eq!(Parser::parse("given .").unwrap().inputs.len(), 0);
}

#[test]
fn malformed_declarations_are_rejected() {
    assert_eq!(Parser::parse("given line A, .").err(), Some(ParseError::NotAPoint(6)));
    assert_eq!(Parser::parse("given point , .").err(), Some(ParseError::ExpectedName(12)));
    assert_eq!(Parser::parse("given point A .").err(), Some(ParseError::ExpectedComma(14)));
    assert_eq!(Parser::parse("given point A,").err(), Some(ParseError::UnexpectedEnd));
    assert_eq!(Parser::parse("given point A").err(), Some(ParseError::UnexpectedEnd));
    assert_eq!(Parser::parse("  1").err(), Some(ParseError::UnexpectedChar(2)));
}
