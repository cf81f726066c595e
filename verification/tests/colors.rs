use pretty::color::{ColorAction, ColorStack};
use termcolor::{Color, ColorSpec};

fn color(c: Color) -> ColorSpec {
    let mut spec = ColorSpec::new();
    spec.set_fg(Some(c));
    spec
}

#[test]
fn color_stack_restores_the_color_around() {
    let mut stack = ColorStack::new();
    let red = color(Color::Red);
    let blue = color(Color::Blue);
    assert!(matches!(stack.push(&red), ColorAction::Color(c) if c == red));
    assert!(matches!(stack.push(&blue), ColorAction::Color(c) if c == blue));
    assert_eq!(stack.colors, vec![red.clone(), blue.clone()]);
    assert!(matches!(stack.pop(), ColorAction::Color(c) if c == red));
    assert!(matches!(stack.pop(), ColorAction::Reset));
    assert!(stack.colors.is_empty());
    assert!(matches!(stack.pop(), ColorAction::Reset));
}
