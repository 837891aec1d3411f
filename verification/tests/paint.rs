use delve_core::paint::{paint, Tint};

#[test]
fn painting_wraps_text_in_style_sequences() {
    yansi::enable();
    assert_eq!(paint(Tint::Yellow, "X"), "\x1b[33mX\x1b[0m");
    assert_eq!(paint(Tint::Red, "X"), "\x1b[31mX\x1b[0m");
    assert_eq!(paint(Tint::Green, "X"), "\x1b[32mX\x1b[0m");
    assert_eq!(paint(Tint::Cyan, "X"), "\x1b[36mX\x1b[0m");
    assert_eq!(paint(Tint::Bold, "X"), "\x1b[1mX\x1b[0m");
}

#[test]
fn painting_disabled_leaves_text_plain() {
    yansi::disable();
    assert_eq!(paint(Tint::Yellow, "plain"), "plain");
}
