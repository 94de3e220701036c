use autoadb::command::{fill_command_line, fill_template};

fn words(list: &[&str]) -> Vec<String> {
    list.iter().map(|word| word.to_string()).collect()
}

#[test]
fn placeholder_is_replaced_by_the_identifier() {
    let template = words(&["scrcpy", "-s", "{}"]);
    assert_eq!(fill_template(&template, "0123456789ABCDEF"), words(&["scrcpy", "-s", "0123456789ABCDEF"]));
}

#[test]
fn every_placeholder_is_replaced() {
    let template = words(&["{}", "echo", "{}", "and", "{}"]);
    assert_eq!(fill_template(&template, "X"), words(&["X", "echo", "X", "and", "X"]));
}

#[test]
fn only_a_whole_word_is_a_placeholder() {
    let template = words(&["--serial={}", "{ }", "{}{}", " {}", "{}"]);
    assert_eq!(
        fill_template(&template, "X"),
        words(&["--serial={}", "{ }", "{}{}", " {}", "X"])
    );
}

#[test]
fn template_without_placeholder_is_unchanged() {
    let template = words(&["notify-send", "device"]);
    assert_eq!(fill_template(&template, "X"), template);
    assert_eq!(fill_template(&words(&[]), "X"), words(&[]));
}

#[test]
fn command_line_is_split_at_white_space() {
    assert_eq!(
        fill_command_line("echo gone {} now", "emulator-5554"),
        words(&["echo", "gone", "emulator-5554", "now"])
    );
    assert_eq!(fill_command_line("  a \t b\n{}  ", "X"), words(&["a", "b", "X"]));
    assert_eq!(fill_command_line("", "X"), words(&[]));
    assert_eq!(fill_command_line("   ", "X"), words(&[]));
    assert_eq!(fill_command_line("one", "X"), words(&["one"]));
}
