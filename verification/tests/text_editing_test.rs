use todo::text_editing::{FakeTextEditor, TextEditor};

#[test]
fn fake_text_editor_prints_user_output() {
    let mut text_editor = FakeTextEditor::user_will_enter("blah");
    assert_eq!(*text_editor.recorded_input(), "");
    assert_eq!(text_editor.edit_text("default").unwrap(), "blah");
    assert_eq!(*text_editor.recorded_input(), "default");
}

#[test]
fn fake_text_editor_without_output_fails() {
    let mut text_editor = FakeTextEditor::no_user_output();
    assert!(text_editor.edit_text("shown").is_err());
    assert_eq!(*text_editor.recorded_input(), "shown");
}
