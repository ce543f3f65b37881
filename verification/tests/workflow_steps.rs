use envfile::{plan_row, resolve_answer, trim_trailing_whitespace, EnvDeclaration, EnvFileRow,
    PromptPlan};

fn decl(name: &str, value: Option<&str>) -> EnvFileRow {
    EnvFileRow::Declaration(EnvDeclaration {
        name: name.to_string(),
        value: value.map(|v| v.to_string()),
    })
}

#[test]
fn blank_rows_keep_the_buffer() {
    let plan = plan_row(&EnvFileRow::Empty, None, false, false, "# note\n");
    assert_eq!(plan, PromptPlan::Continue("# note\n".to_string()));
}

#[test]
fn comment_rows_extend_the_buffer() {
    let row = EnvFileRow::CommentOnly("hint".to_string());
    let plan = plan_row(&row, None, false, false, "");
    assert_eq!(plan, PromptPlan::Continue("# hint\n".to_string()));
}

#[test]
fn prompt_text_carries_buffer_and_default() {
    let current = "old".to_string();
    let plan = plan_row(&decl("KEY", None), Some(&current), false, false, "# hint\n");
    assert_eq!(
        plan,
        PromptPlan::Ask("# hint\nKEY (old)".to_string(), "old".to_string())
    );
}

#[test]
fn prompt_without_default_has_no_parentheses() {
    let plan = plan_row(&decl("KEY", Some("unused")), None, false, false, "");
    assert_eq!(plan, PromptPlan::Ask("KEY".to_string(), "".to_string()));
}

#[test]
fn only_empty_skips_filled_names() {
    let current = "v".to_string();
    let plan = plan_row(&decl("KEY", None), Some(&current), true, false, "");
    assert_eq!(plan, PromptPlan::Skip);
    let plan = plan_row(&decl("KEY", None), None, true, false, "");
    assert_eq!(plan, PromptPlan::Ask("KEY".to_string(), "".to_string()));
}

#[test]
fn only_filled_skips_unfilled_names() {
    let plan = plan_row(&decl("KEY", None), None, false, true, "");
    assert_eq!(plan, PromptPlan::Skip);
    let current = "v".to_string();
    let plan = plan_row(&decl("KEY", None), Some(&current), false, true, "");
    assert_eq!(plan, PromptPlan::Ask("KEY (v)".to_string(), "v".to_string()));
}

#[test]
fn empty_answer_takes_the_default() {
    assert_eq!(
        resolve_answer("".to_string(), "default".to_string()),
        "default".to_string()
    );
    assert_eq!(
        resolve_answer("typed".to_string(), "default".to_string()),
        "typed".to_string()
    );
}

#[test]
fn answers_are_trimmed_of_trailing_whitespace() {
    assert_eq!(trim_trailing_whitespace("value \t\n"), "value".to_string());
    assert_eq!(trim_trailing_whitespace("  padded"), "  padded".to_string());
    assert_eq!(trim_trailing_whitespace(" \n"), "".to_string());
}
