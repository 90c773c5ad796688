use teleprompt_cli::commands::{answer_is_yes, check_entered_password, master_password_from};
use teleprompt_cli::error::TelepromptError;

#[test]
fn onboarding_prompts_are_opt_in() {
    assert!(answer_is_yes("y"));
    assert!(answer_is_yes("Y\n"));
    assert!(!answer_is_yes(""));
    assert!(!answer_is_yes("yes"));
    assert!(!answer_is_yes("n"));
}

#[test]
fn master_password_prefers_environment_then_key_file() {
    assert_eq!(master_password_from(Some("env".to_string()), Some("file".to_string())), Some("env".to_string()));
    assert_eq!(master_password_from(Some(String::new()), Some("  file \n".to_string())), Some("file".to_string()));
    assert_eq!(master_password_from(None, Some("   ".to_string())), None);
    assert_eq!(master_password_from(None, None), None);
}

#[test]
fn an_empty_entered_password_is_invalid() {
    assert_eq!(check_entered_password("pw".to_string()), Ok("pw".to_string()));
    assert_eq!(check_entered_password(String::new()), Err(TelepromptError::InvalidPassword));
}
