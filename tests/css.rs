use boxes::css::{
    create_type_def_file_content, create_type_defs_filename, extract_filename, handle_css_change,
    is_stylesheet, next_attempt, remove_dot, type_defs_of_rules, type_defs_of_selectors, Attempt,
    MAX_ATTEMPTS,
};

#[test]
fn remove_dot_drops_the_first_grapheme() {
    assert_eq!(remove_dot(".button"), "button");
    assert_eq!(remove_dot(".x"), "x");
    assert_eq!(remove_dot(""), "");
    assert_eq!(remove_dot(".\u{301}name"), "name");
}

#[test]
fn type_def_line_for_a_rule() {
    assert_eq!(type_defs_of_rules("button"), "export const button: string;");
}

#[test]
fn file_content_appends_a_line() {
    assert_eq!(
        create_type_def_file_content(String::from("a"), String::from("b")),
        "ab\n"
    );
    assert_eq!(create_type_def_file_content(String::new(), String::new()), "\n");
}

#[test]
fn declarations_for_a_stylesheet() {
    let css = ".title { color: red; }\n.big-button:hover { }\ndiv { }\n.a1.b_2 {}";
    assert_eq!(
        handle_css_change(css).unwrap(),
        "export const title: string;\nexport const big: string;\nexport const a1: string;\nexport const b_2: string;\n"
    );
    assert_eq!(
        handle_css_change("div { margin: 0.5em; }").unwrap(),
        "export const 5em: string;\n"
    );
    assert_eq!(handle_css_change("div { margin: 0; }").unwrap(), "");
    assert_eq!(handle_css_change("").unwrap(), "");
}

#[test]
fn declarations_for_found_selectors() {
    let selectors = vec![String::from(".one"), String::from(".two")];
    assert_eq!(
        type_defs_of_selectors(&selectors),
        "export const one: string;\nexport const two: string;\n"
    );
    assert_eq!(type_defs_of_selectors(&Vec::new()), "");
}

#[test]
fn file_name_of_a_path() {
    assert_eq!(extract_filename("styles/app.css"), "app.css");
    assert_eq!(extract_filename("app.css"), "app.css");
    assert_eq!(extract_filename("styles/.."), "unknown");
    assert_eq!(extract_filename("/"), "unknown");
}

#[test]
fn declarations_file_beside_the_stylesheet() {
    assert_eq!(create_type_defs_filename("styles/app.css"), "styles/app.css.d.ts");
    assert_eq!(create_type_defs_filename("app.css"), "app.css.d.ts");
    assert_eq!(create_type_defs_filename("/"), "unknown/unknown.d.ts");
}

#[test]
fn stylesheets_are_recognised_by_extension() {
    assert!(is_stylesheet("styles/app.css"));
    assert!(is_stylesheet("app.css"));
    assert!(!is_stylesheet("styles/app.css.d.ts"));
    assert!(!is_stylesheet("styles/css"));
    assert!(!is_stylesheet("styles/.css"));
    assert!(!is_stylesheet(""));
}

#[test]
fn file_operations_retry_until_the_limit() {
    assert_eq!(next_attempt(1, true), Attempt::Done);
    assert_eq!(next_attempt(MAX_ATTEMPTS, true), Attempt::Done);
    assert_eq!(next_attempt(1, false), Attempt::Retry);
    assert_eq!(next_attempt(MAX_ATTEMPTS - 1, false), Attempt::Retry);
    assert_eq!(next_attempt(MAX_ATTEMPTS, false), Attempt::GiveUp);
    assert_eq!(MAX_ATTEMPTS, 1000);
}
