use xqcore::settings::{chat_url, default_base_url, default_model, strip_trailing_slashes, trim, Settings};
use xqcore::text::{int_to_string, is_white_space, str_chars, usize_to_string};

fn settings(base_url: &str, api_key: &str, model: &str) -> Settings {
    Settings { base_url: base_url.to_string(), api_key: api_key.to_string(), model: model.to_string() }
}

#[test]
fn default_settings() {
    assert_eq!(default_base_url(), "https://open.bigmodel.cn/api/paas/v4");
    assert_eq!(default_model(), "glm-4.7-flash");
    let s = Settings::defaults();
    assert_eq!(s.base_url, "https://open.bigmodel.cn/api/paas/v4");
    assert_eq!(s.api_key, "");
    assert_eq!(s.model, "glm-4.7-flash");
    assert!(!s.has_ai());
}

#[test]
fn a_blank_key_means_no_ai() {
    assert!(!settings("u", "", "m").has_ai());
    assert!(!settings("u", " \t\n", "m").has_ai());
    assert!(!settings("u", "\u{3000}", "m").has_ai());
    assert!(settings("u", " sk-1 ", "m").has_ai());
}

#[test]
fn the_key_is_sent_trimmed() {
    assert_eq!(settings("u", "  sk-1\n", "m").bearer_key(), "sk-1");
}

#[test]
fn trimming() {
    assert_eq!(trim("  a b \t"), "a b");
    assert_eq!(trim(""), "");
    assert_eq!(trim("   "), "");
    assert_eq!(trim("\u{3000}中\u{3000}"), "中");
    assert_eq!(strip_trailing_slashes("https://x/v4///"), "https://x/v4");
    assert_eq!(strip_trailing_slashes("///"), "");
    assert_eq!(strip_trailing_slashes("a/b"), "a/b");
}

#[test]
fn chat_endpoint() {
    assert_eq!(chat_url("https://open.bigmodel.cn/api/paas/v4"), "https://open.bigmodel.cn/api/paas/v4/chat/completions");
    assert_eq!(chat_url("https://api.deepseek.com/"), "https://api.deepseek.com/chat/completions");
}

#[test]
fn applying_edits() {
    let mut s = Settings::defaults();
    s.apply_update(Some("  https://api.deepseek.com/v1// ".to_string()), Some("  sk-2 ".to_string()), Some(" deepseek-chat ".to_string()));
    assert_eq!(s.base_url, "https://api.deepseek.com/v1");
    assert_eq!(s.api_key, "sk-2");
    assert_eq!(s.model, "deepseek-chat");
    assert!(s.has_ai());
}

#[test]
fn blank_edits_keep_the_url_and_model_but_clear_the_key() {
    let mut s = settings("https://a", "sk-1", "m1");
    s.apply_update(Some("   ".to_string()), Some(" ".to_string()), Some("".to_string()));
    assert_eq!(s.base_url, "https://a");
    assert_eq!(s.api_key, "");
    assert_eq!(s.model, "m1");
    assert!(!s.has_ai());
    s.apply_update(None, None, None);
    assert_eq!(s.base_url, "https://a");
    assert_eq!(s.api_key, "");
    assert_eq!(s.model, "m1");
}

#[test]
fn decimal_text() {
    assert_eq!(int_to_string(0), "0");
    assert_eq!(int_to_string(-120), "-120");
    assert_eq!(int_to_string(999999), "999999");
    assert_eq!(int_to_string(i64::MIN), "-9223372036854775808");
    assert_eq!(usize_to_string(90), "90");
}

#[test]
fn characters_and_white_space() {
    assert_eq!(str_chars("炮a"), vec!['炮', 'a']);
    assert!(is_white_space(' '));
    assert!(is_white_space('\u{3000}'));
    assert!(is_white_space('\u{85}'));
    assert!(!is_white_space('a'));
    assert!(!is_white_space('\u{200B}'));
}

#[test]
fn error_bodies_are_cut_on_character_boundaries() {
    assert_eq!(xqcore::settings::head_len("abc", 200), 3);
    assert_eq!(xqcore::settings::head_len("abcdef", 4), 4);
    assert_eq!(xqcore::settings::head_len("中文字", 7), 6);
    assert_eq!(xqcore::settings::head_len("中文字", 2), 0);
    assert_eq!(xqcore::settings::head_len("a中", 3), 1);
    assert_eq!(xqcore::settings::head_len("😀x", 5), 5);
}
