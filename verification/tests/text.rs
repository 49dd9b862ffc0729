use telemt_admin::db::{Db, InviteToken, RegisterResult};
use telemt_admin::link::{build_bot_start_link, build_proxy_link, generate_user_secret, LinkParams};
use telemt_admin::parse::{
    parse_callback_page, parse_callback_request_id, parse_callback_user_action,
    parse_create_target, parse_start_token, parse_token_create_args, CreateTarget,
    TokenCreateArgs,
};
use telemt_admin::render::{
    format_date, format_mode, format_timestamp, render_invite_token_line, render_user_card_text,
    shorten_name, status_label, full_name, usage_guide_text, user_display_name,
};
use telemt_admin::service::{ServiceController, ServiceResult};
use telemt_admin::strutil::{bytes_to_hex, i64_to_string, parse_i64, str_eq, trim_str, u64_to_string};

fn sample_token(auto: bool, usage: i64, max: Option<i64>, created_by: Option<i64>) -> InviteToken {
    InviteToken {
        id: 1,
        token: "abcDEF1234".to_string(),
        created_at: 0,
        expires_at: 86_400,
        auto_approve: auto,
        created_by,
        usage_count: usage,
        max_usage: max,
        is_active: true,
        revoked_at: None,
    }
}

#[test]
fn decimal_rendering() {
    assert_eq!(u64_to_string(0), "0");
    assert_eq!(u64_to_string(907), "907");
    assert_eq!(i64_to_string(-1), "-1");
    assert_eq!(i64_to_string(i64::MIN), "-9223372036854775808");
    assert_eq!(i64_to_string(i64::MAX), "9223372036854775807");
}

#[test]
fn decimal_parsing() {
    assert_eq!(parse_i64("123"), Some(123));
    assert_eq!(parse_i64("+5"), Some(5));
    assert_eq!(parse_i64("-0"), Some(0));
    assert_eq!(parse_i64("007"), Some(7));
    assert_eq!(parse_i64("-9223372036854775808"), Some(i64::MIN));
    assert_eq!(parse_i64("9223372036854775807"), Some(i64::MAX));
    assert_eq!(parse_i64("9223372036854775808"), None);
    assert_eq!(parse_i64("99999999999999999999999"), None);
    assert_eq!(parse_i64(""), None);
    assert_eq!(parse_i64("-"), None);
    assert_eq!(parse_i64("12a"), None);
    assert_eq!(parse_i64(" 12"), None);
}

#[test]
fn string_helpers() {
    assert!(str_eq("abc", "abc"));
    assert!(!str_eq("abc", "abd"));
    assert_eq!(trim_str("  x y \t"), "x y");
    assert_eq!(trim_str("   "), "");
    assert_eq!(bytes_to_hex(&vec![0x00, 0xff, 0x1a]), "00ff1a");
}

#[test]
fn create_target_parsing() {
    assert!(matches!(parse_create_target(" 42 "), Some(CreateTarget::UserId(42))));
    assert!(matches!(parse_create_target("-7"), Some(CreateTarget::UserId(-7))));
    match parse_create_target("@alice") {
        Some(CreateTarget::Username(u)) => assert_eq!(u, "alice"),
        _ => panic!("expected a username"),
    }
    match parse_create_target(" @ bob ") {
        Some(CreateTarget::Username(u)) => assert_eq!(u, "bob"),
        _ => panic!("expected a username"),
    }
    assert!(parse_create_target("").is_none());
    assert!(parse_create_target("@").is_none());
    assert!(parse_create_target("bob").is_none());
}

#[test]
fn start_token_parsing() {
    assert_eq!(parse_start_token("/start abc123"), Some("abc123".to_string()));
    assert_eq!(parse_start_token("  /start   abc123  extra"), Some("abc123".to_string()));
    // percent-encoded tokens are decoded
    assert_eq!(parse_start_token("/start %41%42c"), Some("ABc".to_string()));
    // surrounding backticks are stripped
    assert_eq!(parse_start_token("/start `tok`"), Some("tok".to_string()));
    assert_eq!(parse_start_token("/start"), None);
    assert_eq!(parse_start_token("/other abc"), None);
    assert_eq!(parse_start_token(""), None);
    assert_eq!(parse_start_token("/start ``"), None);
}

#[test]
fn callback_payload_parsing() {
    assert_eq!(parse_callback_request_id("approve:17", "approve:"), Some(17));
    assert_eq!(parse_callback_request_id("approve:x", "approve:"), None);
    assert_eq!(parse_callback_request_id("reject:17", "approve:"), None);
    assert_eq!(parse_callback_user_action("user_open:5:2", "user_open:"), Some((5, 2)));
    assert_eq!(parse_callback_user_action("user_open:5:0", "user_open:"), Some((5, 1)));
    assert_eq!(parse_callback_user_action("user_open:5:2:junk", "user_open:"), Some((5, 2)));
    assert_eq!(parse_callback_user_action("user_open:5", "user_open:"), None);
    assert_eq!(parse_callback_user_action("user_open:a:2", "user_open:"), None);
    assert_eq!(parse_callback_page("users_page:4", "users_page:"), Some(4));
    assert_eq!(parse_callback_page("users_page:-2", "users_page:"), Some(1));
    assert_eq!(parse_callback_page("users_page:", "users_page:"), None);
}

#[test]
fn token_create_args_parsing() {
    let words = |xs: &[&str]| xs.iter().map(|s| s.to_string()).collect::<Vec<String>>();
    assert_eq!(
        parse_token_create_args(&words(&[])),
        Some(TokenCreateArgs { days: None, auto_approve: false, max_uses: None })
    );
    assert_eq!(
        parse_token_create_args(&words(&["14", "--auto", "--max-uses", "3"])),
        Some(TokenCreateArgs { days: Some(14), auto_approve: true, max_uses: Some(3) })
    );
    assert_eq!(
        parse_token_create_args(&words(&["-a"])),
        Some(TokenCreateArgs { days: None, auto_approve: true, max_uses: None })
    );
    assert_eq!(parse_token_create_args(&words(&["--max-uses"])), None);
    assert_eq!(parse_token_create_args(&words(&["--max-uses", "0"])), None);
    assert_eq!(parse_token_create_args(&words(&["7", "9"])), None);
    assert_eq!(parse_token_create_args(&words(&["seven"])), None);
}

#[test]
fn proxy_and_start_links() {
    let params = LinkParams { server: "proxy.example.com".to_string(), port: 443 };
    assert_eq!(
        build_proxy_link(&params, "00ff"),
        "https://t.me/proxy?server=proxy.example.com&port=443&secret=00ff"
    );
    // a server name needing escaping is percent-encoded
    let params2 = LinkParams { server: "a b".to_string(), port: 1 };
    assert_eq!(
        build_proxy_link(&params2, "ff"),
        "https://t.me/proxy?server=a%20b&port=1&secret=ff"
    );
    assert_eq!(build_bot_start_link("@mybot", "tok1"), "https://t.me/mybot?start=tok1");
    assert_eq!(build_bot_start_link("mybot", "tok1"), "https://t.me/mybot?start=tok1");
}

#[test]
fn secret_is_32_hex_chars() {
    let s = generate_user_secret();
    assert_eq!(s.chars().count(), 32);
    assert!(s.chars().all(|c| c.is_ascii_hexdigit() && !c.is_ascii_uppercase()));
    // two draws almost surely differ; equality would mean the randomness
    // is not feeding through
    assert_ne!(generate_user_secret(), s);
}

#[test]
fn mode_and_status_labels() {
    assert_eq!(format_mode(true), "АВТОПОДТВЕРЖДЕНИЕ 🚀");
    assert_eq!(format_mode(false), "Ручной ✅");
    let mut db = Db::new();
    match db.register_or_get(5, None, None, 0) {
        RegisterResult::NewPending(r) => assert_eq!(status_label(r.status), "pending"),
        _ => panic!("expected pending"),
    }
}

#[test]
fn date_formatting_shapes() {
    let d = format_date(86_400 * 365);
    assert!(d.chars().count() >= 10);
    assert!(d.contains('.'));
    let t = format_timestamp(86_400 * 365);
    assert!(t.chars().count() >= 26);
    // two instants a year apart render differently whatever the zone
    assert_ne!(format_date(0), format_date(86_400 * 400));
}

#[test]
fn invite_token_line_rendering() {
    let t = sample_token(true, 2, Some(5), Some(77));
    assert_eq!(
        render_invite_token_line(&t, "01.01.2024", "31.12.2023"),
        "• abcDEF1234 | AUTO | до 01.01.2024 | usage 2/5 | creator 77 | создан 31.12.2023"
    );
    let t2 = sample_token(false, 0, None, None);
    assert_eq!(
        render_invite_token_line(&t2, "01.01.2024", "31.12.2023"),
        "• abcDEF1234 | MANUAL | до 01.01.2024 | usage 0/∞ | creator — | создан 31.12.2023"
    );
}

#[test]
fn user_card_rendering() {
    let mut db = Db::new();
    db.register_or_get(7, Some("alice"), Some("Alice A"), 0);
    let row = db.get_request_by_tg_user(7).unwrap();
    let card = render_user_card_text(&row, 2, "2024-01-01");
    assert_eq!(
        card,
        "👤 Карточка пользователя\n\nСтраница списка: 2\nTG ID: 7\nUsername: @alice\nИмя: Alice A\nСтатус: pending\nTelemt username: —\nСоздано: 2024-01-01"
    );
}

#[test]
fn display_name_precedence() {
    let mut db = Db::new();
    db.register_or_get(7, Some("alice"), Some("Alice A"), 0);
    let row = db.get_request_by_tg_user(7).unwrap();
    assert_eq!(user_display_name(&row), "Alice A");
    let mut db2 = Db::new();
    db2.register_or_get(8, Some("bob"), None, 0);
    let row2 = db2.get_request_by_tg_user(8).unwrap();
    assert_eq!(user_display_name(&row2), "@bob");
    let mut db3 = Db::new();
    db3.register_or_get(9, None, None, 0);
    let row3 = db3.get_request_by_tg_user(9).unwrap();
    assert_eq!(user_display_name(&row3), "tg_9");
    let mut db4 = Db::new();
    db4.set_approved(10, None, None, "tg_10", "s", 0);
    let row4 = db4.get_request_by_tg_user(10).unwrap();
    assert_eq!(user_display_name(&row4), "tg_10");
}

#[test]
fn full_name_building() {
    assert_eq!(full_name("Ann", Some("Lee")), "Ann Lee");
    assert_eq!(full_name("Ann", Some("  ")), "Ann");
    assert_eq!(full_name("Ann", None), "Ann");
}

#[test]
fn name_shortening() {
    assert_eq!(shorten_name("short"), "short");
    let long: String = "x".repeat(45);
    let cut = shorten_name(&long);
    assert_eq!(cut.chars().count(), 40);
    assert!(cut.ends_with("..."));
}

#[test]
fn guide_text_present() {
    assert!(usage_guide_text().starts_with("Как подключиться к прокси:"));
}

#[test]
fn service_result_formatting() {
    let ctl = ServiceController::new("telemt.service");
    assert_eq!(ctl.service_name(), "telemt.service");
    let ok = ServiceResult { success: true, stdout: "out".to_string(), stderr: String::new() };
    assert_eq!(ctl.format_result("status", &ok), "status telemt: OK\nout");
    let bad = ServiceResult {
        success: false,
        stdout: String::new(),
        stderr: "boom".to_string(),
    };
    assert_eq!(ctl.format_result("restart", &bad), "restart telemt: Ошибка\nboom");
    let quiet = ServiceResult { success: true, stdout: String::new(), stderr: String::new() };
    assert_eq!(ctl.format_result("stop", &quiet), "stop telemt: OK");
}
