//! Exact rendering of the texts the library owns: token listing lines,
//! the user card, display names, and labels.  Date formatting goes through
//! chrono and depends on the machine's time zone, so the renderers that
//! need a date take the formatted date as an argument; `format_date` and
//! `format_timestamp` produce one.

use vstd::prelude::*;
use crate::db::InviteToken;
use crate::db::TokenView;
use crate::db::RegistrationRequest;
use crate::db::ReqView;
use crate::db::RequestStatus;
use crate::strutil::i64_dec;
use crate::strutil::i64_to_string;
use crate::strutil::trim_spec;
use crate::strutil::trim_str;

verus! {

// ---------------------------------------------------------------------------
// dates (through chrono)
// ---------------------------------------------------------------------------

/// Relies on chrono: `DateTime::<Utc>::from_timestamp(ts, 0)` is `None`
/// only outside chrono's representable range of about ±262000 years, so
/// every timestamp within ±8e12 seconds converts; the instant is shown in
/// the machine's local time zone as `%d.%m.%Y` — day and month zero-padded
/// to two digits, year to at least four.  The text depends on the
/// machine's time zone, so beyond that only its least length is stated.
#[verifier::external_body]
fn format_date_local(ts: i64) -> (r: Option<String>)
    ensures
        r is Some ==> r->0@.len() >= 10,
        -8_000_000_000_000 <= ts <= 8_000_000_000_000 ==> r is Some,
{
    chrono::DateTime::<chrono::Utc>::from_timestamp(ts, 0).map(
        |dt| dt.with_timezone(&chrono::Local).format("%d.%m.%Y").to_string(),
    )
}

/// Relies on chrono as `format_date_local` does, with the format
/// `%Y-%m-%d %H:%M:%S %:z`: at least twenty-six characters.
#[verifier::external_body]
fn format_timestamp_local(ts: i64) -> (r: Option<String>)
    ensures
        r is Some ==> r->0@.len() >= 26,
        -8_000_000_000_000 <= ts <= 8_000_000_000_000 ==> r is Some,
{
    chrono::DateTime::<chrono::Utc>::from_timestamp(ts, 0).map(
        |dt| dt.with_timezone(&chrono::Local).format("%Y-%m-%d %H:%M:%S %:z").to_string(),
    )
}

/// A timestamp as a local calendar date, or an em dash when it cannot be
/// represented (possible only for timestamps beyond ±8e12 seconds).
pub fn format_date(ts: i64) -> (r: String)
    ensures
        r@.len() >= 10 || r@ == "—"@,
        -8_000_000_000_000 <= ts <= 8_000_000_000_000 ==> r@.len() >= 10,
{
    match format_date_local(ts) {
        Some(s) => s,
        None => "—".to_owned(),
    }
}

/// A timestamp as local date and time, or a marked fallback naming the
/// raw value when it cannot be represented (possible only for timestamps
/// beyond ±8e12 seconds).
pub fn format_timestamp(ts: i64) -> (r: String)
    ensures
        r@.len() >= 26 || r@ == "Некорректный timestamp: "@ + i64_dec(ts as int),
        -8_000_000_000_000 <= ts <= 8_000_000_000_000 ==> r@.len() >= 26,
{
    match format_timestamp_local(ts) {
        Some(s) => s,
        None => {
            let mut s = "Некорректный timestamp: ".to_owned();
            s.append(i64_to_string(ts).as_str());
            s
        },
    }
}

// ---------------------------------------------------------------------------
// labels
// ---------------------------------------------------------------------------

pub open spec fn mode_label(auto_approve: bool) -> Seq<char> {
    if auto_approve {
        "АВТОПОДТВЕРЖДЕНИЕ 🚀"@
    } else {
        "Ручной ✅"@
    }
}

pub fn format_mode(auto_approve: bool) -> (r: &'static str)
    ensures
        r@ == mode_label(auto_approve),
{
    if auto_approve {
        "АВТОПОДТВЕРЖДЕНИЕ 🚀"
    } else {
        "Ручной ✅"
    }
}

pub open spec fn status_str(st: RequestStatus) -> Seq<char> {
    match st {
        RequestStatus::Pending => "pending"@,
        RequestStatus::Approved => "approved"@,
        RequestStatus::Rejected => "rejected"@,
        RequestStatus::Deleted => "deleted"@,
    }
}

pub fn status_label(st: RequestStatus) -> (r: &'static str)
    ensures
        r@ == status_str(st),
{
    match st {
        RequestStatus::Pending => "pending",
        RequestStatus::Approved => "approved",
        RequestStatus::Rejected => "rejected",
        RequestStatus::Deleted => "deleted",
    }
}

// ---------------------------------------------------------------------------
// names
// ---------------------------------------------------------------------------

/// How a user is shown: the display name, else `@username`, else the
/// internal username, else `tg_` and the numeric identity.
pub open spec fn display_name_spec(r: ReqView) -> Seq<char> {
    if r.tg_display_name is Some {
        r.tg_display_name->0
    } else if r.tg_username is Some {
        "@"@ + r.tg_username->0
    } else if r.telemt_username is Some {
        r.telemt_username->0
    } else {
        "tg_"@ + i64_dec(r.tg_user_id)
    }
}

pub fn user_display_name(user: &RegistrationRequest) -> (r: String)
    ensures
        r@ == display_name_spec(user@),
{
    match &user.tg_display_name {
        Some(n) => n.clone(),
        None => match &user.tg_username {
            Some(u) => {
                let mut s = "@".to_owned();
                s.append(u.as_str());
                s
            },
            None => match &user.telemt_username {
                Some(t) => t.clone(),
                None => {
                    let mut s = "tg_".to_owned();
                    s.append(i64_to_string(user.tg_user_id).as_str());
                    s
                },
            },
        },
    }
}

/// A sender's full name: the first name, with the last name appended when
/// it is present and not blank.
pub open spec fn full_name_spec(first: Seq<char>, last: Option<Seq<char>>) -> Seq<char> {
    if last is Some && trim_spec(last->0).len() > 0 {
        first + " "@ + last->0
    } else {
        first
    }
}

pub fn full_name(first: &str, last: Option<&str>) -> (r: String)
    ensures
        r@ == full_name_spec(first@, crate::db::view_opt_str(last)),
{
    match last {
        Some(l) => {
            if trim_str(l).unicode_len() > 0 {
                let mut s = first.to_owned();
                s.append(" ");
                s.append(l);
                s
            } else {
                first.to_owned()
            }
        },
        None => first.to_owned(),
    }
}

/// A name cut to at most forty characters, the overflow marked.
pub open spec fn shorten_spec(s: Seq<char>) -> Seq<char> {
    if s.len() > 40 {
        s.subrange(0, 37) + "..."@
    } else {
        s
    }
}

pub fn shorten_name(s: &str) -> (r: String)
    ensures
        r@ == shorten_spec(s@),
{
    if s.unicode_len() > 40 {
        let mut out = s.substring_char(0, 37).to_owned();
        out.append("...");
        out
    } else {
        s.to_owned()
    }
}

// ---------------------------------------------------------------------------
// lines and cards
// ---------------------------------------------------------------------------

/// One listing line for an invite token, with its dates already formatted.
pub open spec fn invite_line_spec(t: TokenView, expires_date: Seq<char>, created_date: Seq<char>) -> Seq<
    char,
> {
    "• "@ + t.token + " | "@ + (if t.auto_approve {
        "AUTO"@
    } else {
        "MANUAL"@
    }) + " | до "@ + expires_date + " | usage "@ + i64_dec(t.usage_count) + (match t.max_usage {
        Some(m) => "/"@ + i64_dec(m),
        None => "/∞"@,
    }) + " | creator "@ + (match t.created_by {
        Some(v) => i64_dec(v),
        None => "—"@,
    }) + " | создан "@ + created_date
}

pub fn render_invite_token_line(token: &InviteToken, expires_date: &str, created_date: &str) -> (r:
    String)
    ensures
        r@ == invite_line_spec(token@, expires_date@, created_date@),
{
    let mut s = "• ".to_owned();
    s.append(token.token.as_str());
    s.append(" | ");
    if token.auto_approve {
        s.append("AUTO");
    } else {
        s.append("MANUAL");
    }
    s.append(" | до ");
    s.append(expires_date);
    s.append(" | usage ");
    s.append(i64_to_string(token.usage_count).as_str());
    match token.max_usage {
        Some(m) => {
            s.append("/");
            s.append(i64_to_string(m).as_str());
        },
        None => {
            s.append("/∞");
        },
    }
    s.append(" | creator ");
    match token.created_by {
        Some(v) => {
            s.append(i64_to_string(v).as_str());
        },
        None => {
            s.append("—");
        },
    }
    s.append(" | создан ");
    s.append(created_date);
    s
}

/// The admin-facing card for one user, with the creation date already
/// formatted.
pub open spec fn user_card_spec(u: ReqView, page: int, created: Seq<char>) -> Seq<char> {
    "👤 Карточка пользователя\n\nСтраница списка: "@ + i64_dec(page) + "\nTG ID: "@ + i64_dec(
        u.tg_user_id,
    ) + "\nUsername: @"@ + (match u.tg_username {
        Some(x) => x,
        None => "—"@,
    }) + "\nИмя: "@ + (match u.tg_display_name {
        Some(x) => x,
        None => "—"@,
    }) + "\nСтатус: "@ + status_str(u.status) + "\nTelemt username: "@ + (match u.telemt_username {
        Some(x) => x,
        None => "—"@,
    }) + "\nСоздано: "@ + created
}

pub fn render_user_card_text(user: &RegistrationRequest, page: i64, created: &str) -> (r: String)
    ensures
        r@ == user_card_spec(user@, page as int, created@),
{
    let mut s = "👤 Карточка пользователя\n\nСтраница списка: ".to_owned();
    s.append(i64_to_string(page).as_str());
    s.append("\nTG ID: ");
    s.append(i64_to_string(user.tg_user_id).as_str());
    s.append("\nUsername: @");
    match &user.tg_username {
        Some(x) => s.append(x.as_str()),
        None => s.append("—"),
    }
    s.append("\nИмя: ");
    match &user.tg_display_name {
        Some(x) => s.append(x.as_str()),
        None => s.append("—"),
    }
    s.append("\nСтатус: ");
    s.append(status_label(user.status));
    s.append("\nTelemt username: ");
    match &user.telemt_username {
        Some(x) => s.append(x.as_str()),
        None => s.append("—"),
    }
    s.append("\nСоздано: ");
    s.append(created);
    s
}

/// The user-facing connection guide.
pub fn usage_guide_text() -> (r: &'static str)
    ensures
        r@ == "Как подключиться к прокси:\n\n1) Нажмите «🔗 Моя ссылка» — бот отправит вам ссылку.\n2) Нажмите на ссылку — Telegram автоматически предложит добавить прокси.\n3) Подтвердите добавление.\n\nЕсли не получается, обратитесь к администратору."@,
{
    "Как подключиться к прокси:\n\n1) Нажмите «🔗 Моя ссылка» — бот отправит вам ссылку.\n2) Нажмите на ссылку — Telegram автоматически предложит добавить прокси.\n3) Подтвердите добавление.\n\nЕсли не получается, обратитесь к администратору."
}

} // verus!
