//! Classification of inbound text: command arguments, start-command
//! tokens, and callback payloads.  Malformed input is rejected before any
//! mutation, with `None` as the uniform signal.

use vstd::prelude::*;
use crate::strutil::is_space_c;
use crate::strutil::is_space;
use crate::strutil::skip_idx;
use crate::strutil::trim_pred;
use crate::strutil::trim_spec;
use crate::strutil::trim_str;
use crate::strutil::trim_backticks;
use crate::strutil::parse_i64_spec;
use crate::strutil::parse_i64;
use crate::strutil::has_prefix;
use crate::strutil::str_eq;

verus! {

// ---------------------------------------------------------------------------
// /create target
// ---------------------------------------------------------------------------

/// Whom a direct grant addresses: a numeric identity, or a stored user
/// name to resolve first.
pub enum CreateTarget {
    UserId(i64),
    Username(String),
}

pub ghost enum CreateTargetView {
    UserId(int),
    Username(Seq<char>),
}

impl View for CreateTarget {
    type V = CreateTargetView;

    open spec fn view(&self) -> CreateTargetView {
        match self {
            CreateTarget::UserId(v) => CreateTargetView::UserId(*v as int),
            CreateTarget::Username(u) => CreateTargetView::Username(u@),
        }
    }
}

/// A trimmed integer is an identity; otherwise `@name` (trimmed again
/// behind the marker) is a user name; anything else is malformed.
pub open spec fn create_target_spec(s: Seq<char>) -> Option<CreateTargetView> {
    let t = trim_spec(s);
    if t.len() == 0 {
        None
    } else {
        match parse_i64_spec(t) {
            Some(v) => Some(CreateTargetView::UserId(v)),
            None => {
                if t[0] == '@' {
                    let u = trim_spec(t.subrange(1, t.len() as int));
                    if u.len() == 0 {
                        None
                    } else {
                        Some(CreateTargetView::Username(u))
                    }
                } else {
                    None
                }
            },
        }
    }
}

pub fn parse_create_target(arg: &str) -> (r: Option<CreateTarget>)
    ensures
        match r {
            Some(t) => create_target_spec(arg@) == Some(t@),
            None => create_target_spec(arg@) is None,
        },
{
    let t = trim_str(arg);
    let tlen = t.unicode_len();
    if tlen == 0 {
        return None;
    }
    match parse_i64(t) {
        Some(v) => Some(CreateTarget::UserId(v)),
        None => {
            if t.get_char(0) == '@' {
                let u = trim_str(t.substring_char(1, tlen));
                if u.unicode_len() == 0 {
                    None
                } else {
                    Some(CreateTarget::Username(u.to_owned()))
                }
            } else {
                None
            }
        },
    }
}

// ---------------------------------------------------------------------------
// /start token extraction
// ---------------------------------------------------------------------------

/// What `urlencoding::decode` returns for a string (`None` for its error).
pub uninterp spec fn url_decoded(s: Seq<char>) -> Option<Seq<char>>;

/// Relies on `urlencoding::decode`: percent-sequences are decoded, and the
/// call fails only when the decoded bytes are not UTF-8; a pure function
/// of the input, and a string without `%` comes back unchanged.
#[verifier::external_body]
fn url_decode(s: &str) -> (r: Option<String>)
    ensures
        r is Some <==> url_decoded(s@) is Some,
        r is Some ==> r->0@ == url_decoded(s@)->0,
        (forall|i: int| 0 <= i < s@.len() ==> s@[i] != '%') ==> r is Some && r->0@ == s@,
{
    urlencoding::decode(s).ok().map(|c| c.into_owned())
}

/// The token in a start command: the first word must begin with `/start`,
/// the second word is the token — percent-decoded if possible, then
/// stripped of surrounding whitespace and backticks.  Empty results are
/// malformed.
pub open spec fn parse_start_token_spec(s: Seq<char>) -> Option<Seq<char>> {
    let a = skip_idx(s, 0, |c: char| is_space_c(c));
    if a >= s.len() {
        None
    } else {
        let b = skip_idx(s, a, |c: char| !is_space_c(c));
        let w1 = s.subrange(a, b);
        if !(w1.len() >= 6 && w1.subrange(0, 6) == "/start"@) {
            None
        } else {
            let c0 = skip_idx(s, b, |c: char| is_space_c(c));
            if c0 >= s.len() {
                None
            } else {
                let d = skip_idx(s, c0, |c: char| !is_space_c(c));
                let tok = s.subrange(c0, d);
                let dec = match url_decoded(tok) {
                    Some(x) => x,
                    None => tok,
                };
                let norm = trim_spec(trim_pred(trim_spec(dec), |c: char| c == '`'));
                if norm.len() == 0 {
                    None
                } else {
                    Some(norm)
                }
            }
        }
    }
}

pub fn parse_start_token(text: &str) -> (r: Option<String>)
    ensures
        match r {
            Some(t) => parse_start_token_spec(text@) == Some(t@),
            None => parse_start_token_spec(text@) is None,
        },
{
    let ghost sp = |c: char| is_space_c(c);
    let ghost nsp = |c: char| !is_space_c(c);
    let len = text.unicode_len();
    let mut a: usize = 0;
    while a < len && is_space(text.get_char(a))
        invariant
            a <= len,
            len == text@.len(),
            sp == (|c: char| is_space_c(c)),
            skip_idx(text@, 0, sp) == skip_idx(text@, a as int, sp),
        decreases len - a,
    {
        a += 1;
    }
    proof {
        assert(skip_idx(text@, 0, sp) == a as int);
    }
    if a == len {
        return None;
    }
    let mut b: usize = a;
    while b < len && !is_space(text.get_char(b))
        invariant
            a <= b <= len,
            len == text@.len(),
            nsp == (|c: char| !is_space_c(c)),
            skip_idx(text@, a as int, nsp) == skip_idx(text@, b as int, nsp),
        decreases len - b,
    {
        b += 1;
    }
    proof {
        assert(skip_idx(text@, a as int, nsp) == b as int);
    }
    let w1 = text.substring_char(a, b);
    proof {
        reveal_strlit("/start");
        assert("/start"@.len() == 6);
    }
    if !has_prefix(w1, "/start") {
        return None;
    }
    let mut c0: usize = b;
    while c0 < len && is_space(text.get_char(c0))
        invariant
            b <= c0 <= len,
            len == text@.len(),
            sp == (|c: char| is_space_c(c)),
            skip_idx(text@, b as int, sp) == skip_idx(text@, c0 as int, sp),
        decreases len - c0,
    {
        c0 += 1;
    }
    proof {
        assert(skip_idx(text@, b as int, sp) == c0 as int);
    }
    if c0 == len {
        return None;
    }
    let mut d: usize = c0;
    while d < len && !is_space(text.get_char(d))
        invariant
            c0 <= d <= len,
            len == text@.len(),
            nsp == (|c: char| !is_space_c(c)),
            skip_idx(text@, c0 as int, nsp) == skip_idx(text@, d as int, nsp),
        decreases len - d,
    {
        d += 1;
    }
    proof {
        assert(skip_idx(text@, c0 as int, nsp) == d as int);
    }
    let tok = text.substring_char(c0, d);
    let decoded: String = match url_decode(tok) {
        Some(x) => x,
        None => tok.to_owned(),
    };
    let t1 = trim_str(decoded.as_str());
    let t2 = trim_backticks(t1);
    let t3 = trim_str(t2);
    if t3.unicode_len() == 0 {
        None
    } else {
        Some(t3.to_owned())
    }
}

// ---------------------------------------------------------------------------
// callback payloads
// ---------------------------------------------------------------------------

/// `<prefix><id>`: the id behind a known prefix.
pub open spec fn callback_id_spec(data: Seq<char>, prefix: Seq<char>) -> Option<int> {
    if data.len() >= prefix.len() && data.subrange(0, prefix.len() as int) == prefix {
        parse_i64_spec(data.subrange(prefix.len() as int, data.len() as int))
    } else {
        None
    }
}

pub fn parse_callback_request_id(data: &str, prefix: &str) -> (r: Option<i64>)
    ensures
        r is Some <==> callback_id_spec(data@, prefix@) is Some,
        r is Some ==> Some(r->0 as int) == callback_id_spec(data@, prefix@),
{
    if !has_prefix(data, prefix) {
        return None;
    }
    let rest = data.substring_char(prefix.unicode_len(), data.unicode_len());
    parse_i64(rest)
}

/// `<prefix><identity>:<page>[:...]`: both numbers parsed, the page
/// clamped up to one; trailing `:`-separated fields are ignored.
pub open spec fn callback_user_action_spec(data: Seq<char>, prefix: Seq<char>) -> Option<
    (int, int),
> {
    if !(data.len() >= prefix.len() && data.subrange(0, prefix.len() as int) == prefix) {
        None
    } else {
        let p = data.subrange(prefix.len() as int, data.len() as int);
        let i = skip_idx(p, 0, |c: char| c != ':');
        if i >= p.len() {
            None
        } else {
            let j = skip_idx(p, i + 1, |c: char| c != ':');
            match (parse_i64_spec(p.subrange(0, i)), parse_i64_spec(p.subrange(i + 1, j))) {
                (Some(uid), Some(page)) => Some(
                    (
                        uid,
                        if page < 1 {
                            1
                        } else {
                            page
                        },
                    ),
                ),
                _ => None,
            }
        }
    }
}

pub fn parse_callback_user_action(data: &str, prefix: &str) -> (r: Option<(i64, i64)>)
    ensures
        match r {
            Some(p) => callback_user_action_spec(data@, prefix@) == Some(
                (p.0 as int, p.1 as int),
            ),
            None => callback_user_action_spec(data@, prefix@) is None,
        },
{
    let ghost ncolon = |c: char| c != ':';
    if !has_prefix(data, prefix) {
        return None;
    }
    let p = data.substring_char(prefix.unicode_len(), data.unicode_len());
    let plen = p.unicode_len();
    let mut i: usize = 0;
    while i < plen && p.get_char(i) != ':'
        invariant
            i <= plen,
            plen == p@.len(),
            ncolon == (|c: char| c != ':'),
            skip_idx(p@, 0, ncolon) == skip_idx(p@, i as int, ncolon),
        decreases plen - i,
    {
        i += 1;
    }
    proof {
        assert(skip_idx(p@, 0, ncolon) == i as int);
    }
    if i == plen {
        return None;
    }
    let mut j: usize = i + 1;
    while j < plen && p.get_char(j) != ':'
        invariant
            i + 1 <= j <= plen,
            plen == p@.len(),
            ncolon == (|c: char| c != ':'),
            skip_idx(p@, i + 1, ncolon) == skip_idx(p@, j as int, ncolon),
        decreases plen - j,
    {
        j += 1;
    }
    proof {
        assert(skip_idx(p@, i + 1, ncolon) == j as int);
    }
    let tg = match parse_i64(p.substring_char(0, i)) {
        Some(v) => v,
        None => {
            return None;
        },
    };
    let page = match parse_i64(p.substring_char(i + 1, j)) {
        Some(v) => v,
        None => {
            return None;
        },
    };
    let page = if page < 1 {
        1
    } else {
        page
    };
    Some((tg, page))
}

/// `<prefix><page>`: the page behind a known prefix, clamped up to one.
pub open spec fn callback_page_spec(data: Seq<char>, prefix: Seq<char>) -> Option<int> {
    match callback_id_spec(data, prefix) {
        Some(page) => Some(
            if page < 1 {
                1
            } else {
                page
            },
        ),
        None => None,
    }
}

pub fn parse_callback_page(data: &str, prefix: &str) -> (r: Option<i64>)
    ensures
        r is Some <==> callback_page_spec(data@, prefix@) is Some,
        r is Some ==> Some(r->0 as int) == callback_page_spec(data@, prefix@),
{
    match parse_callback_request_id(data, prefix) {
        Some(page) => Some(
            if page < 1 {
                1
            } else {
                page
            },
        ),
        None => None,
    }
}

// ---------------------------------------------------------------------------
// token-creation arguments
// ---------------------------------------------------------------------------

/// The options of a token-creation command, already validated.
#[derive(Clone, Copy, Debug, PartialEq, Eq, Structural)]
pub struct TokenCreateArgs {
    pub days: Option<i64>,
    pub auto_approve: bool,
    pub max_uses: Option<i64>,
}

/// One pass over the option words: `--auto`/`-a` switches auto-approval
/// on, `--max-uses` takes a following integer of at least one, a bare
/// integer is the day count and may appear once; anything else is
/// malformed.
pub open spec fn token_args_spec(
    ws: Seq<Seq<char>>,
    k: int,
    days: Option<int>,
    auto: bool,
    max: Option<int>,
) -> Option<(Option<int>, bool, Option<int>)>
    decreases ws.len() - k when 0 <= k <= ws.len()
{
    if k >= ws.len() {
        Some((days, auto, max))
    } else {
        let w = ws[k];
        if w == "--auto"@ || w == "-a"@ {
            token_args_spec(ws, k + 1, days, true, max)
        } else if w == "--max-uses"@ {
            if k + 1 >= ws.len() {
                None
            } else {
                match parse_i64_spec(ws[k + 1]) {
                    Some(v) => if v >= 1 {
                        token_args_spec(ws, k + 2, days, auto, Some(v))
                    } else {
                        None
                    },
                    None => None,
                }
            }
        } else {
            match parse_i64_spec(w) {
                Some(d) => if days is Some {
                    None
                } else {
                    token_args_spec(ws, k + 1, Some(d), auto, max)
                },
                None => None,
            }
        }
    }
}

pub open spec fn word_views(ws: Seq<String>) -> Seq<Seq<char>> {
    ws.map_values(|s: String| s@)
}

pub fn parse_token_create_args(args: &Vec<String>) -> (r: Option<TokenCreateArgs>)
    ensures
        match r {
            Some(a) => token_args_spec(word_views(args@), 0, None, false, None) == Some(
                (crate::db::view_opt_i64(a.days), a.auto_approve, crate::db::view_opt_i64(
                    a.max_uses,
                )),
            ),
            None => token_args_spec(word_views(args@), 0, None, false, None) is None,
        },
{
    let ghost ws = word_views(args@);
    let mut days: Option<i64> = None;
    let mut auto_approve = false;
    let mut max_uses: Option<i64> = None;
    let mut k: usize = 0;
    while k < args.len()
        invariant
            k <= args@.len(),
            ws == word_views(args@),
            token_args_spec(ws, 0, None, false, None) == token_args_spec(
                ws,
                k as int,
                crate::db::view_opt_i64(days),
                auto_approve,
                crate::db::view_opt_i64(max_uses),
            ),
        decreases args@.len() - k,
    {
        let w = &args[k];
        if str_eq(w.as_str(), "--auto") || str_eq(w.as_str(), "-a") {
            auto_approve = true;
            k += 1;
        } else if str_eq(w.as_str(), "--max-uses") {
            if k + 1 >= args.len() {
                return None;
            }
            match parse_i64(args[k + 1].as_str()) {
                Some(v) => {
                    if v >= 1 {
                        max_uses = Some(v);
                        k += 2;
                    } else {
                        return None;
                    }
                },
                None => {
                    return None;
                },
            }
        } else {
            match parse_i64(w.as_str()) {
                Some(d) => {
                    match days {
                        Some(_) => {
                            return None;
                        },
                        None => {
                            days = Some(d);
                            k += 1;
                        },
                    }
                },
                None => {
                    return None;
                },
            }
        }
    }
    Some(TokenCreateArgs { days, auto_approve, max_uses })
}

} // verus!
