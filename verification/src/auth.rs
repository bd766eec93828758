//! The OAuth side of the reminder: reading the authorization code out of the
//! browser's redirect, answering the browser, and deciding when the stored
//! access token must be renewed and what the renewed token holds.
use crate::text::{chars_of, decimal, decimal_text};
use crate::time::{
    law_since_undoes_shift, is_regular, shifted, span_between, span_valid, total_in_range, total_nanos, Instant, Span,
    MAX_SPAN_NANOS,
};
use vstd::prelude::*;
use vstd::string::StrSliceExecFns;
use vstd::string::StringExecFns;

verus! {

/// Why an authorization step failed.
#[derive(Debug, Clone, Copy, PartialEq, Eq, Structural)]
pub enum AuthError {
    /// The redirect text holds no `code=`.
    NoCode,
    /// The token grant carried no refresh token.
    NoRefreshToken,
    /// The token lifetime that the server sent is longer than a chrono
    /// `TimeDelta` can hold.
    LifetimeOutOfRange,
}

/// What each authorization error tells the user.
pub open spec fn error_text(e: AuthError) -> Seq<char> {
    match e {
        AuthError::NoCode => "no code= found — did you paste the right URL?"@,
        AuthError::NoRefreshToken =>
            "no refresh_token in response — ensure access_type=offline and prompt=consent were set"@,
        AuthError::LifetimeOutOfRange =>
            "Source duration value is out of range for the target type"@,
    }
}

impl AuthError {
    /// The message shown to the user for this error.
    pub fn message(&self) -> (r: String)
        ensures
            r@ == error_text(*self),
    {
        match self {
            AuthError::NoCode => String::from_str("no code= found — did you paste the right URL?"),
            AuthError::NoRefreshToken => String::from_str(
                "no refresh_token in response — ensure access_type=offline and prompt=consent were set",
            ),
            AuthError::LifetimeOutOfRange => String::from_str(
                "Source duration value is out of range for the target type",
            ),
        }
    }
}

/// The text that announces the authorization code in a redirect.
pub open spec fn code_marker() -> Seq<char> {
    seq!['c', 'o', 'd', 'e', '=']
}

/// Whether `code=` begins at position `i` of `t`.
pub open spec fn marker_at(t: Seq<char>, i: int) -> bool {
    0 <= i && i + 5 <= t.len() && t.subrange(i, i + 5) == code_marker()
}

/// The first position at or after `i` where `code=` begins.
pub open spec fn find_marker(t: Seq<char>, i: int) -> Option<int>
    decreases t.len() - i,
{
    if i < 0 || i + 5 > t.len() {
        None
    } else if marker_at(t, i) {
        Some(i)
    } else {
        find_marker(t, i + 1)
    }
}

/// The characters that end the code: `&` and the space.
pub open spec fn ends_code(c: char) -> bool {
    c == '&' || c == ' '
}

/// The text up to the first `&` or space.
pub open spec fn up_to_separator(s: Seq<char>) -> Seq<char>
    decreases s.len(),
{
    if s.len() == 0 {
        s
    } else if ends_code(s[0]) {
        Seq::empty()
    } else {
        seq![s[0]] + up_to_separator(s.drop_first())
    }
}

/// Unicode's `White_Space` property, which Rust's `char::is_whitespace` tests.
pub open spec fn white_space(c: char) -> bool {
    let u = c as u32;
    (0x9 <= u <= 0xd) || u == 0x20 || u == 0x85 || u == 0xa0 || u == 0x1680 || (0x2000 <= u
        <= 0x200a) || u == 0x2028 || u == 0x2029 || u == 0x202f || u == 0x205f || u == 0x3000
}

/// The text without its leading white space.
pub open spec fn trim_start(s: Seq<char>) -> Seq<char>
    decreases s.len(),
{
    if s.len() > 0 && white_space(s[0]) {
        trim_start(s.drop_first())
    } else {
        s
    }
}

/// The text without its trailing white space.
pub open spec fn trim_end(s: Seq<char>) -> Seq<char>
    decreases s.len(),
{
    if s.len() > 0 && white_space(s.last()) {
        trim_end(s.drop_last())
    } else {
        s
    }
}

/// The text without white space at either end, as `str::trim` gives it.
pub open spec fn trimmed(s: Seq<char>) -> Seq<char> {
    trim_end(trim_start(s))
}

/// The authorization code in a redirect: after the first `code=`, up to the
/// next `&` or space, without surrounding white space.
pub open spec fn code_in(t: Seq<char>) -> Option<Seq<char>> {
    match find_marker(t, 0) {
        Some(i) => Some(trimmed(up_to_separator(t.skip(i + 5)))),
        None => None,
    }
}

/// Whether a character has Unicode's `White_Space` property.
pub fn is_white_space(c: char) -> (r: bool)
    ensures
        r == white_space(c),
{
    let u = c as u32;
    (0x9 <= u && u <= 0xd) || u == 0x20 || u == 0x85 || u == 0xa0 || u == 0x1680 || (0x2000 <= u
        && u <= 0x200a) || u == 0x2028 || u == 0x2029 || u == 0x202f || u == 0x205f || u == 0x3000
}

proof fn lemma_up_to_separator(s: Seq<char>, m: int)
    requires
        0 <= m <= s.len(),
        forall|k: int| 0 <= k < m ==> !ends_code(#[trigger] s[k]),
        m == s.len() || ends_code(s[m]),
    ensures
        up_to_separator(s) == s.take(m),
    decreases s.len(),
{
    if s.len() == 0 {
        assert(s.take(m) =~= s);
    } else if m == 0 {
        assert(s.take(0) =~= Seq::<char>::empty());
    } else {
        let t = s.drop_first();
        assert forall|k: int| 0 <= k < m - 1 implies !ends_code(#[trigger] t[k]) by {
            assert(t[k] == s[k + 1]);
        }
        if m < s.len() {
            assert(t[m - 1] == s[m]);
        }
        lemma_up_to_separator(t, m - 1);
        assert(seq![s[0]] + t.take(m - 1) =~= s.take(m));
    }
}

proof fn lemma_trim_start(s: Seq<char>, m: int)
    requires
        0 <= m <= s.len(),
        forall|k: int| 0 <= k < m ==> white_space(#[trigger] s[k]),
        m == s.len() || !white_space(s[m]),
    ensures
        trim_start(s) == s.skip(m),
    decreases s.len(),
{
    if m == 0 {
        assert(s.skip(0) =~= s);
        if s.len() > 0 {
            assert(!white_space(s[0]));
        }
    } else {
        let t = s.drop_first();
        assert(white_space(s[0]));
        assert forall|k: int| 0 <= k < m - 1 implies white_space(#[trigger] t[k]) by {
            assert(t[k] == s[k + 1]);
        }
        if m < s.len() {
            assert(t[m - 1] == s[m]);
        }
        lemma_trim_start(t, m - 1);
        assert(t.skip(m - 1) =~= s.skip(m));
    }
}

proof fn lemma_trim_end(s: Seq<char>, m: int)
    requires
        0 <= m <= s.len(),
        forall|k: int| m <= k < s.len() ==> white_space(#[trigger] s[k]),
        m == 0 || !white_space(s[m - 1]),
    ensures
        trim_end(s) == s.take(m),
    decreases s.len(),
{
    if m == s.len() {
        assert(s.take(m) =~= s);
        if s.len() > 0 {
            assert(!white_space(s.last()));
        }
    } else {
        let t = s.drop_last();
        assert(white_space(s[s.len() - 1]));
        assert forall|k: int| m <= k < t.len() implies white_space(#[trigger] t[k]) by {
            assert(t[k] == s[k]);
        }
        if m > 0 {
            assert(t[m - 1] == s[m - 1]);
        }
        lemma_trim_end(t, m);
        assert(t.take(m) =~= s.take(m));
    }
}

/// Reads the authorization code out of the browser's redirect (or of a
/// pasted redirect URL).
pub fn parse_code(text: &str) -> (r: Result<String, AuthError>)
    ensures
        match r {
            Ok(code) => code_in(text@) == Some(code@),
            Err(e) => code_in(text@) is None && e == AuthError::NoCode,
        },
{
    let chars = chars_of(text);
    let n = chars.len();
    let mut i: usize = 0;
    let mut found = false;
    while n >= 5 && i <= n - 5
        invariant_except_break
            !found,
        invariant
            chars@ == text@,
            n == text@.len(),
            find_marker(text@, 0) == find_marker(text@, i as int),
        ensures
            found ==> marker_at(text@, i as int) && find_marker(text@, 0) == Some(i as int),
            !found ==> find_marker(text@, 0) is None,
        decreases n - i,
    {
        if chars[i] == 'c' && chars[i + 1] == 'o' && chars[i + 2] == 'd' && chars[i + 3] == 'e'
            && chars[i + 4] == '=' {
            assert(text@.subrange(i as int, i + 5) =~= code_marker());
            found = true;
            break;
        }
        assert(!marker_at(text@, i as int)) by {
            if marker_at(text@, i as int) {
                let w = text@.subrange(i as int, i + 5);
                assert(w[0] == 'c' && w[1] == 'o' && w[2] == 'd' && w[3] == 'e' && w[4] == '=');
            }
        }
        i = i + 1;
    }
    if !found {
        return Err(AuthError::NoCode);
    }
    let start = i + 5;
    let ghost after = text@.skip(start as int);
    let mut end = start;
    while end < n && !(chars[end] == '&' || chars[end] == ' ')
        invariant
            chars@ == text@,
            n == text@.len(),
            start <= end <= n,
            after == text@.skip(start as int),
            forall|k: int| start <= k < end ==> !ends_code(#[trigger] text@[k]),
        decreases n - end,
    {
        end = end + 1;
    }
    let ghost piece = after.take(end - start);
    proof {
        assert forall|k: int| 0 <= k < end - start implies !ends_code(#[trigger] after[k]) by {
            assert(after[k] == text@[start + k]);
        }
        if end < n {
            assert(after[end - start] == text@[end as int]);
        }
        lemma_up_to_separator(after, end - start);
    }
    let mut a = start;
    while a < end && is_white_space(chars[a])
        invariant
            chars@ == text@,
            n == text@.len(),
            start <= a <= end <= n,
            forall|k: int| start <= k < a ==> white_space(#[trigger] text@[k]),
        decreases end - a,
    {
        a = a + 1;
    }
    let mut b = end;
    while b > a && is_white_space(chars[b - 1])
        invariant
            chars@ == text@,
            n == text@.len(),
            start <= a <= b <= end <= n,
            forall|k: int| b <= k < end ==> white_space(#[trigger] text@[k]),
        decreases b - a,
    {
        b = b - 1;
    }
    proof {
        assert(piece =~= text@.subrange(start as int, end as int));
        assert forall|k: int| 0 <= k < a - start implies white_space(#[trigger] piece[k]) by {
            assert(piece[k] == text@[start + k]);
        }
        if a < end {
            assert(piece[a - start] == text@[a as int]);
        }
        lemma_trim_start(piece, a - start);
        let rest = piece.skip(a - start);
        assert(rest =~= text@.subrange(a as int, end as int));
        assert forall|k: int| b - a <= k < rest.len() implies white_space(#[trigger] rest[k]) by {
            assert(rest[k] == text@[a + k]);
        }
        if b > a {
            assert(rest[b - a - 1] == text@[b - 1]);
        }
        lemma_trim_end(rest, b - a);
        assert(rest.take(b - a) =~= text@.subrange(a as int, b as int));
    }
    let code = text.substring_char(a, b).to_owned();
    Ok(code)
}

/// A redirect whose first `code=` is followed by a code free of `&`, spaces
/// and surrounding white space, and then by the end of the text or by `&` or a
/// space, gives back exactly that code.
pub proof fn law_code_read_back(prefix: Seq<char>, code: Seq<char>, rest: Seq<char>)
    requires
        find_marker(prefix + code_marker() + code + rest, 0) == Some(prefix.len() as int),
        forall|k: int| 0 <= k < code.len() ==> !ends_code(#[trigger] code[k]),
        trimmed(code) == code,
        rest.len() == 0 || ends_code(rest[0]),
    ensures
        code_in(prefix + code_marker() + code + rest) == Some(code),
{
    let t = prefix + code_marker() + code + rest;
    let after = t.skip(prefix.len() + 5int);
    assert(after =~= code + rest);
    assert forall|k: int| 0 <= k < code.len() implies !ends_code(#[trigger] after[k]) by {
        assert(after[k] == code[k]);
    }
    if rest.len() > 0 {
        assert(after[code.len() as int] == rest[0]);
    }
    lemma_up_to_separator(after, code.len() as int);
    assert(after.take(code.len() as int) =~= code);
}

proof fn lemma_find_marker_at(t: Seq<char>, i: int, target: int)
    requires
        0 <= i <= target,
        marker_at(t, target),
        forall|k: int| i <= k < target ==> !#[trigger] marker_at(t, k),
    ensures
        find_marker(t, i) == Some(target),
    decreases target - i,
{
    if i < target {
        lemma_find_marker_at(t, i + 1, target);
    }
}

proof fn lemma_find_marker_none(t: Seq<char>, i: int)
    requires
        0 <= i,
    ensures
        find_marker(t, i) is None <==> forall|k: int|
            i <= k && k + 5 <= t.len() ==> !#[trigger] marker_at(t, k),
    decreases t.len() - i,
{
    if i + 5 <= t.len() {
        lemma_find_marker_none(t, i + 1);
    }
}

/// Where a prefix holds no `code=`, the first `code=` of the prefix followed
/// by `code=` and anything is the one right after the prefix.
proof fn lemma_first_marker_after_prefix(prefix: Seq<char>, tail: Seq<char>)
    requires
        forall|i: int|
            0 <= i && i + 5 <= prefix.len() ==> #[trigger] prefix.subrange(i, i + 5) != seq![
                'c',
                'o',
                'd',
                'e',
                '=',
            ],
    ensures
        find_marker(prefix + seq!['c', 'o', 'd', 'e', '='] + tail, 0) == Some(prefix.len() as int),
{
    let m = seq!['c', 'o', 'd', 'e', '='];
    let t = prefix + m + tail;
    let n = prefix.len() as int;
    assert(code_marker() =~= m);
    assert(t.subrange(n, n + 5) =~= m);
    assert forall|k: int| 0 <= k < n implies !#[trigger] marker_at(t, k) by {
        if k + 5 <= n {
            assert(t.subrange(k, k + 5) =~= prefix.subrange(k, k + 5));
        } else if marker_at(t, k) {
            let w = t.subrange(k, k + 5);
            assert(w[n - k] == t[n]);
            assert(t[n] == 'c');
        }
    }
    lemma_find_marker_at(t, 0, n);
}

/// The code ends only at the first `&` or space after the first `code=`:
/// whatever the characters between (other than `&` and the space), the code
/// read is all of them, up to surrounding white space.
pub proof fn law_code_runs_to_separator(prefix: Seq<char>, code: Seq<char>, rest: Seq<char>)
    requires
        forall|i: int|
            0 <= i && i + 5 <= prefix.len() ==> #[trigger] prefix.subrange(i, i + 5) != seq![
                'c',
                'o',
                'd',
                'e',
                '=',
            ],
        forall|k: int| 0 <= k < code.len() ==> #[trigger] code[k] != '&' && code[k] != ' ',
        rest.len() == 0 || rest[0] == '&' || rest[0] == ' ',
    ensures
        code_in(prefix + seq!['c', 'o', 'd', 'e', '='] + code + rest) == Some(trimmed(code)),
{
    let m = seq!['c', 'o', 'd', 'e', '='];
    let t = prefix + m + code + rest;
    let n = prefix.len() as int;
    lemma_first_marker_after_prefix(prefix, code + rest);
    assert(t =~= prefix + m + (code + rest));
    let after = t.skip(n + 5);
    assert(after =~= code + rest);
    assert forall|k: int| 0 <= k < code.len() implies !ends_code(#[trigger] after[k]) by {
        assert(after[k] == code[k]);
    }
    if rest.len() > 0 {
        assert(after[code.len() as int] == rest[0]);
    }
    lemma_up_to_separator(after, code.len() as int);
    assert(after.take(code.len() as int) =~= code);
}

/// A code of printable ASCII characters other than `&` (such as letters,
/// digits, `/`, `-`, `_`, `.`) that follows the first `code=` and is followed
/// by the end, `&` or a space is read back whole.
pub proof fn law_code_read_whole(prefix: Seq<char>, code: Seq<char>, rest: Seq<char>)
    requires
        forall|i: int|
            0 <= i && i + 5 <= prefix.len() ==> #[trigger] prefix.subrange(i, i + 5) != seq![
                'c',
                'o',
                'd',
                'e',
                '=',
            ],
        forall|k: int|
            0 <= k < code.len() ==> 0x21 <= (#[trigger] code[k]) as u32 <= 0x7e && code[k] != '&',
        rest.len() == 0 || rest[0] == '&' || rest[0] == ' ',
    ensures
        code_in(prefix + seq!['c', 'o', 'd', 'e', '='] + code + rest) == Some(code),
{
    law_code_runs_to_separator(prefix, code, rest);
    if code.len() > 0 {
        assert(0x21 <= code[0] as u32 <= 0x7e);
        assert(0x21 <= code[code.len() - 1] as u32 <= 0x7e);
    }
    lemma_trim_start(code, 0);
    assert(code.skip(0) =~= code);
    lemma_trim_end(code, code.len() as int);
    assert(code.take(code.len() as int) =~= code);
}

/// A redirect holds a code exactly when `code=` occurs in it.
pub proof fn law_code_needs_marker(t: Seq<char>)
    ensures
        code_in(t) is None <==> forall|i: int|
            0 <= i && i + 5 <= t.len() ==> #[trigger] t.subrange(i, i + 5) != seq!['c', 'o', 'd', 'e', '='],
{
    assert(code_marker() =~= seq!['c', 'o', 'd', 'e', '=']);
    lemma_find_marker_none(t, 0);
    if !(code_in(t) is None) {
        let i = find_marker(t, 0)->0;
        assert(!forall|k: int| 0 <= k && k + 5 <= t.len() ==> !#[trigger] marker_at(t, k));
        let k = choose|k: int| 0 <= k && k + 5 <= t.len() && #[trigger] marker_at(t, k);
        assert(t.subrange(k, k + 5) == seq!['c', 'o', 'd', 'e', '=']);
    } else {
        assert forall|i: int| 0 <= i && i + 5 <= t.len() implies #[trigger] t.subrange(i, i + 5) != seq![
            'c',
            'o',
            'd',
            'e',
            '=',
        ] by {
            assert(!marker_at(t, i));
        }
    }
}

/// The page shown in the browser once the code has arrived.
pub open spec fn success_page() -> Seq<char> {
    "<html><body><h2>Authorization successful!</h2><p>You can close this tab and return to the terminal.</p></body></html>"@
}

/// The HTTP answer to the browser's redirect: a `200 OK` with an HTML page,
/// its length in bytes, and a request to close the connection.
pub open spec fn redirect_answer(page_len: nat) -> Seq<char> {
    "HTTP/1.1 200 OK\r\nContent-Type: text/html\r\nContent-Length: "@ + decimal_text(page_len)
        + "\r\nConnection: close\r\n\r\n"@ + success_page()
}

/// The HTTP answer sent back to the browser after its redirect; the page is
/// plain ASCII, so its length in bytes is its length in characters.
pub fn redirect_response() -> (r: String)
    ensures
        r@ == redirect_answer(success_page().len()),
{
    let body = "<html><body><h2>Authorization successful!</h2><p>You can close this tab and return to the terminal.</p></body></html>";
    proof {
        reveal_strlit(
            "<html><body><h2>Authorization successful!</h2><p>You can close this tab and return to the terminal.</p></body></html>",
        );
        assert(vstd::utf8::is_ascii_chars(body@));
        vstd::utf8::is_ascii_chars_encode_utf8(body@);
    }
    let mut answer = String::from_str(
        "HTTP/1.1 200 OK\r\nContent-Type: text/html\r\nContent-Length: ",
    );
    let len = decimal(body.len() as u64);
    answer.append(len.as_str());
    answer.append("\r\nConnection: close\r\n\r\n");
    answer.append(body);
    answer
}

/// An OAuth token as it is stored between runs.
#[derive(Debug)]
pub struct Token {
    pub access_token: String,
    pub refresh_token: String,
    pub expires_at: Instant,
}

/// How long the server says a new access token lives, as a
/// `std::time::Duration`: whole seconds and nanoseconds below one second.
#[derive(Debug, Clone, Copy, PartialEq, Eq, Structural)]
pub struct Lifetime {
    pub secs: u64,
    pub nanos: u32,
}

/// How long before expiry a token is renewed: five minutes.
pub const RENEW_MARGIN_NANOS: i128 = 300_000_000_000;

/// The lifetime assumed when the server names none: one hour.
pub const DEFAULT_LIFETIME_SECS: u64 = 3600;

/// A lifetime in nanoseconds.
pub open spec fn lifetime_nanos(l: Lifetime) -> int {
    l.secs * 1_000_000_000 + l.nanos
}

/// The lifetime of a grant: the server's, else one hour.
pub open spec fn granted_lifetime(expires_in: Option<Lifetime>) -> Lifetime {
    match expires_in {
        Some(l) => l,
        None => Lifetime { secs: 3600, nanos: 0 },
    }
}

/// Whether chrono's `TimeDelta::from_std` accepts the lifetime.
pub open spec fn lifetime_fits(l: Lifetime) -> bool {
    lifetime_nanos(l) <= MAX_SPAN_NANOS
}

/// The lifetime as a span of time.
pub open spec fn lifetime_span(l: Lifetime) -> Span {
    Span { nanos: lifetime_nanos(l) as i128 }
}

/// Adding the lifetime to `now` stays in chrono's range (chrono panics otherwise).
pub open spec fn expiry_in_range(now: Instant, l: Lifetime) -> bool {
    lifetime_fits(l) ==> total_in_range(total_nanos(now) + lifetime_nanos(l))
}

/// When a token granted at `now` expires.
pub open spec fn expiry(now: Instant, expires_in: Option<Lifetime>) -> Instant {
    shifted(now, lifetime_span(granted_lifetime(expires_in)))
}

/// A token is still fresh while it has more than five minutes to live.
pub open spec fn is_fresh(expires_at: Instant, now: Instant) -> bool {
    span_between(expires_at, now) > RENEW_MARGIN_NANOS
}

/// Whether chrono's range holds the expiry of a token granted at `now`.
pub fn expiry_representable(now: &Instant, expires_in: Option<Lifetime>) -> (r: bool)
    requires
        is_regular(*now),
        expires_in matches Some(l) ==> l.nanos < 1_000_000_000,
    ensures
        r == expiry_in_range(*now, granted_lifetime(expires_in)),
{
    let l = match expires_in {
        Some(l) => l,
        None => Lifetime { secs: DEFAULT_LIFETIME_SECS, nanos: 0 },
    };
    let span: i128 = l.secs as i128 * 1_000_000_000 + l.nanos as i128;
    if span > MAX_SPAN_NANOS {
        return true;
    }
    now.can_shift(Span { nanos: span })
}

/// When a token granted at `now` with the server's lifetime expires; an
/// error where the lifetime is longer than a chrono `TimeDelta` holds.
pub fn expiry_after(now: &Instant, expires_in: Option<Lifetime>) -> (r: Result<Instant, AuthError>)
    requires
        is_regular(*now),
        expires_in matches Some(l) ==> l.nanos < 1_000_000_000,
        expiry_in_range(*now, granted_lifetime(expires_in)),
    ensures
        lifetime_fits(granted_lifetime(expires_in)) ==> r == Ok::<Instant, AuthError>(
            expiry(*now, expires_in),
        ),
        !lifetime_fits(granted_lifetime(expires_in)) ==> r == Err::<Instant, AuthError>(
            AuthError::LifetimeOutOfRange,
        ),
        r matches Ok(at) ==> is_regular(at),
{
    let l = match expires_in {
        Some(l) => l,
        None => Lifetime { secs: DEFAULT_LIFETIME_SECS, nanos: 0 },
    };
    let span: i128 = l.secs as i128 * 1_000_000_000 + l.nanos as i128;
    if span > MAX_SPAN_NANOS {
        return Err(AuthError::LifetimeOutOfRange);
    }
    let d = Span { nanos: span };
    assert(span_valid(d));
    Ok(now.shift(d))
}

/// The token of a first grant: the server's access and refresh tokens and
/// the expiry. An error where the lifetime is out of range, else where the
/// server sent no refresh token.
pub fn grant_token(
    now: &Instant,
    access_token: String,
    refresh_token: Option<String>,
    expires_in: Option<Lifetime>,
) -> (r: Result<Token, AuthError>)
    requires
        is_regular(*now),
        expires_in matches Some(l) ==> l.nanos < 1_000_000_000,
        expiry_in_range(*now, granted_lifetime(expires_in)),
    ensures
        !lifetime_fits(granted_lifetime(expires_in)) ==> r == Err::<Token, AuthError>(
            AuthError::LifetimeOutOfRange,
        ),
        lifetime_fits(granted_lifetime(expires_in)) && refresh_token is None ==> r == Err::<
            Token,
            AuthError,
        >(AuthError::NoRefreshToken),
        r is Ok <==> lifetime_fits(granted_lifetime(expires_in)) && refresh_token is Some,
        r matches Ok(t) ==> {
            &&& t.access_token@ == access_token@
            &&& Some(t.refresh_token@) == crate::calendar::text_of(refresh_token)
            &&& t.expires_at == expiry(*now, expires_in)
        },
{
    let expires_at = match expiry_after(now, expires_in) {
        Ok(at) => at,
        Err(e) => {
            return Err(e);
        },
    };
    match refresh_token {
        Some(refresh) => Ok(Token { access_token, refresh_token: refresh, expires_at }),
        None => Err(AuthError::NoRefreshToken),
    }
}

/// Whether a token must be renewed before use at `now`: when it has five
/// minutes or less to live.
pub fn needs_refresh(token: &Token, now: &Instant) -> (r: bool)
    requires
        is_regular(*now),
    ensures
        r == !is_fresh(token.expires_at, *now),
{
    let left = token.expires_at.since(now);
    !(left.nanos > RENEW_MARGIN_NANOS)
}

/// The token after a renewal: the new access token and expiry, and the new
/// refresh token, or the old one where the server sent none. An error where
/// the lifetime is out of range.
pub fn renew_token(
    old: Token,
    now: &Instant,
    access_token: String,
    refresh_token: Option<String>,
    expires_in: Option<Lifetime>,
) -> (r: Result<Token, AuthError>)
    requires
        is_regular(*now),
        expires_in matches Some(l) ==> l.nanos < 1_000_000_000,
        expiry_in_range(*now, granted_lifetime(expires_in)),
    ensures
        r is Err <==> !lifetime_fits(granted_lifetime(expires_in)),
        r matches Err(e) ==> e == AuthError::LifetimeOutOfRange,
        r matches Ok(t) ==> {
            &&& t.access_token@ == access_token@
            &&& t.refresh_token@ == match refresh_token {
                Some(s) => s@,
                None => old.refresh_token@,
            }
            &&& t.expires_at == expiry(*now, expires_in)
        },
{
    let expires_at = match expiry_after(now, expires_in) {
        Ok(at) => at,
        Err(e) => {
            return Err(e);
        },
    };
    let refresh = match refresh_token {
        Some(s) => s,
        None => old.refresh_token,
    };
    Ok(Token { access_token, refresh_token: refresh, expires_at })
}

/// A token just granted is fresh exactly when its lifetime exceeds the
/// five-minute renewal margin: a grant never needs renewing at once unless
/// it lives five minutes or less.
pub proof fn law_fresh_after_grant(now: Instant, expires_in: Option<Lifetime>)
    requires
        is_regular(now),
        lifetime_fits(granted_lifetime(expires_in)),
        expiry_in_range(now, granted_lifetime(expires_in)),
    ensures
        is_fresh(expiry(now, expires_in), now) <==> lifetime_nanos(granted_lifetime(expires_in))
            > RENEW_MARGIN_NANOS,
{
    let l = granted_lifetime(expires_in);
    law_since_undoes_shift(now, lifetime_span(l));
}

/// A token granted (or renewed) at `now` stays fresh at a later regular
/// instant `later` exactly while its lifetime, less the time passed since
/// `now`, exceeds the five-minute margin.
pub proof fn law_fresh_until_margin(now: Instant, expires_in: Option<Lifetime>, later: Instant)
    requires
        is_regular(now),
        is_regular(later),
        lifetime_fits(granted_lifetime(expires_in)),
        expiry_in_range(now, granted_lifetime(expires_in)),
    ensures
        is_fresh(expiry(now, expires_in), later) <==> lifetime_nanos(granted_lifetime(expires_in))
            - (total_nanos(later) - total_nanos(now)) > RENEW_MARGIN_NANOS,
{
    let l = granted_lifetime(expires_in);
    law_since_undoes_shift(now, lifetime_span(l));
}

/// The outcome of checking a stored token before use.
#[derive(Debug)]
pub enum Freshness {
    /// The token has more than five minutes left; use it unchanged.
    Fresh(Token),
    /// The token must be renewed first.
    Stale(Token),
}

/// Checks a token before use at `now`: a fresh token comes back unchanged
/// for use as it is, a stale one comes back for renewal.
pub fn check_token(token: Token, now: &Instant) -> (r: Freshness)
    requires
        is_regular(*now),
    ensures
        match r {
            Freshness::Fresh(t) => t == token && is_fresh(token.expires_at, *now),
            Freshness::Stale(t) => t == token && !is_fresh(token.expires_at, *now),
        },
{
    if needs_refresh(&token, now) {
        Freshness::Stale(token)
    } else {
        Freshness::Fresh(token)
    }
}

/// The permission the authorization request asks for: read-only access to
/// the user's calendars.
pub open spec fn calendar_scope() -> Seq<char> {
    "https://www.googleapis.com/auth/calendar.readonly"@
}

/// The authorization request's scope and its extra parameters: offline
/// access, so that a refresh token is granted, and a consent prompt, so that
/// it is granted again on every authorization.
pub fn consent_request() -> (r: (String, Vec<(String, String)>))
    ensures
        r.0@ == calendar_scope(),
        r.1@.map_values(|p: (String, String)| (p.0@, p.1@)) == seq![
            ("access_type"@, "offline"@),
            ("prompt"@, "consent"@),
        ],
{
    let scope = String::from_str("https://www.googleapis.com/auth/calendar.readonly");
    let mut params: Vec<(String, String)> = Vec::new();
    params.push((String::from_str("access_type"), String::from_str("offline")));
    params.push((String::from_str("prompt"), String::from_str("consent")));
    assert(params@.map_values(|p: (String, String)| (p.0@, p.1@)) =~= seq![
        ("access_type"@, "offline"@),
        ("prompt"@, "consent"@),
    ]);
    (scope, params)
}

} // verus!
