//! The admin endpoint: how far an HTTP request has to be read, what it asks for, and the answer.

use vstd::prelude::*;
use vstd::utf8;

use crate::text;

verus! {

/// The longest request that is read.
pub const MAX_REQUEST_BYTES: usize = 8192;

/// Whether an empty line ends at `end`.
pub open spec fn ends_head(request: Seq<u8>, end: int) -> bool {
    &&& 4 <= end <= request.len()
    &&& request[end - 4] == 13
    &&& request[end - 3] == 10
    &&& request[end - 2] == 13
    &&& request[end - 1] == 10
}

/// Whether the head of a request is there: it ends with an empty line.
pub open spec fn has_head(request: Seq<u8>) -> bool {
    exists|end: int| #[trigger] ends_head(request, end)
}

/// What is done with what was read of a request.
#[derive(Debug, Clone, Copy, PartialEq, Eq, Structural)]
pub enum AdminStep {
    ReadMore,
    TooLarge,
    Answer,
}

/// Whether more of a request is read, or what is there is answered or refused.
pub fn next_step(request: &[u8]) -> (step: AdminStep)
    ensures
        step == if has_head(request@) {
            AdminStep::Answer
        } else if request@.len() >= MAX_REQUEST_BYTES {
            AdminStep::TooLarge
        } else {
            AdminStep::ReadMore
        },
{
    let mut at: usize = 0;
    while request.len() >= 4 && at <= request.len() - 4
        invariant
            forall|end: int| end < at + 4 ==> !#[trigger] ends_head(request@, end),
        decreases request@.len() + 1 - at,
    {
        if request[at] == 13 && request[at + 1] == 10 && request[at + 2] == 13 && request[at + 3]
            == 10 {
            assert(ends_head(request@, at + 4));
            return AdminStep::Answer;
        }
        assert(!ends_head(request@, at + 4));
        at = at + 1;
    }
    assert(!has_head(request@));
    if request.len() >= MAX_REQUEST_BYTES {
        AdminStep::TooLarge
    } else {
        AdminStep::ReadMore
    }
}

/// Whether a character is ASCII whitespace.
pub open spec fn is_ascii_space(c: char) -> bool {
    c == ' ' || c == '\t' || c == '\n' || c == '\u{c}' || c == '\r'
}

/// How many leading characters are whitespace, or are not.
pub open spec fn leading(line: Seq<char>, spaces: bool) -> nat
    decreases line.len(),
{
    if line.len() > 0 && is_ascii_space(line[0]) == spaces {
        1 + leading(line.skip(1), spaces)
    } else {
        0
    }
}

/// The second word of a line.
pub open spec fn second_word(line: Seq<char>) -> Option<Seq<char>> {
    let first = line.skip(leading(line, true) as int);
    let behind = first.skip(leading(first, false) as int);
    let second = behind.skip(leading(behind, true) as int);
    if second.len() == 0 {
        None
    } else {
        Some(second.take(leading(second, false) as int))
    }
}

/// The bytes before the first line feed.
pub open spec fn first_line(request: Seq<u8>) -> Seq<u8>
    decreases request.len(),
{
    if request.len() == 0 || request[0] == 10 {
        Seq::empty()
    } else {
        seq![request[0]] + first_line(request.skip(1))
    }
}

/// The path that a request asks for.
pub open spec fn requested_path(request: Seq<u8>) -> Option<Seq<char>> {
    let line = first_line(request);
    if utf8::valid_utf8(line) {
        second_word(utf8::decode_utf8(line))
    } else {
        None
    }
}

proof fn lemma_leading_bound(line: Seq<char>, spaces: bool)
    ensures
        leading(line, spaces) <= line.len(),
    decreases line.len(),
{
    if line.len() > 0 && is_ascii_space(line[0]) == spaces {
        lemma_leading_bound(line.skip(1), spaces);
    }
}

/// The place behind the leading characters from `from` on that are whitespace, or are not.
fn skip_leading(line: &Vec<char>, from: usize, spaces: bool) -> (to: usize)
    requires
        from <= line@.len(),
    ensures
        to == from + leading(line@.skip(from as int), spaces),
        to <= line@.len(),
{
    let mut to: usize = from;
    while to < line.len() && (line[to] == ' ' || line[to] == '\t' || line[to] == '\n' || line[to]
        == '\u{c}' || line[to] == '\r') == spaces
        invariant
            from <= to <= line@.len(),
            leading(line@.skip(from as int), spaces) == (to - from) + leading(
                line@.skip(to as int),
                spaces,
            ),
        decreases line@.len() - to,
    {
        assert(line@.skip(to as int).skip(1) =~= line@.skip(to + 1));
        to = to + 1;
    }
    assert(leading(line@.skip(to as int), spaces) == 0);
    to
}

fn second_word_of(line: &Vec<char>) -> (word: Option<String>)
    ensures
        match word {
            Some(found) => second_word(line@) == Some(found@),
            None => second_word(line@) is None,
        },
{
    assert(line@.skip(0) =~= line@);
    let first: usize = skip_leading(line, 0, true);
    let behind: usize = skip_leading(line, first, false);
    let second: usize = skip_leading(line, behind, true);
    let end: usize = skip_leading(line, second, false);
    proof {
        let rest = line@.skip(first as int);
        assert(line@.skip(behind as int) =~= rest.skip(behind - first));
        let spaces = line@.skip(behind as int);
        assert(line@.skip(second as int) =~= spaces.skip(second - behind));
        lemma_leading_bound(line@.skip(second as int), false);
    }
    if second == line.len() {
        return None;
    }
    let mut word = String::new();
    let mut i: usize = second;
    while i < end
        invariant
            second <= i <= end <= line@.len(),
            word@ == line@.subrange(second as int, i as int),
        decreases end - i,
    {
        word.push(line[i]);
        assert(word@ =~= line@.subrange(second as int, i + 1));
        i = i + 1;
    }
    assert(word@ =~= line@.skip(second as int).take(end - second));
    Some(word)
}

/// The path that a request asks for.
pub fn request_path(request: &[u8]) -> (path: Option<String>)
    ensures
        match path {
            Some(found) => requested_path(request@) == Some(found@),
            None => requested_path(request@) is None,
        },
{
    let mut line: Vec<u8> = Vec::new();
    let mut i: usize = 0;
    assert(request@.skip(0) =~= request@);
    while i < request.len() && request[i] != 10
        invariant
            i <= request@.len(),
            first_line(request@) == line@ + first_line(request@.skip(i as int)),
        decreases request@.len() - i,
    {
        let ghost before = line@;
        assert(request@.skip(i as int).skip(1) =~= request@.skip(i + 1));
        line.push(request[i]);
        assert(before + (seq![request@[i as int]] + first_line(request@.skip(i + 1)))
            =~= line@ + first_line(request@.skip(i + 1)));
        i = i + 1;
    }
    assert(first_line(request@.skip(i as int)) =~= Seq::empty());
    assert(line@ =~= first_line(request@));
    match text::from_utf8(line) {
        Some(decoded) => second_word_of(&text::chars_of(decoded.as_str())),
        None => None,
    }
}

/// What the endpoint offers.
#[derive(Debug, Clone, Copy, PartialEq, Eq, Structural)]
pub enum AdminRoute {
    Live,
    Ready,
    Metrics,
    NotFound,
}

/// What a path leads to.
pub open spec fn route_of(path: Option<Seq<char>>) -> AdminRoute {
    match path {
        Some(found) => if found == "/health/live"@ {
            AdminRoute::Live
        } else if found == "/health/ready"@ {
            AdminRoute::Ready
        } else if found == "/metrics"@ {
            AdminRoute::Metrics
        } else {
            AdminRoute::NotFound
        },
        None => AdminRoute::NotFound,
    }
}

/// What a request asks for.
pub fn route(request: &[u8]) -> (route: AdminRoute)
    ensures
        route == route_of(requested_path(request@)),
{
    match request_path(request) {
        Some(path) => if text::same(path.as_str(), "/health/live") {
            AdminRoute::Live
        } else if text::same(path.as_str(), "/health/ready") {
            AdminRoute::Ready
        } else if text::same(path.as_str(), "/metrics") {
            AdminRoute::Metrics
        } else {
            AdminRoute::NotFound
        },
        None => AdminRoute::NotFound,
    }
}

/// The whole of an HTTP answer. The length is that of the body in bytes.
pub open spec fn http_text(status: Seq<char>, content_type: Seq<char>, body: Seq<char>) -> Seq<
    char,
> {
    "HTTP/1.1 "@ + status + "\r\nContent-Type: "@ + content_type + "\r\nContent-Length: "@
        + text::decimal(utf8::encode_utf8(body).len()) + "\r\nConnection: close\r\n\r\n"@ + body
}

/// An HTTP answer.
pub fn http_response(status: &str, content_type: &str, body: &str) -> (response: String)
    ensures
        response@ == http_text(status@, content_type@, body@),
{
    let mut out = "HTTP/1.1 ".to_owned();
    out.append(status);
    out.append("\r\nContent-Type: ");
    out.append(content_type);
    out.append("\r\nContent-Length: ");
    text::push_decimal(&mut out, body.as_bytes().len() as u64);
    out.append("\r\nConnection: close\r\n\r\n");
    out.append(body);
    out
}

/// The answer to a request that is too long.
pub fn too_large_response() -> (response: String)
    ensures
        response@ == http_text("413 Payload Too Large"@, "text/plain"@, ""@),
{
    http_response("413 Payload Too Large", "text/plain", "")
}

/// The answer to the question whether the broker runs.
pub fn live_response() -> (response: String)
    ensures
        response@ == http_text("200 OK"@, "text/plain"@, "ok\n"@),
{
    http_response("200 OK", "text/plain", "ok\n")
}

/// The answer to the question whether the broker can serve requests: it can where its storage
/// and its groups both answer.
pub fn ready_response(storage: bool, groups: bool) -> (response: String)
    ensures
        response@ == if storage && groups {
            http_text("200 OK"@, "text/plain"@, "ready\n"@)
        } else {
            http_text("503 Service Unavailable"@, "text/plain"@, "not ready\n"@)
        },
{
    if storage && groups {
        http_response("200 OK", "text/plain", "ready\n")
    } else {
        http_response("503 Service Unavailable", "text/plain", "not ready\n")
    }
}

/// The answer with the metrics.
pub fn metrics_response(metrics: &str) -> (response: String)
    ensures
        response@ == http_text(
            "200 OK"@,
            "text/plain; version=0.0.4; charset=utf-8"@,
            metrics@,
        ),
{
    http_response("200 OK", "text/plain; version=0.0.4; charset=utf-8", metrics)
}

/// The answer to a request for anything else.
pub fn not_found_response() -> (response: String)
    ensures
        response@ == http_text("404 Not Found"@, "text/plain"@, "not found\n"@),
{
    http_response("404 Not Found", "text/plain", "not found\n")
}

proof fn lemma_leading_word(word: Seq<char>, rest: Seq<char>, spaces: bool)
    requires
        forall|i: int| 0 <= i < word.len() ==> is_ascii_space(#[trigger] word[i]) == spaces,
        rest.len() > 0 ==> is_ascii_space(rest[0]) != spaces,
    ensures
        leading(word + rest, spaces) == word.len(),
    decreases word.len(),
{
    let line = word + rest;
    if word.len() > 0 {
        let shorter = word.skip(1);
        assert(line[0] == word[0]);
        assert(line.skip(1) =~= shorter + rest);
        assert forall|i: int| 0 <= i < shorter.len() implies is_ascii_space(#[trigger] shorter[i])
            == spaces by {
            assert(shorter[i] == word[i + 1]);
        }
        lemma_leading_word(shorter, rest, spaces);
    } else {
        assert(line =~= rest);
    }
}

/// A request asks for what stands between the first two blanks of its first line: the method, a
/// blank, the path, and what follows behind a blank.
pub proof fn path_is_second_word(method: Seq<char>, path: Seq<char>, rest: Seq<char>)
    requires
        method.len() > 0,
        path.len() > 0,
        forall|i: int| 0 <= i < method.len() ==> !is_ascii_space(#[trigger] method[i]),
        forall|i: int| 0 <= i < path.len() ==> !is_ascii_space(#[trigger] path[i]),
    ensures
        second_word(method.push(' ') + path.push(' ') + rest) == Some(path),
        second_word(method.push(' ') + path) == Some(path),
        second_word(method) is None,
{
    let blank = seq![' '];
    let tail = blank + rest;
    assert(is_ascii_space(method[0]) == false);
    assert(is_ascii_space(path[0]) == false);
    // With something behind the path.
    let line = method.push(' ') + path.push(' ') + rest;
    assert(line =~= method + (blank + (path + tail)));
    let behind = blank + (path + tail);
    lemma_leading_word(Seq::empty(), line, true);
    assert(Seq::<char>::empty() + line =~= line);
    assert(line.skip(0) =~= line);
    lemma_leading_word(method, behind, false);
    assert(line.skip(method.len() as int) =~= behind);
    lemma_leading_word(blank, path + tail, true);
    assert(behind.skip(1) =~= path + tail);
    lemma_leading_word(path, tail, false);
    assert((path + tail).take(path.len() as int) =~= path);
    // With nothing behind it.
    let short = method.push(' ') + path;
    let short_behind = blank + path;
    assert(short =~= method + short_behind);
    lemma_leading_word(Seq::empty(), short, true);
    assert(Seq::<char>::empty() + short =~= short);
    assert(short.skip(0) =~= short);
    lemma_leading_word(method, short_behind, false);
    assert(short.skip(method.len() as int) =~= short_behind);
    lemma_leading_word(blank, path, true);
    assert(short_behind.skip(1) =~= path);
    lemma_leading_word(path, Seq::empty(), false);
    assert(path + Seq::<char>::empty() =~= path);
    assert(path.take(path.len() as int) =~= path);
    // With a method alone.
    lemma_leading_word(Seq::empty(), method, true);
    assert(Seq::<char>::empty() + method =~= method);
    assert(method.skip(0) =~= method);
    lemma_leading_word(method, Seq::empty(), false);
    assert(method + Seq::<char>::empty() =~= method);
    let nothing = method.skip(method.len() as int);
    assert(nothing.skip(leading(nothing, true) as int).len() == 0);
}

/// Each of the three paths leads to its page, and any other to none.
pub proof fn paths_lead_to_pages(path: Seq<char>)
    ensures
        route_of(Some("/health/live"@)) == AdminRoute::Live,
        route_of(Some("/health/ready"@)) == AdminRoute::Ready,
        route_of(Some("/metrics"@)) == AdminRoute::Metrics,
        route_of(None) == AdminRoute::NotFound,
        path != "/health/live"@ && path != "/health/ready"@ && path != "/metrics"@ ==> route_of(
            Some(path),
        ) == AdminRoute::NotFound,
{
    reveal_strlit("/health/live");
    reveal_strlit("/health/ready");
    reveal_strlit("/metrics");
    assert("/health/live"@.len() != "/health/ready"@.len());
    assert("/health/live"@.len() != "/metrics"@.len());
    assert("/health/ready"@.len() != "/metrics"@.len());
}

proof fn lemma_first_line(line: Seq<u8>, rest: Seq<u8>)
    requires
        forall|i: int| 0 <= i < line.len() ==> #[trigger] line[i] != 10,
        rest.len() > 0 ==> rest[0] == 10,
    ensures
        first_line(line + rest) == line,
    decreases line.len(),
{
    let whole = line + rest;
    if line.len() > 0 {
        let less = line.skip(1);
        assert forall|i: int| 0 <= i < less.len() implies #[trigger] less[i] != 10 by {
            assert(less[i] == line[i + 1]);
        }
        lemma_first_line(less, rest);
        assert(whole[0] == line[0]);
        assert(whole.skip(1) =~= less + rest);
        assert(seq![line[0]] + less =~= line);
    } else {
        assert(whole =~= rest);
        assert(first_line(whole) =~= line);
    }
}

/// The path is that of the first line, whatever the lines behind it hold. A first line that is no
/// text asks for nothing.
pub proof fn path_is_that_of_first_line(line: Seq<u8>, rest: Seq<u8>)
    requires
        forall|i: int| 0 <= i < line.len() ==> #[trigger] line[i] != 10,
    ensures
        requested_path(line.push(10) + rest) == requested_path(line),
        utf8::valid_utf8(line) ==> requested_path(line) == second_word(utf8::decode_utf8(line)),
        !utf8::valid_utf8(line) ==> requested_path(line) is None,
{
    lemma_first_line(line, seq![10u8] + rest);
    lemma_first_line(line, Seq::empty());
    assert(line.push(10) + rest =~= line + (seq![10u8] + rest));
    assert(line + Seq::<u8>::empty() =~= line);
}

/// The head of a request is there once an empty line is, whatever stands before and behind it, and
/// a request that is shorter than an empty line has none.
pub proof fn head_ends_with_empty_line(before: Seq<u8>, behind: Seq<u8>, short: Seq<u8>)
    requires
        short.len() < 4,
    ensures
        has_head(before + seq![13u8, 10, 13, 10] + behind),
        !has_head(short),
{
    let end = before.len() + 4;
    assert(ends_head(before + seq![13u8, 10, 13, 10] + behind, end as int));
}

/// The third line of an answer tells how many bytes its body has, and the answer ends with the
/// body.
pub proof fn answers_tell_their_length(
    status: Seq<char>,
    content_type: Seq<char>,
    body: Seq<char>,
)
    requires
        text::lacks(status, '\n'),
        text::lacks(content_type, '\n'),
    ensures
        ({
            let answer = http_text(status, content_type, body);
            let lines = text::split_on(answer, '\n');
            &&& lines.len() > 3
            &&& text::parsed(
                lines[2].skip("Content-Length: "@.len() as int).drop_last(),
                utf8::encode_utf8(body).len(),
            ) == Some(utf8::encode_utf8(body).len())
            &&& answer.len() >= body.len()
            &&& answer.skip(answer.len() - body.len()) == body
        }),
{
    reveal_strlit("HTTP/1.1 ");
    reveal_strlit("\r\nContent-Type: ");
    reveal_strlit("\r\nContent-Length: ");
    reveal_strlit("Content-Length: ");
    reveal_strlit("\r\nConnection: close\r\n\r\n");
    let length = utf8::encode_utf8(body).len();
    let digits = text::decimal(length);
    text::lemma_decimal_parses(length, length);
    text::lemma_decimal_lacks(length, '\n');
    let answer = http_text(status, content_type, body);
    let first = ("HTTP/1.1 "@ + status).push('\r');
    let second = ("\r\nContent-Type: "@.skip(2) + content_type).push('\r');
    let third = ("Content-Length: "@ + digits).push('\r');
    let rest = "\r\nConnection: close\r\n\r\n"@.skip(2) + body;
    assert(answer =~= first.push('\n') + (second.push('\n') + (third.push('\n') + rest)));
    assert forall|i: int| 0 <= i < first.len() implies #[trigger] first[i] != '\n' by {
        if 9 <= i < first.len() - 1 {
            assert(first[i] == status[i - 9]);
        }
    }
    assert forall|i: int| 0 <= i < second.len() implies #[trigger] second[i] != '\n' by {
        if 14 <= i < second.len() - 1 {
            assert(second[i] == content_type[i - 14]);
        }
    }
    assert forall|i: int| 0 <= i < third.len() implies #[trigger] third[i] != '\n' by {
        if 16 <= i < third.len() - 1 {
            assert(third[i] == digits[i - 16]);
        }
    }
    text::lemma_split_piece(first, '\n', second.push('\n') + (third.push('\n') + rest));
    text::lemma_split_piece(second, '\n', third.push('\n') + rest);
    text::lemma_split_piece(third, '\n', rest);
    text::pieces_make_up_text(rest, '\n', 0);
    assert(text::split_on(answer, '\n')[2] == third);
    assert(third.skip(16).drop_last() =~= digits);
    assert(answer.skip(answer.len() - body.len()) =~= body);
}

} // verus!
