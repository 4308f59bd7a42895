//! The dates HTTP service: which handler a request reaches, and the status,
//! content type and body of each answer. Reading and writing the date files
//! is left to the caller, which hands back what happened.

use vstd::prelude::*;
use vstd::string::StringSliceAdditionalSpecFns;
use crate::dates::{is_ascii_digit, is_date_key, is_date_key_text, DateEntry};
use crate::text::{
    chars_eq, chars_of, lemma_lex_transitive, starts_with_chars, lemma_lex_trichotomy, lex_lt, lex_sorted, sort_chars, trim, trimmed,
};

verus! {

/// The lower-case hexadecimal digit of `0 <= n < 16`.
pub open spec fn hex_digit(n: int) -> char {
    if n < 10 { (48 + n) as char } else { (87 + n) as char }
}

/// The value of a hexadecimal digit (0 for any other character).
pub open spec fn hex_value(c: char) -> int {
    if '0' <= c <= '9' {
        c as int - 48
    } else if 'a' <= c <= 'f' {
        c as int - 87
    } else if 'A' <= c <= 'F' {
        c as int - 55
    } else {
        0
    }
}

/// How one character is written inside a JSON string: `"` and `\` and the
/// control characters below U+0020 are escaped (newline, carriage return and
/// tab by their short forms, the others as `\u00XX`); the rest stands as it is.
pub open spec fn escape_char(c: char) -> Seq<char> {
    if c == '"' {
        seq!['\\', '"']
    } else if c == '\\' {
        seq!['\\', '\\']
    } else if c == '\n' {
        seq!['\\', 'n']
    } else if c == '\r' {
        seq!['\\', 'r']
    } else if c == '\t' {
        seq!['\\', 't']
    } else if (c as u32) < 0x20 {
        seq!['\\', 'u', '0', '0', hex_digit((c as u32 / 16) as int), hex_digit((c as u32 % 16) as int)]
    } else {
        seq![c]
    }
}

/// `s` with each character escaped for a JSON string.
pub open spec fn json_escaped(s: Seq<char>) -> Seq<char>
    decreases s.len(),
{
    if s.len() == 0 {
        Seq::empty()
    } else {
        escape_char(s[0]) + json_escaped(s.drop_first())
    }
}

/// The character that a short escape `\c` stands for.
pub open spec fn unescape_char(c: char) -> char {
    if c == 'n' {
        '\n'
    } else if c == 'r' {
        '\r'
    } else if c == 't' {
        '\t'
    } else if c == 'b' {
        '\u{8}'
    } else if c == 'f' {
        '\u{c}'
    } else {
        c
    }
}

/// Reads back the contents of a JSON string: `\uXXXX` and the short escapes
/// stand for their characters, anything else for itself.
pub open spec fn json_unescaped(t: Seq<char>) -> Seq<char>
    decreases t.len(),
{
    if t.len() == 0 {
        Seq::empty()
    } else if t[0] == '\\' && t.len() >= 6 && t[1] == 'u' {
        let v = hex_value(t[2]) * 4096 + hex_value(t[3]) * 256 + hex_value(t[4]) * 16 + hex_value(t[5]);
        seq![(v as u32) as char] + json_unescaped(t.skip(6))
    } else if t[0] == '\\' && t.len() >= 2 {
        seq![unescape_char(t[1])] + json_unescaped(t.skip(2))
    } else {
        seq![t[0]] + json_unescaped(t.drop_first())
    }
}

/// The character may follow `\` in a JSON string as a short escape.
pub open spec fn is_short_escape(c: char) -> bool {
    c == '"' || c == '\\' || c == '/' || c == 'b' || c == 'f' || c == 'n' || c == 'r' || c == 't'
}

/// The character is a hexadecimal digit.
pub open spec fn is_hex_digit(c: char) -> bool {
    ('0' <= c <= '9') || ('a' <= c <= 'f') || ('A' <= c <= 'F')
}

/// `t` is valid between the quotes of a JSON string (RFC 8259): no raw `"`
/// and no raw control character, and each `\` begins a short escape or
/// `\u` with four hexadecimal digits.
pub open spec fn is_json_string_body(t: Seq<char>) -> bool
    decreases t.len(),
{
    if t.len() == 0 {
        true
    } else if t[0] == '\\' {
        if t.len() >= 2 && is_short_escape(t[1]) {
            is_json_string_body(t.skip(2))
        } else if t.len() >= 6 && t[1] == 'u' && is_hex_digit(t[2]) && is_hex_digit(t[3])
            && is_hex_digit(t[4]) && is_hex_digit(t[5]) {
            is_json_string_body(t.skip(6))
        } else {
            false
        }
    } else if t[0] == '"' || (t[0] as u32) < 0x20 {
        false
    } else {
        is_json_string_body(t.drop_first())
    }
}

proof fn lemma_json_escaped_concat(a: Seq<char>, b: Seq<char>)
    ensures
        json_escaped(a + b) == json_escaped(a) + json_escaped(b),
    decreases a.len(),
{
    if a.len() == 0 {
        assert(a + b =~= b);
        assert(json_escaped(a) =~= Seq::<char>::empty());
        assert(json_escaped(a) + json_escaped(b) =~= json_escaped(b));
    } else {
        assert((a + b).drop_first() =~= a.drop_first() + b);
        assert((a + b)[0] == a[0]);
        lemma_json_escaped_concat(a.drop_first(), b);
        assert(json_escaped(a + b) =~= json_escaped(a) + json_escaped(b));
    }
}

proof fn lemma_hex_digit(n: int)
    requires
        0 <= n < 16,
    ensures
        hex_value(hex_digit(n)) == n,
        is_hex_digit(hex_digit(n)),
{
}

/// Escaping loses nothing: reading the escaped text back gives the text itself.
pub proof fn lemma_json_escape_roundtrip(s: Seq<char>)
    ensures
        json_unescaped(json_escaped(s)) == s,
    decreases s.len(),
{
    if s.len() > 0 {
        let rest = json_escaped(s.drop_first());
        lemma_json_escape_roundtrip(s.drop_first());
        let t = json_escaped(s);
        let c = s[0];
        let e = escape_char(c);
        assert(t == e + rest);
        if e.len() == 6 {
            let u = c as u32;
            lemma_hex_digit((u / 16) as int);
            lemma_hex_digit((u % 16) as int);
            assert(t[0] == '\\' && t[1] == 'u');
            assert(t[2] == '0' && t[3] == '0');
            assert(t[4] == e[4] && t[5] == e[5]);
            assert(t.skip(6) =~= rest);
            let v = hex_value(t[2]) * 4096 + hex_value(t[3]) * 256 + hex_value(t[4]) * 16 + hex_value(
                t[5],
            );
            assert(v == u as int);
            assert((v as u32) == u);
            vstd::utf8::char_u32_cast(c, u);
            assert((v as u32) as char == c);
        } else if e.len() == 2 {
            assert(t[0] == '\\');
            assert(t[1] == e[1]);
            assert(t.skip(2) =~= rest);
            assert(unescape_char(e[1]) == c);
        } else {
            assert(t[0] == c);
            assert(t.drop_first() =~= rest);
        }
        assert(json_unescaped(t) =~= s);
    }
}

/// Whatever the text, its escaped form is valid inside a JSON string.
pub proof fn lemma_json_escaped_is_string_body(s: Seq<char>)
    ensures
        is_json_string_body(json_escaped(s)),
    decreases s.len(),
{
    if s.len() > 0 {
        let rest = json_escaped(s.drop_first());
        lemma_json_escaped_is_string_body(s.drop_first());
        let t = json_escaped(s);
        let c = s[0];
        let e = escape_char(c);
        assert(t == e + rest);
        if e.len() == 6 {
            let u = c as u32;
            lemma_hex_digit((u / 16) as int);
            lemma_hex_digit((u % 16) as int);
            assert(t[0] == '\\' && t[1] == 'u');
            assert(t[2] == '0' && t[3] == '0');
            assert(t[4] == e[4] && t[5] == e[5]);
            assert(t.skip(6) =~= rest);
        } else if e.len() == 2 {
            assert(t[0] == '\\');
            assert(t[1] == e[1]);
            assert(t.skip(2) =~= rest);
        } else {
            assert(t[0] == c);
            assert(t.drop_first() =~= rest);
        }
    }
}

/// The hexadecimal digit of `0 <= n < 16`.
fn hex_digit_char(n: u32) -> (r: char)
    requires
        n < 16,
    ensures
        r == hex_digit(n as int),
{
    if n < 10 {
        ((48 + n) as u8) as char
    } else {
        ((87 + n) as u8) as char
    }
}

/// Escapes `s` for use inside a JSON string literal.
pub fn json_escape(s: &str) -> (r: String)
    ensures
        r@ == json_escaped(s@),
{
    let chars = chars_of(s);
    let mut out = String::new();
    let mut i: usize = 0;
    while i < chars.len()
        invariant
            chars@ == s@,
            i <= chars@.len(),
            out@ == json_escaped(s@.take(i as int)),
        decreases chars@.len() - i,
    {
        let c = chars[i];
        let ghost before = out@;
        if c == '"' {
            out.push('\\');
            out.push('"');
        } else if c == '\\' {
            out.push('\\');
            out.push('\\');
        } else if c == '\n' {
            out.push('\\');
            out.push('n');
        } else if c == '\r' {
            out.push('\\');
            out.push('r');
        } else if c == '\t' {
            out.push('\\');
            out.push('t');
        } else if (c as u32) < 0x20 {
            let u = c as u32;
            out.push('\\');
            out.push('u');
            out.push('0');
            out.push('0');
            out.push(hex_digit_char(u / 16));
            out.push(hex_digit_char(u % 16));
        } else {
            out.push(c);
        }
        proof {
            assert(out@ =~= before + escape_char(c));
            assert(s@.take(i + 1) =~= s@.take(i as int) + seq![c]);
            lemma_json_escaped_concat(s@.take(i as int), seq![c]);
            assert(seq![c].drop_first() =~= Seq::<char>::empty());
            assert(json_escaped(Seq::<char>::empty()) =~= Seq::<char>::empty());
            assert(seq![c][0] == c);
            assert(json_escaped(seq![c]) =~= escape_char(c) + json_escaped(seq![c].drop_first()));
            assert(json_escaped(seq![c]) =~= escape_char(c));
        }
        i = i + 1;
    }
    assert(s@.take(chars@.len() as int) =~= s@);
    out
}

/// The JSON object of one date: `{"key":"K","label":"L"}`, with the key
/// escaped and the label trimmed and escaped.
pub open spec fn date_object(e: DateEntry) -> Seq<char> {
    "{\"key\":\""@ + json_escaped(e.key@) + "\",\"label\":\""@ + json_escaped(trimmed(e.label@)) + "\"}"@
}

/// The items separated by commas.
pub open spec fn joined(items: Seq<Seq<char>>) -> Seq<char>
    decreases items.len(),
{
    if items.len() == 0 {
        Seq::empty()
    } else if items.len() == 1 {
        items[0]
    } else {
        joined(items.drop_last()) + seq![','] + items.last()
    }
}

/// Joining one more item adds exactly one comma and the item, however many
/// items came before.
pub proof fn lemma_joined_push(items: Seq<Seq<char>>, x: Seq<char>)
    requires
        items.len() > 0,
    ensures
        joined(items.push(x)) == joined(items) + seq![','] + x,
{
    assert(items.push(x).drop_last() =~= items);
}

/// A single item is joined as itself, with no comma.
pub proof fn lemma_joined_single(x: Seq<char>)
    ensures
        joined(seq![x]) == x,
{
}

/// `body` is the JSON array of the objects of `entries`, sorted as strings.
pub open spec fn is_date_listing(body: Seq<char>, entries: Seq<DateEntry>) -> bool {
    exists|sorted: Seq<Seq<char>>|
        {
            &&& lex_sorted(sorted)
            &&& sorted.to_multiset() == entries.map_values(|e: DateEntry| date_object(e)).to_multiset()
            &&& body == seq!['['] + joined(sorted) + seq![']']
        }
}

/// The JSON object of one date.
pub fn date_object_json(entry: &DateEntry) -> (r: String)
    ensures
        r@ == date_object(*entry),
{
    let mut s = "{\"key\":\"".to_owned();
    let key = json_escape(entry.key.as_str());
    s.append(key.as_str());
    s.append("\",\"label\":\"");
    let label = json_escape(trim(entry.label.as_str()));
    s.append(label.as_str());
    s.append("\"}");
    s
}

/// The body of the answer to `GET /dates`: the objects of all entries,
/// sorted as strings, in a JSON array.
pub fn list_dates_body(entries: &Vec<DateEntry>) -> (r: String)
    ensures
        is_date_listing(r@, entries@),
{
    let mut objects: Vec<Vec<char>> = Vec::new();
    let mut i: usize = 0;
    while i < entries.len()
        invariant
            i <= entries@.len(),
            objects@.map_values(|v: Vec<char>| v@) == entries@.take(i as int).map_values(
                |e: DateEntry| date_object(e),
            ),
        decreases entries@.len() - i,
    {
        let text = date_object_json(&entries[i]);
        let chars = chars_of(text.as_str());
        let ghost prev = objects@.map_values(|v: Vec<char>| v@);
        let ghost obj = date_object(entries@[i as int]);
        assert(chars@ == obj);
        objects.push(chars);
        assert(objects@.map_values(|v: Vec<char>| v@) =~= prev.push(obj));
        assert(entries@.take(i + 1).map_values(|e: DateEntry| date_object(e)) =~= entries@.take(
            i as int,
        ).map_values(|e: DateEntry| date_object(e)).push(obj));
        i = i + 1;
    }
    assert(entries@.take(entries@.len() as int) =~= entries@);
    let sorted = sort_chars(objects);
    let ghost items = sorted@.map_values(|v: Vec<char>| v@);
    let mut out = String::new();
    out.push('[');
    let mut k: usize = 0;
    while k < sorted.len()
        invariant
            k <= sorted@.len(),
            items == sorted@.map_values(|v: Vec<char>| v@),
            out@ == seq!['['] + joined(items.take(k as int)),
        decreases sorted@.len() - k,
    {
        let ghost before = out@;
        if k > 0 {
            out.push(',');
        }
        let item = &sorted[k];
        let mut j: usize = 0;
        while j < item.len()
            invariant
                j <= item@.len(),
                item@ == items[k as int],
                out@ == (if k > 0 { before + seq![','] } else { before }) + item@.take(j as int),
            decreases item@.len() - j,
        {
            out.push(item[j]);
            assert(item@.take(j + 1) =~= item@.take(j as int).push(item@[j as int]));
            j = j + 1;
        }
        proof {
            assert(item@.take(item@.len() as int) =~= item@);
            assert(items.take(k + 1).drop_last() =~= items.take(k as int));
            if k == 0 {
                assert(items.take(0) =~= Seq::<Seq<char>>::empty());
                assert(joined(items.take(1)) == items[0]);
            }
            assert(out@ =~= seq!['['] + joined(items.take(k + 1)));
        }
        k = k + 1;
    }
    out.push(']');
    assert(items.take(sorted@.len() as int) =~= items);
    assert(out@ =~= seq!['['] + joined(items) + seq![']']);
    out
}

/// The listing depends on the entries alone, not on the order in which the
/// directory handed them out: two listings of the same entries are equal.
pub proof fn lemma_listing_unique(b1: Seq<char>, b2: Seq<char>, e1: Seq<DateEntry>, e2: Seq<DateEntry>)
    requires
        is_date_listing(b1, e1),
        is_date_listing(b2, e2),
        e1.map_values(|e: DateEntry| date_object(e)).to_multiset() == e2.map_values(
            |e: DateEntry| date_object(e),
        ).to_multiset(),
    ensures
        b1 == b2,
{
    let s1 = choose|sorted: Seq<Seq<char>>|
        {
            &&& lex_sorted(sorted)
            &&& sorted.to_multiset() == e1.map_values(|e: DateEntry| date_object(e)).to_multiset()
            &&& b1 == seq!['['] + joined(sorted) + seq![']']
        };
    let s2 = choose|sorted: Seq<Seq<char>>|
        {
            &&& lex_sorted(sorted)
            &&& sorted.to_multiset() == e2.map_values(|e: DateEntry| date_object(e)).to_multiset()
            &&& b2 == seq!['['] + joined(sorted) + seq![']']
        };
    let leq = |a: Seq<char>, b: Seq<char>| !lex_lt(b, a);
    assert(vstd::relations::total_ordering(leq)) by {
        assert forall|a: Seq<char>| #[trigger] leq(a, a) by {
            lemma_lex_trichotomy(a, a);
        }
        assert forall|a: Seq<char>, b: Seq<char>| #[trigger] leq(a, b) && #[trigger] leq(b, a) implies a == b by {
            lemma_lex_trichotomy(a, b);
        }
        assert forall|a: Seq<char>, b: Seq<char>, c: Seq<char>| #[trigger] leq(a, b) && #[trigger] leq(b, c) implies leq(a, c) by {
            lemma_lex_trichotomy(a, b);
            lemma_lex_trichotomy(b, c);
            lemma_lex_trichotomy(a, c);
            if lex_lt(c, a) {
                if lex_lt(a, b) {
                    lemma_lex_transitive(c, a, b);
                } 
            }
        }
        assert forall|a: Seq<char>, b: Seq<char>| #[trigger] leq(a, b) || leq(b, a) by {
            lemma_lex_trichotomy(a, b);
        }
    }
    assert(vstd::relations::sorted_by(s1, leq));
    assert(vstd::relations::sorted_by(s2, leq));
    vstd::seq_lib::lemma_sorted_unique(s1, s2, leq);
}


/// The request methods that the service tells apart.
#[derive(Clone, Copy, Debug, PartialEq, Eq, Structural)]
pub enum Method {
    Get,
    Post,
    Delete,
    Other,
}

/// The handler a request reaches.
#[derive(Debug)]
pub enum Route {
    /// `GET /dates` or `GET /dates/`.
    ListDates,
    /// `POST /dates/KEY`, with the key after the prefix.
    AddDate(String),
    /// `DELETE /dates/KEY`, with the key after the prefix.
    DeleteDate(String),
    /// `GET /` or `GET ` with an empty path.
    Help,
    /// Anything else.
    NotFound,
}

/// The path begins with `/dates/`.
pub open spec fn has_dates_prefix(path: Seq<char>) -> bool {
    path.len() >= 7 && path.subrange(0, 7) == "/dates/"@
}

/// The request lists the dates.
pub open spec fn is_list_request(method: Method, path: Seq<char>) -> bool {
    method == Method::Get && (path == "/dates"@ || path == "/dates/"@)
}

/// The request asks for the list of routes.
pub open spec fn is_help_request(method: Method, path: Seq<char>) -> bool {
    method == Method::Get && (path == "/"@ || path == ""@)
}

/// The handler of a request for `path` (its query removed) with `method`.
pub fn route(method: Method, path: &str) -> (r: Route)
    ensures
        match r {
            Route::ListDates => is_list_request(method, path@),
            Route::AddDate(key) => method == Method::Post && has_dates_prefix(path@) && key@ == path@.subrange(
                7,
                path@.len() as int,
            ),
            Route::DeleteDate(key) => method == Method::Delete && has_dates_prefix(path@) && key@
                == path@.subrange(7, path@.len() as int),
            Route::Help => is_help_request(method, path@),
            Route::NotFound => !is_list_request(method, path@) && !is_help_request(method, path@)
                && !((method == Method::Post || method == Method::Delete) && has_dates_prefix(path@)),
        },
{
    let p = chars_of(path);
    let dates = chars_of("/dates");
    let dates_slash = chars_of("/dates/");
    let root = chars_of("/");
    let empty = chars_of("");
    if method == Method::Get && (chars_eq(&p, &dates) || chars_eq(&p, &dates_slash)) {
        return Route::ListDates;
    }
    proof {
        reveal_strlit("/dates/");
    }
    let prefixed = starts_with_chars(&p, &dates_slash);
    if method == Method::Post && prefixed {
        return Route::AddDate(path.substring_char(7, p.len()).to_owned());
    }
    if method == Method::Delete && prefixed {
        return Route::DeleteDate(path.substring_char(7, p.len()).to_owned());
    }
    if method == Method::Get && (chars_eq(&p, &root) || chars_eq(&p, &empty)) {
        return Route::Help;
    }
    Route::NotFound
}

/// The request's path: its text up to the first `?`, or all of it.
pub fn request_path(path_with_query: &str) -> (r: &str)
    ensures
        r@.len() <= path_with_query@.len(),
        r@ == path_with_query@.subrange(0, r@.len() as int),
        forall|k: int| 0 <= k < r@.len() ==> path_with_query@[k] != '?',
        r@.len() == path_with_query@.len() || path_with_query@[r@.len() as int] == '?',
{
    let chars = chars_of(path_with_query);
    let mut i: usize = 0;
    while i < chars.len() && chars[i] != '?'
        invariant
            chars@ == path_with_query@,
            i <= chars@.len(),
            forall|k: int| 0 <= k < i ==> path_with_query@[k] != '?',
        decreases chars@.len() - i,
    {
        i = i + 1;
    }
    path_with_query.substring_char(0, i)
}

/// Only a `POST` carries a body that the service reads.
pub fn reads_body(method: Method) -> (r: bool)
    ensures
        r == (method == Method::Post),
{
    method == Method::Post
}

/// The content type of JSON answers.
pub const JSON: &'static str = "application/json";

/// The content type of plain-text answers.
pub const TEXT: &'static str = "text/plain";

/// The list of routes that `GET /` answers.
pub const ROUTES_JSON: &'static str = "{\"routes\":[\"GET /dates\",\"POST /dates/{YYYYMMDD}\",\"DELETE /dates/{YYYYMMDD}\"]}";

/// The directory of the date files, as the service sees it.
pub const DATES_DIR: &'static str = "/dates";

/// The answer to `GET /`: the list of routes.
pub fn help() -> (r: (u16, &'static str, String))
    ensures
        r.0 == 200 && r.1 == JSON && r.2@ == ROUTES_JSON@,
{
    (200, JSON, ROUTES_JSON.to_owned())
}

/// The answer to a request that reaches no handler.
pub fn not_found() -> (r: (u16, &'static str, String))
    ensures
        r.0 == 404 && r.1 == TEXT && r.2@ == "Not Found"@,
{
    (404, TEXT, "Not Found".to_owned())
}

/// The answer to `GET /dates` once the files were read.
pub fn list_dates_response(entries: &Vec<DateEntry>) -> (r: (u16, &'static str, String))
    ensures
        r.0 == 200 && r.1 == JSON && is_date_listing(r.2@, entries@),
{
    (200, JSON, list_dates_body(entries))
}

/// The answer to `GET /dates` when the directory could not be read.
pub fn list_error_response(error: &str) -> (r: (u16, &'static str, String))
    ensures
        r.0 == 500 && r.1 == TEXT && r.2@ == "Error reading dates directory: "@ + error@,
{
    let mut s = "Error reading dates directory: ".to_owned();
    s.append(error);
    (500, TEXT, s)
}

/// The file that holds the label of `key`: `/dates/KEY.txt`.
pub fn date_file_path(key: &str) -> (r: String)
    ensures
        r@ == DATES_DIR@ + "/"@ + key@ + ".txt"@,
{
    let mut s = DATES_DIR.to_owned();
    s.append("/");
    s.append(key);
    s.append(".txt");
    s
}

/// The refusal of `POST /dates/KEY` for a key that is not 8 ASCII digits;
/// nothing for a well-formed key, whose file is then written.
pub fn add_date_refusal(key: &str) -> (r: Option<(u16, &'static str, String)>)
    ensures
        r is None <==> is_date_key_text(key),
        r matches Some(resp) ==> resp.0 == 400 && resp.1 == TEXT && resp.2@
            == "Key must be 8-digit YYYYMMDD format"@,
{
    if !is_date_key(key) {
        return Some((400, TEXT, "Key must be 8-digit YYYYMMDD format".to_owned()));
    }
    None
}

/// The text that `String::from_utf8_lossy` makes of `bytes`.
pub uninterp spec fn utf8_lossy(bytes: Seq<u8>) -> Seq<char>;

/// Calls `String::from_utf8_lossy`: the bytes read as UTF-8, each invalid
/// sequence replaced by U+FFFD. What is stated is that the result is named by
/// `utf8_lossy` and that valid UTF-8 is decoded unchanged; how invalid
/// sequences are cut into replacements is left unsaid.
#[verifier::external_body]
fn decode_utf8_lossy(bytes: &[u8]) -> (r: String)
    ensures
        r@ == utf8_lossy(bytes@),
        vstd::utf8::valid_utf8(bytes@) ==> r@ == vstd::utf8::decode_utf8(bytes@),
{
    String::from_utf8_lossy(bytes).into_owned()
}

/// The label that `POST /dates/KEY` stores: the request body read as UTF-8,
/// invalid sequences replaced.
pub fn label_of_body(body: &[u8]) -> (r: String)
    ensures
        r@ == utf8_lossy(body@),
        vstd::utf8::valid_utf8(body@) ==> r@ == vstd::utf8::decode_utf8(body@),
{
    decode_utf8_lossy(body)
}

proof fn lemma_digits_escape_to_themselves(key: Seq<char>)
    requires
        forall|i: int| 0 <= i < key.len() ==> is_ascii_digit(#[trigger] key[i]),
    ensures
        json_escaped(key) == key,
    decreases key.len(),
{
    if key.len() > 0 {
        assert(is_ascii_digit(key[0]));
        assert forall|i: int| 0 <= i < key.drop_first().len() implies is_ascii_digit(
            #[trigger] key.drop_first()[i],
        ) by {
            assert(key.drop_first()[i] == key[i + 1]);
        }
        lemma_digits_escape_to_themselves(key.drop_first());
        assert(json_escaped(key) =~= key);
    }
}

/// A date added under a well-formed key shows in the listing: once the file
/// `KEY.txt` holding the stored label of `body` is read back as an entry
/// (its key the name's first 8 characters, its label the file's text), the
/// listing holds the object `{"key":"KEY","label":"L"}`, with `L` the stored
/// label trimmed and escaped.
pub proof fn lemma_added_date_is_listed(
    key: Seq<char>,
    body: Seq<u8>,
    entries: Seq<DateEntry>,
    i: int,
    listing: Seq<char>,
)
    requires
        key.len() == 8,
        forall|k: int| 0 <= k < key.len() ==> is_ascii_digit(#[trigger] key[k]),
        0 <= i < entries.len(),
        entries[i].key@ == (key + ".txt"@).subrange(0, 8),
        entries[i].label@ == utf8_lossy(body),
        is_date_listing(listing, entries),
    ensures
        exists|sorted: Seq<Seq<char>>|
            {
                &&& listing == seq!['['] + joined(sorted) + seq![']']
                &&& sorted.contains(
                    "{\"key\":\""@ + key + "\",\"label\":\""@ + json_escaped(trimmed(utf8_lossy(body)))
                        + "\"}"@,
                )
            },
{
    broadcast use vstd::seq_lib::group_to_multiset_ensures;

    crate::dates::lemma_stored_name_reads_back(key);
    lemma_digits_escape_to_themselves(key);
    let objects = entries.map_values(|e: DateEntry| date_object(e));
    let sorted = choose|sorted: Seq<Seq<char>>|
        {
            &&& lex_sorted(sorted)
            &&& sorted.to_multiset() == objects.to_multiset()
            &&& listing == seq!['['] + joined(sorted) + seq![']']
        };
    let obj = date_object(entries[i]);
    assert(objects[i] == obj);
    assert(objects.contains(obj));
    assert(objects.to_multiset().count(obj) > 0);
    assert(sorted.to_multiset().count(obj) > 0);
    assert(sorted.contains(obj));
}

/// The answer to `POST /dates/KEY` once the label file was written, or the
/// error text of the failed write.
pub fn add_date_response(key: &str, written: Result<(), String>) -> (r: (u16, &'static str, String))
    ensures
        r.1 == TEXT,
        match written {
            Ok(()) => r.0 == 201 && r.2@ == "Created "@ + key@,
            Err(e) => r.0 == 500 && r.2@ == "Error writing file: "@ + e@,
        },
{
    match written {
        Ok(()) => {
            let mut s = "Created ".to_owned();
            s.append(key);
            (201, TEXT, s)
        },
        Err(e) => {
            let mut s = "Error writing file: ".to_owned();
            s.append(e.as_str());
            (500, TEXT, s)
        },
    }
}

/// What became of the removal of a date file.
#[derive(Debug)]
pub enum Removal {
    /// The file was removed.
    Removed,
    /// There was no such file.
    Missing,
    /// Another error, with its text.
    Failed(String),
}

/// The answer to `DELETE /dates/KEY` once the removal was tried.
pub fn delete_date_response(key: &str, removal: Removal) -> (r: (u16, &'static str, String))
    ensures
        r.1 == TEXT,
        match removal {
            Removal::Removed => r.0 == 200 && r.2@ == "Deleted "@ + key@,
            Removal::Missing => r.0 == 404 && r.2@ == "Date not found"@,
            Removal::Failed(e) => r.0 == 500 && r.2@ == "Error deleting file: "@ + e@,
        },
{
    match removal {
        Removal::Removed => {
            let mut s = "Deleted ".to_owned();
            s.append(key);
            (200, TEXT, s)
        },
        Removal::Missing => (404, TEXT, "Date not found".to_owned()),
        Removal::Failed(e) => {
            let mut s = "Error deleting file: ".to_owned();
            s.append(e.as_str());
            (500, TEXT, s)
        },
    }
}

} // verus!
