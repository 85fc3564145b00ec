//! The persisted text format: a JSON object whose members map item names to
//! boolean flags (`true` for pending, `false` for completed).
//!
//! [`parse_json`] is the specification of the format: the mapping a text
//! denotes, or `None` when the text is neither blank nor a well-formed
//! object of string keys and boolean values. The executable parser is
//! verified against it, and [`lemma_render_parses`] shows that the rendered
//! form of any list of records parses back to exactly the mapping those
//! records denote — the round trip on which saving and loading rest.

use vstd::prelude::*;

use crate::map_of_pairs;
use crate::store::Todo;
use crate::Status;

verus! {

/// The whitespace characters that may appear between tokens.
pub open spec fn is_ws_char(c: char) -> bool {
    c == ' ' || c == '\n' || c == '\t' || c == '\r'
}

/// The input with its leading whitespace removed.
pub open spec fn skip_ws(s: Seq<char>) -> Seq<char>
    decreases s.len(),
{
    if s.len() > 0 && is_ws_char(s[0]) {
        skip_ws(s.drop_first())
    } else {
        s
    }
}

/// The character an escape `\c` stands for, if `c` is a recognised escape.
pub open spec fn unescape_char(c: char) -> Option<char> {
    if c == '"' {
        Some('"')
    } else if c == '\\' {
        Some('\\')
    } else if c == '/' {
        Some('/')
    } else if c == 'n' {
        Some('\n')
    } else if c == 't' {
        Some('\t')
    } else if c == 'r' {
        Some('\r')
    } else if c == 'b' {
        Some('\u{0008}')
    } else if c == 'f' {
        Some('\u{000C}')
    } else {
        None
    }
}

/// Parses the body of a quoted string, starting just after the opening
/// quote; yields the decoded key and the input after the closing quote.
pub open spec fn parse_string_body(s: Seq<char>) -> Option<(Seq<char>, Seq<char>)>
    decreases s.len(),
{
    if s.len() == 0 {
        None
    } else if s[0] == '"' {
        Some((Seq::empty(), s.drop_first()))
    } else if s[0] == '\\' {
        if s.len() < 2 {
            None
        } else {
            match unescape_char(s[1]) {
                Some(c) => match parse_string_body(s.skip(2)) {
                    Some(p) => Some((seq![c] + p.0, p.1)),
                    None => None,
                },
                None => None,
            }
        }
    } else {
        match parse_string_body(s.drop_first()) {
            Some(p) => Some((seq![s[0]] + p.0, p.1)),
            None => None,
        }
    }
}

/// Parses a boolean flag as the status it encodes.
pub open spec fn parse_status(s: Seq<char>) -> Option<(Status, Seq<char>)> {
    if s.len() >= 4 && s[0] == 't' && s[1] == 'r' && s[2] == 'u' && s[3] == 'e' {
        Some((Status::Pending, s.skip(4)))
    } else if s.len() >= 5 && s[0] == 'f' && s[1] == 'a' && s[2] == 'l' && s[3] == 's' && s[4]
        == 'e' {
        Some((Status::Completed, s.skip(5)))
    } else {
        None
    }
}

/// Parses one `"key": flag` member, leading whitespace allowed.
pub open spec fn parse_member(s: Seq<char>) -> Option<((Seq<char>, Status), Seq<char>)> {
    let s1 = skip_ws(s);
    if s1.len() == 0 || s1[0] != '"' {
        None
    } else {
        match parse_string_body(s1.drop_first()) {
            None => None,
            Some(kp) => {
                let r2 = skip_ws(kp.1);
                if r2.len() == 0 || r2[0] != ':' {
                    None
                } else {
                    match parse_status(skip_ws(r2.drop_first())) {
                        None => None,
                        Some(sp) => Some(((kp.0, sp.0), sp.1)),
                    }
                }
            },
        }
    }
}

/// Parses the members of a non-empty object, together with the closing
/// brace, folding them into `acc` in order; yields the mapping and what
/// follows the brace.
pub open spec fn parse_members(s: Seq<char>, acc: Map<Seq<char>, Status>) -> Option<
    (Map<Seq<char>, Status>, Seq<char>),
>
    decreases s.len(),
{
    match parse_member(s) {
        None => None,
        Some(mp) => {
            let acc2 = acc.insert(mp.0.0, mp.0.1);
            let r2 = skip_ws(mp.1);
            if r2.len() == 0 {
                None
            } else if r2[0] == '}' {
                Some((acc2, r2.drop_first()))
            } else if r2[0] == ',' && r2.len() - 1 < s.len() {
                parse_members(r2.drop_first(), acc2)
            } else {
                None
            }
        },
    }
}

/// The mapping a text denotes: blank text denotes the empty mapping, an
/// object with nothing but whitespace around it denotes its members folded
/// in order, and any other text denotes nothing.
pub open spec fn parse_json(s: Seq<char>) -> Option<Map<Seq<char>, Status>> {
    let s1 = skip_ws(s);
    if s1.len() == 0 {
        Some(Map::empty())
    } else if s1[0] != '{' {
        None
    } else {
        let r = skip_ws(s1.drop_first());
        if r.len() > 0 && r[0] == '}' {
            if skip_ws(r.drop_first()).len() == 0 {
                Some(Map::empty())
            } else {
                None
            }
        } else {
            match parse_members(s1.drop_first(), Map::empty()) {
                None => None,
                Some(mp) => if skip_ws(mp.1).len() == 0 {
                    Some(mp.0)
                } else {
                    None
                },
            }
        }
    }
}

// === The rendered form ===

/// How one character of a key is written inside a quoted string.
pub open spec fn escape_char(c: char) -> Seq<char> {
    if c == '"' {
        seq!['\\', '"']
    } else if c == '\\' {
        seq!['\\', '\\']
    } else if c == '\n' {
        seq!['\\', 'n']
    } else if c == '\t' {
        seq!['\\', 't']
    } else if c == '\r' {
        seq!['\\', 'r']
    } else if c == '\u{0008}' {
        seq!['\\', 'b']
    } else if c == '\u{000C}' {
        seq!['\\', 'f']
    } else {
        seq![c]
    }
}

/// How a whole key is written inside a quoted string.
pub open spec fn escape(k: Seq<char>) -> Seq<char>
    decreases k.len(),
{
    if k.len() == 0 {
        Seq::empty()
    } else {
        escape_char(k[0]) + escape(k.drop_first())
    }
}

/// The flag a status is written as.
pub open spec fn render_status(st: Status) -> Seq<char> {
    match st {
        Status::Pending => seq!['t', 'r', 'u', 'e'],
        Status::Completed => seq!['f', 'a', 'l', 's', 'e'],
    }
}

/// One `"key": flag` member.
pub open spec fn render_member(k: Seq<char>, st: Status) -> Seq<char> {
    seq!['"'] + escape(k) + seq!['"', ':', ' '] + render_status(st)
}

/// The members of an object, one per line, indented and comma-separated.
pub open spec fn render_members(kvs: Seq<(Seq<char>, Status)>) -> Seq<char>
    decreases kvs.len(),
{
    if kvs.len() == 0 {
        Seq::empty()
    } else if kvs.len() == 1 {
        seq![' ', ' '] + render_member(kvs[0].0, kvs[0].1)
    } else {
        seq![' ', ' '] + render_member(kvs[0].0, kvs[0].1) + seq![',', '\n'] + render_members(
            kvs.drop_first(),
        )
    }
}

/// The pretty-printed object for a list of records.
pub open spec fn render(kvs: Seq<(Seq<char>, Status)>) -> Seq<char> {
    if kvs.len() == 0 {
        seq!['{', '}']
    } else {
        seq!['{', '\n'] + render_members(kvs) + seq!['\n', '}']
    }
}

// === The rendered form parses back ===

/// Skipping whitespace passes over any all-whitespace prefix.
pub proof fn lemma_skip_ws_prefix(p: Seq<char>, t: Seq<char>)
    requires
        forall|i: int| 0 <= i < p.len() ==> is_ws_char(#[trigger] p[i]),
    ensures
        skip_ws(p + t) == skip_ws(t),
    decreases p.len(),
{
    if p.len() == 0 {
        assert(p + t =~= t);
    } else {
        assert((p + t)[0] == p[0]);
        assert(is_ws_char(p[0]));
        assert((p + t).drop_first() =~= p.drop_first() + t);
        assert(skip_ws(p + t) == skip_ws((p + t).drop_first()));
        assert forall|i: int| 0 <= i < p.drop_first().len() implies is_ws_char(
            #[trigger] p.drop_first()[i],
        ) by {
            assert(p.drop_first()[i] == p[i + 1]);
        }
        lemma_skip_ws_prefix(p.drop_first(), t);
    }
}

/// The escaped form of a key, up to its closing quote, parses back to
/// exactly that key.
proof fn lemma_escape_parses(k: Seq<char>, rest: Seq<char>)
    ensures
        parse_string_body(escape(k) + seq!['"'] + rest) == Some((k, rest)),
    decreases k.len(),
{
    let s = escape(k) + seq!['"'] + rest;
    if k.len() == 0 {
        assert(escape(k) == Seq::<char>::empty());
        assert(s =~= seq!['"'] + rest);
        assert(s[0] == '"');
        assert(s.drop_first() =~= rest);
        assert(k =~= Seq::<char>::empty());
        assert(parse_string_body(s) == Some((k, rest)));
    } else {
        let c = k[0];
        let k2 = k.drop_first();
        let e = escape_char(c);
        assert(escape(k) == e + escape(k2));
        lemma_escape_parses(k2, rest);
        let s2 = escape(k2) + seq!['"'] + rest;
        assert(seq![c] + k2 =~= k);
        if c == '"' || c == '\\' || c == '\n' || c == '\t' || c == '\r' || c == '\u{0008}' || c
            == '\u{000C}' {
            assert(e.len() == 2 && e[0] == '\\');
            assert(escape(k)[0] == '\\');
            assert(escape(k)[1] == e[1]);
            assert(s[0] == '\\');
            assert(s[1] == e[1]);
            assert(unescape_char(e[1]) == Some(c));
            assert(s.skip(2) =~= s2);
            assert(parse_string_body(s) == Some((seq![c] + k2, rest)));
        } else {
            assert(e.len() == 1 && e[0] == c);
            assert(escape(k)[0] == c);
            assert(s[0] == c);
            assert(s.drop_first() =~= s2);
            assert(parse_string_body(s) == Some((seq![c] + k2, rest)));
        }
    }
}

/// A rendered flag parses back to the status it encodes.
proof fn lemma_status_parses(st: Status, rest: Seq<char>)
    ensures
        parse_status(render_status(st) + rest) == Some((st, rest)),
{
    let s = render_status(st) + rest;
    match st {
        Status::Pending => {
            assert(s.len() >= 4);
            assert(s[0] == 't' && s[1] == 'r' && s[2] == 'u' && s[3] == 'e');
            assert(s.skip(4) =~= rest);
        },
        Status::Completed => {
            assert(s.len() >= 5);
            assert(s[0] == 'f' && s[1] == 'a' && s[2] == 'l' && s[3] == 's' && s[4] == 'e');
            assert(s.skip(5) =~= rest);
        },
    }
}

/// A rendered member, after any all-whitespace prefix, parses back to its
/// key and status.
proof fn lemma_member_parses(p: Seq<char>, k: Seq<char>, st: Status, rest: Seq<char>)
    requires
        forall|i: int| 0 <= i < p.len() ==> is_ws_char(#[trigger] p[i]),
    ensures
        parse_member(p + render_member(k, st) + rest) == Some(((k, st), rest)),
{
    let s = p + render_member(k, st) + rest;
    let rest2 = seq![':', ' '] + (render_status(st) + rest);
    let body = seq!['"'] + (escape(k) + seq!['"'] + rest2);
    assert(s =~= p + body);
    lemma_skip_ws_prefix(p, body);
    assert(body[0] == '"');
    assert(skip_ws(body) == body);
    let s1 = skip_ws(s);
    assert(s1 == body);
    assert(s1.drop_first() =~= escape(k) + seq!['"'] + rest2);
    lemma_escape_parses(k, rest2);
    assert(rest2[0] == ':');
    assert(skip_ws(rest2) == rest2);
    assert(rest2.drop_first() =~= seq![' '] + (render_status(st) + rest));
    assert forall|i: int| 0 <= i < seq![' '].len() implies is_ws_char(#[trigger] seq![' '][i]) by {
        assert(seq![' '][i] == ' ');
    }
    lemma_skip_ws_prefix(seq![' '], render_status(st) + rest);
    assert((render_status(st) + rest)[0] == 't' || (render_status(st) + rest)[0] == 'f');
    assert(skip_ws(render_status(st) + rest) == render_status(st) + rest);
    lemma_status_parses(st, rest);
    assert(parse_member(s) == Some(((k, st), rest)));
}

/// The rendered members of a non-empty list, after any all-whitespace
/// prefix and before the closing line, parse back to the fold of the list.
proof fn lemma_members_parse(
    p: Seq<char>,
    kvs: Seq<(Seq<char>, Status)>,
    tail: Seq<char>,
    acc: Map<Seq<char>, Status>,
)
    requires
        forall|i: int| 0 <= i < p.len() ==> is_ws_char(#[trigger] p[i]),
        kvs.len() >= 1,
    ensures
        parse_members(p + render_members(kvs) + (seq!['\n', '}'] + tail), acc) == Some(
            (map_of_pairs(acc, kvs), tail),
        ),
    decreases kvs.len(),
{
    let s = p + render_members(kvs) + (seq!['\n', '}'] + tail);
    let k0 = kvs[0].0;
    let st0 = kvs[0].1;
    let p2 = p + seq![' ', ' '];
    assert forall|i: int| 0 <= i < p2.len() implies is_ws_char(#[trigger] p2[i]) by {
        if i < p.len() {
            assert(p2[i] == p[i]);
        } else {
            assert(p2[i] == seq![' ', ' '][i - p.len()]);
        }
    }
    let acc2 = acc.insert(k0, st0);
    assert(map_of_pairs(acc, kvs) == map_of_pairs(acc2, kvs.drop_first()));
    if kvs.len() == 1 {
        let rest_m = seq!['\n', '}'] + tail;
        assert(render_members(kvs) == seq![' ', ' '] + render_member(k0, st0));
        assert(s =~= p2 + render_member(k0, st0) + rest_m);
        lemma_member_parses(p2, k0, st0, rest_m);
        assert(rest_m =~= seq!['\n'] + (seq!['}'] + tail));
        assert forall|i: int| 0 <= i < seq!['\n'].len() implies is_ws_char(
            #[trigger] seq!['\n'][i],
        ) by {
            assert(seq!['\n'][i] == '\n');
        }
        lemma_skip_ws_prefix(seq!['\n'], seq!['}'] + tail);
        assert((seq!['}'] + tail)[0] == '}');
        assert(skip_ws(seq!['}'] + tail) == seq!['}'] + tail);
        let r2 = skip_ws(rest_m);
        assert(r2 == seq!['}'] + tail);
        assert(r2[0] == '}');
        assert(r2.drop_first() =~= tail);
        assert(kvs.drop_first().len() == 0);
        assert(map_of_pairs(acc2, kvs.drop_first()) == acc2);
        assert(parse_members(s, acc) == Some((acc2, tail)));
    } else {
        let kvs2 = kvs.drop_first();
        let rest_m = seq![',', '\n'] + (render_members(kvs2) + (seq!['\n', '}'] + tail));
        assert(render_members(kvs) == seq![' ', ' '] + render_member(k0, st0) + seq![',', '\n']
            + render_members(kvs2));
        assert(s =~= p2 + render_member(k0, st0) + rest_m);
        lemma_member_parses(p2, k0, st0, rest_m);
        assert(rest_m[0] == ',');
        assert(skip_ws(rest_m) == rest_m);
        assert(render_member(k0, st0).len() >= 1);
        assert(s.len() == p2.len() + render_member(k0, st0).len() + rest_m.len());
        assert(rest_m.len() - 1 < s.len());
        assert(rest_m.drop_first() =~= seq!['\n'] + render_members(kvs2) + (seq!['\n', '}']
            + tail));
        assert forall|i: int| 0 <= i < seq!['\n'].len() implies is_ws_char(
            #[trigger] seq!['\n'][i],
        ) by {
            assert(seq!['\n'][i] == '\n');
        }
        lemma_members_parse(seq!['\n'], kvs2, tail, acc2);
        assert(parse_members(rest_m.drop_first(), acc2) == Some((map_of_pairs(acc2, kvs2), tail)));
        assert(parse_members(s, acc) == Some((map_of_pairs(acc2, kvs2), tail)));
    }
}

/// Round trip: the rendered form of any list of records parses back to
/// exactly the mapping that the list denotes. Saving therefore never
/// produces a text that loads as anything but the saved store.
pub proof fn lemma_render_parses(kvs: Seq<(Seq<char>, Status)>)
    ensures
        parse_json(render(kvs)) == Some(map_of_pairs(Map::<Seq<char>, Status>::empty(), kvs)),
{
    let s = render(kvs);
    let empty_map = Map::<Seq<char>, Status>::empty();
    if kvs.len() == 0 {
        assert(s == seq!['{', '}']);
        assert(s[0] == '{');
        assert(skip_ws(s) == s);
        assert(s.drop_first() =~= seq!['}']);
        assert(seq!['}'][0] == '}');
        assert(skip_ws(seq!['}']) == seq!['}']);
        assert(seq!['}'].drop_first() =~= Seq::<char>::empty());
        assert(skip_ws(Seq::<char>::empty()).len() == 0);
        assert(map_of_pairs(empty_map, kvs) == empty_map);
        assert(parse_json(s) == Some(empty_map));
    } else {
        assert(s == seq!['{', '\n'] + render_members(kvs) + seq!['\n', '}']);
        assert(s[0] == '{');
        assert(skip_ws(s) == s);
        let s1d = s.drop_first();
        assert(s1d =~= seq!['\n'] + render_members(kvs) + (seq!['\n', '}'] + Seq::<char>::empty()));
        assert forall|i: int| 0 <= i < seq!['\n'].len() implies is_ws_char(
            #[trigger] seq!['\n'][i],
        ) by {
            assert(seq!['\n'][i] == '\n');
        }
        lemma_members_parse(seq!['\n'], kvs, Seq::empty(), empty_map);
        assert(parse_members(s1d, empty_map) == Some(
            (map_of_pairs(empty_map, kvs), Seq::<char>::empty()),
        ));
        let r = skip_ws(s1d);
        assert(parse_member(s1d) is Some);
        assert(r.len() > 0 && r[0] == '"');
        assert(r[0] != '}');
        assert(skip_ws(Seq::<char>::empty()).len() == 0);
        assert(parse_json(s) == Some(map_of_pairs(empty_map, kvs)));
    }
}

// === The executable parser ===

/// Whether `c` may stand between tokens.
fn ws_char(c: char) -> (r: bool)
    ensures
        r == is_ws_char(c),
{
    c == ' ' || c == '\n' || c == '\t' || c == '\r'
}

/// The position of the first character at or after `i` that is not
/// whitespace.
pub(crate) fn skip_ws_from(s: &str, i: usize, n: usize) -> (j: usize)
    requires
        n == s@.len(),
        i <= n,
    ensures
        i <= j <= n,
        skip_ws(s@.skip(i as int)) == s@.skip(j as int),
    decreases n - i,
{
    if i < n {
        let c = s.get_char(i);
        proof {
            assert(s@.skip(i as int)[0] == s@[i as int]);
        }
        if ws_char(c) {
            proof {
                assert(s@.skip(i as int).drop_first() =~= s@.skip(i as int + 1));
            }
            return skip_ws_from(s, i + 1, n);
        }
    }
    proof {
        if i >= n {
            assert(s@.skip(i as int).len() == 0);
        }
    }
    i
}

/// The character an escape `\c` stands for, if `c` is a recognised escape.
fn unescape(c: char) -> (r: Option<char>)
    ensures
        r == unescape_char(c),
{
    if c == '"' {
        Some('"')
    } else if c == '\\' {
        Some('\\')
    } else if c == '/' {
        Some('/')
    } else if c == 'n' {
        Some('\n')
    } else if c == 't' {
        Some('\t')
    } else if c == 'r' {
        Some('\r')
    } else if c == 'b' {
        Some('\u{0008}')
    } else if c == 'f' {
        Some('\u{000C}')
    } else {
        None
    }
}

/// Relies on `String::push`: appends exactly the one character `c` at the
/// end of the string.
#[verifier::external_body]
pub(crate) fn push_char(out: &mut String, c: char)
    ensures
        final(out)@ == old(out)@.push(c),
{
    out.push(c);
}

/// Parses a quoted string's body starting at `i` (just after the opening
/// quote), appending the decoded key to `out`; yields the position after
/// the closing quote.
fn parse_string_at(s: &str, i: usize, n: usize, out: &mut String) -> (r: Option<usize>)
    requires
        n == s@.len(),
        i <= n,
    ensures
        match r {
            Some(j) => i <= j <= n && (parse_string_body(s@.skip(i as int)) matches Some(p)
                && final(out)@ == old(out)@ + p.0 && s@.skip(j as int) == p.1),
            None => parse_string_body(s@.skip(i as int)) is None,
        },
    decreases n - i,
{
    if i >= n {
        proof {
            assert(s@.skip(i as int).len() == 0);
        }
        return None;
    }
    let c = s.get_char(i);
    proof {
        assert(s@.skip(i as int)[0] == s@[i as int]);
    }
    if c == '"' {
        proof {
            assert(s@.skip(i as int).drop_first() =~= s@.skip(i as int + 1));
            assert(old(out)@ + Seq::<char>::empty() =~= old(out)@);
        }
        return Some(i + 1);
    }
    if c == '\\' {
        if i + 1 >= n {
            proof {
                assert(s@.skip(i as int).len() < 2);
            }
            return None;
        }
        let e = s.get_char(i + 1);
        proof {
            assert(s@.skip(i as int)[1] == s@[i as int + 1]);
        }
        match unescape(e) {
            None => None,
            Some(d) => {
                push_char(out, d);
                proof {
                    assert(s@.skip(i as int).skip(2) =~= s@.skip(i as int + 2));
                    assert(out@ =~= old(out)@ + seq![d]);
                }
                let r = parse_string_at(s, i + 2, n, out);
                proof {
                    if r is Some {
                        let p = parse_string_body(s@.skip(i as int + 2)).unwrap();
                        assert((old(out)@ + seq![d]) + p.0 =~= old(out)@ + (seq![d] + p.0));
                    }
                }
                r
            },
        }
    } else {
        push_char(out, c);
        proof {
            assert(s@.skip(i as int).drop_first() =~= s@.skip(i as int + 1));
            assert(out@ =~= old(out)@ + seq![c]);
        }
        let r = parse_string_at(s, i + 1, n, out);
        proof {
            if r is Some {
                let p = parse_string_body(s@.skip(i as int + 1)).unwrap();
                assert((old(out)@ + seq![c]) + p.0 =~= old(out)@ + (seq![c] + p.0));
            }
        }
        r
    }
}

/// Parses a boolean flag at `i` as the status it encodes.
fn parse_status_at(s: &str, i: usize, n: usize) -> (r: Option<(Status, usize)>)
    requires
        n == s@.len(),
        i <= n,
    ensures
        match r {
            Some(p) => i <= p.1 <= n && parse_status(s@.skip(i as int)) == Some(
                (p.0, s@.skip(p.1 as int)),
            ),
            None => parse_status(s@.skip(i as int)) is None,
        },
{
    if n - i >= 4 && s.get_char(i) == 't' && s.get_char(i + 1) == 'r' && s.get_char(i + 2) == 'u'
        && s.get_char(i + 3) == 'e' {
        proof {
            assert(s@.skip(i as int).skip(4) =~= s@.skip(i as int + 4));
        }
        return Some((Status::Pending, i + 4));
    }
    if n - i >= 5 && s.get_char(i) == 'f' && s.get_char(i + 1) == 'a' && s.get_char(i + 2) == 'l'
        && s.get_char(i + 3) == 's' && s.get_char(i + 4) == 'e' {
        proof {
            assert(s@.skip(i as int).skip(5) =~= s@.skip(i as int + 5));
        }
        return Some((Status::Completed, i + 5));
    }
    None
}

/// Parses one `"key": flag` member starting at `i`, leading whitespace
/// allowed; yields the key, the status and the position after the flag.
fn parse_member_at(s: &str, i: usize, n: usize) -> (r: Option<(String, Status, usize)>)
    requires
        n == s@.len(),
        i <= n,
    ensures
        match r {
            Some(p) => i <= p.2 <= n && (parse_member(s@.skip(i as int)) matches Some(mp)
                && p.0@ == mp.0.0 && p.1 == mp.0.1 && s@.skip(p.2 as int) == mp.1),
            None => parse_member(s@.skip(i as int)) is None,
        },
{
    let i1 = skip_ws_from(s, i, n);
    if i1 >= n {
        return None;
    }
    let c = s.get_char(i1);
    proof {
        assert(s@.skip(i1 as int)[0] == s@[i1 as int]);
    }
    if c != '"' {
        return None;
    }
    proof {
        assert(s@.skip(i1 as int).drop_first() =~= s@.skip(i1 as int + 1));
    }
    let mut key = String::new();
    match parse_string_at(s, i1 + 1, n, &mut key) {
        None => None,
        Some(j1) => {
            proof {
                assert(Seq::<char>::empty() + parse_string_body(
                    s@.skip(i1 as int + 1),
                ).unwrap().0 =~= parse_string_body(s@.skip(i1 as int + 1)).unwrap().0);
            }
            let j2 = skip_ws_from(s, j1, n);
            if j2 >= n {
                return None;
            }
            let c2 = s.get_char(j2);
            proof {
                assert(s@.skip(j2 as int)[0] == s@[j2 as int]);
            }
            if c2 != ':' {
                return None;
            }
            proof {
                assert(s@.skip(j2 as int).drop_first() =~= s@.skip(j2 as int + 1));
            }
            let j3 = skip_ws_from(s, j2 + 1, n);
            match parse_status_at(s, j3, n) {
                None => None,
                Some(sp) => Some((key, sp.0, sp.1)),
            }
        },
    }
}

/// Parses the members of a non-empty object starting at `i`, together with
/// the closing brace, recording each in `acc`; yields the position after
/// the brace.
pub(crate) fn parse_members_at(s: &str, i: usize, n: usize, acc: &mut Todo) -> (r: Option<usize>)
    requires
        n == s@.len(),
        i <= n,
        old(acc).wf(),
    ensures
        match r {
            Some(j) => j <= n && final(acc).wf() && (parse_members(s@.skip(i as int), old(acc)@)
                matches Some(mp) && final(acc)@ == mp.0 && s@.skip(j as int) == mp.1),
            None => parse_members(s@.skip(i as int), old(acc)@) is None,
        },
    decreases n - i,
{
    match parse_member_at(s, i, n) {
        None => None,
        Some(kp) => {
            let (key, st, j) = kp;
            acc.put(key, st);
            let j2 = skip_ws_from(s, j, n);
            if j2 >= n {
                return None;
            }
            let c = s.get_char(j2);
            proof {
                assert(s@.skip(j2 as int)[0] == s@[j2 as int]);
            }
            if c == '}' {
                proof {
                    assert(s@.skip(j2 as int).drop_first() =~= s@.skip(j2 as int + 1));
                }
                Some(j2 + 1)
            } else if c == ',' {
                proof {
                    assert(s@.skip(j2 as int).drop_first() =~= s@.skip(j2 as int + 1));
                }
                parse_members_at(s, j2 + 1, n, acc)
            } else {
                None
            }
        },
    }
}

// === The executable renderer ===

/// Appends the escaped form of `k` from position `i` on.
pub(crate) fn append_escaped(out: &mut String, k: &str, i: usize, n: usize)
    requires
        n == k@.len(),
        i <= n,
    ensures
        final(out)@ == old(out)@ + escape(k@.skip(i as int)),
    decreases n - i,
{
    if i >= n {
        proof {
            assert(k@.skip(i as int) =~= Seq::<char>::empty());
            assert(old(out)@ + escape(Seq::<char>::empty()) =~= old(out)@);
        }
        return;
    }
    let c = k.get_char(i);
    proof {
        assert(k@.skip(i as int)[0] == k@[i as int]);
        assert(k@.skip(i as int).drop_first() =~= k@.skip(i as int + 1));
    }
    if c == '"' {
        push_char(out, '\\');
        push_char(out, '"');
    } else if c == '\\' {
        push_char(out, '\\');
        push_char(out, '\\');
    } else if c == '\n' {
        push_char(out, '\\');
        push_char(out, 'n');
    } else if c == '\t' {
        push_char(out, '\\');
        push_char(out, 't');
    } else if c == '\r' {
        push_char(out, '\\');
        push_char(out, 'r');
    } else if c == '\u{0008}' {
        push_char(out, '\\');
        push_char(out, 'b');
    } else if c == '\u{000C}' {
        push_char(out, '\\');
        push_char(out, 'f');
    } else {
        push_char(out, c);
    }
    proof {
        assert(out@ =~= old(out)@ + escape_char(k@[i as int]));
    }
    append_escaped(out, k, i + 1, n);
    proof {
        assert((old(out)@ + escape_char(k@[i as int])) + escape(k@.skip(i as int + 1))
            =~= old(out)@ + (escape_char(k@[i as int]) + escape(k@.skip(i as int + 1))));
    }
}

/// Appends the flag a status is written as.
pub(crate) fn append_status(out: &mut String, st: Status)
    ensures
        final(out)@ == old(out)@ + render_status(st),
{
    proof {
        reveal_strlit("true");
        reveal_strlit("false");
    }
    match st {
        Status::Pending => out.append("true"),
        Status::Completed => out.append("false"),
    }
    proof {
        assert(out@ =~= old(out)@ + render_status(st));
    }
}

/// Appends one `"key": flag` member.
pub(crate) fn append_member(out: &mut String, key: &String, st: Status)
    ensures
        final(out)@ == old(out)@ + render_member(key@, st),
{
    push_char(out, '"');
    let k = key.as_str();
    let n = k.unicode_len();
    append_escaped(out, k, 0, n);
    push_char(out, '"');
    push_char(out, ':');
    push_char(out, ' ');
    append_status(out, st);
    proof {
        assert(key@.skip(0) =~= key@);
        assert(out@ =~= old(out)@ + render_member(key@, st));
    }
}

} // verus!
