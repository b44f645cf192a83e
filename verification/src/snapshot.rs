//! The persisted snapshot format: one text object mapping string keys to
//! string values, written as `{"key":"value","key":"value"}`.
//!
//! Keys and values are quoted strings; a quote, a backslash, a newline, a
//! tab and a carriage return are escaped as `\"`, `\\`, `\n`, `\t` and
//! `\r`, and every other character stands for itself. The parser also
//! accepts the escapes `\/`, `\b` and `\f`. Encoding and parsing are exact
//! inverses: parsing an encoded snapshot returns exactly the entries that
//! were encoded.

use vstd::prelude::*;

use vstd::string::StrSliceExecFns;

use crate::state::Entry;
use crate::state::EntryModel;
use crate::state::State;
use crate::state::entries_view;
use crate::state::nonempty_keys;
use crate::state::unique_keys;

verus! {

/// The escaped form of one character inside a quoted string.
pub open spec fn escape_char(c: char) -> Seq<char> {
    if c == '"' {
        seq!['\\', '"']
    } else if c == '\\' {
        seq!['\\', '\\']
    } else if c == '\n' {
        seq!['\\', 'n']
    } else if c == '\t' {
        seq!['\\', 't']
    } else if c == '\r' {
        seq!['\\', 'r']
    } else {
        seq![c]
    }
}

/// The escaped form of a string's characters.
pub open spec fn escape_str(s: Seq<char>) -> Seq<char>
    decreases s.len(),
{
    if s.len() == 0 {
        Seq::empty()
    } else {
        escape_char(s[0]) + escape_str(s.drop_first())
    }
}

/// A string in its quoted, escaped form.
pub open spec fn quote_str(s: Seq<char>) -> Seq<char> {
    seq!['"'] + escape_str(s) + seq!['"']
}

/// One encoded key/value pair.
pub open spec fn encode_pair(e: EntryModel) -> Seq<char> {
    quote_str(e.key) + seq![':'] + quote_str(e.value)
}

/// The encoded pairs, separated by commas.
pub open spec fn encode_members(es: Seq<EntryModel>) -> Seq<char>
    decreases es.len(),
{
    if es.len() == 0 {
        Seq::empty()
    } else if es.len() == 1 {
        encode_pair(es[0])
    } else {
        encode_pair(es[0]) + seq![','] + encode_members(es.drop_first())
    }
}

/// The full encoded snapshot.
pub open spec fn spec_encode_snapshot(es: Seq<EntryModel>) -> Seq<char> {
    seq!['{'] + encode_members(es) + seq!['}']
}

/// The character an escape sequence stands for, if the escape is
/// recognized.
pub open spec fn unescape_char(c: char) -> Option<char> {
    if c == '"' {
        Some('"')
    } else if c == '\\' {
        Some('\\')
    } else if c == '/' {
        Some('/')
    } else if c == 'n' {
        Some('\n')
    } else if c == 't' {
        Some('\t')
    } else if c == 'r' {
        Some('\r')
    } else if c == 'b' {
        Some('\u{8}')
    } else if c == 'f' {
        Some('\u{c}')
    } else {
        None
    }
}

/// Parses the body of a quoted string up to and including its closing
/// quote, returning the unescaped characters and the remaining input.
pub open spec fn parse_str_body(s: Seq<char>) -> Option<(Seq<char>, Seq<char>)>
    decreases s.len(),
{
    if s.len() == 0 {
        None
    } else if s[0] == '"' {
        Some((Seq::empty(), s.drop_first()))
    } else if s[0] == '\\' {
        if s.len() < 2 {
            None
        } else {
            match unescape_char(s[1]) {
                None => None,
                Some(c) => match parse_str_body(s.subrange(2, s.len() as int)) {
                    None => None,
                    Some((v, r)) => Some((seq![c] + v, r)),
                },
            }
        }
    } else {
        match parse_str_body(s.drop_first()) {
            None => None,
            Some((v, r)) => Some((seq![s[0]] + v, r)),
        }
    }
}

/// Parses one quoted string, opening quote included.
pub open spec fn parse_string(s: Seq<char>) -> Option<(Seq<char>, Seq<char>)> {
    if s.len() > 0 && s[0] == '"' {
        parse_str_body(s.drop_first())
    } else {
        None
    }
}

/// Parses one `"key":"value"` pair.
pub open spec fn parse_pair(s: Seq<char>) -> Option<(EntryModel, Seq<char>)> {
    match parse_string(s) {
        None => None,
        Some((k, r)) => {
            if r.len() > 0 && r[0] == ':' {
                match parse_string(r.drop_first()) {
                    None => None,
                    Some((v, r2)) => Some((EntryModel { key: k, value: v }, r2)),
                }
            } else {
                None
            }
        },
    }
}

/// The body of a string consumes at least its closing quote.
pub proof fn lemma_parse_str_body_consumes(s: Seq<char>)
    ensures
        parse_str_body(s) matches Some((v, r)) ==> r.len() < s.len(),
    decreases s.len(),
{
    if s.len() > 0 && s[0] != '"' {
        if s[0] == '\\' {
            if s.len() >= 2 && unescape_char(s[1]) is Some {
                lemma_parse_str_body_consumes(s.subrange(2, s.len() as int));
            }
        } else {
            lemma_parse_str_body_consumes(s.drop_first());
        }
    }
}

/// A pair consumes at least one character of the input.
pub proof fn lemma_parse_pair_consumes(s: Seq<char>)
    ensures
        parse_pair(s) matches Some((e, r)) ==> r.len() < s.len(),
{
    if s.len() > 0 && s[0] == '"' {
        lemma_parse_str_body_consumes(s.drop_first());
        match parse_string(s) {
            Some((k, r)) => {
                if r.len() > 0 && r[0] == ':' {
                    lemma_parse_str_body_consumes(r.drop_first().drop_first());
                }
            },
            None => {},
        }
    }
}

/// Parses a non-empty, comma-separated list of pairs.
pub open spec fn parse_members(s: Seq<char>) -> Option<(Seq<EntryModel>, Seq<char>)>
    decreases s.len(),
    via parse_members_decreases
{
    match parse_pair(s) {
        None => None,
        Some((e, r)) => {
            if r.len() > 0 && r[0] == ',' {
                match parse_members(r.drop_first()) {
                    None => None,
                    Some((es, r2)) => Some((seq![e] + es, r2)),
                }
            } else {
                Some((seq![e], r))
            }
        },
    }
}

#[via_fn]
proof fn parse_members_decreases(s: Seq<char>) {
    lemma_parse_pair_consumes(s);
}

/// Parses a whole snapshot: an object of string keys and string values,
/// with nothing following the closing brace.
pub open spec fn spec_parse_snapshot(s: Seq<char>) -> Option<Seq<EntryModel>> {
    if s.len() >= 2 && s[0] == '{' {
        if s.len() == 2 && s[1] == '}' {
            Some(Seq::empty())
        } else {
            match parse_members(s.skip(1)) {
                None => None,
                Some((es, r)) => {
                    if r.len() == 1 && r[0] == '}' {
                        Some(es)
                    } else {
                        None
                    }
                },
            }
        }
    } else {
        None
    }
}

proof fn lemma_str_body_round(k: Seq<char>, rest: Seq<char>)
    ensures
        parse_str_body(escape_str(k) + seq!['"'] + rest) == Some((k, rest)),
    decreases k.len(),
{
    let s = escape_str(k) + seq!['"'] + rest;
    if k.len() == 0 {
        assert(s =~= seq!['"'] + rest);
        assert(s[0] == '"');
        assert(s.drop_first() =~= rest);
    } else {
        let c = k[0];
        let e = escape_char(c);
        lemma_str_body_round(k.drop_first(), rest);
        let tail = escape_str(k.drop_first()) + seq!['"'] + rest;
        assert(s =~= e + tail);
        if e.len() == 1 {
            assert(s[0] == c);
            assert(c != '"' && c != '\\');
            assert(s.drop_first() =~= tail);
            assert(seq![c] + k.drop_first() =~= k);
        } else {
            assert(s[0] == '\\');
            assert(s[1] == e[1]);
            assert(unescape_char(e[1]) == Some(c));
            assert(s.subrange(2, s.len() as int) =~= tail);
            assert(seq![c] + k.drop_first() =~= k);
        }
    }
}

proof fn lemma_string_round(k: Seq<char>, rest: Seq<char>)
    ensures
        parse_string(quote_str(k) + rest) == Some((k, rest)),
{
    let s = quote_str(k) + rest;
    assert(s[0] == '"');
    assert(s.drop_first() =~= escape_str(k) + seq!['"'] + rest);
    lemma_str_body_round(k, rest);
}

proof fn lemma_pair_round(e: EntryModel, rest: Seq<char>)
    ensures
        parse_pair(encode_pair(e) + rest) == Some((e, rest)),
{
    let s = encode_pair(e) + rest;
    let after_key = seq![':'] + quote_str(e.value) + rest;
    assert(s =~= quote_str(e.key) + after_key);
    lemma_string_round(e.key, after_key);
    assert(after_key[0] == ':');
    assert(after_key.drop_first() =~= quote_str(e.value) + rest);
    lemma_string_round(e.value, rest);
    assert(EntryModel { key: e.key, value: e.value } =~~= e);
}

proof fn lemma_members_round(es: Seq<EntryModel>, rest: Seq<char>)
    requires
        es.len() > 0,
        rest.len() == 0 || rest[0] != ',',
    ensures
        parse_members(encode_members(es) + rest) == Some((es, rest)),
    decreases es.len(),
{
    let s = encode_members(es) + rest;
    if es.len() == 1 {
        assert(s =~= encode_pair(es[0]) + rest);
        lemma_pair_round(es[0], rest);
        assert(seq![es[0]] =~= es);
    } else {
        let after_pair = seq![','] + encode_members(es.drop_first()) + rest;
        assert(s =~= encode_pair(es[0]) + after_pair);
        lemma_pair_round(es[0], after_pair);
        assert(after_pair[0] == ',');
        assert(after_pair.drop_first() =~= encode_members(es.drop_first()) + rest);
        lemma_members_round(es.drop_first(), rest);
        assert(seq![es[0]] + es.drop_first() =~= es);
    }
}

proof fn lemma_quote_len(k: Seq<char>)
    ensures
        quote_str(k).len() >= 2,
{
}

/// The round trip of persistence: parsing an encoded snapshot returns
/// exactly the entries that were encoded, so the mapping they denote is
/// reproduced without loss.
pub proof fn lemma_snapshot_round_trip(es: Seq<EntryModel>)
    ensures
        spec_parse_snapshot(spec_encode_snapshot(es)) == Some(es),
{
    let s = spec_encode_snapshot(es);
    assert(s[0] == '{');
    if es.len() == 0 {
        assert(encode_members(es).len() == 0);
        assert(s.len() == 2);
        assert(s[1] == '}');
        assert(Seq::<EntryModel>::empty() =~= es);
    } else {
        lemma_quote_len(es[0].key);
        assert(encode_pair(es[0]).len() >= 5);
        assert(encode_members(es).len() >= 5);
        assert(s.len() > 2);
        assert(s.skip(1) =~= encode_members(es) + seq!['}']);
        lemma_members_round(es, seq!['}']);
        assert(parse_members(s.skip(1)) == Some((es, seq!['}'])));
    }
}

proof fn lemma_escape_snoc(a: Seq<char>, c: char)
    ensures
        escape_str(a.push(c)) == escape_str(a) + escape_char(c),
    decreases a.len(),
{
    if a.len() == 0 {
        assert(a.push(c)[0] == c);
        assert(a.push(c).drop_first() =~= Seq::<char>::empty());
        assert(escape_str(a.push(c)) == escape_char(c) + escape_str(a.push(c).drop_first()));
        assert(escape_str(a.push(c).drop_first()) == Seq::<char>::empty());
        assert(escape_str(a) == Seq::<char>::empty());
        assert(escape_str(a.push(c)) =~= escape_str(a) + escape_char(c));
    } else {
        lemma_escape_snoc(a.drop_first(), c);
        assert(a.push(c)[0] == a[0]);
        assert(a.push(c).drop_first() =~= a.drop_first().push(c));
        assert(escape_str(a.push(c)) == escape_char(a[0]) + escape_str(a.drop_first().push(c)));
        assert(escape_str(a) == escape_char(a[0]) + escape_str(a.drop_first()));
        assert(escape_str(a.push(c)) =~= escape_str(a) + escape_char(c));
    }
}

proof fn lemma_members_snoc(es: Seq<EntryModel>, e: EntryModel)
    ensures
        encode_members(es.push(e)) == if es.len() == 0 {
            encode_pair(e)
        } else {
            encode_members(es) + seq![','] + encode_pair(e)
        },
    decreases es.len(),
{
    let s = es.push(e);
    if es.len() == 0 {
        assert(s[0] == e);
    } else {
        lemma_members_snoc(es.drop_last(), e);
        assert(s[0] == es[0]);
        assert(s.drop_first() =~= es.drop_first().push(e));
        lemma_members_snoc(es.drop_first(), e);
        if es.len() == 1 {
            assert(encode_members(s) =~= encode_members(es) + seq![','] + encode_pair(e));
        } else {
            assert(encode_members(s) == encode_pair(es[0]) + seq![','] + encode_members(
                es.drop_first().push(e),
            ));
            assert(encode_members(es.drop_first().push(e)) == encode_members(es.drop_first())
                + seq![','] + encode_pair(e));
            assert(encode_members(s) =~= encode_members(es) + seq![','] + encode_pair(e));
        }
    }
}

/// Appends the quoted, escaped form of the string.
fn append_quoted(out: &mut String, s: &str)
    ensures
        final (out)@ == old(out)@ + quote_str(s@),
{
    let ghost base = out@;
    out.push('"');
    let len = s.unicode_len();
    let mut i: usize = 0;
    proof {
        assert(escape_str(s@.subrange(0, 0)) =~= Seq::<char>::empty());
        assert(out@ =~= base + seq!['"'] + escape_str(s@.subrange(0, 0)));
    }
    while i < len
        invariant
            0 <= i <= len,
            len == s@.len(),
            out@ == base + seq!['"'] + escape_str(s@.subrange(0, i as int)),
        decreases len - i,
    {
        let ghost before = out@;
        let c = s.get_char(i);
        if c == '"' {
            out.push('\\');
            out.push('"');
        } else if c == '\\' {
            out.push('\\');
            out.push('\\');
        } else if c == '\n' {
            out.push('\\');
            out.push('n');
        } else if c == '\t' {
            out.push('\\');
            out.push('t');
        } else if c == '\r' {
            out.push('\\');
            out.push('r');
        } else {
            out.push(c);
        }
        proof {
            assert(out@ =~= before + escape_char(c));
            assert(s@.subrange(0, i as int).push(c) =~= s@.subrange(0, i + 1));
            lemma_escape_snoc(s@.subrange(0, i as int), c);
            assert(out@ =~= base + seq!['"'] + escape_str(s@.subrange(0, i + 1)));
        }
        i += 1;
    }
    out.push('"');
    proof {
        assert(s@.subrange(0, len as int) =~= s@);
        assert(out@ =~= base + quote_str(s@));
    }
}

/// Serializes the entries into the snapshot text.
pub fn encode_snapshot(entries: &Vec<Entry>) -> (r: String)
    ensures
        r@ == spec_encode_snapshot(entries_view(entries@)),
{
    let ghost ev = entries_view(entries@);
    let mut out = String::new();
    out.push('{');
    let n = entries.len();
    let mut i: usize = 0;
    proof {
        assert(encode_members(ev.subrange(0, 0)) =~= Seq::<char>::empty());
        assert(out@ =~= seq!['{'] + encode_members(ev.subrange(0, 0)));
    }
    while i < n
        invariant
            0 <= i <= n,
            n == entries@.len(),
            ev == entries_view(entries@),
            out@ == seq!['{'] + encode_members(ev.subrange(0, i as int)),
        decreases n - i,
    {
        let ghost before = out@;
        if i > 0 {
            out.push(',');
        }
        let e = &entries[i];
        append_quoted(&mut out, e.key.as_str());
        out.push(':');
        append_quoted(&mut out, e.value.as_str());
        proof {
            assert(ev.subrange(0, i as int).push(ev[i as int]) =~= ev.subrange(0, i + 1));
            lemma_members_snoc(ev.subrange(0, i as int), ev[i as int]);
            if i == 0 {
                assert(out@ =~= seq!['{'] + encode_members(ev.subrange(0, i + 1)));
            } else {
                assert(out@ =~= seq!['{'] + encode_members(ev.subrange(0, i + 1)));
            }
        }
        i += 1;
    }
    out.push('}');
    proof {
        assert(ev.subrange(0, n as int) =~= ev);
        assert(out@ =~= spec_encode_snapshot(ev));
    }
    out
}

/// The character an escape letter stands for, if recognized.
fn unescape(c: char) -> (r: Option<char>)
    ensures
        r == unescape_char(c),
{
    if c == '"' {
        Some('"')
    } else if c == '\\' {
        Some('\\')
    } else if c == '/' {
        Some('/')
    } else if c == 'n' {
        Some('\n')
    } else if c == 't' {
        Some('\t')
    } else if c == 'r' {
        Some('\r')
    } else if c == 'b' {
        Some('\u{8}')
    } else if c == 'f' {
        Some('\u{c}')
    } else {
        None
    }
}

fn parse_string_at(s: &str, i: usize) -> (r: Option<(String, usize)>)
    requires
        i <= s@.len() <= usize::MAX,
    ensures
        match r {
            Some((v, j)) => i < j <= s@.len() && parse_string(s@.skip(i as int)) == Some(
                (v@, s@.skip(j as int)),
            ),
            None => parse_string(s@.skip(i as int)) is None,
        },
{
    let len = s.unicode_len();
    if i >= len {
        proof {
            assert(s@.skip(i as int).len() == 0);
        }
        return None;
    }
    if s.get_char(i) != '"' {
        proof {
            assert(s@.skip(i as int)[0] == s@[i as int]);
        }
        return None;
    }
    let mut cur: usize = i + 1;
    let mut acc = String::new();
    proof {
        assert(s@.skip(i as int)[0] == '"');
        assert(s@.skip(i as int).drop_first() =~= s@.skip(i + 1));
        match parse_str_body(s@.skip(i + 1)) {
            Some((v, r)) => {
                assert(Seq::<char>::empty() + v =~= v);
            },
            None => {},
        }
    }
    loop
        invariant
            i + 1 <= cur <= len,
            len == s@.len(),
            s@.len() <= usize::MAX,
            parse_string(s@.skip(i as int)) == parse_str_body(s@.skip(i + 1)),
            match parse_str_body(s@.skip(cur as int)) {
                Some((v, r)) => parse_str_body(s@.skip(i + 1)) == Some((acc@ + v, r)),
                None => parse_str_body(s@.skip(i + 1)) is None,
            },
        decreases len - cur,
    {
        if cur >= len {
            proof {
                assert(s@.skip(cur as int).len() == 0);
            }
            return None;
        }
        let c = s.get_char(cur);
        proof {
            assert(s@.skip(cur as int)[0] == c);
            assert(s@.skip(cur as int).drop_first() =~= s@.skip(cur + 1));
        }
        if c == '"' {
            proof {
                assert(acc@ + Seq::<char>::empty() =~= acc@);
            }
            return Some((acc, cur + 1));
        }
        if c == '\\' {
            if cur + 1 >= len {
                proof {
                    assert(s@.skip(cur as int).len() < 2);
                }
                return None;
            }
            let c2 = s.get_char(cur + 1);
            proof {
                assert(s@.skip(cur as int)[1] == c2);
            }
            match unescape(c2) {
                None => {
                    return None;
                },
                Some(u) => {
                    let ghost acc0 = acc@;
                    acc.push(u);
                    proof {
                        assert(s@.skip(cur as int).subrange(
                            2,
                            s@.skip(cur as int).len() as int,
                        ) =~= s@.skip(cur + 2));
                        match parse_str_body(s@.skip(cur + 2)) {
                            Some((v, r)) => {
                                assert(acc0 + (seq![u] + v) =~= acc@ + v);
                            },
                            None => {},
                        }
                    }
                    cur = cur + 2;
                },
            }
        } else {
            let ghost acc0 = acc@;
            acc.push(c);
            proof {
                match parse_str_body(s@.skip(cur + 1)) {
                    Some((v, r)) => {
                        assert(acc0 + (seq![c] + v) =~= acc@ + v);
                    },
                    None => {},
                }
            }
            cur = cur + 1;
        }
    }
}

fn parse_pair_at(s: &str, i: usize) -> (r: Option<(Entry, usize)>)
    requires
        i <= s@.len() <= usize::MAX,
    ensures
        match r {
            Some((e, j)) => i < j <= s@.len() && parse_pair(s@.skip(i as int)) == Some(
                (e@, s@.skip(j as int)),
            ),
            None => parse_pair(s@.skip(i as int)) is None,
        },
{
    let len = s.unicode_len();
    match parse_string_at(s, i) {
        None => None,
        Some((k, j1)) => {
            if j1 >= len {
                proof {
                    assert(s@.skip(j1 as int).len() == 0);
                }
                return None;
            }
            let c = s.get_char(j1);
            proof {
                assert(s@.skip(j1 as int)[0] == c);
            }
            if c != ':' {
                return None;
            }
            proof {
                assert(s@.skip(j1 as int).drop_first() =~= s@.skip(j1 + 1));
            }
            match parse_string_at(s, j1 + 1) {
                None => None,
                Some((v, j2)) => {
                    let e = Entry { key: k, value: v };
                    proof {
                        assert(e@ =~~= EntryModel { key: e.key@, value: e.value@ });
                    }
                    Some((e, j2))
                },
            }
        },
    }
}

/// Parses the snapshot text into its entries; `None` when the text is not a
/// well-formed snapshot.
pub fn parse_snapshot(s: &str) -> (r: Option<Vec<Entry>>)
    ensures
        match r {
            Some(v) => spec_parse_snapshot(s@) == Some(entries_view(v@)),
            None => spec_parse_snapshot(s@) is None,
        },
{
    let len = s.unicode_len();
    if len < 2 {
        return None;
    }
    if s.get_char(0) != '{' {
        return None;
    }
    if len == 2 {
        if s.get_char(1) == '}' {
            let out: Vec<Entry> = Vec::new();
            proof {
                assert(entries_view(out@) =~= Seq::<EntryModel>::empty());
            }
            return Some(out);
        } else {
            proof {
                assert(s@.skip(1).len() == 1);
                assert(s@.skip(1)[0] == s@[1]);
                if s@[1] == '"' {
                    assert(s@.skip(1).drop_first().len() == 0);
                }
            }
            return None;
        }
    }
    let mut out: Vec<Entry> = Vec::new();
    let mut cur: usize = 1;
    proof {
        match parse_members(s@.skip(1)) {
            Some((es, r)) => {
                assert(entries_view(out@) + es =~= es);
            },
            None => {},
        }
    }
    loop
        invariant
            1 <= cur <= len,
            len == s@.len(),
            s@.len() <= usize::MAX,
            2 < s@.len(),
            s@[0] == '{',
            match parse_members(s@.skip(cur as int)) {
                Some((es, r)) => parse_members(s@.skip(1)) == Some((entries_view(out@) + es, r)),
                None => parse_members(s@.skip(1)) is None,
            },
        decreases len - cur,
    {
        match parse_pair_at(s, cur) {
            None => {
                return None;
            },
            Some((e, j)) => {
                let ghost out0 = entries_view(out@);
                out.push(e);
                proof {
                    crate::state::lemma_entries_view_push(out@.drop_last(), out@.last());
                    assert(out@.drop_last().push(out@.last()) =~= out@);
                    assert(entries_view(out@) == out0.push(e@));
                }
                if j < len {
                    let c = s.get_char(j);
                    proof {
                        assert(s@.skip(j as int)[0] == c);
                    }
                    if c == ',' {
                        proof {
                            assert(s@.skip(j as int).drop_first() =~= s@.skip(j + 1));
                            match parse_members(s@.skip(j + 1)) {
                                Some((es2, r2)) => {
                                    assert(out0 + (seq![e@] + es2) =~= entries_view(out@) + es2);
                                },
                                None => {},
                            }
                        }
                        cur = j + 1;
                    } else {
                        proof {
                            assert(out0 + seq![e@] =~= entries_view(out@));
                        }
                        if c == '}' {
                            if j + 1 == len {
                                proof {
                                    assert(s@.skip(j as int).len() == 1);
                                }
                                return Some(out);
                            } else {
                                proof {
                                    assert(s@.skip(j as int).len() > 1);
                                }
                                return None;
                            }
                        } else {
                            return None;
                        }
                    }
                } else {
                    proof {
                        assert(s@.skip(j as int).len() == 0);
                        assert(out0 + seq![e@] =~= entries_view(out@));
                    }
                    return None;
                }
            },
        }
    }
}

fn all_keys_nonempty(entries: &Vec<Entry>) -> (r: bool)
    ensures
        r == nonempty_keys(entries_view(entries@)),
{
    let n = entries.len();
    let mut i: usize = 0;
    while i < n
        invariant
            0 <= i <= n,
            n == entries@.len(),
            forall|j: int| 0 <= j < i ==> entries_view(entries@)[j].key.len() > 0,
        decreases n - i,
    {
        if entries[i].key.as_str().is_empty() {
            proof {
                assert(entries_view(entries@)[i as int].key.len() == 0);
            }
            return false;
        }
        i += 1;
    }
    true
}

fn keys_distinct(entries: &Vec<Entry>) -> (r: bool)
    ensures
        r == unique_keys(entries_view(entries@)),
{
    let n = entries.len();
    let mut i: usize = 0;
    while i < n
        invariant
            0 <= i <= n,
            n == entries@.len(),
            forall|a: int, b: int|
                0 <= a < b < n && a < i ==> entries_view(entries@)[a].key != entries_view(
                    entries@,
                )[b].key,
        decreases n - i,
    {
        let mut j: usize = i + 1;
        while j < n
            invariant
                0 <= i < j <= n,
                n == entries@.len(),
                forall|b: int|
                    i < b < j ==> entries_view(entries@)[i as int].key != entries_view(
                        entries@,
                    )[b].key,
            decreases n - j,
        {
            if entries[i].key == entries[j].key {
                proof {
                    assert(entries_view(entries@)[i as int].key == entries_view(
                        entries@,
                    )[j as int].key);
                }
                return false;
            }
            j += 1;
        }
        i += 1;
    }
    true
}

/// Loads a state from snapshot text: the parsed entries with an empty
/// query. The result is `None` exactly when the text is malformed or the
/// parsed entries would break the state invariant (a duplicate or empty
/// key).
pub fn load_state(text: &str) -> (r: Option<State>)
    ensures
        r matches Some(st) ==> st.wf() && st@.query == Seq::<char>::empty()
            && spec_parse_snapshot(text@) == Some(st@.entries),
        r is None ==> spec_parse_snapshot(text@) is None || (spec_parse_snapshot(text@)
            matches Some(es) && !(unique_keys(es) && nonempty_keys(es))),
{
    match parse_snapshot(text) {
        None => None,
        Some(entries) => {
            let nonempty = all_keys_nonempty(&entries);
            let distinct = keys_distinct(&entries);
            if nonempty && distinct {
                Some(State { rows_by_id: entries, query: String::new() })
            } else {
                None
            }
        },
    }
}

} // verus!
