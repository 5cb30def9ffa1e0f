//! The persistence text format of the file backend.
//!
//! A store is written as one JSON document `{"local":{"k":"v",...}}`: an
//! object with the single field `local` whose value is an object of string
//! fields, one per entry, in enumeration order. Quotes, backslashes and the
//! common control characters are backslash-escaped inside string literals.
//! `ser_doc` defines the document a store serializes to, `parse_doc` defines
//! what any text deserializes to, and `lemma_parse_doc_ser_doc` proves that
//! the two invert each other.

use vstd::prelude::*;
use vstd::string::StrSliceExecFns;
use crate::store::SpecEntry;
use crate::store::entries_view;

verus! {

/// The characters that are written as a two-character escape.
pub open spec fn is_escaped_char(c: char) -> bool {
    c == '"' || c == '\\' || c == '\n' || c == '\r' || c == '\t'
}

/// The character that follows the backslash when `c` is escaped.
pub open spec fn escape_code(c: char) -> char {
    if c == '"' {
        '"'
    } else if c == '\\' {
        '\\'
    } else if c == '\n' {
        'n'
    } else if c == '\r' {
        'r'
    } else {
        't'
    }
}

/// The character a backslash-plus-`c` escape stands for, or nothing when the
/// escape is unknown.
pub open spec fn unescape_code(c: char) -> Option<char> {
    if c == '"' {
        Some('"')
    } else if c == '\\' {
        Some('\\')
    } else if c == '/' {
        Some('/')
    } else if c == 'n' {
        Some('\n')
    } else if c == 'r' {
        Some('\r')
    } else if c == 't' {
        Some('\t')
    } else if c == 'b' {
        Some('\u{0008}')
    } else if c == 'f' {
        Some('\u{000C}')
    } else {
        None
    }
}

/// How one character is written inside a string literal.
pub open spec fn escape_char(c: char) -> Seq<char> {
    if is_escaped_char(c) {
        seq!['\\', escape_code(c)]
    } else {
        seq![c]
    }
}

/// How a whole string is written inside a string literal.
pub open spec fn escape(s: Seq<char>) -> Seq<char>
    decreases s.len(),
{
    if s.len() == 0 {
        Seq::empty()
    } else {
        escape_char(s[0]) + escape(s.drop_first())
    }
}

/// A string literal: the escaped text between double quotes.
pub open spec fn quote(s: Seq<char>) -> Seq<char> {
    seq!['"'] + escape(s) + seq!['"']
}

/// One entry: a quoted key, a colon, a quoted value.
pub open spec fn ser_entry(e: SpecEntry) -> Seq<char> {
    quote(e.0) + seq![':'] + quote(e.1)
}

/// The comma-separated entry list.
pub open spec fn ser_entries(es: Seq<SpecEntry>) -> Seq<char>
    decreases es.len(),
{
    if es.len() == 0 {
        Seq::empty()
    } else if es.len() == 1 {
        ser_entry(es[0])
    } else {
        ser_entry(es[0]) + seq![','] + ser_entries(es.drop_first())
    }
}

/// The document's head: the outer object open, the `local` field name, and
/// the colon before the inner object.
pub open spec fn doc_prefix() -> Seq<char> {
    seq!['{', '"', 'l', 'o', 'c', 'a', 'l', '"', ':']
}

/// The whole persisted document for an entry list.
pub open spec fn ser_doc(es: Seq<SpecEntry>) -> Seq<char> {
    doc_prefix() + seq!['{'] + ser_entries(es) + seq!['}'] + seq!['}']
}

/// Parses the rest of a string literal, after its opening quote: the decoded
/// characters, and the text after the closing quote.
pub open spec fn parse_string_body(s: Seq<char>) -> Option<(Seq<char>, Seq<char>)>
    decreases s.len(),
{
    if s.len() == 0 {
        None
    } else if s[0] == '"' {
        Some((Seq::empty(), s.drop_first()))
    } else if s[0] == '\\' {
        if s.len() < 2 {
            None
        } else {
            match unescape_code(s[1]) {
                Some(c) => match parse_string_body(s.skip(2)) {
                    Some(pr) => Some((seq![c] + pr.0, pr.1)),
                    None => None,
                },
                None => None,
            }
        }
    } else {
        match parse_string_body(s.drop_first()) {
            Some(pr) => Some((seq![s[0]] + pr.0, pr.1)),
            None => None,
        }
    }
}

/// Parses a whole string literal, opening quote included.
pub open spec fn parse_quoted(s: Seq<char>) -> Option<(Seq<char>, Seq<char>)> {
    if s.len() > 0 && s[0] == '"' {
        parse_string_body(s.drop_first())
    } else {
        None
    }
}

/// A successful string-body parse consumes at least the closing quote.
pub proof fn lemma_parse_string_body_shrinks(s: Seq<char>)
    ensures
        parse_string_body(s) is Some ==> parse_string_body(s).unwrap().1.len() < s.len(),
    decreases s.len(),
{
    if s.len() == 0 {
    } else if s[0] == '"' {
    } else if s[0] == '\\' {
        if s.len() >= 2 {
            lemma_parse_string_body_shrinks(s.skip(2));
        }
    } else {
        lemma_parse_string_body_shrinks(s.drop_first());
    }
}

/// A successful quoted-string parse consumes at least the two quotes.
pub proof fn lemma_parse_quoted_shrinks(s: Seq<char>)
    ensures
        parse_quoted(s) is Some ==> parse_quoted(s).unwrap().1.len() + 2 <= s.len(),
{
    if s.len() > 0 && s[0] == '"' {
        lemma_parse_string_body_shrinks(s.drop_first());
    }
}

/// Parses one or more comma-separated entries followed by the closing brace
/// of the inner object: the entries, and the text after that brace.
pub open spec fn parse_entries(s: Seq<char>) -> Option<(Seq<SpecEntry>, Seq<char>)>
    decreases s.len(),
    via parse_entries_decreases
{
    match parse_quoted(s) {
        None => None,
        Some((k, r1)) => if r1.len() == 0 || r1[0] != ':' {
            None
        } else {
            match parse_quoted(r1.drop_first()) {
                None => None,
                Some((v, r2)) => if r2.len() == 0 {
                    None
                } else if r2[0] == '}' {
                    Some((seq![(k, v)], r2.drop_first()))
                } else if r2[0] == ',' {
                    match parse_entries(r2.drop_first()) {
                        Some(pr) => Some((seq![(k, v)] + pr.0, pr.1)),
                        None => None,
                    }
                } else {
                    None
                },
            }
        },
    }
}

#[via_fn]
proof fn parse_entries_decreases(s: Seq<char>) {
    lemma_parse_quoted_shrinks(s);
    if parse_quoted(s) is Some {
        let r1 = parse_quoted(s).unwrap().1;
        if r1.len() > 0 && r1[0] == ':' {
            lemma_parse_quoted_shrinks(r1.drop_first());
        }
    }
}

/// Parses a whole document. Anything but the exact shape that `ser_doc`
/// writes — for some entry list — is rejected.
pub open spec fn parse_doc(s: Seq<char>) -> Option<Seq<SpecEntry>> {
    let pre = doc_prefix().push('{');
    if s.len() <= pre.len() {
        None
    } else if s.take(pre.len() as int) != pre {
        None
    } else {
        let rest = s.skip(pre.len() as int);
        if rest == seq!['}', '}'] {
            Some(Seq::empty())
        } else {
            match parse_entries(rest) {
                Some((es, tail)) => if tail == seq!['}'] {
                    Some(es)
                } else {
                    None
                },
                None => None,
            }
        }
    }
}

/// Escaping distributes over concatenation.
pub proof fn lemma_escape_concat(a: Seq<char>, b: Seq<char>)
    ensures
        escape(a + b) == escape(a) + escape(b),
    decreases a.len(),
{
    if a.len() == 0 {
        assert(a + b =~= b);
        assert(escape(a) + escape(b) =~= escape(b));
    } else {
        lemma_escape_concat(a.drop_first(), b);
        assert((a + b).drop_first() =~= a.drop_first() + b);
        assert((a + b)[0] == a[0]);
        assert(escape(a + b) =~= escape(a) + escape(b));
    }
}

/// Appending one character appends its escape.
pub proof fn lemma_escape_snoc(s: Seq<char>, c: char)
    ensures
        escape(s.push(c)) == escape(s) + escape_char(c),
{
    lemma_escape_concat(s, seq![c]);
    assert(s.push(c) =~= s + seq![c]);
    assert(seq![c].drop_first() =~= Seq::<char>::empty());
    assert(escape(seq![c]) == escape_char(c) + escape(Seq::<char>::empty()));
    assert(escape_char(c) + Seq::<char>::empty() =~= escape_char(c));
}

/// Parsing a string body undoes escaping: the text after the escaped
/// characters and the closing quote is handed back untouched.
pub proof fn lemma_parse_escape(s: Seq<char>, rest: Seq<char>)
    ensures
        parse_string_body(escape(s) + seq!['"'] + rest) == Some((s, rest)),
    decreases s.len(),
{
    let t = escape(s) + seq!['"'] + rest;
    if s.len() == 0 {
        assert(t =~= seq!['"'] + rest);
        assert(t[0] == '"');
        assert(t.drop_first() =~= rest);
        assert(Seq::<char>::empty() =~= s);
    } else {
        let c = s[0];
        let s1 = s.drop_first();
        lemma_parse_escape(s1, rest);
        if is_escaped_char(c) {
            assert(t =~= seq!['\\', escape_code(c)] + (escape(s1) + seq!['"'] + rest));
            assert(t[0] == '\\');
            assert(t[1] == escape_code(c));
            assert(unescape_code(escape_code(c)) == Some(c));
            assert(t.skip(2) =~= escape(s1) + seq!['"'] + rest);
            assert(parse_string_body(t) == Some((seq![c] + s1, rest)));
            assert(seq![c] + s1 =~= s);
        } else {
            assert(t =~= seq![c] + (escape(s1) + seq!['"'] + rest));
            assert(t[0] == c);
            assert(c != '"' && c != '\\');
            assert(t.drop_first() =~= escape(s1) + seq!['"'] + rest);
            assert(parse_string_body(t) == Some((seq![c] + s1, rest)));
            assert(seq![c] + s1 =~= s);
        }
    }
}

/// Parsing a quoted string undoes quoting.
pub proof fn lemma_parse_quoted_quote(s: Seq<char>, rest: Seq<char>)
    ensures
        parse_quoted(quote(s) + rest) == Some((s, rest)),
{
    let t = quote(s) + rest;
    assert(t =~= seq!['"'] + (escape(s) + seq!['"'] + rest));
    assert(t[0] == '"');
    assert(t.drop_first() =~= escape(s) + seq!['"'] + rest);
    lemma_parse_escape(s, rest);
}

/// A non-empty serialized entry list starts with a quote and is non-trivial.
proof fn lemma_ser_entries_first(es: Seq<SpecEntry>)
    requires
        es.len() >= 1,
    ensures
        ser_entries(es).len() >= 2,
        ser_entries(es)[0] == '"',
{
    let head = ser_entry(es[0]);
    assert(head =~= (seq!['"'] + escape(es[0].0) + seq!['"']) + seq![':'] + quote(es[0].1));
    assert(head[0] == '"');
    assert(head.len() >= 2);
    if es.len() == 1 {
        assert(ser_entries(es) == head);
    } else {
        assert(ser_entries(es) == head + seq![','] + ser_entries(es.drop_first()));
        assert(ser_entries(es)[0] == head[0]);
    }
}

/// Parsing an entry list undoes serializing one: the text after the inner
/// object's closing brace is handed back untouched.
pub proof fn lemma_parse_entries_ser(es: Seq<SpecEntry>, rest: Seq<char>)
    requires
        es.len() >= 1,
    ensures
        parse_entries(ser_entries(es) + seq!['}'] + rest) == Some((es, rest)),
    decreases es.len(),
{
    let e0 = es[0];
    let t = ser_entries(es) + seq!['}'] + rest;
    if es.len() == 1 {
        let r1 = seq![':'] + quote(e0.1) + seq!['}'] + rest;
        assert(t =~= quote(e0.0) + r1);
        lemma_parse_quoted_quote(e0.0, r1);
        assert(r1[0] == ':');
        let r2 = seq!['}'] + rest;
        assert(r1.drop_first() =~= quote(e0.1) + r2);
        lemma_parse_quoted_quote(e0.1, r2);
        assert(r2[0] == '}');
        assert(r2.drop_first() =~= rest);
        assert(parse_entries(t) == Some((seq![(e0.0, e0.1)], rest)));
        assert(seq![(e0.0, e0.1)] =~= es);
    } else {
        let es1 = es.drop_first();
        let r1 = seq![':'] + quote(e0.1) + seq![','] + ser_entries(es1) + seq!['}'] + rest;
        assert(t =~= quote(e0.0) + r1);
        lemma_parse_quoted_quote(e0.0, r1);
        assert(r1[0] == ':');
        let r2 = seq![','] + ser_entries(es1) + seq!['}'] + rest;
        assert(r1.drop_first() =~= quote(e0.1) + r2);
        lemma_parse_quoted_quote(e0.1, r2);
        assert(r2[0] == ',');
        assert(r2.drop_first() =~= ser_entries(es1) + seq!['}'] + rest);
        lemma_parse_entries_ser(es1, rest);
        assert(parse_entries(t) == Some((seq![(e0.0, e0.1)] + es1, rest)));
        assert(seq![(e0.0, e0.1)] + es1 =~= es);
    }
}

/// Deserializing inverts serializing: the document written for an entry list
/// parses back to exactly that list.
pub proof fn lemma_parse_doc_ser_doc(es: Seq<SpecEntry>)
    ensures
        parse_doc(ser_doc(es)) == Some(es),
{
    let pre = doc_prefix().push('{');
    let s = ser_doc(es);
    assert(s =~= pre + (ser_entries(es) + seq!['}', '}']));
    assert(s.take(pre.len() as int) =~= pre);
    let rest = s.skip(pre.len() as int);
    assert(rest =~= ser_entries(es) + seq!['}', '}']);
    if es.len() == 0 {
        assert(rest =~= seq!['}', '}']);
    } else {
        lemma_ser_entries_first(es);
        assert(rest[0] == '"');
        assert(rest != seq!['}', '}']);
        assert(rest =~= ser_entries(es) + seq!['}'] + seq!['}']);
        lemma_parse_entries_ser(es, seq!['}']);
        assert(parse_entries(rest) == Some((es, seq!['}'])));
    }
}

/// Appending an entry to the list appends a comma (when one is needed) and
/// the entry's text.
pub proof fn lemma_ser_entries_snoc(es: Seq<SpecEntry>, e: SpecEntry)
    ensures
        ser_entries(es.push(e)) == if es.len() == 0 {
            ser_entry(e)
        } else {
            ser_entries(es) + seq![','] + ser_entry(e)
        },
    decreases es.len(),
{
    let p = es.push(e);
    if es.len() == 0 {
        assert(p[0] == e);
    } else if es.len() == 1 {
        assert(p[0] == es[0]);
        assert(p.drop_first() =~= seq![e]);
        assert(ser_entries(seq![e]) == ser_entry(e));
        assert(ser_entries(es) == ser_entry(es[0]));
    } else {
        lemma_ser_entries_snoc(es.drop_first(), e);
        assert(p.drop_first() =~= es.drop_first().push(e));
        assert(p[0] == es[0]);
        assert(ser_entries(es.push(e)) =~= ser_entries(es) + seq![','] + ser_entry(e));
    }
}

/// The characters of a string, one by one.
fn chars_of(s: &str) -> (r: Vec<char>)
    ensures
        r@ == s@,
{
    let n = s.unicode_len();
    let mut r: Vec<char> = Vec::new();
    let mut i: usize = 0;
    while i < n
        invariant
            n == s@.len(),
            i <= n,
            r@ == s@.take(i as int),
        decreases n - i,
    {
        let c = s.get_char(i);
        r.push(c);
        proof {
            assert(r@ =~= s@.take(i as int + 1));
        }
        i += 1;
    }
    proof {
        assert(s@.take(n as int) =~= s@);
    }
    r
}

/// Relies on `String: FromIterator<&char>`: collecting the vector's
/// characters yields the string of exactly those characters, in order.
#[verifier::external_body]
fn string_of(cs: &Vec<char>) -> (r: String)
    ensures
        r@ == cs@,
{
    cs.iter().collect()
}

/// Appends a string literal — quotes and escapes included — to the output.
fn push_quoted(out: &mut Vec<char>, s: &str)
    ensures
        final(out)@ == old(out)@ + quote(s@),
{
    let cs = chars_of(s);
    out.push('"');
    let n = cs.len();
    let mut i: usize = 0;
    while i < n
        invariant
            n == cs@.len(),
            cs@ == s@,
            i <= n,
            out@ == old(out)@ + seq!['"'] + escape(s@.take(i as int)),
        decreases n - i,
    {
        let c = cs[i];
        if c == '"' {
            out.push('\\');
            out.push('"');
        } else if c == '\\' {
            out.push('\\');
            out.push('\\');
        } else if c == '\n' {
            out.push('\\');
            out.push('n');
        } else if c == '\r' {
            out.push('\\');
            out.push('r');
        } else if c == '\t' {
            out.push('\\');
            out.push('t');
        } else {
            out.push(c);
        }
        proof {
            lemma_escape_snoc(s@.take(i as int), s@[i as int]);
            assert(s@.take(i as int).push(s@[i as int]) =~= s@.take(i as int + 1));
            assert(out@ =~= old(out)@ + seq!['"'] + escape(s@.take(i as int + 1)));
        }
        i += 1;
    }
    out.push('"');
    proof {
        assert(s@.take(n as int) =~= s@);
        assert(out@ =~= old(out)@ + quote(s@));
    }
}

/// The persisted document for a list of owned entries.
pub(crate) fn ser_doc_text(entries: &Vec<(String, String)>) -> (r: String)
    ensures
        r@ == ser_doc(entries_view(entries@)),
{
    let ev = Ghost(entries_view(entries@));
    let mut out: Vec<char> = Vec::new();
    out.push('{');
    out.push('"');
    out.push('l');
    out.push('o');
    out.push('c');
    out.push('a');
    out.push('l');
    out.push('"');
    out.push(':');
    out.push('{');
    proof {
        assert(out@ =~= doc_prefix() + seq!['{']);
        assert(ser_entries(ev@.take(0)) =~= Seq::<char>::empty());
        assert(out@ =~= doc_prefix() + seq!['{'] + ser_entries(ev@.take(0)));
    }
    let n = entries.len();
    let mut i: usize = 0;
    while i < n
        invariant
            n == entries@.len(),
            ev@ == entries_view(entries@),
            i <= n,
            out@ == doc_prefix() + seq!['{'] + ser_entries(ev@.take(i as int)),
        decreases n - i,
    {
        if i > 0 {
            out.push(',');
        }
        let ghost mid = out@;
        push_quoted(&mut out, entries[i].0.as_str());
        out.push(':');
        push_quoted(&mut out, entries[i].1.as_str());
        proof {
            let e = ev@[i as int];
            assert(e == (entries@[i as int].0@, entries@[i as int].1@));
            assert(out@ =~= mid + ser_entry(e));
            lemma_ser_entries_snoc(ev@.take(i as int), e);
            assert(ev@.take(i as int).push(e) =~= ev@.take(i as int + 1));
            assert(out@ =~= doc_prefix() + seq!['{'] + ser_entries(ev@.take(i as int + 1)));
        }
        i += 1;
    }
    out.push('}');
    out.push('}');
    proof {
        assert(ev@.take(n as int) =~= ev@);
        assert(out@ =~= ser_doc(entries_view(entries@)));
    }
    string_of(&out)
}

/// A partially decoded string-body parse: the characters decoded so far go in
/// front of whatever the rest decodes to.
pub open spec fn prepend_chars(
    prefix: Seq<char>,
    r: Option<(Seq<char>, Seq<char>)>,
) -> Option<(Seq<char>, Seq<char>)> {
    match r {
        Some(pr) => Some((prefix + pr.0, pr.1)),
        None => None,
    }
}

/// A partially decoded entry-list parse: the entries decoded so far go in
/// front of whatever the rest decodes to.
pub open spec fn prepend_entries(
    prefix: Seq<SpecEntry>,
    r: Option<(Seq<SpecEntry>, Seq<char>)>,
) -> Option<(Seq<SpecEntry>, Seq<char>)> {
    match r {
        Some(pr) => Some((prefix + pr.0, pr.1)),
        None => None,
    }
}

/// The character an escape stands for, if it is a known one.
fn unescape_code_exec(c: char) -> (r: Option<char>)
    ensures
        r == unescape_code(c),
{
    if c == '"' {
        Some('"')
    } else if c == '\\' {
        Some('\\')
    } else if c == '/' {
        Some('/')
    } else if c == 'n' {
        Some('\n')
    } else if c == 'r' {
        Some('\r')
    } else if c == 't' {
        Some('\t')
    } else if c == 'b' {
        Some('\u{0008}')
    } else if c == 'f' {
        Some('\u{000C}')
    } else {
        None
    }
}

/// Decodes a string body beginning at `start` (just past the opening quote):
/// the decoded characters and the position just past the closing quote.
fn parse_string_body_exec(cs: &Vec<char>, start: usize) -> (r: Option<(Vec<char>, usize)>)
    requires
        start <= cs@.len(),
    ensures
        match r {
            Some(pr) => start < pr.1 <= cs@.len() && parse_string_body(cs@.skip(start as int))
                == Some((pr.0@, cs@.skip(pr.1 as int))),
            None => parse_string_body(cs@.skip(start as int)) is None,
        },
{
    let mut acc: Vec<char> = Vec::new();
    let mut i: usize = start;
    proof {
        assert(prepend_chars(acc@, parse_string_body(cs@.skip(start as int)))
            == parse_string_body(cs@.skip(start as int))) by {
            if parse_string_body(cs@.skip(start as int)) is Some {
                let pr = parse_string_body(cs@.skip(start as int)).unwrap();
                assert(acc@ + pr.0 =~= pr.0);
            }
        }
    }
    loop
        invariant
            start <= i <= cs@.len(),
            parse_string_body(cs@.skip(start as int)) == prepend_chars(
                acc@,
                parse_string_body(cs@.skip(i as int)),
            ),
        decreases cs@.len() - i,
    {
        if i == cs.len() {
            proof {
                assert(cs@.skip(i as int) =~= Seq::<char>::empty());
            }
            return None;
        }
        let c = cs[i];
        proof {
            assert(cs@.skip(i as int)[0] == c);
        }
        if c == '"' {
            proof {
                assert(cs@.skip(i as int).drop_first() =~= cs@.skip(i as int + 1));
                assert(acc@ + Seq::<char>::empty() =~= acc@);
            }
            return Some((acc, i + 1));
        } else if c == '\\' {
            if i + 1 == cs.len() {
                return None;
            }
            let c2 = cs[i + 1];
            proof {
                assert(cs@.skip(i as int)[1] == c2);
            }
            match unescape_code_exec(c2) {
                None => {
                    return None;
                },
                Some(u) => {
                    let ghost acc_old = acc@;
                    acc.push(u);
                    proof {
                        assert(cs@.skip(i as int).skip(2) =~= cs@.skip(i as int + 2));
                        let r2 = parse_string_body(cs@.skip(i as int + 2));
                        if r2 is Some {
                            let pr = r2.unwrap();
                            assert(acc_old + (seq![u] + pr.0) =~= acc@ + pr.0);
                        }
                    }
                    i = i + 2;
                },
            }
        } else {
            let ghost acc_old = acc@;
            acc.push(c);
            proof {
                assert(cs@.skip(i as int).drop_first() =~= cs@.skip(i as int + 1));
                let r2 = parse_string_body(cs@.skip(i as int + 1));
                if r2 is Some {
                    let pr = r2.unwrap();
                    assert(acc_old + (seq![c] + pr.0) =~= acc@ + pr.0);
                }
            }
            i = i + 1;
        }
    }
}

/// Decodes a whole string literal beginning at `start`: the decoded
/// characters and the position just past the closing quote.
fn parse_quoted_exec(cs: &Vec<char>, start: usize) -> (r: Option<(Vec<char>, usize)>)
    requires
        start <= cs@.len(),
    ensures
        match r {
            Some(pr) => start + 2 <= pr.1 <= cs@.len() && parse_quoted(cs@.skip(start as int))
                == Some((pr.0@, cs@.skip(pr.1 as int))),
            None => parse_quoted(cs@.skip(start as int)) is None,
        },
{
    if start == cs.len() {
        proof {
            assert(cs@.skip(start as int).len() == 0);
        }
        return None;
    }
    let c = cs[start];
    proof {
        assert(cs@.skip(start as int)[0] == c);
    }
    if c != '"' {
        return None;
    }
    proof {
        assert(cs@.skip(start as int).drop_first() =~= cs@.skip(start as int + 1));
    }
    parse_string_body_exec(cs, start + 1)
}

/// Decodes entries from `start` through the inner object's closing brace:
/// the owned entries and the position just past that brace.
fn parse_entries_exec(cs: &Vec<char>, start: usize) -> (r: Option<(Vec<(String, String)>, usize)>)
    requires
        start <= cs@.len(),
    ensures
        match r {
            Some(pr) => pr.1 <= cs@.len() && parse_entries(cs@.skip(start as int))
                == Some((entries_view(pr.0@), cs@.skip(pr.1 as int))),
            None => parse_entries(cs@.skip(start as int)) is None,
        },
{
    let mut acc: Vec<(String, String)> = Vec::new();
    let mut i: usize = start;
    proof {
        assert(prepend_entries(entries_view(acc@), parse_entries(cs@.skip(start as int)))
            == parse_entries(cs@.skip(start as int))) by {
            assert(entries_view(acc@) =~= Seq::<SpecEntry>::empty());
            if parse_entries(cs@.skip(start as int)) is Some {
                let pr = parse_entries(cs@.skip(start as int)).unwrap();
                assert(entries_view(acc@) + pr.0 =~= pr.0);
            }
        }
    }
    loop
        invariant
            start <= i <= cs@.len(),
            parse_entries(cs@.skip(start as int)) == prepend_entries(
                entries_view(acc@),
                parse_entries(cs@.skip(i as int)),
            ),
        decreases cs@.len() - i,
    {
        let kr = parse_quoted_exec(cs, i);
        match kr {
            None => {
                return None;
            },
            Some((kcs, j)) => {
                if j == cs.len() {
                    proof {
                        assert(cs@.skip(j as int).len() == 0);
                    }
                    return None;
                }
                let sep = cs[j];
                proof {
                    assert(cs@.skip(j as int)[0] == sep);
                }
                if sep != ':' {
                    return None;
                }
                proof {
                    assert(cs@.skip(j as int).drop_first() =~= cs@.skip(j as int + 1));
                }
                match parse_quoted_exec(cs, j + 1) {
                    None => {
                        return None;
                    },
                    Some((vcs, m)) => {
                        if m == cs.len() {
                            proof {
                                assert(cs@.skip(m as int).len() == 0);
                            }
                            return None;
                        }
                        let stop = cs[m];
                        proof {
                            assert(cs@.skip(m as int)[0] == stop);
                        }
                        if stop == '}' {
                            let key = string_of(&kcs);
                            let val = string_of(&vcs);
                            let ghost acc_old = acc@;
                            acc.push((key, val));
                            proof {
                                assert(cs@.skip(m as int).drop_first() =~= cs@.skip(m as int + 1));
                                assert(parse_entries(cs@.skip(i as int)) == Some((
                                    seq![(kcs@, vcs@)],
                                    cs@.skip(m as int + 1),
                                )));
                                assert(entries_view(acc@) =~= entries_view(acc_old)
                                    + seq![(kcs@, vcs@)]);
                            }
                            return Some((acc, m + 1));
                        } else if stop == ',' {
                            let key = string_of(&kcs);
                            let val = string_of(&vcs);
                            let ghost acc_old = acc@;
                            acc.push((key, val));
                            proof {
                                assert(cs@.skip(m as int).drop_first() =~= cs@.skip(m as int + 1));
                                assert(entries_view(acc@) =~= entries_view(acc_old)
                                    + seq![(kcs@, vcs@)]);
                                let r2 = parse_entries(cs@.skip(m as int + 1));
                                assert(parse_entries(cs@.skip(i as int)) == prepend_entries(
                                    seq![(kcs@, vcs@)],
                                    r2,
                                ));
                                if r2 is Some {
                                    let pr = r2.unwrap();
                                    assert(entries_view(acc_old) + (seq![(kcs@, vcs@)] + pr.0)
                                        =~= entries_view(acc@) + pr.0);
                                }
                            }
                            i = m + 1;
                        } else {
                            return None;
                        }
                    },
                }
            },
        }
    }
}

/// Whether the text opens with the outer object, the `local` field name, and
/// the inner object's opening brace.
fn has_doc_prefix(cs: &Vec<char>) -> (r: bool)
    requires
        cs@.len() >= 10,
    ensures
        r == (cs@.take(10) == doc_prefix().push('{')),
{
    let r = cs[0] == '{' && cs[1] == '"' && cs[2] == 'l' && cs[3] == 'o' && cs[4] == 'c'
        && cs[5] == 'a' && cs[6] == 'l' && cs[7] == '"' && cs[8] == ':' && cs[9] == '{';
    proof {
        let pre = doc_prefix().push('{');
        if r {
            assert(cs@.take(10) =~= pre);
        } else {
            if cs@.take(10) == pre {
                assert(forall|k: int| 0 <= k < 10 ==> cs@[k] == #[trigger] cs@.take(10)[k]);
                assert(pre[0] == '{' && pre[1] == '"' && pre[2] == 'l' && pre[3] == 'o'
                    && pre[4] == 'c' && pre[5] == 'a' && pre[6] == 'l' && pre[7] == '"'
                    && pre[8] == ':' && pre[9] == '{') by {
                    assert(pre =~= seq!['{', '"', 'l', 'o', 'c', 'a', 'l', '"', ':', '{']);
                }
                assert(cs@[0] == '{' && cs@[1] == '"' && cs@[2] == 'l' && cs@[3] == 'o'
                    && cs@[4] == 'c' && cs@[5] == 'a' && cs@[6] == 'l' && cs@[7] == '"'
                    && cs@[8] == ':' && cs@[9] == '{');
            }
        }
    }
    r
}

/// Deserializes a whole document into owned entries, in the order written;
/// nothing but the exact document shape is accepted.
pub(crate) fn parse_doc_text(text: &str) -> (r: Option<Vec<(String, String)>>)
    ensures
        match r {
            Some(es) => parse_doc(text@) == Some(entries_view(es@)),
            None => parse_doc(text@) is None,
        },
{
    let cs = chars_of(text);
    let n = cs.len();
    if n <= 10 {
        return None;
    }
    if !has_doc_prefix(&cs) {
        return None;
    }
    let c10 = cs[10];
    proof {
        assert(cs@.skip(10)[0] == c10);
    }
    if c10 == '}' {
        if n == 12 && cs[11] == '}' {
            proof {
                assert(cs@.skip(10) =~= seq!['}', '}']);
            }
            let empty: Vec<(String, String)> = Vec::new();
            proof {
                assert(entries_view(empty@) =~= Seq::<SpecEntry>::empty());
            }
            return Some(empty);
        } else {
            proof {
                if cs@.skip(10) == seq!['}', '}'] {
                    assert(cs@.skip(10).len() == 2);
                    assert(cs@.skip(10)[1] == cs@[11]);
                }
                assert(parse_quoted(cs@.skip(10)) is None);
            }
            return None;
        }
    }
    proof {
        if cs@.skip(10) == seq!['}', '}'] {
            assert(cs@.skip(10)[0] == '}');
        }
    }
    match parse_entries_exec(&cs, 10) {
        None => None,
        Some((es, end)) => {
            if end == n - 1 && cs[end] == '}' {
                proof {
                    assert(cs@.skip(end as int) =~= seq!['}']);
                }
                Some(es)
            } else {
                proof {
                    if cs@.skip(end as int) == seq!['}'] {
                        assert(cs@.skip(end as int).len() == 1);
                        assert(cs@.skip(end as int)[0] == cs@[end as int]);
                    }
                }
                None
            }
        },
    }
}

} // verus!
