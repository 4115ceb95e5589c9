use vstd::prelude::*;

use crate::item::{link_model, links_view, LinkItem, LinkModel};

verus! {

// ---------------------------------------------------------------------
// The storage text form: a bracketed list of brace-delimited records,
// each holding the three fields as quoted strings with `\"` and `\\`
// escapes.  Writing is exact; reading skips blanks between tokens and
// treats anything malformed as an absent store.
// ---------------------------------------------------------------------
/// The escape of one character inside a quoted string.
pub open spec fn escape_char(c: char) -> Seq<char> {
    if c == '"' {
        seq!['\\', '"']
    } else if c == '\\' {
        seq!['\\', '\\']
    } else {
        seq![c]
    }
}

/// The escape of a whole string body.
pub open spec fn spec_escape(s: Seq<char>) -> Seq<char>
    decreases s.len(),
{
    if s.len() == 0 {
        Seq::empty()
    } else {
        escape_char(s[0]) + spec_escape(s.drop_first())
    }
}

/// A string body between its two quotes.
pub open spec fn spec_quoted(s: Seq<char>) -> Seq<char> {
    seq!['"'] + spec_escape(s) + seq!['"']
}

/// The text form of one record.
pub open spec fn spec_encode_item(m: LinkModel) -> Seq<char> {
    seq!['{'] + spec_quoted("id"@) + seq![':'] + spec_quoted(m.id) + seq![','] + spec_quoted(
        "name"@,
    ) + seq![':'] + spec_quoted(m.name) + seq![','] + spec_quoted("url"@) + seq![':'] + spec_quoted(
        m.url,
    ) + seq!['}']
}

/// The text of every record after the first, each behind its comma.
pub open spec fn spec_encode_tail(ms: Seq<LinkModel>) -> Seq<char>
    decreases ms.len(),
{
    if ms.len() == 0 {
        Seq::empty()
    } else {
        seq![','] + spec_encode_item(ms[0]) + spec_encode_tail(ms.drop_first())
    }
}

/// The full text form of a collection.
pub open spec fn spec_encode_links(ms: Seq<LinkModel>) -> Seq<char> {
    if ms.len() == 0 {
        seq!['[', ']']
    } else {
        seq!['['] + spec_encode_item(ms[0]) + spec_encode_tail(ms.drop_first()) + seq![']']
    }
}

/// Relies on `String::push`: appends the given character at the end.
#[verifier::external_body]
fn push_char(out: &mut String, c: char)
    ensures
        final(out)@ == old(out)@.push(c),
{
    out.push(c);
}

/// Escaping one more character extends the escaped text.
proof fn lemma_escape_push(s: Seq<char>, c: char)
    ensures
        spec_escape(s.push(c)) == spec_escape(s) + escape_char(c),
    decreases s.len(),
{
    assert(s.push(c)[0] == if s.len() == 0 { c } else { s[0] });
    if s.len() == 0 {
        assert(s.push(c).drop_first() =~~= Seq::<char>::empty());
        assert(spec_escape(Seq::<char>::empty()) == Seq::<char>::empty());
        assert(spec_escape(s.push(c)) =~~= spec_escape(s) + escape_char(c));
    } else {
        assert(s.push(c).drop_first() =~~= s.drop_first().push(c));
        lemma_escape_push(s.drop_first(), c);
        assert(spec_escape(s.push(c)) =~~= spec_escape(s) + escape_char(c));
    }
}

/// Appends the escape of `s` to `out`.
fn escape_into(out: &mut String, s: &str)
    ensures
        final(out)@ == old(out)@ + spec_escape(s@),
{
    let n = s.unicode_len();
    proof {
        assert(out@ =~~= old(out)@ + spec_escape(s@.take(0)));
    }
    let mut i: usize = 0;
    while i < n
        invariant
            i <= s@.len(),
            n == s@.len(),
            out@ == old(out)@ + spec_escape(s@.take(i as int)),
        decreases s@.len() - i,
    {
        let c = s.get_char(i);
        if c == '"' {
            push_char(out, '\\');
            push_char(out, '"');
        } else if c == '\\' {
            push_char(out, '\\');
            push_char(out, '\\');
        } else {
            push_char(out, c);
        }
        proof {
            lemma_escape_push(s@.take(i as int), s@[i as int]);
            assert(s@.take(i + 1) =~~= s@.take(i as int).push(s@[i as int]));
            assert(out@ =~~= old(out)@ + spec_escape(s@.take(i + 1)));
        }
        i = i + 1;
    }
    proof {
        assert(s@.take(s@.len() as int) =~~= s@);
    }
}

/// Appends `s` as a quoted, escaped string to `out`.
fn quote_into(out: &mut String, s: &str)
    ensures
        final(out)@ == old(out)@ + spec_quoted(s@),
{
    push_char(out, '"');
    escape_into(out, s);
    push_char(out, '"');
    proof {
        assert(out@ =~~= old(out)@ + spec_quoted(s@));
    }
}

/// Appends the text form of one record to `out`.
fn encode_item_into(out: &mut String, item: &LinkItem)
    ensures
        final(out)@ == old(out)@ + spec_encode_item(item@),
{
    push_char(out, '{');
    quote_into(out, "id");
    push_char(out, ':');
    quote_into(out, item.id.as_str());
    push_char(out, ',');
    quote_into(out, "name");
    push_char(out, ':');
    quote_into(out, item.name.as_str());
    push_char(out, ',');
    quote_into(out, "url");
    push_char(out, ':');
    quote_into(out, item.url.as_str());
    push_char(out, '}');
    proof {
        assert(out@ =~~= old(out)@ + spec_encode_item(item@));
    }
}

/// One more record extends the tail text behind a comma.
proof fn lemma_encode_tail_push(ms: Seq<LinkModel>, m: LinkModel)
    ensures
        spec_encode_tail(ms.push(m)) == spec_encode_tail(ms) + seq![','] + spec_encode_item(m),
    decreases ms.len(),
{
    if ms.len() == 0 {
        assert(ms.push(m)[0] == m);
        assert(ms.push(m).drop_first() =~~= Seq::<LinkModel>::empty());
        assert(spec_encode_tail(Seq::<LinkModel>::empty()) == Seq::<char>::empty());
        assert(spec_encode_tail(ms.push(m)) =~~= spec_encode_tail(ms) + seq![',']
            + spec_encode_item(m));
    } else {
        assert(ms.push(m)[0] == ms[0]);
        assert(ms.push(m).drop_first() =~~= ms.drop_first().push(m));
        lemma_encode_tail_push(ms.drop_first(), m);
        assert(spec_encode_tail(ms.push(m)) =~~= spec_encode_tail(ms) + seq![',']
            + spec_encode_item(m));
    }
}

/// Serializes the collection to its storage text, preserving order and
/// every field exactly.
pub fn links_to_storage_text(links: &Vec<LinkItem>) -> (r: String)
    ensures
        r@ == spec_encode_links(links_view(links@)),
{
    let ghost s = links_view(links@);
    let mut out = String::new();
    push_char(&mut out, '[');
    let mut i: usize = 0;
    while i < links.len()
        invariant
            i <= links@.len(),
            s == links_view(links@),
            i == 0 ==> out@ == seq!['['],
            i > 0 ==> out@ == seq!['['] + spec_encode_item(s[0]) + spec_encode_tail(
                s.take(i as int).drop_first(),
            ),
        decreases links@.len() - i,
    {
        if i > 0 {
            push_char(&mut out, ',');
        }
        encode_item_into(&mut out, &links[i]);
        proof {
            assert(links@[i as int]@ == s[i as int]);
            if i == 0 {
                assert(s.take(1).drop_first() =~~= Seq::<LinkModel>::empty());
                assert(out@ =~~= seq!['['] + spec_encode_item(s[0]) + spec_encode_tail(
                    s.take(1).drop_first(),
                ));
            } else {
                let t = s.take(i as int).drop_first();
                lemma_encode_tail_push(t, s[i as int]);
                assert(s.take(i + 1).drop_first() =~~= t.push(s[i as int]));
                assert(out@ =~~= seq!['['] + spec_encode_item(s[0]) + spec_encode_tail(
                    s.take(i + 1).drop_first(),
                ));
            }
        }
        i = i + 1;
    }
    push_char(&mut out, ']');
    proof {
        if links@.len() == 0 {
            assert(out@ =~~= spec_encode_links(s));
        } else {
            assert(s.take(s.len() as int) =~~= s);
            assert(s.take(s.len() as int).drop_first() =~~= s.drop_first());
            assert(out@ =~~= spec_encode_links(s));
        }
    }
    out
}

} // verus!

verus! {

// ---------------------------------------------------------------------
// Reading the storage text back.  Each spec function consumes from a
// character position and yields the parsed value with the position
// after it, or nothing when the text is malformed there.
// ---------------------------------------------------------------------
/// A blank character the reader steps over between tokens.
pub open spec fn is_blank(c: char) -> bool {
    c == ' ' || c == '\n' || c == '\r' || c == '\t'
}

/// First position at or after `i` that does not hold a blank.
pub open spec fn spec_skip_blanks(s: Seq<char>, i: int) -> int
    decreases s.len() - i,
{
    if 0 <= i < s.len() && is_blank(s[i]) {
        spec_skip_blanks(s, i + 1)
    } else {
        i
    }
}

/// Steps over blanks and then consumes the single character `c`.
pub open spec fn spec_expect(s: Seq<char>, i: int, c: char) -> Option<int> {
    let j = spec_skip_blanks(s, i);
    if 0 <= j < s.len() && s[j] == c {
        Some(j + 1)
    } else {
        None
    }
}

/// Consumes a string body up to and including its closing quote,
/// undoing the `\"` and `\\` escapes.
pub open spec fn spec_parse_str_body(s: Seq<char>, i: int) -> Option<(Seq<char>, int)>
    decreases s.len() - i,
{
    if !(0 <= i < s.len()) {
        None
    } else if s[i] == '"' {
        Some((Seq::empty(), i + 1))
    } else if s[i] == '\\' {
        if i + 1 < s.len() && (s[i + 1] == '"' || s[i + 1] == '\\') {
            match spec_parse_str_body(s, i + 2) {
                Some(p) => Some((seq![s[i + 1]] + p.0, p.1)),
                None => None,
            }
        } else {
            None
        }
    } else {
        match spec_parse_str_body(s, i + 1) {
            Some(p) => Some((seq![s[i]] + p.0, p.1)),
            None => None,
        }
    }
}

/// Consumes a whole quoted string, blanks before it included.
pub open spec fn spec_parse_quoted(s: Seq<char>, i: int) -> Option<(Seq<char>, int)> {
    match spec_expect(s, i, '"') {
        Some(j) => spec_parse_str_body(s, j),
        None => None,
    }
}

/// Consumes one `"key": "value"` pair whose key must equal `key`.
pub open spec fn spec_parse_field(s: Seq<char>, i: int, key: Seq<char>) -> Option<(Seq<char>, int)> {
    match spec_parse_quoted(s, i) {
        Some(kp) => if kp.0 == key {
            match spec_expect(s, kp.1, ':') {
                Some(j) => spec_parse_quoted(s, j),
                None => None,
            }
        } else {
            None
        },
        None => None,
    }
}

/// Consumes one record with its three fixed fields.
pub open spec fn spec_parse_item(s: Seq<char>, i: int) -> Option<(LinkModel, int)> {
    match spec_expect(s, i, '{') {
        Some(j0) => match spec_parse_field(s, j0, "id"@) {
            Some(idp) => match spec_expect(s, idp.1, ',') {
                Some(j1) => match spec_parse_field(s, j1, "name"@) {
                    Some(np) => match spec_expect(s, np.1, ',') {
                        Some(j2) => match spec_parse_field(s, j2, "url"@) {
                            Some(up) => match spec_expect(s, up.1, '}') {
                                Some(j3) => Some((link_model(idp.0, np.0, up.0), j3)),
                                None => None,
                            },
                            None => None,
                        },
                        None => None,
                    },
                    None => None,
                },
                None => None,
            },
            None => None,
        },
        None => None,
    }
}

/// Skipping blanks never moves backwards, nor past the end.
proof fn lemma_skip_blanks_bounds(s: Seq<char>, i: int)
    ensures
        i <= spec_skip_blanks(s, i),
        i <= s.len() ==> spec_skip_blanks(s, i) <= s.len(),
    decreases s.len() - i,
{
    if 0 <= i < s.len() && is_blank(s[i]) {
        lemma_skip_blanks_bounds(s, i + 1);
    }
}

/// A consumed token always moves the position strictly forward.
proof fn lemma_expect_bounds(s: Seq<char>, i: int, c: char)
    ensures
        (match spec_expect(s, i, c) {
            Some(j) => i < j <= s.len(),
            None => true,
        }),
{
    lemma_skip_blanks_bounds(s, i);
}

/// A consumed string body always moves the position strictly forward.
proof fn lemma_str_body_bounds(s: Seq<char>, i: int)
    ensures
        (match spec_parse_str_body(s, i) {
            Some(p) => i < p.1 <= s.len(),
            None => true,
        }),
    decreases s.len() - i,
{
    if 0 <= i < s.len() {
        if s[i] == '"' {
        } else if s[i] == '\\' {
            if i + 1 < s.len() && (s[i + 1] == '"' || s[i + 1] == '\\') {
                lemma_str_body_bounds(s, i + 2);
            }
        } else {
            lemma_str_body_bounds(s, i + 1);
        }
    }
}

/// A consumed quoted string always moves the position strictly forward.
proof fn lemma_quoted_bounds(s: Seq<char>, i: int)
    ensures
        (match spec_parse_quoted(s, i) {
            Some(p) => i < p.1 <= s.len(),
            None => true,
        }),
{
    lemma_expect_bounds(s, i, '"');
    match spec_expect(s, i, '"') {
        Some(j) => lemma_str_body_bounds(s, j),
        None => {},
    }
}

/// A consumed field always moves the position strictly forward.
proof fn lemma_field_bounds(s: Seq<char>, i: int, key: Seq<char>)
    ensures
        (match spec_parse_field(s, i, key) {
            Some(p) => i < p.1 <= s.len(),
            None => true,
        }),
{
    lemma_quoted_bounds(s, i);
    match spec_parse_quoted(s, i) {
        Some(kp) => {
            lemma_expect_bounds(s, kp.1, ':');
            match spec_expect(s, kp.1, ':') {
                Some(j) => lemma_quoted_bounds(s, j),
                None => {},
            }
        },
        None => {},
    }
}

/// A consumed record always moves the position strictly forward.
proof fn lemma_item_bounds(s: Seq<char>, i: int)
    ensures
        (match spec_parse_item(s, i) {
            Some(p) => i < p.1 <= s.len(),
            None => true,
        }),
{
    lemma_expect_bounds(s, i, '{');
    match spec_expect(s, i, '{') {
        Some(j0) => {
            lemma_field_bounds(s, j0, "id"@);
            match spec_parse_field(s, j0, "id"@) {
                Some(idp) => {
                    lemma_expect_bounds(s, idp.1, ',');
                    match spec_expect(s, idp.1, ',') {
                        Some(j1) => {
                            lemma_field_bounds(s, j1, "name"@);
                            match spec_parse_field(s, j1, "name"@) {
                                Some(np) => {
                                    lemma_expect_bounds(s, np.1, ',');
                                    match spec_expect(s, np.1, ',') {
                                        Some(j2) => {
                                            lemma_field_bounds(s, j2, "url"@);
                                            match spec_parse_field(s, j2, "url"@) {
                                                Some(up) => {
                                                    lemma_expect_bounds(s, up.1, '}');
                                                },
                                                None => {},
                                            }
                                        },
                                        None => {},
                                    }
                                },
                                None => {},
                            }
                        },
                        None => {},
                    }
                },
                None => {},
            }
        },
        None => {},
    }
}

/// Consumes the records after the first: either the closing bracket, or
/// a comma, a record, and whatever follows them.
pub open spec fn spec_parse_rest_items(s: Seq<char>, i: int) -> Option<(Seq<LinkModel>, int)>
    decreases s.len() - i,
    when 0 <= i
    via spec_parse_rest_items_decreases
{
    let j = spec_skip_blanks(s, i);
    if !(0 <= j < s.len()) {
        None
    } else if s[j] == ']' {
        Some((Seq::empty(), j + 1))
    } else if s[j] == ',' {
        match spec_parse_item(s, j + 1) {
            Some(mp) => match spec_parse_rest_items(s, mp.1) {
                Some(rp) => Some((seq![mp.0] + rp.0, rp.1)),
                None => None,
            },
            None => None,
        }
    } else {
        None
    }
}

#[via_fn]
proof fn spec_parse_rest_items_decreases(s: Seq<char>, i: int) {
    lemma_skip_blanks_bounds(s, i);
    let j = spec_skip_blanks(s, i);
    if 0 <= j < s.len() && s[j] == ',' {
        lemma_item_bounds(s, j + 1);
    }
}

/// Consumes a whole stored collection, end of text included.
pub open spec fn spec_parse_links(s: Seq<char>) -> Option<Seq<LinkModel>> {
    match spec_expect(s, 0, '[') {
        Some(i) => {
            let j = spec_skip_blanks(s, i);
            if 0 <= j < s.len() && s[j] == ']' {
                if spec_skip_blanks(s, j + 1) == s.len() {
                    Some(Seq::empty())
                } else {
                    None
                }
            } else {
                match spec_parse_item(s, i) {
                    Some(mp) => match spec_parse_rest_items(s, mp.1) {
                        Some(rp) => if spec_skip_blanks(s, rp.1) == s.len() {
                            Some(seq![mp.0] + rp.0)
                        } else {
                            None
                        },
                        None => None,
                    },
                    None => None,
                }
            }
        },
        None => None,
    }
}

} // verus!

verus! {

/// Exec counterpart of `spec_skip_blanks`.
fn skip_blanks(s: &str, i: usize) -> (r: usize)
    requires
        i <= s@.len(),
    ensures
        r == spec_skip_blanks(s@, i as int),
        i <= r <= s@.len(),
{
    let n = s.unicode_len();
    let mut j = i;
    while j < n
        invariant
            i <= j <= n,
            n == s@.len(),
            spec_skip_blanks(s@, i as int) == spec_skip_blanks(s@, j as int),
        decreases n - j,
    {
        let c = s.get_char(j);
        if !(c == ' ' || c == '\n' || c == '\r' || c == '\t') {
            return j;
        }
        j = j + 1;
    }
    j
}

/// Exec counterpart of `spec_expect`.
fn expect_tok(s: &str, i: usize, c: char) -> (r: Option<usize>)
    requires
        i <= s@.len(),
    ensures
        (match r {
            Some(j) => spec_expect(s@, i as int, c) == Some(j as int) && i < j <= s@.len(),
            None => spec_expect(s@, i as int, c) is None,
        }),
{
    let j = skip_blanks(s, i);
    if j < s.unicode_len() {
        if s.get_char(j) == c {
            return Some(j + 1);
        }
    }
    None
}

/// Whether the invariant position `j` with gathered text `acc` still
/// explains the parse that started at `i`.
pub open spec fn str_body_step(s: Seq<char>, i: int, j: int, acc: Seq<char>) -> bool {
    match spec_parse_str_body(s, j) {
        Some(p) => spec_parse_str_body(s, i) == Some((acc + p.0, p.1)),
        None => spec_parse_str_body(s, i) is None,
    }
}

/// Exec counterpart of `spec_parse_str_body`.
fn parse_string_body(s: &str, i: usize) -> (r: Option<(String, usize)>)
    requires
        i <= s@.len(),
    ensures
        (match r {
            Some(p) => spec_parse_str_body(s@, i as int) == Some((p.0@, p.1 as int)) && i < p.1
                <= s@.len(),
            None => spec_parse_str_body(s@, i as int) is None,
        }),
{
    let n = s.unicode_len();
    let mut acc = String::new();
    let mut j = i;
    while j < n
        invariant
            i <= j <= n,
            n == s@.len(),
            str_body_step(s@, i as int, j as int, acc@),
        decreases n - j,
    {
        let c = s.get_char(j);
        if c == '"' {
            proof {
                assert(acc@ + Seq::<char>::empty() =~~= acc@);
            }
            return Some((acc, j + 1));
        } else if c == '\\' {
            if j + 1 >= n {
                return None;
            }
            let c2 = s.get_char(j + 1);
            if !(c2 == '"' || c2 == '\\') {
                return None;
            }
            let ghost acc0 = acc@;
            push_char(&mut acc, c2);
            proof {
                match spec_parse_str_body(s@, j + 2) {
                    Some(p) => {
                        assert(acc0 + (seq![s@[j + 1]] + p.0) =~~= acc@ + p.0);
                    },
                    None => {},
                }
            }
            j = j + 2;
        } else {
            let ghost acc0 = acc@;
            push_char(&mut acc, c);
            proof {
                match spec_parse_str_body(s@, j + 1) {
                    Some(p) => {
                        assert(acc0 + (seq![s@[j as int]] + p.0) =~~= acc@ + p.0);
                    },
                    None => {},
                }
            }
            j = j + 1;
        }
    }
    None
}

/// Exec counterpart of `spec_parse_quoted`.
fn parse_quoted(s: &str, i: usize) -> (r: Option<(String, usize)>)
    requires
        i <= s@.len(),
    ensures
        (match r {
            Some(p) => spec_parse_quoted(s@, i as int) == Some((p.0@, p.1 as int)) && i < p.1
                <= s@.len(),
            None => spec_parse_quoted(s@, i as int) is None,
        }),
{
    match expect_tok(s, i, '"') {
        Some(j) => parse_string_body(s, j),
        None => None,
    }
}

/// Exec counterpart of `spec_parse_field`.
fn parse_field(s: &str, i: usize, key: &str) -> (r: Option<(String, usize)>)
    requires
        i <= s@.len(),
    ensures
        (match r {
            Some(p) => spec_parse_field(s@, i as int, key@) == Some((p.0@, p.1 as int)) && i < p.1
                <= s@.len(),
            None => spec_parse_field(s@, i as int, key@) is None,
        }),
{
    let key_owned: String = key.to_owned();
    match parse_quoted(s, i) {
        Some(kp) => {
            if !(kp.0 == key_owned) {
                return None;
            }
            match expect_tok(s, kp.1, ':') {
                Some(j) => parse_quoted(s, j),
                None => None,
            }
        },
        None => None,
    }
}

/// Exec counterpart of `spec_parse_item`.
fn parse_item(s: &str, i: usize) -> (r: Option<(LinkItem, usize)>)
    requires
        i <= s@.len(),
    ensures
        (match r {
            Some(p) => spec_parse_item(s@, i as int) == Some((p.0@, p.1 as int)) && i < p.1
                <= s@.len(),
            None => spec_parse_item(s@, i as int) is None,
        }),
{
    let j0 = match expect_tok(s, i, '{') {
        Some(j) => j,
        None => {
            return None;
        },
    };
    let (id, j1) = match parse_field(s, j0, "id") {
        Some(p) => p,
        None => {
            return None;
        },
    };
    let j2 = match expect_tok(s, j1, ',') {
        Some(j) => j,
        None => {
            return None;
        },
    };
    let (name, j3) = match parse_field(s, j2, "name") {
        Some(p) => p,
        None => {
            return None;
        },
    };
    let j4 = match expect_tok(s, j3, ',') {
        Some(j) => j,
        None => {
            return None;
        },
    };
    let (url, j5) = match parse_field(s, j4, "url") {
        Some(p) => p,
        None => {
            return None;
        },
    };
    let j6 = match expect_tok(s, j5, '}') {
        Some(j) => j,
        None => {
            return None;
        },
    };
    Some((LinkItem { id, name, url }, j6))
}

/// Whether the rest-of-list position `j` with gathered records `acc`
/// still explains the parse that started at `i`.
pub open spec fn rest_items_step(s: Seq<char>, i: int, j: int, acc: Seq<LinkModel>) -> bool {
    match spec_parse_rest_items(s, j) {
        Some(p) => spec_parse_rest_items(s, i) == Some((acc + p.0, p.1)),
        None => spec_parse_rest_items(s, i) is None,
    }
}

/// Reads a stored collection out of its full text; yields nothing when
/// the text is not exactly one well-formed stored collection.
fn parse_links_text(s: &str) -> (r: Option<Vec<LinkItem>>)
    ensures
        (match r {
            Some(v) => spec_parse_links(s@) == Some(links_view(v@)),
            None => spec_parse_links(s@) is None,
        }),
{
    let n = s.unicode_len();
    let i = match expect_tok(s, 0, '[') {
        Some(j) => j,
        None => {
            return None;
        },
    };
    let ghost i0 = i as int;
    let j = skip_blanks(s, i);
    if j < n && s.get_char(j) == ']' {
        if skip_blanks(s, j + 1) == n {
            let empty_links: Vec<LinkItem> = Vec::new();
            proof {
                assert(links_view(empty_links@) =~~= Seq::<LinkModel>::empty());
            }
            return Some(empty_links);
        } else {
            return None;
        }
    }
    let ghost no_early_end = !(0 <= spec_skip_blanks(s@, i0) < s@.len() && s@[spec_skip_blanks(
        s@,
        i0,
    )] == ']');
    let (first, first_end) = match parse_item(s, i) {
        Some(p) => p,
        None => {
            return None;
        },
    };
    let ghost m0 = first@;
    let ghost start = first_end as int;
    let mut out: Vec<LinkItem> = Vec::new();
    out.push(first);
    let mut at = first_end;
    proof {
        assert(links_view(out@) =~~= seq![m0]);
        assert(links_view(out@).drop_first() =~~= Seq::<LinkModel>::empty());
    }
    loop
        invariant
            at <= s@.len(),
            n == s@.len(),
            no_early_end,
            no_early_end == !(0 <= spec_skip_blanks(s@, i0) < s@.len() && s@[spec_skip_blanks(
                s@,
                i0,
            )] == ']'),
            spec_expect(s@, 0, '[') == Some(i0),
            spec_parse_item(s@, i0) == Some((m0, start)),
            links_view(out@).len() >= 1,
            links_view(out@)[0] == m0,
            rest_items_step(s@, start, at as int, links_view(out@).drop_first()),
        decreases s@.len() - at,
    {
        let ghost acc0 = links_view(out@).drop_first();
        let b = skip_blanks(s, at);
        if b >= n {
            proof {
                assert(spec_parse_rest_items(s@, at as int) is None);
            }
            return None;
        }
        let c = s.get_char(b);
        if c == ']' {
            if skip_blanks(s, b + 1) == n {
                proof {
                    assert(spec_parse_rest_items(s@, at as int) == Some((
                        Seq::<LinkModel>::empty(),
                        b + 1,
                    )));
                    assert(acc0 + Seq::<LinkModel>::empty() =~~= acc0);
                    assert(seq![m0] + acc0 =~~= links_view(out@));
                }
                return Some(out);
            } else {
                proof {
                    assert(spec_parse_rest_items(s@, at as int) == Some((
                        Seq::<LinkModel>::empty(),
                        b + 1,
                    )));
                }
                return None;
            }
        }
        if !(c == ',') {
            proof {
                assert(spec_parse_rest_items(s@, at as int) is None);
            }
            return None;
        }
        let (item, at2) = match parse_item(s, b + 1) {
            Some(p) => p,
            None => {
                proof {
                    assert(spec_parse_rest_items(s@, at as int) is None);
                }
                return None;
            },
        };
        out.push(item);
        proof {
            assert(links_view(out@).drop_first() =~~= acc0.push(item@));
            assert(links_view(out@)[0] == m0);
            match spec_parse_rest_items(s@, at2 as int) {
                Some(p) => {
                    assert(acc0 + (seq![item@] + p.0) =~~= acc0.push(item@) + p.0);
                },
                None => {},
            }
        }
        at = at2;
    }
}

/// Deserializes stored text back into a collection: the recorded items
/// in their stored order when the text is well formed, and the empty
/// collection for any malformed text.
pub fn links_from_storage_text(text: &str) -> (r: Vec<LinkItem>)
    ensures
        (match spec_parse_links(text@) {
            Some(ms) => links_view(r@) == ms,
            None => r@.len() == 0,
        }),
{
    match parse_links_text(text) {
        Some(v) => v,
        None => Vec::new(),
    }
}

/// The whole load step: an absent store, like a malformed one, yields
/// the empty collection; a readable well-formed store yields exactly
/// the recorded items.
pub fn loaded_links(stored: Option<&str>) -> (r: Vec<LinkItem>)
    ensures
        (match stored {
            Some(text) => match spec_parse_links(text@) {
                Some(ms) => links_view(r@) == ms,
                None => r@.len() == 0,
            },
            None => r@.len() == 0,
        }),
{
    match stored {
        Some(text) => links_from_storage_text(text),
        None => Vec::new(),
    }
}

} // verus!

verus! {

/// Reading an escaped string body back recovers the original text.
proof fn lemma_round_str_body(pre: Seq<char>, x: Seq<char>, rest: Seq<char>, s: Seq<char>)
    requires
        s == pre + spec_escape(x) + seq!['"'] + rest,
    ensures
        spec_parse_str_body(s, pre.len() as int) == Some((
            x,
            (pre.len() + spec_escape(x).len() + 1) as int,
        )),
    decreases x.len(),
{
    let i = pre.len() as int;
    let e = spec_escape(x);
    assert(s.len() == pre.len() + e.len() + 1 + rest.len());
    if x.len() == 0 {
        assert(e =~~= Seq::<char>::empty());
        assert(s[i] == '"');
    } else {
        let c = x[0];
        let x1 = x.drop_first();
        assert(e == escape_char(c) + spec_escape(x1));
        assert(forall|k: int| 0 <= k < e.len() ==> s[pre.len() + k] == e[k]);
        assert(forall|k: int|
            0 <= k < escape_char(c).len() ==> e[k] == escape_char(c)[k]);
        if c == '"' {
            assert(s[i] == '\\');
            assert(s[i + 1] == '"');
            let pre1 = pre + escape_char(c);
            assert(s =~~= pre1 + spec_escape(x1) + seq!['"'] + rest);
            lemma_round_str_body(pre1, x1, rest, s);
            assert(seq![s[i + 1]] + x1 =~~= x);
        } else if c == '\\' {
            assert(s[i] == '\\');
            assert(s[i + 1] == '\\');
            let pre1 = pre + escape_char(c);
            assert(s =~~= pre1 + spec_escape(x1) + seq!['"'] + rest);
            lemma_round_str_body(pre1, x1, rest, s);
            assert(seq![s[i + 1]] + x1 =~~= x);
        } else {
            assert(s[i] == c);
            let pre1 = pre + escape_char(c);
            assert(s =~~= pre1 + spec_escape(x1) + seq!['"'] + rest);
            lemma_round_str_body(pre1, x1, rest, s);
            assert(seq![s[i]] + x1 =~~= x);
        }
    }
}

/// Reading a quoted string back recovers the original text.
proof fn lemma_round_quoted(pre: Seq<char>, x: Seq<char>, rest: Seq<char>, s: Seq<char>)
    requires
        s == pre + spec_quoted(x) + rest,
    ensures
        spec_parse_quoted(s, pre.len() as int) == Some((
            x,
            (pre.len() + spec_quoted(x).len()) as int,
        )),
{
    let i = pre.len() as int;
    assert(s.len() == pre.len() + spec_quoted(x).len() + rest.len());
    assert(s[i] == '"');
    assert(spec_skip_blanks(s, i) == i);
    assert(spec_expect(s, i, '"') == Some(i + 1));
    let pre1 = pre + seq!['"'];
    assert(s =~~= pre1 + spec_escape(x) + seq!['"'] + rest);
    lemma_round_str_body(pre1, x, rest, s);
}

/// Reading a field back recovers its value under the expected key.
proof fn lemma_round_field(
    pre: Seq<char>,
    key: Seq<char>,
    x: Seq<char>,
    rest: Seq<char>,
    s: Seq<char>,
)
    requires
        s == pre + spec_quoted(key) + seq![':'] + spec_quoted(x) + rest,
    ensures
        spec_parse_field(s, pre.len() as int, key) == Some((
            x,
            (pre.len() + spec_quoted(key).len() + 1 + spec_quoted(x).len()) as int,
        )),
{
    let i = pre.len() as int;
    let qk = spec_quoted(key);
    let qx = spec_quoted(x);
    assert(s =~~= pre + qk + (seq![':'] + qx + rest));
    lemma_round_quoted(pre, key, seq![':'] + qx + rest, s);
    let e1 = (pre.len() + qk.len()) as int;
    assert(s[e1] == ':');
    assert(spec_skip_blanks(s, e1) == e1);
    assert(spec_expect(s, e1, ':') == Some(e1 + 1));
    let pre2 = pre + qk + seq![':'];
    assert(s =~~= pre2 + qx + rest);
    lemma_round_quoted(pre2, x, rest, s);
}

/// Reading a record back recovers the original record.
#[verifier::rlimit(100)]
proof fn lemma_round_item(pre: Seq<char>, m: LinkModel, rest: Seq<char>, s: Seq<char>)
    requires
        s == pre + spec_encode_item(m) + rest,
    ensures
        spec_parse_item(s, pre.len() as int) == Some((
            m,
            (pre.len() + spec_encode_item(m).len()) as int,
        )),
{
    let i = pre.len() as int;
    let q_idk = spec_quoted("id"@);
    let q_id = spec_quoted(m.id);
    let q_namek = spec_quoted("name"@);
    let q_name = spec_quoted(m.name);
    let q_urlk = spec_quoted("url"@);
    let q_url = spec_quoted(m.url);
    assert(s[i] == '{');
    assert(spec_skip_blanks(s, i) == i);
    assert(spec_expect(s, i, '{') == Some(i + 1));
    let pre1 = pre + seq!['{'];
    let rest1 = seq![','] + q_namek + seq![':'] + q_name + seq![','] + q_urlk + seq![':'] + q_url
        + seq!['}'] + rest;
    assert(s =~~= pre1 + q_idk + seq![':'] + q_id + rest1);
    lemma_round_field(pre1, "id"@, m.id, rest1, s);
    let e1 = (pre1.len() + q_idk.len() + 1 + q_id.len()) as int;
    assert(s[e1] == ',');
    assert(spec_skip_blanks(s, e1) == e1);
    assert(spec_expect(s, e1, ',') == Some(e1 + 1));
    let pre2 = pre1 + q_idk + seq![':'] + q_id + seq![','];
    let rest2 = seq![','] + q_urlk + seq![':'] + q_url + seq!['}'] + rest;
    assert(s =~~= pre2 + q_namek + seq![':'] + q_name + rest2);
    lemma_round_field(pre2, "name"@, m.name, rest2, s);
    let e2 = (pre2.len() + q_namek.len() + 1 + q_name.len()) as int;
    assert(s[e2] == ',');
    assert(spec_skip_blanks(s, e2) == e2);
    assert(spec_expect(s, e2, ',') == Some(e2 + 1));
    let pre3 = pre2 + q_namek + seq![':'] + q_name + seq![','];
    let rest3 = seq!['}'] + rest;
    assert(s =~~= pre3 + q_urlk + seq![':'] + q_url + rest3);
    lemma_round_field(pre3, "url"@, m.url, rest3, s);
    let e3 = (pre3.len() + q_urlk.len() + 1 + q_url.len()) as int;
    assert(s[e3] == '}');
    assert(spec_skip_blanks(s, e3) == e3);
    assert(spec_expect(s, e3, '}') == Some(e3 + 1));
    assert(link_model(m.id, m.name, m.url) =~~= m);
    assert(e3 + 1 == pre.len() + spec_encode_item(m).len());
}

/// Reading the records behind their commas recovers them all.
#[verifier::rlimit(100)]
proof fn lemma_round_rest(pre: Seq<char>, ms: Seq<LinkModel>, rest: Seq<char>, s: Seq<char>)
    requires
        s == pre + spec_encode_tail(ms) + seq![']'] + rest,
    ensures
        spec_parse_rest_items(s, pre.len() as int) == Some((
            ms,
            (pre.len() + spec_encode_tail(ms).len() + 1) as int,
        )),
    decreases ms.len(),
{
    let i = pre.len() as int;
    if ms.len() == 0 {
        assert(spec_encode_tail(ms) =~~= Seq::<char>::empty());
        assert(s[i] == ']');
        assert(spec_skip_blanks(s, i) == i);
        assert(ms =~~= Seq::<LinkModel>::empty());
    } else {
        let m0 = ms[0];
        let tail1 = spec_encode_tail(ms.drop_first());
        assert(spec_encode_tail(ms) == seq![','] + spec_encode_item(m0) + tail1);
        assert(spec_encode_tail(ms)[0] == ',');
        assert(s[i] == spec_encode_tail(ms)[0]);
        assert(spec_skip_blanks(s, i) == i);
        let pre1 = pre + seq![','];
        let rest1 = tail1 + seq![']'] + rest;
        assert(s =~~= pre1 + spec_encode_item(m0) + rest1);
        lemma_round_item(pre1, m0, rest1, s);
        let e1 = (pre1.len() + spec_encode_item(m0).len()) as int;
        let pre2 = pre1 + spec_encode_item(m0);
        assert(s =~~= pre2 + tail1 + seq![']'] + rest);
        lemma_round_rest(pre2, ms.drop_first(), rest, s);
        assert(seq![m0] + ms.drop_first() =~~= ms);
    }
}

/// Law: reading back the written text of any collection recovers that
/// collection exactly, order and fields included.
#[verifier::rlimit(100)]
pub proof fn lemma_storage_round_trip(ms: Seq<LinkModel>)
    ensures
        spec_parse_links(spec_encode_links(ms)) == Some(ms),
{
    let s = spec_encode_links(ms);
    if ms.len() == 0 {
        assert(s == seq!['[', ']']);
        assert(s[0] == '[');
        assert(spec_skip_blanks(s, 0) == 0);
        assert(spec_expect(s, 0, '[') == Some(1int));
        assert(s[1] == ']');
        assert(spec_skip_blanks(s, 1) == 1);
        assert(spec_skip_blanks(s, 2) == 2);
        assert(spec_parse_links(s) == Some(Seq::<LinkModel>::empty()));
        assert(Seq::<LinkModel>::empty() =~~= ms);
    } else {
        let m0 = ms[0];
        let item0 = spec_encode_item(m0);
        let tail1 = spec_encode_tail(ms.drop_first());
        assert(s == seq!['['] + item0 + tail1 + seq![']']);
        assert(s[0] == '[');
        assert(spec_skip_blanks(s, 0) == 0);
        assert(spec_expect(s, 0, '[') == Some(1int));
        assert(item0[0] == '{');
        assert(s[1] == '{');
        assert(spec_skip_blanks(s, 1) == 1);
        let pre1 = seq!['['];
        let rest1 = tail1 + seq![']'];
        assert(s =~~= pre1 + item0 + rest1 + Seq::<char>::empty());
        assert(s =~~= pre1 + item0 + rest1);
        lemma_round_item(pre1, m0, rest1, s);
        let e1 = (pre1.len() + item0.len()) as int;
        let pre2 = pre1 + item0;
        assert(s =~~= pre2 + tail1 + seq![']'] + Seq::<char>::empty());
        lemma_round_rest(pre2, ms.drop_first(), Seq::<char>::empty(), s);
        let e2 = (pre2.len() + tail1.len() + 1) as int;
        assert(e2 == s.len());
        assert(spec_skip_blanks(s, e2) == e2);
        assert(seq![m0] + ms.drop_first() =~~= ms);
    }
}

} // verus!
