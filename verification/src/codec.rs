//! The persisted snapshot text: one JSON object with an `items` member keyed
//! by item id and a `deps` array. The writer is canonical and fully
//! specified — its output equals a mathematical rendering of the document.
//! The reader is tolerant (any blank space and member order inside an item,
//! unknown status tokens normalized to open, timestamps as integers or as
//! calendar text) but only well-formed documents come out of it, a key must
//! agree with its item's embedded id, and text that does not open a snapshot
//! object is always rejected.

use vstd::prelude::*;

use crate::errors::TrackError;
use crate::model::store_wf;
use crate::model::Dep;
use crate::model::DepType;
use crate::model::DepView;
use crate::model::Item;
use crate::model::ItemType;
use crate::model::ItemView;
use crate::model::Status;
use crate::model::Store;
use crate::model::StoreView;
use crate::strutil::chars_of;
use crate::strutil::chars_to_string;

verus! {

/// A status token read from a snapshot: `closed` is the one terminal state;
/// every other (legacy or unknown) token normalizes to open.
pub fn status_from_snapshot_token(token: &str) -> (r: Status)
    ensures
        r == (if token@ == "closed"@ {
            Status::Closed
        } else {
            Status::Open
        }),
{
    if crate::strutil::str_eq(token, "closed") {
        Status::Closed
    } else {
        Status::Open
    }
}

// --- The canonical rendering, as mathematics ---

/// One hexadecimal digit character.
pub open spec fn hex_char_of(d: nat) -> char {
    if d < 10 {
        (('0' as u8) + d as u8) as char
    } else {
        (('a' as u8) + (d - 10) as u8) as char
    }
}

/// How one character appears inside a rendered string: the quote, the
/// backslash, and control characters are escaped, all else stands as itself.
pub open spec fn esc_char(c: char) -> Seq<char> {
    if c == '"' {
        seq!['\\', '"']
    } else if c == '\\' {
        seq!['\\', '\\']
    } else if c == '\n' {
        seq!['\\', 'n']
    } else if c == '\r' {
        seq!['\\', 'r']
    } else if c == '\t' {
        seq!['\\', 't']
    } else if (c as u32) < 0x20 {
        seq!['\\', 'u', '0', '0', hex_char_of(((c as u32) / 16) as nat), hex_char_of(
            ((c as u32) % 16) as nat,
        )]
    } else {
        seq![c]
    }
}

/// The escaped body of a rendered string.
pub open spec fn ser_chars(s: Seq<char>) -> Seq<char>
    decreases s.len(),
{
    if s.len() == 0 {
        Seq::empty()
    } else {
        ser_chars(s.drop_last()) + esc_char(s.last())
    }
}

/// A rendered string: quoted and escaped.
pub open spec fn ser_string(s: Seq<char>) -> Seq<char> {
    seq!['"'] + ser_chars(s) + seq!['"']
}

/// The decimal digits of a positive number (empty for zero).
pub open spec fn ser_nat_digits(m: nat) -> Seq<char>
    decreases m,
{
    if m == 0 {
        Seq::empty()
    } else {
        ser_nat_digits(m / 10) + seq![(('0' as u8) + (m % 10) as u8) as char]
    }
}

/// A rendered non-negative number.
pub open spec fn ser_nat(m: nat) -> Seq<char> {
    if m == 0 {
        seq!['0']
    } else {
        ser_nat_digits(m)
    }
}

/// A rendered timestamp, with a sign when negative.
pub open spec fn ser_i64(n: i64) -> Seq<char> {
    if n >= 0 {
        ser_nat(n as nat)
    } else {
        seq!['-'] + ser_nat((-(n as int)) as nat)
    }
}

/// A rendered item kind token.
pub open spec fn ser_type(t: ItemType) -> Seq<char> {
    match t {
        ItemType::Epic => "epic"@,
        ItemType::Feature => "feature"@,
        ItemType::Task => "task"@,
    }
}

/// A rendered status token.
pub open spec fn ser_status(st: Status) -> Seq<char> {
    match st {
        Status::Open => "open"@,
        Status::Closed => "closed"@,
    }
}

/// A rendered edge kind token.
pub open spec fn ser_kind(k: DepType) -> Seq<char> {
    match k {
        DepType::Parent => "parent"@,
        DepType::Blocks => "blocks"@,
    }
}

/// A rendered item object, in fixed member order; an absent description or
/// claimant is omitted entirely.
#[verifier::opaque]
pub open spec fn ser_item(iv: ItemView) -> Seq<char> {
    "{\"id\":"@ + ser_string(iv.id) + ",\"title\":"@ + ser_string(iv.title) + (match iv.description {
        Some(d) => ",\"description\":"@ + ser_string(d),
        None => Seq::empty(),
    }) + ",\"item_type\":\""@ + ser_type(iv.item_type) + "\",\"status\":\""@ + ser_status(
        iv.status,
    ) + "\",\"priority\":"@ + ser_nat(iv.priority as nat) + (match iv.claimed_by {
        Some(w) => ",\"claimed_by\":"@ + ser_string(w),
        None => Seq::empty(),
    }) + ",\"created_at\":"@ + ser_i64(iv.created_at) + ",\"updated_at\":"@ + ser_i64(
        iv.updated_at,
    ) + seq!['}']
}

/// One rendered member of the items object.
pub open spec fn ser_entry(iv: ItemView) -> Seq<char> {
    ser_string(iv.id) + seq![':'] + ser_item(iv)
}

/// The comma-separated members of the items object, in document order.
pub open spec fn ser_entries(items: Seq<ItemView>) -> Seq<char>
    decreases items.len(),
{
    if items.len() == 0 {
        Seq::empty()
    } else if items.len() == 1 {
        ser_entry(items[0])
    } else {
        ser_entries(items.drop_last()) + seq![','] + ser_entry(items.last())
    }
}

/// One rendered edge object.
#[verifier::opaque]
pub open spec fn ser_edge(d: DepView) -> Seq<char> {
    "{\"from_id\":"@ + ser_string(d.from_id) + ",\"to_id\":"@ + ser_string(d.to_id)
        + ",\"dep_type\":\""@ + ser_kind(d.dep_type) + "\"}"@
}

/// The comma-separated elements of the deps array, in listing order.
pub open spec fn ser_edges(deps: Seq<DepView>) -> Seq<char>
    decreases deps.len(),
{
    if deps.len() == 0 {
        Seq::empty()
    } else if deps.len() == 1 {
        ser_edge(deps[0])
    } else {
        ser_edges(deps.drop_last()) + seq![','] + ser_edge(deps.last())
    }
}

/// The canonical snapshot text of a whole document.
pub open spec fn ser_store(sv: StoreView) -> Seq<char> {
    "{\"items\":{"@ + ser_entries(sv.items) + "},\"deps\":["@ + ser_edges(sv.deps) + "]}"@
}

// --- The writer ---

/// One hexadecimal digit.
fn hex_digit(d: u8) -> (c: char)
    requires
        d < 16,
    ensures
        c == hex_char_of(d as nat),
{
    if d < 10 {
        (('0' as u8) + d) as char
    } else {
        (('a' as u8) + (d - 10)) as char
    }
}

/// Appends a literal.
fn push_lit(out: &mut Vec<char>, s: &str)
    ensures
        final(out)@ == old(out)@ + s@,
{
    let cs = chars_of(s);
    let ghost start = out@;
    let mut i: usize = 0;
    while i < cs.len()
        invariant
            i <= cs@.len(),
            cs@ == s@,
            out@ == start + s@.take(i as int),
        decreases cs@.len() - i,
    {
        out.push(cs[i]);
        proof {
            assert(out@ =~= start + s@.take(i + 1));
        }
        i = i + 1;
    }
    proof {
        assert(s@.take(s@.len() as int) =~= s@);
    }
}

/// Appends the decimal digits of a priority value.
fn push_u8_decimal(out: &mut Vec<char>, n: u8)
    ensures
        final(out)@ == old(out)@ + ser_nat(n as nat),
{
    push_i64_decimal(out, n as i64);
}

/// Appends the decimal form of a timestamp.
fn push_i64_decimal(out: &mut Vec<char>, n: i64)
    ensures
        final(out)@ == old(out)@ + ser_i64(n),
{
    let mut digits: Vec<char> = Vec::new();
    let mut neg = false;
    let mut m: u64 = if n < 0 {
        neg = true;
        if n == i64::MIN {
            9223372036854775808u64
        } else {
            (-n) as u64
        }
    } else {
        n as u64
    };
    let ghost m0 = m as nat;
    if m == 0 {
        out.push('0');
        proof {
            assert(final(out)@ =~= old(out)@ + ser_i64(n));
        }
        return ;
    }
    while m > 0
        invariant
            ser_nat_digits(m0) == ser_nat_digits(m as nat) + digits@.reverse(),
        decreases m,
    {
        let d = (('0' as u8) + (m % 10) as u8) as char;
        proof {
            assert(digits@.push(d).reverse() =~= seq![d] + digits@.reverse());
            assert(ser_nat_digits(m as nat) == ser_nat_digits((m as nat) / 10) + seq![d]);
            assert(ser_nat_digits((m / 10) as nat) + digits@.push(d).reverse()
                =~= ser_nat_digits(m as nat) + digits@.reverse());
        }
        digits.push(d);
        m = m / 10;
    }
    if neg {
        out.push('-');
    }
    let ghost mid = out@;
    let mut k = digits.len();
    while k > 0
        invariant
            k <= digits@.len(),
            out@ == mid + digits@.subrange(k as int, digits@.len() as int).reverse(),
        decreases k,
    {
        proof {
            assert(digits@.subrange(k - 1, digits@.len() as int).reverse()
                =~= digits@.subrange(k as int, digits@.len() as int).reverse().push(
                digits@[k - 1],
            ));
        }
        out.push(digits[k - 1]);
        proof {
            assert(out@ =~= mid + digits@.subrange(k - 1, digits@.len() as int).reverse());
        }
        k = k - 1;
    }
    proof {
        assert(digits@.subrange(0, digits@.len() as int) =~= digits@);
        assert(ser_nat_digits(m0) == digits@.reverse());
        assert(m0 > 0);
        if n >= 0 {
            assert(out@ =~= old(out)@ + ser_i64(n));
        } else {
            assert(m0 == -(n as int));
            assert(out@ =~= old(out)@ + ser_i64(n));
        }
    }
}

/// Appends a rendered string: quoted, with the quote, the backslash, and
/// control characters escaped.
fn push_json_string(out: &mut Vec<char>, s: &str)
    ensures
        final(out)@ == old(out)@ + ser_string(s@),
{
    let cs = chars_of(s);
    out.push('"');
    let ghost start = out@;
    let mut i: usize = 0;
    while i < cs.len()
        invariant
            i <= cs@.len(),
            cs@ == s@,
            out@ == start + ser_chars(s@.take(i as int)),
        decreases cs@.len() - i,
    {
        let ghost pre = out@;
        let c = cs[i];
        if c == '"' {
            out.push('\\');
            out.push('"');
        } else if c == '\\' {
            out.push('\\');
            out.push('\\');
        } else if c == '\n' {
            out.push('\\');
            out.push('n');
        } else if c == '\r' {
            out.push('\\');
            out.push('r');
        } else if c == '\t' {
            out.push('\\');
            out.push('t');
        } else if (c as u32) < 0x20 {
            out.push('\\');
            out.push('u');
            out.push('0');
            out.push('0');
            let hi = ((c as u32) / 16) as u8;
            let lo = ((c as u32) % 16) as u8;
            out.push(hex_digit(hi));
            out.push(hex_digit(lo));
        } else {
            out.push(c);
        }
        proof {
            assert(out@ =~= pre + esc_char(c));
            assert(s@.take(i + 1).drop_last() =~= s@.take(i as int));
            assert(s@.take(i + 1).last() == c);
            assert(out@ =~= start + ser_chars(s@.take(i + 1)));
        }
        i = i + 1;
    }
    out.push('"');
    proof {
        assert(s@.take(s@.len() as int) =~= s@);
        assert(final(out)@ =~= old(out)@ + ser_string(s@));
    }
}

/// Appends one rendered item object.
#[verifier::rlimit(100)]
#[verifier::spinoff_prover]
fn push_item(out: &mut Vec<char>, item: &Item)
    ensures
        final(out)@ == old(out)@ + ser_item(item@),
{
    push_lit(out, "{\"id\":");
    push_json_string(out, item.id.as_str());
    push_lit(out, ",\"title\":");
    push_json_string(out, item.title.as_str());
    match &item.description {
        Some(d) => {
            push_lit(out, ",\"description\":");
            push_json_string(out, d.as_str());
        },
        None => {},
    }
    push_lit(out, ",\"item_type\":\"");
    match item.item_type {
        ItemType::Epic => push_lit(out, "epic"),
        ItemType::Feature => push_lit(out, "feature"),
        ItemType::Task => push_lit(out, "task"),
    }
    push_lit(out, "\",\"status\":\"");
    match item.status {
        Status::Open => push_lit(out, "open"),
        Status::Closed => push_lit(out, "closed"),
    }
    push_lit(out, "\",\"priority\":");
    push_u8_decimal(out, item.priority);
    match &item.claimed_by {
        Some(w) => {
            push_lit(out, ",\"claimed_by\":");
            push_json_string(out, w.as_str());
        },
        None => {},
    }
    push_lit(out, ",\"created_at\":");
    push_i64_decimal(out, item.created_at);
    push_lit(out, ",\"updated_at\":");
    push_i64_decimal(out, item.updated_at);
    out.push('}');
    proof {
        reveal(ser_item);
        assert(final(out)@ =~= old(out)@ + ser_item(item@));
    }
}

/// Writes the canonical snapshot text of a document: exactly its rendering,
/// items keyed by id in document order, then the edges in listing order.
pub fn to_json(store: &Store) -> (r: Result<String, TrackError>)
    ensures
        r matches Ok(text) && text@ == ser_store(store@),
{
    let mut out: Vec<char> = Vec::new();
    push_lit(&mut out, "{\"items\":{");
    let ghost start_items = out@;
    let mut i: usize = 0;
    while i < store.items.len()
        invariant
            i <= store@.items.len(),
            out@ == start_items + ser_entries(store@.items.take(i as int)),
        decreases store@.items.len() - i,
    {
        let ghost pre = out@;
        if i > 0 {
            out.push(',');
        }
        push_json_string(&mut out, store.items[i].id.as_str());
        out.push(':');
        push_item(&mut out, &store.items[i]);
        proof {
            let t1 = store@.items.take(i + 1);
            assert(t1.drop_last() =~= store@.items.take(i as int));
            assert(t1.last() == store@.items[i as int]);
            if i == 0 {
                assert(out@ =~= pre + ser_entry(store@.items[i as int]));
                assert(out@ =~= start_items + ser_entries(t1));
            } else {
                assert(out@ =~= pre + (seq![','] + ser_entry(store@.items[i as int])));
                assert(out@ =~= start_items + ser_entries(t1));
            }
        }
        i = i + 1;
    }
    proof {
        assert(store@.items.take(store@.items.len() as int) =~= store@.items);
    }
    push_lit(&mut out, "},\"deps\":[");
    let ghost start_deps = out@;
    let mut k: usize = 0;
    while k < store.deps.len()
        invariant
            k <= store@.deps.len(),
            out@ == start_deps + ser_edges(store@.deps.take(k as int)),
        decreases store@.deps.len() - k,
    {
        let ghost pre = out@;
        if k > 0 {
            out.push(',');
        }
        let d = &store.deps[k];
        push_lit(&mut out, "{\"from_id\":");
        push_json_string(&mut out, d.from_id.as_str());
        push_lit(&mut out, ",\"to_id\":");
        push_json_string(&mut out, d.to_id.as_str());
        push_lit(&mut out, ",\"dep_type\":\"");
        match d.dep_type {
            DepType::Parent => push_lit(&mut out, "parent"),
            DepType::Blocks => push_lit(&mut out, "blocks"),
        }
        push_lit(&mut out, "\"}");
        proof {
            reveal(ser_edge);
            let t1 = store@.deps.take(k + 1);
            assert(t1.drop_last() =~= store@.deps.take(k as int));
            assert(t1.last() == store@.deps[k as int]);
            if k == 0 {
                assert(out@ =~= pre + ser_edge(store@.deps[k as int]));
                assert(out@ =~= start_deps + ser_edges(t1));
            } else {
                assert(out@ =~= pre + (seq![','] + ser_edge(store@.deps[k as int])));
                assert(out@ =~= start_deps + ser_edges(t1));
            }
        }
        k = k + 1;
    }
    proof {
        assert(store@.deps.take(store@.deps.len() as int) =~= store@.deps);
    }
    push_lit(&mut out, "]}");
    let text = chars_to_string(&out);
    proof {
        assert(text@ =~= ser_store(store@));
    }
    Ok(text)
}

// --- The reader ---

/// Blank space the reader skips.
pub open spec fn is_blank(c: char) -> bool {
    c == ' ' || c == '\n' || c == '\r' || c == '\t'
}

/// Text with its leading blank space dropped.
pub open spec fn after_blanks(t: Seq<char>) -> Seq<char>
    decreases t.len(),
{
    if t.len() > 0 && is_blank(t[0]) {
        after_blanks(t.drop_first())
    } else {
        t
    }
}

/// The parser's failure, with a short description.
fn bad(text: &str) -> (r: TrackError)
    ensures
        r is MalformedSnapshot,
{
    let mut m = String::new();
    m.append(text);
    TrackError::MalformedSnapshot(m)
}

/// Skips blank space.
fn skip_ws(v: &Vec<char>, i: &mut usize)
    requires
        *old(i) <= v@.len(),
    ensures
        *old(i) <= *final(i) <= v@.len(),
        v@.skip(*final(i) as int) == after_blanks(v@.skip(*old(i) as int)),
{
    while *i < v.len() && (v[*i] == ' ' || v[*i] == '\n' || v[*i] == '\r' || v[*i] == '\t')
        invariant
            *old(i) <= *i <= v@.len(),
            after_blanks(v@.skip(*i as int)) == after_blanks(v@.skip(*old(i) as int)),
        decreases v@.len() - *i,
    {
        proof {
            assert(v@.skip(*i as int)[0] == v@[*i as int]);
            assert(v@.skip(*i as int).drop_first() =~= v@.skip(*i + 1));
        }
        *i = *i + 1;
    }
    proof {
        let rest = v@.skip(*i as int);
        if rest.len() > 0 {
            assert(rest[0] == v@[*i as int]);
        }
        assert(after_blanks(rest) == rest);
    }
}

/// Consumes one expected character (after blank space).
fn expect_char(v: &Vec<char>, i: &mut usize, c: char) -> (r: Result<(), TrackError>)
    requires
        *old(i) <= v@.len(),
    ensures
        *old(i) <= *final(i) <= v@.len(),
        r matches Err(e) ==> e is MalformedSnapshot,
        r is Ok ==> after_blanks(v@.skip(*old(i) as int)).len() > 0 && after_blanks(
            v@.skip(*old(i) as int),
        )[0] == c,
{
    skip_ws(v, i);
    if *i < v.len() && v[*i] == c {
        proof {
            assert(v@.skip(*i as int)[0] == v@[*i as int]);
        }
        *i = *i + 1;
        Ok(())
    } else {
        Err(bad("unexpected character"))
    }
}

/// Looks at the next character after blank space without consuming it.
fn peek(v: &Vec<char>, i: &mut usize) -> (r: Option<char>)
    requires
        *old(i) <= v@.len(),
    ensures
        *old(i) <= *final(i) <= v@.len(),
        r is Some ==> *final(i) < v@.len(),
{
    skip_ws(v, i);
    if *i < v.len() {
        Some(v[*i])
    } else {
        None
    }
}

/// Parses a JSON string with escapes.
fn parse_string(v: &Vec<char>, i: &mut usize) -> (r: Result<String, TrackError>)
    requires
        *old(i) <= v@.len(),
    ensures
        *old(i) <= *final(i) <= v@.len(),
        r matches Err(e) ==> e is MalformedSnapshot,
{
    match expect_char(v, i, '"') {
        Ok(()) => {},
        Err(e) => {
            return Err(e);
        },
    }
    let mut out: Vec<char> = Vec::new();
    while *i < v.len() && v[*i] != '"'
        invariant
            *old(i) <= *i <= v@.len(),
        decreases v@.len() - *i,
    {
        let c = v[*i];
        if c == '\\' {
            if v.len() - *i < 2 {
                return Err(bad("unterminated escape"));
            }
            let e = v[*i + 1];
            if e == '"' {
                out.push('"');
            } else if e == '\\' {
                out.push('\\');
            } else if e == '/' {
                out.push('/');
            } else if e == 'n' {
                out.push('\n');
            } else if e == 'r' {
                out.push('\r');
            } else if e == 't' {
                out.push('\t');
            } else if e == 'u' {
                if v.len() - *i < 6 {
                    return Err(bad("unterminated escape"));
                }
                let mut code: u32 = 0;
                let mut k: usize = 2;
                while k < 6
                    invariant
                        2 <= k <= 6,
                        *old(i) <= *i,
                        *i <= usize::MAX - 6,
                        v@.len() - *i >= 6,
                        k == 2 ==> code == 0,
                        k == 3 ==> code < 16,
                        k == 4 ==> code < 256,
                        k == 5 ==> code < 4096,
                        k == 6 ==> code < 65536,
                    decreases 6 - k,
                {
                    let h = v[*i + k];
                    let d: u32 = if '0' <= h && h <= '9' {
                        (h as u32) - ('0' as u32)
                    } else if 'a' <= h && h <= 'f' {
                        (h as u32) - ('a' as u32) + 10
                    } else if 'A' <= h && h <= 'F' {
                        (h as u32) - ('A' as u32) + 10
                    } else {
                        return Err(bad("bad escape digit"));
                    };
                    code = code * 16 + d;
                    k = k + 1;
                }
                if (0xD800 <= code && code < 0xE000) || code > 0x10FFFF {
                    return Err(bad("bad escape value"));
                }
                out.push(char_from_code(code));
                *i = *i + 6;
                continue ;
            } else {
                return Err(bad("unknown escape"));
            }
            *i = *i + 2;
        } else {
            out.push(c);
            *i = *i + 1;
        }
    }
    if *i >= v.len() {
        return Err(bad("unterminated string"));
    }
    *i = *i + 1;
    Ok(chars_to_string(&out))
}

/// Relies on `char::from_u32`: turns a valid scalar value back into the
/// character with exactly that value.
#[verifier::external_body]
fn char_from_code(code: u32) -> (c: char)
    requires
        code < 0xD800 || (0xE000 <= code && code <= 0x10FFFF),
    ensures
        c as u32 == code,
{
    char::from_u32(code).unwrap_or(' ')
}

/// The milliseconds since the epoch named by a calendar-text timestamp, when
/// the text is well-formed calendar text with an offset — a function of the
/// text alone.
pub uninterp spec fn rfc3339_millis_of(s: Seq<char>) -> Option<i64>;

/// Relies on `chrono::DateTime::parse_from_rfc3339` and
/// `DateTime::timestamp_millis`: reads a calendar-text timestamp.
#[verifier::external_body]
fn parse_rfc3339_millis(s: &str) -> (r: Option<i64>)
    ensures
        r == rfc3339_millis_of(s@),
{
    match chrono::DateTime::parse_from_rfc3339(s) {
        Ok(dt) => Some(dt.timestamp_millis()),
        Err(_) => None,
    }
}

/// Parses a timestamp: a (possibly negative) decimal count of milliseconds,
/// or quoted calendar text.
fn parse_timestamp(v: &Vec<char>, i: &mut usize) -> (r: Result<i64, TrackError>)
    requires
        *old(i) <= v@.len(),
    ensures
        *old(i) <= *final(i) <= v@.len(),
        r matches Err(e) ==> e is MalformedSnapshot,
{
    match peek(v, i) {
        Some('"') => {
            let text = match parse_string(v, i) {
                Ok(t) => t,
                Err(e) => {
                    return Err(e);
                },
            };
            match parse_rfc3339_millis(text.as_str()) {
                Some(ms) => Ok(ms),
                None => Err(bad("bad calendar timestamp")),
            }
        },
        _ => parse_i64(v, i),
    }
}

/// Parses a (possibly negative) decimal integer.
fn parse_i64(v: &Vec<char>, i: &mut usize) -> (r: Result<i64, TrackError>)
    requires
        *old(i) <= v@.len(),
    ensures
        *old(i) <= *final(i) <= v@.len(),
        r matches Err(e) ==> e is MalformedSnapshot,
{
    skip_ws(v, i);
    let mut neg = false;
    if *i < v.len() && v[*i] == '-' {
        neg = true;
        *i = *i + 1;
    }
    if *i >= v.len() || !('0' <= v[*i] && v[*i] <= '9') {
        return Err(bad("expected a number"));
    }
    let mut n: i64 = 0;
    while *i < v.len() && '0' <= v[*i] && v[*i] <= '9'
        invariant
            *old(i) <= *i <= v@.len(),
            0 <= n,
        decreases v@.len() - *i,
    {
        let d = ((v[*i] as u32) - ('0' as u32)) as i64;
        if n > (i64::MAX - d) / 10 {
            return Err(bad("number out of range"));
        }
        n = n * 10 + d;
        *i = *i + 1;
    }
    if neg {
        Ok(-n)
    } else {
        Ok(n)
    }
}

/// Parses one item object (any member order; unknown status tokens normalize
/// to open; timestamps as numbers or calendar text).
fn parse_item(v: &Vec<char>, i: &mut usize) -> (r: Result<Item, TrackError>)
    requires
        *old(i) <= v@.len(),
    ensures
        *old(i) <= *final(i) <= v@.len(),
        r matches Err(e) ==> e is MalformedSnapshot,
{
    match expect_char(v, i, '{') {
        Ok(()) => {},
        Err(e) => {
            return Err(e);
        },
    }
    let mut id: Option<String> = None;
    let mut title: Option<String> = None;
    let mut description: Option<String> = None;
    let mut item_type = ItemType::Task;
    let mut status = Status::Open;
    let mut priority: u8 = 0;
    let mut claimed_by: Option<String> = None;
    let mut created_at: i64 = 0;
    let mut updated_at: i64 = 0;
    let mut first = true;
    let mut fuel: usize = usize::MAX;
    loop
        invariant
            *old(i) <= *i <= v@.len(),
        ensures
            *old(i) <= *i <= v@.len(),
        decreases fuel,
    {
        if fuel == 0 {
            return Err(bad("object does not end"));
        }
        fuel = fuel - 1;
        match peek(v, i) {
            Some('}') => {
                if *i < v.len() {
                    *i = *i + 1;
                }
                break ;
            },
            _ => {},
        }
        if !first {
            match expect_char(v, i, ',') {
                Ok(()) => {},
                Err(e) => {
                    return Err(e);
                },
            }
        }
        first = false;
        let key = match parse_string(v, i) {
            Ok(k) => k,
            Err(e) => {
                return Err(e);
            },
        };
        match expect_char(v, i, ':') {
            Ok(()) => {},
            Err(e) => {
                return Err(e);
            },
        }
        let k = key.as_str();
        if crate::strutil::str_eq(k, "id") {
            id = match parse_string(v, i) {
                Ok(s) => Some(s),
                Err(e) => {
                    return Err(e);
                },
            };
        } else if crate::strutil::str_eq(k, "title") {
            title = match parse_string(v, i) {
                Ok(s) => Some(s),
                Err(e) => {
                    return Err(e);
                },
            };
        } else if crate::strutil::str_eq(k, "description") {
            description = match parse_string(v, i) {
                Ok(s) => Some(s),
                Err(e) => {
                    return Err(e);
                },
            };
        } else if crate::strutil::str_eq(k, "item_type") {
            let t = match parse_string(v, i) {
                Ok(s) => s,
                Err(e) => {
                    return Err(e);
                },
            };
            if crate::strutil::str_eq(t.as_str(), "epic") {
                item_type = ItemType::Epic;
            } else if crate::strutil::str_eq(t.as_str(), "feature") {
                item_type = ItemType::Feature;
            } else if crate::strutil::str_eq(t.as_str(), "task") {
                item_type = ItemType::Task;
            } else {
                return Err(bad("unknown item type"));
            }
        } else if crate::strutil::str_eq(k, "status") {
            let t = match parse_string(v, i) {
                Ok(s) => s,
                Err(e) => {
                    return Err(e);
                },
            };
            status = status_from_snapshot_token(t.as_str());
        } else if crate::strutil::str_eq(k, "priority") {
            let n = match parse_i64(v, i) {
                Ok(n) => n,
                Err(e) => {
                    return Err(e);
                },
            };
            if n < 0 || n > 255 {
                return Err(bad("priority out of range"));
            }
            priority = n as u8;
        } else if crate::strutil::str_eq(k, "claimed_by") {
            claimed_by = match parse_string(v, i) {
                Ok(s) => Some(s),
                Err(e) => {
                    return Err(e);
                },
            };
        } else if crate::strutil::str_eq(k, "created_at") {
            created_at = match parse_timestamp(v, i) {
                Ok(n) => n,
                Err(e) => {
                    return Err(e);
                },
            };
        } else if crate::strutil::str_eq(k, "updated_at") {
            updated_at = match parse_timestamp(v, i) {
                Ok(n) => n,
                Err(e) => {
                    return Err(e);
                },
            };
        } else {
            return Err(bad("unknown item field"));
        }
    }
    let id = match id {
        Some(s) => s,
        None => {
            return Err(bad("item without id"));
        },
    };
    let title = match title {
        Some(s) => s,
        None => {
            return Err(bad("item without title"));
        },
    };
    Ok(
        Item {
            id,
            title,
            description,
            item_type,
            status,
            priority,
            claimed_by,
            created_at,
            updated_at,
        },
    )
}

/// Reads a document back from snapshot text. Every successful parse is a
/// well-formed document whose text opened a snapshot object, each items key
/// agreed with its item's embedded id, and the only failure is
/// `MalformedSnapshot` — parse failure is never silently recovered. (The
/// reader accepts any blank space, item member order, and timestamp form, so
/// its output is not in general the canonical rendering of the input.)
pub fn from_json(text: &str) -> (r: Result<Store, TrackError>)
    ensures
        match r {
            Ok(st) => store_wf(st@) && after_blanks(text@).len() > 0 && after_blanks(text@)[0]
                == '{',
            Err(TrackError::MalformedSnapshot(_)) => true,
            Err(_) => false,
        },
{
    let v = chars_of(text);
    let mut pos: usize = 0;
    let i = &mut pos;
    let mut store = Store::new();
    proof {
        assert(v@.skip(0) =~= text@);
    }
    match expect_char(&v, i, '{') {
        Ok(()) => {},
        Err(e) => {
            return Err(e);
        },
    }
    match parse_string(&v, i) {
        Ok(k) => {
            if !crate::strutil::str_eq(k.as_str(), "items") {
                return Err(bad("expected the items member"));
            }
        },
        Err(e) => {
            return Err(e);
        },
    }
    match expect_char(&v, i, ':') {
        Ok(()) => {},
        Err(e) => {
            return Err(e);
        },
    }
    match expect_char(&v, i, '{') {
        Ok(()) => {},
        Err(e) => {
            return Err(e);
        },
    }
    let mut first = true;
    let mut fuel: usize = usize::MAX;
    loop
        invariant
            *i <= v@.len(),
            store_wf(store@),
        ensures
            *i <= v@.len(),
            store_wf(store@),
        decreases fuel,
    {
        if fuel == 0 {
            return Err(bad("items do not end"));
        }
        fuel = fuel - 1;
        match peek(&v, i) {
            Some('}') => {
                if *i < v.len() {
                    *i = *i + 1;
                }
                break ;
            },
            _ => {},
        }
        if !first {
            match expect_char(&v, i, ',') {
                Ok(()) => {},
                Err(e) => {
                    return Err(e);
                },
            }
        }
        first = false;
        let key = match parse_string(&v, i) {
            Ok(key) => key,
            Err(e) => {
                return Err(e);
            },
        };
        match expect_char(&v, i, ':') {
            Ok(()) => {},
            Err(e) => {
                return Err(e);
            },
        }
        let item = match parse_item(&v, i) {
            Ok(it) => it,
            Err(e) => {
                return Err(e);
            },
        };
        if !crate::strutil::str_eq(key.as_str(), item.id.as_str()) {
            return Err(bad("items key differs from the item's id"));
        }
        store.put_item(item);
    }
    match expect_char(&v, i, ',') {
        Ok(()) => {},
        Err(e) => {
            return Err(e);
        },
    }
    match parse_string(&v, i) {
        Ok(k) => {
            if !crate::strutil::str_eq(k.as_str(), "deps") {
                return Err(bad("expected the deps member"));
            }
        },
        Err(e) => {
            return Err(e);
        },
    }
    match expect_char(&v, i, ':') {
        Ok(()) => {},
        Err(e) => {
            return Err(e);
        },
    }
    match expect_char(&v, i, '[') {
        Ok(()) => {},
        Err(e) => {
            return Err(e);
        },
    }
    let mut first_dep = true;
    let mut fuel2: usize = usize::MAX;
    loop
        invariant
            *i <= v@.len(),
            store_wf(store@),
        ensures
            *i <= v@.len(),
            store_wf(store@),
        decreases fuel2,
    {
        if fuel2 == 0 {
            return Err(bad("deps do not end"));
        }
        fuel2 = fuel2 - 1;
        match peek(&v, i) {
            Some(']') => {
                if *i < v.len() {
                    *i = *i + 1;
                }
                break ;
            },
            _ => {},
        }
        if !first_dep {
            match expect_char(&v, i, ',') {
                Ok(()) => {},
                Err(e) => {
                    return Err(e);
                },
            }
        }
        first_dep = false;
        let d = match parse_dep(&v, i) {
            Ok(d) => d,
            Err(e) => {
                return Err(e);
            },
        };
        store.deps.push(d);
    }
    match expect_char(&v, i, '}') {
        Ok(()) => {},
        Err(e) => {
            return Err(e);
        },
    }
    skip_ws(&v, i);
    if *i < v.len() {
        return Err(bad("trailing text after the snapshot"));
    }
    Ok(store)
}

/// Parses one dependency edge object.
fn parse_dep(v: &Vec<char>, i: &mut usize) -> (r: Result<Dep, TrackError>)
    requires
        *old(i) <= v@.len(),
    ensures
        *old(i) <= *final(i) <= v@.len(),
        r matches Err(e) ==> e is MalformedSnapshot,
{
    match expect_char(v, i, '{') {
        Ok(()) => {},
        Err(e) => {
            return Err(e);
        },
    }
    let mut from_id: Option<String> = None;
    let mut to_id: Option<String> = None;
    let mut dep_type = DepType::Blocks;
    let mut first = true;
    let mut fuel: usize = usize::MAX;
    loop
        invariant
            *old(i) <= *i <= v@.len(),
        ensures
            *old(i) <= *i <= v@.len(),
        decreases fuel,
    {
        if fuel == 0 {
            return Err(bad("edge does not end"));
        }
        fuel = fuel - 1;
        match peek(v, i) {
            Some('}') => {
                if *i < v.len() {
                    *i = *i + 1;
                }
                break ;
            },
            _ => {},
        }
        if !first {
            match expect_char(v, i, ',') {
                Ok(()) => {},
                Err(e) => {
                    return Err(e);
                },
            }
        }
        first = false;
        let key = match parse_string(v, i) {
            Ok(k) => k,
            Err(e) => {
                return Err(e);
            },
        };
        match expect_char(v, i, ':') {
            Ok(()) => {},
            Err(e) => {
                return Err(e);
            },
        }
        if crate::strutil::str_eq(key.as_str(), "from_id") {
            from_id = match parse_string(v, i) {
                Ok(s) => Some(s),
                Err(e) => {
                    return Err(e);
                },
            };
        } else if crate::strutil::str_eq(key.as_str(), "to_id") {
            to_id = match parse_string(v, i) {
                Ok(s) => Some(s),
                Err(e) => {
                    return Err(e);
                },
            };
        } else if crate::strutil::str_eq(key.as_str(), "dep_type") {
            let t = match parse_string(v, i) {
                Ok(s) => s,
                Err(e) => {
                    return Err(e);
                },
            };
            if crate::strutil::str_eq(t.as_str(), "parent") {
                dep_type = DepType::Parent;
            } else if crate::strutil::str_eq(t.as_str(), "blocks") {
                dep_type = DepType::Blocks;
            } else {
                return Err(bad("unknown edge kind"));
            }
        } else {
            return Err(bad("unknown edge field"));
        }
    }
    let from_id = match from_id {
        Some(s) => s,
        None => {
            return Err(bad("edge without source"));
        },
    };
    let to_id = match to_id {
        Some(s) => s,
        None => {
            return Err(bad("edge without target"));
        },
    };
    Ok(Dep { from_id, to_id, dep_type })
}

} // verus!
