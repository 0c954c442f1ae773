//! Canonical JSON text: quoted strings with the standard escapes, unsigned
//! and signed integers in decimal, booleans, fixed-point decimals with six
//! fractional digits, and comma-separated arrays.

use crate::decimal::Decimal;
use crate::digest::hex_digit;
use crate::text::{chars_of, lemma_lex_transitive, lex_lt, push_char};
use vstd::prelude::*;

verus! {

/// The escape of one character inside a JSON string: `"` and `\` are
/// backslash-escaped, control characters use their short form where JSON has
/// one and `\u00XX` (lowercase hex) otherwise; every other character stands
/// for itself.
pub open spec fn json_escape_char(c: char) -> Seq<char> {
    if c == '"' {
        seq!['\\', '"']
    } else if c == '\\' {
        seq!['\\', '\\']
    } else if c == '\x08' {
        seq!['\\', 'b']
    } else if c == '\x0c' {
        seq!['\\', 'f']
    } else if c == '\n' {
        seq!['\\', 'n']
    } else if c == '\r' {
        seq!['\\', 'r']
    } else if c == '\t' {
        seq!['\\', 't']
    } else if (c as int) < 0x20 {
        seq!['\\', 'u', '0', '0', hex_digit(c as int / 16), hex_digit(c as int % 16)]
    } else {
        seq![c]
    }
}

/// The escaped body of a JSON string.
pub open spec fn json_escape(s: Seq<char>) -> Seq<char>
    decreases s.len(),
{
    if s.len() == 0 {
        Seq::empty()
    } else {
        json_escape(s.drop_last()) + json_escape_char(s.last())
    }
}

/// A character that a JSON string holds as itself: printable, neither a
/// quote nor a backslash.
pub open spec fn json_plain_char(c: char) -> bool {
    0x20 <= (c as int) && c != '"' && c != '\\'
}

/// Text made of plain characters escapes to itself.
pub proof fn lemma_json_escape_plain(s: Seq<char>)
    requires
        forall|i: int| 0 <= i < s.len() ==> json_plain_char(#[trigger] s[i]),
    ensures
        json_escape(s) == s,
    decreases s.len(),
{
    if s.len() > 0 {
        lemma_json_escape_plain(s.drop_last());
        assert(json_plain_char(s[s.len() - 1]));
        assert(json_escape(s) =~= s.drop_last().push(s.last()));
        assert(s.drop_last().push(s.last()) =~= s);
    }
}

/// A JSON string literal.
pub open spec fn json_str(s: Seq<char>) -> Seq<char> {
    seq!['"'] + json_escape(s) + seq!['"']
}

/// The decimal digits of `n`, without leading zeros.
pub open spec fn decimal_digits(n: nat) -> Seq<char>
    decreases n,
{
    if n < 10 {
        seq![hex_digit(n as int)]
    } else {
        decimal_digits(n / 10) + seq![hex_digit((n % 10) as int)]
    }
}

/// A JSON integer.
pub open spec fn json_int(i: int) -> Seq<char> {
    if i < 0 {
        seq!['-'] + decimal_digits((-i) as nat)
    } else {
        decimal_digits(i as nat)
    }
}

/// A JSON boolean.
pub open spec fn json_bool(b: bool) -> Seq<char> {
    if b {
        seq!['t', 'r', 'u', 'e']
    } else {
        seq!['f', 'a', 'l', 's', 'e']
    }
}

/// JSON `null`.
pub open spec fn json_null() -> Seq<char> {
    seq!['n', 'u', 'l', 'l']
}

/// The six digits of `n` (below one million), zero-padded on the left.
pub open spec fn six_digits(n: int) -> Seq<char> {
    seq![
        hex_digit((n / 100000) % 10),
        hex_digit((n / 10000) % 10),
        hex_digit((n / 1000) % 10),
        hex_digit((n / 100) % 10),
        hex_digit((n / 10) % 10),
        hex_digit(n % 10),
    ]
}

/// A fixed-point number with exactly six fractional digits.
pub open spec fn json_decimal(d: Decimal) -> Seq<char> {
    decimal_digits((d.micros / 1_000_000) as nat) + seq!['.'] + six_digits(
        (d.micros % 1_000_000) as int,
    )
}

/// The elements of an array, separated by commas.
pub open spec fn json_list(items: Seq<Seq<char>>) -> Seq<char>
    decreases items.len(),
{
    if items.len() == 0 {
        Seq::empty()
    } else if items.len() == 1 {
        items[0]
    } else {
        json_list(items.drop_last()) + seq![','] + items.last()
    }
}

/// A JSON array whose elements are already rendered.
pub open spec fn json_array(items: Seq<Seq<char>>) -> Seq<char> {
    seq!['['] + json_list(items) + seq![']']
}

/// An array of JSON strings.
pub open spec fn json_str_array(v: Seq<Seq<char>>) -> Seq<char> {
    json_array(Seq::new(v.len(), |i: int| json_str(v[i])))
}

/// Adding one element to a list adds a comma and the element (no comma
/// before the first).
pub proof fn lemma_json_list_push(items: Seq<Seq<char>>, x: Seq<char>)
    ensures
        json_list(items.push(x)) == json_list(items) + (if items.len() == 0 {
            Seq::<char>::empty()
        } else {
            seq![',']
        }) + x,
{
    assert(items.push(x).drop_last() =~= items);
    if items.len() == 0 {
        assert(json_list(items.push(x)) == x);
        assert(Seq::<char>::empty() + Seq::<char>::empty() + x =~= x);
    }
}

/// One member of an object: the key in quotes, a colon, and the value.
pub open spec fn member(key: Seq<char>, value: Seq<char>) -> Seq<char> {
    seq!['"'] + key + seq!['"', ':'] + value
}

/// A JSON object whose members, keys with rendered values, come in the
/// order given.
pub open spec fn json_object(ms: Seq<(Seq<char>, Seq<char>)>) -> Seq<char> {
    seq!['{'] + json_list(Seq::new(ms.len(), |i: int| member(ms[i].0, ms[i].1))) + seq!['}']
}

/// The keys of a member list.
pub open spec fn keys_of(ms: Seq<(Seq<char>, Seq<char>)>) -> Seq<Seq<char>> {
    Seq::new(ms.len(), |i: int| ms[i].0)
}

/// The keys of `ms` are in strictly ascending order.
pub open spec fn keys_ascending(ms: Seq<(Seq<char>, Seq<char>)>) -> bool {
    forall|i: int, j: int| 0 <= i < j < ms.len() ==> lex_lt(#[trigger] ms[i].0, #[trigger] ms[j].0)
}

/// Keys that ascend from each one to the next ascend throughout.
pub proof fn lemma_keys_ascending(ms: Seq<(Seq<char>, Seq<char>)>)
    requires
        forall|i: int| 0 <= i < ms.len() - 1 ==> lex_lt(#[trigger] ms[i].0, ms[i + 1].0),
    ensures
        keys_ascending(ms),
{
    assert forall|i: int, j: int| 0 <= i < j < ms.len() implies lex_lt(
        #[trigger] ms[i].0,
        #[trigger] ms[j].0,
    ) by {
        lemma_keys_ascending_from(ms, i, j);
    }
}

proof fn lemma_keys_ascending_from(ms: Seq<(Seq<char>, Seq<char>)>, i: int, j: int)
    requires
        forall|k: int| 0 <= k < ms.len() - 1 ==> lex_lt(#[trigger] ms[k].0, ms[k + 1].0),
        0 <= i < j < ms.len(),
    ensures
        lex_lt(ms[i].0, ms[j].0),
    decreases j - i,
{
    if j > i + 1 {
        lemma_keys_ascending_from(ms, i, j - 1);
        assert(lex_lt(ms[j - 1].0, ms[j].0));
        lemma_lex_transitive(ms[i].0, ms[j - 1].0, ms[j].0);
    }
}

/// Writing one more member after the members `items` extends the list.
pub proof fn lemma_object_step(
    s0: Seq<char>,
    items: Seq<Seq<char>>,
    before: Seq<char>,
    after: Seq<char>,
    first: bool,
    key: Seq<char>,
    value: Seq<char>,
)
    requires
        before == s0 + json_list(items),
        first <==> items.len() == 0,
        after == before + (if first {
            Seq::<char>::empty()
        } else {
            seq![',']
        }) + seq!['"'] + key + seq!['"', ':'] + value,
    ensures
        after == s0 + json_list(items.push(member(key, value))),
{
    lemma_json_list_push(items, member(key, value));
    assert(after =~= s0 + json_list(items.push(member(key, value))));
}

/// Appends the start of a member: a comma unless it is the first, and the
/// key in quotes with its colon. The key is written as it is, unescaped.
pub fn push_member(out: &mut String, first: bool, key: &str)
    ensures
        final(out)@ == old(out)@ + (if first {
            Seq::<char>::empty()
        } else {
            seq![',']
        }) + seq!['"'] + key@ + seq!['"', ':'],
{
    if !first {
        push_char(out, ',');
    }
    push_char(out, '"');
    out.append(key);
    push_char(out, '"');
    push_char(out, ':');
    assert(final(out)@ =~= old(out)@ + (if first {
        Seq::<char>::empty()
    } else {
        seq![',']
    }) + seq!['"'] + key@ + seq!['"', ':']);
}

/// `String::push_str` for a string slice, via vstd's `append`.
pub fn push_str(out: &mut String, s: &str)
    ensures
        final(out)@ == old(out)@ + s@,
{
    out.append(s);
}

/// The digit character for `d` below ten.
fn digit_char(d: u64) -> (c: char)
    requires
        d < 10,
    ensures
        c == hex_digit(d as int),
{
    match d {
        0 => '0',
        1 => '1',
        2 => '2',
        3 => '3',
        4 => '4',
        5 => '5',
        6 => '6',
        7 => '7',
        8 => '8',
        _ => '9',
    }
}

/// Appends the decimal digits of `n`.
pub fn push_uint(out: &mut String, n: u64)
    ensures
        final(out)@ == old(out)@ + decimal_digits(n as nat),
    decreases n,
{
    if n >= 10 {
        push_uint(out, n / 10);
    }
    push_char(out, digit_char(n % 10));
    proof {
        if n >= 10 {
            assert(final(out)@ =~= old(out)@ + decimal_digits(n as nat));
        } else {
            assert(final(out)@ =~= old(out)@ + decimal_digits(n as nat));
        }
    }
}

/// Appends a JSON integer.
pub fn push_int(out: &mut String, i: i32)
    ensures
        final(out)@ == old(out)@ + json_int(i as int),
{
    if i < 0 {
        push_char(out, '-');
        let m: u64 = (0i64 - (i as i64)) as u64;
        push_uint(out, m);
        assert(final(out)@ =~= old(out)@ + json_int(i as int));
    } else {
        push_uint(out, i as u64);
    }
}

/// Appends `true` or `false`.
pub fn push_bool(out: &mut String, b: bool)
    ensures
        final(out)@ == old(out)@ + json_bool(b),
{
    if b {
        push_char(out, 't');
        push_char(out, 'r');
        push_char(out, 'u');
        push_char(out, 'e');
    } else {
        push_char(out, 'f');
        push_char(out, 'a');
        push_char(out, 'l');
        push_char(out, 's');
        push_char(out, 'e');
    }
    assert(final(out)@ =~= old(out)@ + json_bool(b));
}

/// Appends `null`.
pub fn push_null(out: &mut String)
    ensures
        final(out)@ == old(out)@ + json_null(),
{
    push_char(out, 'n');
    push_char(out, 'u');
    push_char(out, 'l');
    push_char(out, 'l');
    assert(final(out)@ =~= old(out)@ + json_null());
}

/// Appends a fixed-point decimal with six fractional digits.
pub fn push_decimal(out: &mut String, d: Decimal)
    ensures
        final(out)@ == old(out)@ + json_decimal(d),
{
    let whole = d.micros / 1_000_000;
    let frac = d.micros % 1_000_000;
    push_uint(out, whole);
    push_char(out, '.');
    push_char(out, digit_char((frac / 100000) % 10));
    push_char(out, digit_char((frac / 10000) % 10));
    push_char(out, digit_char((frac / 1000) % 10));
    push_char(out, digit_char((frac / 100) % 10));
    push_char(out, digit_char((frac / 10) % 10));
    push_char(out, digit_char(frac % 10));
    assert(final(out)@ =~= old(out)@ + json_decimal(d));
}

/// The escape of one character, written out.
fn push_escaped_char(out: &mut String, c: char)
    ensures
        final(out)@ == old(out)@ + json_escape_char(c),
{
    let u = c as u32;
    if c == '"' {
        push_char(out, '\\');
        push_char(out, '"');
    } else if c == '\\' {
        push_char(out, '\\');
        push_char(out, '\\');
    } else if c == '\x08' {
        push_char(out, '\\');
        push_char(out, 'b');
    } else if c == '\x0c' {
        push_char(out, '\\');
        push_char(out, 'f');
    } else if c == '\n' {
        push_char(out, '\\');
        push_char(out, 'n');
    } else if c == '\r' {
        push_char(out, '\\');
        push_char(out, 'r');
    } else if c == '\t' {
        push_char(out, '\\');
        push_char(out, 't');
    } else if u < 0x20 {
        push_char(out, '\\');
        push_char(out, 'u');
        push_char(out, '0');
        push_char(out, '0');
        push_char(out, digit_char((u / 16) as u64));
        push_char(out, crate::digest::hex_char((u % 16) as u8));
    } else {
        push_char(out, c);
    }
    assert(final(out)@ =~= old(out)@ + json_escape_char(c));
}

/// Appends `s` as a JSON string literal.
pub fn push_json_str(out: &mut String, s: &str)
    ensures
        final(out)@ == old(out)@ + json_str(s@),
{
    let cs = chars_of(s);
    push_char(out, '"');
    let ghost start = out@;
    let n = cs.len();
    let mut i: usize = 0;
    assert(cs@.take(0) =~= Seq::<char>::empty());
    while i < n
        invariant
            n == cs@.len(),
            i <= n,
            out@ == start + json_escape(cs@.take(i as int)),
        decreases n - i,
    {
        let c = cs[i];
        push_escaped_char(out, c);
        assert(cs@.take(i + 1).drop_last() =~= cs@.take(i as int));
        assert(cs@.take(i + 1).last() == c);
        i = i + 1;
    }
    assert(cs@.take(n as int) =~= cs@);
    push_char(out, '"');
    assert(final(out)@ =~= old(out)@ + json_str(s@));
}

/// Appends `o` as a JSON string, or `null` when absent.
pub fn push_opt_str(out: &mut String, o: &Option<String>)
    ensures
        final(out)@ == old(out)@ + match o {
            Some(s) => json_str(s@),
            None => json_null(),
        },
{
    match o {
        Some(s) => push_json_str(out, s.as_str()),
        None => push_null(out),
    }
}

/// Appends `o` as a JSON integer, or `null` when absent.
pub fn push_opt_uint(out: &mut String, o: Option<u64>)
    ensures
        final(out)@ == old(out)@ + match o {
            Some(n) => decimal_digits(n as nat),
            None => json_null(),
        },
{
    match o {
        Some(n) => push_uint(out, n),
        None => push_null(out),
    }
}

/// Appends an array of JSON strings.
pub fn push_str_array(out: &mut String, v: &Vec<String>)
    ensures
        final(out)@ == old(out)@ + json_str_array(Seq::new(v@.len(), |i: int| v@[i]@)),
{
    let ghost items = Seq::new(v@.len(), |i: int| json_str(v@[i]@));
    push_char(out, '[');
    let ghost start = out@;
    let n = v.len();
    let mut i: usize = 0;
    assert(items.take(0) =~= Seq::<Seq<char>>::empty());
    while i < n
        invariant
            n == v@.len(),
            i <= n,
            items == Seq::new(v@.len(), |i: int| json_str(v@[i]@)),
            out@ == start + json_list(items.take(i as int)),
        decreases n - i,
    {
        if i > 0 {
            push_char(out, ',');
        }
        push_json_str(out, v[i].as_str());
        proof {
            lemma_json_list_push(items.take(i as int), items[i as int]);
            assert(items.take(i as int).push(items[i as int]) =~= items.take(i + 1));
            assert(out@ =~= start + json_list(items.take(i + 1)));
        }
        i = i + 1;
    }
    assert(items.take(n as int) =~= items);
    push_char(out, ']');
    let ghost sv = Seq::new(v@.len(), |i: int| v@[i]@);
    assert(Seq::new(sv.len(), |i: int| json_str(sv[i])) =~= items);
    assert(final(out)@ =~= old(out)@ + json_str_array(sv));
}

} // verus!
