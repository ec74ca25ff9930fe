use vstd::prelude::*;
use crate::card::{Card, CardModel, cards_view, opt_view};
use crate::deck::same_text;
use crate::text::{char_from_u32, chars_of, push_char};
use crate::fields::{all_digits, capped, decimal_value, digit_value, is_digit, lemma_capped_step};

verus! {

broadcast use vstd::utf8::char_u32_cast;

// ---------------------------------------------------------------------------
// The persisted form: a JSON array of card objects. It is written with keys
// in a fixed order, no whitespace, strings escaped as a compact JSON writer
// escapes them; it is read with whitespace between tokens, keys in any order
// and the optional keys left out.
// ---------------------------------------------------------------------------

/// The pieces `f` gives for each item of `s`, joined in order.
pub open spec fn concat_map<A>(s: Seq<A>, f: spec_fn(A) -> Seq<char>) -> Seq<char>
    decreases s.len(),
{
    if s.len() == 0 {
        Seq::empty()
    } else {
        f(s[0]) + concat_map(s.skip(1), f)
    }
}

pub proof fn lemma_concat_map_push<A>(s: Seq<A>, x: A, f: spec_fn(A) -> Seq<char>)
    ensures
        concat_map(s.push(x), f) == concat_map(s, f) + f(x),
    decreases s.len(),
{
    if s.len() == 0 {
        assert(s.push(x).skip(1) =~= Seq::<A>::empty());
        assert(s.push(x)[0] == x);
        assert(concat_map(s.push(x).skip(1), f) == Seq::<char>::empty());
        assert(concat_map(s.push(x), f) =~= f(x));
        assert(concat_map(s, f) == Seq::<char>::empty());
    } else {
        assert(s.push(x).skip(1) =~= s.skip(1).push(x));
        lemma_concat_map_push(s.skip(1), x, f);
        assert(s.push(x)[0] == s[0]);
        assert(concat_map(s.push(x), f) =~= concat_map(s, f) + f(x));
    }
}

pub open spec fn hex_char(n: nat) -> char {
    if n < 10 {
        ((n + 48) as u32) as char
    } else {
        ((n + 87) as u32) as char
    }
}

/// How one character of a string is written inside quotes.
pub open spec fn escape_char(c: char) -> Seq<char> {
    if c == '"' {
        seq!['\\', '"']
    } else if c == '\\' {
        seq!['\\', '\\']
    } else if c == '\n' {
        seq!['\\', 'n']
    } else if c == '\r' {
        seq!['\\', 'r']
    } else if c == '\t' {
        seq!['\\', 't']
    } else if c == '\x08' {
        seq!['\\', 'b']
    } else if c == '\x0c' {
        seq!['\\', 'f']
    } else if (c as u32) < 0x20 {
        seq!['\\', 'u', '0', '0', hex_char((c as u32 / 16) as nat), hex_char((c as u32 % 16) as nat)]
    } else {
        seq![c]
    }
}

pub open spec fn escape_fn() -> spec_fn(char) -> Seq<char> {
    |c: char| escape_char(c)
}

pub open spec fn escaped(s: Seq<char>) -> Seq<char> {
    concat_map(s, escape_fn())
}

pub open spec fn quoted(s: Seq<char>) -> Seq<char> {
    seq!['"'] + escaped(s) + seq!['"']
}

pub open spec fn digit_char(n: nat) -> char {
    ((n + 48) as u32) as char
}

/// The decimal digits of `n`, without leading zeros.
pub open spec fn decimal(n: nat) -> Seq<char>
    decreases n,
{
    if n < 10 {
        seq![digit_char(n)]
    } else {
        decimal(n / 10).push(digit_char(n % 10))
    }
}

pub open spec fn encode_opt_text(o: Option<Seq<char>>) -> Seq<char> {
    match o {
        Some(s) => quoted(s),
        None => "null"@,
    }
}

pub open spec fn encode_opt_u32(o: Option<u32>) -> Seq<char> {
    match o {
        Some(n) => decimal(n as nat),
        None => "null"@,
    }
}

/// One key and its written value.
pub open spec fn member(key: Seq<char>, value: Seq<char>) -> Seq<char> {
    quoted(key) + ":"@ + value
}

#[verifier::opaque]
pub open spec fn encode_card(c: CardModel) -> Seq<char> {
    "{"@ + member("title"@, encode_opt_text(c.title)) + ","@ + member("text"@, quoted(c.text))
        + ","@ + member("background"@, encode_opt_text(c.background)) + ","@ + member(
        "turns"@,
        encode_opt_u32(c.turns),
    ) + "}"@
}

pub open spec fn encode_later_card(c: CardModel) -> Seq<char> {
    ","@ + encode_card(c)
}

pub open spec fn later_fn() -> spec_fn(CardModel) -> Seq<char> {
    |c: CardModel| encode_later_card(c)
}

/// The persisted form of a deck.
pub open spec fn encode_deck(cs: Seq<CardModel>) -> Seq<char> {
    if cs.len() == 0 {
        "[]"@
    } else {
        "["@ + encode_card(cs[0]) + concat_map(cs.skip(1), later_fn())
            + "]"@
    }
}

// ---------------------------------------------------------------------------
// Reading the persisted form back. Each reader takes the text still to be
// read and gives what it read with the text that follows.
// ---------------------------------------------------------------------------

pub open spec fn read_lit(t: Seq<char>, l: Seq<char>) -> Option<Seq<char>> {
    if l.len() <= t.len() && t.take(l.len() as int) == l {
        Some(t.skip(l.len() as int))
    } else {
        None
    }
}

pub open spec fn is_hex(c: char) -> bool {
    ('0' <= c && c <= '9') || ('a' <= c && c <= 'f') || ('A' <= c && c <= 'F')
}

pub open spec fn hex_value(c: char) -> nat {
    if '0' <= c && c <= '9' {
        (c as u32 - 48) as nat
    } else if 'a' <= c && c <= 'f' {
        (c as u32 - 87) as nat
    } else {
        (c as u32 - 55) as nat
    }
}

/// The value of four hex digits of `t` from `i` on.
pub open spec fn hex4(t: Seq<char>, i: int) -> Option<nat> {
    if 0 <= i && i + 4 <= t.len() && is_hex(t[i]) && is_hex(t[i + 1]) && is_hex(t[i + 2])
        && is_hex(t[i + 3]) {
        Some(
            hex_value(t[i]) * 4096 + hex_value(t[i + 1]) * 256 + hex_value(t[i + 2]) * 16
                + hex_value(t[i + 3]),
        )
    } else {
        None
    }
}

/// A `\u` escape: a character outside the surrogate range, or a high
/// surrogate followed by an escaped low surrogate.
pub open spec fn read_unicode_escape(t: Seq<char>) -> Option<(char, int)> {
    match hex4(t, 2) {
        None => None,
        Some(u) => if 0xD800 <= u <= 0xDBFF {
            if t.len() >= 12 && t[6] == '\\' && t[7] == 'u' {
                match hex4(t, 8) {
                    Some(l) => if 0xDC00 <= l <= 0xDFFF {
                        Some(((0x10000 + (u - 0xD800) * 1024 + (l - 0xDC00)) as u32 as char, 12))
                    } else {
                        None
                    },
                    None => None,
                }
            } else {
                None
            }
        } else if 0xDC00 <= u <= 0xDFFF {
            None
        } else {
            Some(((u as u32) as char, 6))
        },
    }
}

/// The character that an escape at the front of `t` stands for, with its length.
#[verifier::opaque]
pub open spec fn read_escape(t: Seq<char>) -> Option<(char, int)> {
    if t.len() < 2 {
        None
    } else if t[1] == '"' {
        Some(('"', 2))
    } else if t[1] == '\\' {
        Some(('\\', 2))
    } else if t[1] == '/' {
        Some(('/', 2))
    } else if t[1] == 'n' {
        Some(('\n', 2))
    } else if t[1] == 'r' {
        Some(('\r', 2))
    } else if t[1] == 't' {
        Some(('\t', 2))
    } else if t[1] == 'b' {
        Some(('\x08', 2))
    } else if t[1] == 'f' {
        Some(('\x0c', 2))
    } else if t[1] == 'u' {
        read_unicode_escape(t)
    } else {
        None
    }
}

/// The character at the front of a string body, with its written length.
pub open spec fn read_char(t: Seq<char>) -> Option<(char, int)> {
    if t.len() == 0 || t[0] == '"' {
        None
    } else if t[0] == '\\' {
        read_escape(t)
    } else if (t[0] as u32) < 0x20 {
        None
    } else {
        Some((t[0], 1))
    }
}

/// A string body up to its closing quote.
pub open spec fn read_body(t: Seq<char>) -> Option<(Seq<char>, Seq<char>)>
    decreases t.len(),
{
    if t.len() == 0 {
        None
    } else if t[0] == '"' {
        Some((Seq::empty(), t.skip(1)))
    } else {
        match read_char(t) {
            Some((c, k)) => if 1 <= k <= t.len() {
                match read_body(t.skip(k)) {
                    Some((v, r)) => Some((seq![c] + v, r)),
                    None => None,
                }
            } else {
                None
            },
            None => None,
        }
    }
}

pub open spec fn read_text(t: Seq<char>) -> Option<(Seq<char>, Seq<char>)> {
    if t.len() > 0 && t[0] == '"' {
        read_body(t.skip(1))
    } else {
        None
    }
}

pub open spec fn read_opt_text(t: Seq<char>) -> Option<(Option<Seq<char>>, Seq<char>)> {
    match read_lit(t, "null"@) {
        Some(r) => Some((None, r)),
        None => match read_text(t) {
            Some((v, r)) => Some((Some(v), r)),
            None => None,
        },
    }
}

/// How many digits stand at the front of `t`. A number of more than one
/// digit may not start with `0`.
pub open spec fn digit_run(t: Seq<char>) -> nat
    decreases t.len(),
{
    if t.len() > 0 && is_digit(t[0]) {
        1 + digit_run(t.skip(1))
    } else {
        0
    }
}

pub open spec fn read_u32(t: Seq<char>) -> Option<(u32, Seq<char>)> {
    let n = digit_run(t) as int;
    if n > 0 && (n == 1 || t[0] != '0') && decimal_value(t.take(n)) <= u32::MAX {
        Some((decimal_value(t.take(n)) as u32, t.skip(n)))
    } else {
        None
    }
}

pub open spec fn read_opt_u32(t: Seq<char>) -> Option<(Option<u32>, Seq<char>)> {
    match read_lit(t, "null"@) {
        Some(r) => Some((None, r)),
        None => match read_u32(t) {
            Some((v, r)) => Some((Some(v), r)),
            None => None,
        },
    }
}

pub open spec fn is_ws(c: char) -> bool {
    c == ' ' || c == '\t' || c == '\n' || c == '\r'
}

/// What follows the whitespace at the front of `t`.
pub open spec fn skip_ws(t: Seq<char>) -> Seq<char>
    decreases t.len(),
{
    if t.len() > 0 && is_ws(t[0]) {
        skip_ws(t.skip(1))
    } else {
        t
    }
}

/// The fields of a card object read so far; `None` for a key not seen yet.
pub struct SeenFields {
    pub title: Option<Option<Seq<char>>>,
    pub text: Option<Seq<char>>,
    pub background: Option<Option<Seq<char>>>,
    pub turns: Option<Option<u32>>,
}

pub open spec fn none_seen() -> SeenFields {
    SeenFields { title: None, text: None, background: None, turns: None }
}

pub open spec fn or_absent<A>(o: Option<Option<A>>) -> Option<A> {
    match o {
        Some(v) => v,
        None => None,
    }
}

/// The value of key `k` at the front of `t`. A key seen before, or one that
/// a card does not have, is refused.
pub open spec fn read_value(k: Seq<char>, t: Seq<char>, p: SeenFields) -> Option<
    (SeenFields, Seq<char>),
> {
    if k == "title"@ && p.title is None {
        match read_opt_text(t) {
            Some((v, r)) => Some((SeenFields { title: Some(v), ..p }, r)),
            None => None,
        }
    } else if k == "text"@ && p.text is None {
        match read_text(t) {
            Some((v, r)) => Some((SeenFields { text: Some(v), ..p }, r)),
            None => None,
        }
    } else if k == "background"@ && p.background is None {
        match read_opt_text(t) {
            Some((v, r)) => Some((SeenFields { background: Some(v), ..p }, r)),
            None => None,
        }
    } else if k == "turns"@ && p.turns is None {
        match read_opt_u32(t) {
            Some((v, r)) => Some((SeenFields { turns: Some(v), ..p }, r)),
            None => None,
        }
    } else {
        None
    }
}

/// The members of an object up to and including its closing brace.
#[verifier::opaque]
pub open spec fn read_members(t: Seq<char>, p: SeenFields) -> Option<(SeenFields, Seq<char>)>
    decreases t.len(),
{
    match read_text(t) {
        None => None,
        Some((k, t1)) => match read_lit(skip_ws(t1), ":"@) {
            None => None,
            Some(t2) => match read_value(k, skip_ws(t2), p) {
                None => None,
                Some((p2, t3)) => {
                    let t4 = skip_ws(t3);
                    if t4.len() > 0 && t4[0] == '}' {
                        Some((p2, t4.skip(1)))
                    } else if t4.len() > 0 && t4[0] == ',' {
                        let t5 = skip_ws(t4.skip(1));
                        if t5.len() < t.len() {
                            read_members(t5, p2)
                        } else {
                            None
                        }
                    } else {
                        None
                    }
                },
            },
        },
    }
}

/// A card object; its text must be there, the other keys may be left out.
pub open spec fn read_card(t: Seq<char>) -> Option<(CardModel, Seq<char>)> {
    if t.len() > 0 && t[0] == '{' {
        match read_members(skip_ws(t.skip(1)), none_seen()) {
            Some((p, r)) => match p.text {
                Some(text) => Some(
                    (
                        CardModel {
                            title: or_absent(p.title),
                            text,
                            background: or_absent(p.background),
                            turns: or_absent(p.turns),
                        },
                        r,
                    ),
                ),
                None => None,
            },
            None => None,
        }
    } else {
        None
    }
}

/// The cards that follow the first one, each after a comma, and the text
/// after them from the first character that is not whitespace.
pub open spec fn read_later_cards(t: Seq<char>) -> Option<(Seq<CardModel>, Seq<char>)>
    decreases t.len(),
{
    let t0 = skip_ws(t);
    if t0.len() > 0 && t0[0] == ',' {
        match read_card(skip_ws(t0.skip(1))) {
            Some((c, t2)) => if t2.len() < t.len() {
                match read_later_cards(t2) {
                    Some((cs, r)) => Some((seq![c] + cs, r)),
                    None => None,
                }
            } else {
                None
            },
            None => None,
        }
    } else {
        Some((Seq::empty(), t0))
    }
}

/// Whether `t` holds nothing but whitespace.
pub open spec fn blank(t: Seq<char>) -> bool {
    skip_ws(t).len() == 0
}

/// The deck that a whole text holds, if it is a JSON array of card objects.
pub open spec fn decode_deck(t: Seq<char>) -> Option<Seq<CardModel>> {
    match read_lit(skip_ws(t), "["@) {
        None => None,
        Some(t1) => {
            let t2 = skip_ws(t1);
            if t2.len() > 0 && t2[0] == ']' {
                if blank(t2.skip(1)) {
                    Some(Seq::empty())
                } else {
                    None
                }
            } else {
                match read_card(t2) {
                    None => None,
                    Some((c, t3)) => match read_later_cards(t3) {
                        None => None,
                        Some((cs, t4)) => if t4.len() > 0 && t4[0] == ']' && blank(t4.skip(1)) {
                            Some(seq![c] + cs)
                        } else {
                            None
                        },
                    },
                }
            }
        },
    }
}

// ---------------------------------------------------------------------------
// Reading back what was written.
// ---------------------------------------------------------------------------

pub proof fn lemma_read_lit(l: Seq<char>, r: Seq<char>)
    ensures
        read_lit(l + r, l) == Some(r),
{
    assert((l + r).take(l.len() as int) =~= l);
    assert((l + r).skip(l.len() as int) =~= r);
}

proof fn lemma_hex_char(n: nat)
    requires
        n < 16,
    ensures
        is_hex(hex_char(n)),
        hex_value(hex_char(n)) == n,
{
}

proof fn lemma_read_escaped_char(c: char, x: Seq<char>)
    ensures
        escape_char(c).len() >= 1,
        (escape_char(c) + x)[0] != '"',
        read_char(escape_char(c) + x) == Some((c, escape_char(c).len() as int)),
{
    reveal(read_escape);
    let t = escape_char(c) + x;
    let n = c as u32;
    if c == '"' || c == '\\' || c == '\n' || c == '\r' || c == '\t' || c == '\x08' || c
        == '\x0c' {
    } else if n < 0x20 {
        lemma_hex_char((n / 16) as nat);
        lemma_hex_char((n % 16) as nat);
        assert(t[4] == hex_char((n / 16) as nat));
        assert(t[5] == hex_char((n % 16) as nat));
        lemma_hex_char(0);
        assert(hex4(t, 2) == Some(n as nat));
    } else {
    }
}

pub proof fn lemma_read_body(v: Seq<char>, r: Seq<char>)
    ensures
        read_body(escaped(v) + seq!['"'] + r) == Some((v, r)),
    decreases v.len(),
{
    let t = escaped(v) + seq!['"'] + r;
    if v.len() == 0 {
        assert(escaped(v) == Seq::<char>::empty());
        assert(t =~= seq!['"'] + r);
        assert(t.skip(1) =~= r);
    } else {
        let e = escape_char(v[0]);
        let rest = escaped(v.skip(1)) + seq!['"'] + r;
        assert(t =~= e + rest);
        lemma_read_escaped_char(v[0], rest);
        assert(t.skip(e.len() as int) =~= rest);
        lemma_read_body(v.skip(1), r);
        assert(seq![v[0]] + v.skip(1) =~= v);
    }
}

pub proof fn lemma_read_text(v: Seq<char>, r: Seq<char>)
    ensures
        read_text(quoted(v) + r) == Some((v, r)),
{
    let t = quoted(v) + r;
    assert(t.skip(1) =~= escaped(v) + seq!['"'] + r);
    lemma_read_body(v, r);
}

pub proof fn lemma_read_opt_text(o: Option<Seq<char>>, r: Seq<char>)
    ensures
        read_opt_text(encode_opt_text(o) + r) == Some((o, r)),
{
    reveal_strlit("null");
    match o {
        None => {
            lemma_read_lit("null"@, r);
        },
        Some(v) => {
            let t = quoted(v) + r;
            assert(t[0] == '"');
            if 4 <= t.len() {
                assert(t.take(4)[0] == t[0]);
            }
            lemma_read_text(v, r);
        },
    }
}

proof fn lemma_decimal(n: nat)
    ensures
        decimal(n).len() >= 1,
        all_digits(decimal(n)),
        decimal_value(decimal(n)) == n,
        n >= 10 ==> decimal(n)[0] != '0',
    decreases n,
{
    if n >= 10 {
        lemma_decimal(n / 10);
        let d = decimal(n);
        assert(d.drop_last() =~= decimal(n / 10));
        assert(d[0] == decimal(n / 10)[0]);
        assert(d.last() == digit_char(n % 10));
        assert(digit_value(d.last()) == n % 10);
        assert((n / 10) * 10 + n % 10 == n);
        assert(decimal_value(d) == decimal_value(decimal(n / 10)) * 10 + n % 10);
        assert forall|i: int| 0 <= i < d.len() implies is_digit(#[trigger] d[i]) by {
            if i < d.len() - 1 {
                assert(d[i] == decimal(n / 10)[i]);
            }
        }
    } else {
        assert(decimal(n).drop_last() =~= Seq::<char>::empty());
        assert(decimal(n).last() == digit_char(n));
        assert(digit_value(digit_char(n)) == n);
        assert(decimal_value(Seq::<char>::empty()) == 0);
        assert(decimal_value(decimal(n)) == decimal_value(decimal(n).drop_last()) * 10 + n);
        assert(is_digit(decimal(n)[0]));
    }
}

proof fn lemma_digit_run(d: Seq<char>, r: Seq<char>)
    requires
        all_digits(d),
        r.len() == 0 || !is_digit(r[0]),
    ensures
        digit_run(d + r) == d.len(),
    decreases d.len(),
{
    if d.len() == 0 {
        assert(d + r =~= r);
    } else {
        assert((d + r)[0] == d[0]);
        assert((d + r).skip(1) =~= d.skip(1) + r);
        assert(all_digits(d.skip(1))) by {
            assert forall|i: int| 0 <= i < d.skip(1).len() implies is_digit(
                #[trigger] d.skip(1)[i],
            ) by {
                assert(d.skip(1)[i] == d[i + 1]);
            }
        }
        lemma_digit_run(d.skip(1), r);
    }
}

pub proof fn lemma_read_opt_u32(o: Option<u32>, r: Seq<char>)
    requires
        r.len() == 0 || !is_digit(r[0]),
    ensures
        read_opt_u32(encode_opt_u32(o) + r) == Some((o, r)),
{
    reveal_strlit("null");
    match o {
        None => {
            lemma_read_lit("null"@, r);
        },
        Some(n) => {
            let d = decimal(n as nat);
            let t = d + r;
            lemma_decimal(n as nat);
            lemma_digit_run(d, r);
            assert(is_digit(t[0]));
            if 4 <= t.len() {
                assert(t.take(4)[0] == t[0]);
            }
            assert(t.take(d.len() as int) =~= d);
            assert(t.skip(d.len() as int) =~= r);
        },
    }
}

proof fn lemma_no_ws(t: Seq<char>)
    requires
        t.len() == 0 || !is_ws(t[0]),
    ensures
        skip_ws(t) == t,
{
}

proof fn lemma_read_member(
    k: Seq<char>,
    v: Seq<char>,
    after: Seq<char>,
    p: SeenFields,
    p2: SeenFields,
)
    requires
        v.len() > 0 && !is_ws(v[0]),
        read_value(k, v + after, p) == Some((p2, after)),
        after.len() > 0 && (after[0] == '}' || after[0] == ','),
        after[0] == ',' ==> after.len() > 1 && !is_ws(after[1]),
    ensures
        read_members(member(k, v) + after, p) == if after[0] == '}' {
            Some((p2, after.skip(1)))
        } else {
            read_members(after.skip(1), p2)
        },
{
    reveal(read_members);
    reveal_strlit(":");
    let t = member(k, v) + after;
    let t1 = ":"@ + (v + after);
    assert(t =~= quoted(k) + t1);
    lemma_read_text(k, t1);
    lemma_no_ws(t1);
    lemma_read_lit(":"@, v + after);
    lemma_no_ws(v + after);
    lemma_no_ws(after);
    if after[0] == ',' {
        lemma_no_ws(after.skip(1));
    }
}

#[verifier::rlimit(80)]
pub proof fn lemma_read_card(c: CardModel, r: Seq<char>)
    requires
        r.len() > 0 && !is_ws(r[0]),
    ensures
        read_card(encode_card(c) + r) == Some((c, r)),
        encode_card(c).len() >= 1,
        encode_card(c)[0] == '{',
{
    reveal(encode_card);
    reveal_strlit("{");
    reveal_strlit("}");
    reveal_strlit(",");
    reveal_strlit("title");
    reveal_strlit("text");
    reveal_strlit("background");
    reveal_strlit("turns");
    reveal_strlit("null");
    let vt = encode_opt_text(c.title);
    let vx = quoted(c.text);
    let vb = encode_opt_text(c.background);
    let vn = encode_opt_u32(c.turns);
    let a4 = "}"@ + r;
    let a3 = ","@ + member("background"@, vb) + ","@ + member("turns"@, vn) + a4;
    let a2 = ","@ + member("text"@, vx) + a3;
    let m4 = member("turns"@, vn) + a4;
    let m3 = member("background"@, vb) + (","@ + m4);
    let m2 = member("text"@, vx) + (","@ + m3);
    let m1 = member("title"@, vt) + (","@ + m2);
    assert(encode_card(c) + r =~= "{"@ + m1);
    assert(("{"@ + m1).skip(1) =~= m1);
    assert(m1[0] == '"');
    lemma_no_ws(m1);
    let p0 = none_seen();
    let p1 = SeenFields { title: Some(c.title), ..p0 };
    let p2 = SeenFields { text: Some(c.text), ..p1 };
    let p3 = SeenFields { background: Some(c.background), ..p2 };
    let p4 = SeenFields { turns: Some(c.turns), ..p3 };
    lemma_decimal_first(c.turns);
    lemma_read_opt_text(c.title, ","@ + m2);
    assert(("{"@ + m1).skip(1) =~= m1);
    assert(("}"@ + r)[0] == '}');
    assert((","@ + m2)[1] == '"' && (","@ + m3)[1] == '"' && (","@ + m4)[1] == '"');
    assert((","@ + m2).skip(1) =~= m2);
    assert((","@ + m3).skip(1) =~= m3);
    assert((","@ + m4).skip(1) =~= m4);
    lemma_read_member("title"@, vt, ","@ + m2, p0, p1);
    lemma_read_text(c.text, ","@ + m3);
    lemma_read_member("text"@, vx, ","@ + m3, p1, p2);
    lemma_read_opt_text(c.background, ","@ + m4);
    lemma_read_member("background"@, vb, ","@ + m4, p2, p3);
    lemma_read_opt_u32(c.turns, a4);
    lemma_read_member("turns"@, vn, a4, p3, p4);
    assert(a4.skip(1) =~= r);
    assert(encode_card(c)[0] == '{');
}

proof fn lemma_decimal_first(o: Option<u32>)
    ensures
        encode_opt_u32(o).len() > 0,
        !is_ws(encode_opt_u32(o)[0]),
{
    reveal_strlit("null");
    if let Some(n) = o {
        lemma_decimal(n as nat);
        assert(is_digit(decimal(n as nat)[0]));
    }
}

pub proof fn lemma_read_later_cards(cs: Seq<CardModel>, r: Seq<char>)
    requires
        r.len() > 0 && r[0] == ']',
    ensures
        read_later_cards(concat_map(cs, later_fn()) + r) == Some((cs, r)),
    decreases cs.len(),
{
    reveal_strlit(",");
    let f = later_fn();
    let t = concat_map(cs, f) + r;
    if cs.len() == 0 {
        assert(t =~= r);
        lemma_no_ws(r);
    } else {
        let rest = concat_map(cs.skip(1), f) + r;
        assert(t =~= ","@ + (encode_card(cs[0]) + rest));
        assert(t.skip(1) =~= encode_card(cs[0]) + rest);
        lemma_no_ws(t);
        lemma_read_later_cards(cs.skip(1), r);
        let rest_t = concat_map(cs.skip(1), f);
        if cs.skip(1).len() > 0 {
            assert(rest_t =~= ","@ + encode_card(cs.skip(1)[0]) + concat_map(cs.skip(1).skip(1), f));
            assert(rest[0] == ',');
        } else {
            assert(rest =~= r);
        }
        lemma_read_card(cs[0], rest);
        lemma_no_ws(t.skip(1));
        assert(seq![cs[0]] + cs.skip(1) =~= cs);
    }
}

/// Reading the persisted form of a deck gives back that deck, card for card.
pub proof fn lemma_decode_encode(cs: Seq<CardModel>)
    ensures
        decode_deck(encode_deck(cs)) == Some(cs),
{
    reveal_strlit("[]");
    reveal_strlit("[");
    reveal_strlit("]");
    let e = encode_deck(cs);
    lemma_no_ws(e);
    assert(skip_ws(Seq::<char>::empty()) == Seq::<char>::empty());
    if cs.len() == 0 {
        lemma_read_lit("["@, "]"@);
        assert("[]"@ =~= "["@ + "]"@);
        lemma_no_ws("]"@);
        assert("]"@.skip(1) =~= Seq::<char>::empty());
        assert(cs =~= Seq::<CardModel>::empty());
    } else {
        let f = later_fn();
        let t3 = "]"@;
        let t2 = concat_map(cs.skip(1), f) + t3;
        let t1 = encode_card(cs[0]) + t2;
        assert(e =~= "["@ + t1);
        if cs.skip(1).len() > 0 {
            reveal_strlit(",");
            assert(f(cs.skip(1)[0]) == ","@ + encode_card(cs.skip(1)[0]));
            assert(concat_map(cs.skip(1), f) =~= ","@ + encode_card(cs.skip(1)[0]) + concat_map(
                cs.skip(1).skip(1),
                f,
            ));
            assert(t2[0] == ',');
        } else {
            assert(t2 =~= t3);
        }
        lemma_read_card(cs[0], t2);
        lemma_read_lit("["@, t1);
        lemma_no_ws(t1);
        lemma_read_later_cards(cs.skip(1), t3);
        assert(t3.skip(1) =~= Seq::<char>::empty());
        assert(seq![cs[0]] + cs.skip(1) =~= cs);
    }
}

// ---------------------------------------------------------------------------
// Writing.
// ---------------------------------------------------------------------------

fn hex_digit(n: u32) -> (r: char)
    requires
        n < 16,
    ensures
        r == hex_char(n as nat),
{
    if n < 10 {
        ((n + 48) as u8) as char
    } else {
        ((n + 87) as u8) as char
    }
}

fn write_escaped_char(out: &mut String, c: char)
    ensures
        final(out)@ == old(out)@ + escape_char(c),
{
    let ghost start = out@;
    if c == '"' {
        out.append("\\\"");
    } else if c == '\\' {
        out.append("\\\\");
    } else if c == '\n' {
        out.append("\\n");
    } else if c == '\r' {
        out.append("\\r");
    } else if c == '\t' {
        out.append("\\t");
    } else if c == '\x08' {
        out.append("\\b");
    } else if c == '\x0c' {
        out.append("\\f");
    } else if (c as u32) < 0x20 {
        out.append("\\u00");
        push_char(out, hex_digit(c as u32 / 16));
        push_char(out, hex_digit(c as u32 % 16));
    } else {
        push_char(out, c);
    }
    proof {
        reveal_strlit("\\\"");
        reveal_strlit("\\\\");
        reveal_strlit("\\n");
        reveal_strlit("\\r");
        reveal_strlit("\\t");
        reveal_strlit("\\b");
        reveal_strlit("\\f");
        reveal_strlit("\\u00");
        assert(out@ =~= start + escape_char(c));
    }
}

fn write_quoted(out: &mut String, s: &str)
    ensures
        final(out)@ == old(out)@ + quoted(s@),
{
    let cs = chars_of(s);
    let ghost start = out@;
    push_char(out, '"');
    let mut i: usize = 0;
    assert(cs@.take(0) =~= Seq::<char>::empty());
    while i < cs.len()
        invariant
            cs@ == s@,
            i <= cs.len(),
            out@ == start + seq!['"'] + escaped(cs@.take(i as int)),
        decreases cs.len() - i,
    {
        let c = cs[i];
        write_escaped_char(out, c);
        proof {
            assert(cs@.take(i + 1) =~= cs@.take(i as int).push(c));
            lemma_concat_map_push(cs@.take(i as int), c, escape_fn());
            assert(out@ =~= start + seq!['"'] + escaped(cs@.take(i + 1)));
        }
        i = i + 1;
    }
    assert(cs@.take(i as int) =~= s@);
    push_char(out, '"');
    assert(out@ =~= start + quoted(s@));
}

fn write_decimal(out: &mut String, n: u32)
    ensures
        final(out)@ == old(out)@ + decimal(n as nat),
    decreases n,
{
    let ghost start = out@;
    if n >= 10 {
        write_decimal(out, n / 10);
    }
    push_char(out, ((n % 10 + 48) as u8) as char);
    assert(out@ =~= start + decimal(n as nat));
}

fn write_opt_text(out: &mut String, o: &Option<String>)
    ensures
        final(out)@ == old(out)@ + encode_opt_text(opt_view(*o)),
{
    match o {
        Some(s) => write_quoted(out, s.as_str()),
        None => out.append("null"),
    }
}

fn write_key(out: &mut String, key: &str)
    ensures
        final(out)@ == old(out)@ + quoted(key@) + ":"@,
{
    write_quoted(out, key);
    out.append(":");
}

fn write_text_member(out: &mut String, key: &str, o: &Option<String>)
    ensures
        final(out)@ == old(out)@ + member(key@, encode_opt_text(opt_view(*o))),
{
    let ghost start = out@;
    write_key(out, key);
    write_opt_text(out, o);
    assert(out@ =~= start + member(key@, encode_opt_text(opt_view(*o))));
}

fn write_turns_member(out: &mut String, o: Option<u32>)
    ensures
        final(out)@ == old(out)@ + member("turns"@, encode_opt_u32(o)),
{
    let ghost start = out@;
    write_key(out, "turns");
    match o {
        Some(n) => write_decimal(out, n),
        None => out.append("null"),
    }
    assert(out@ =~= start + member("turns"@, encode_opt_u32(o)));
}

#[verifier::rlimit(100)]
fn write_card(out: &mut String, c: &Card)
    ensures
        final(out)@ == old(out)@ + encode_card(c@),
{
    let ghost start = out@;
    let ghost m1 = member("title"@, encode_opt_text(c@.title));
    let ghost m3 = member("background"@, encode_opt_text(c@.background));
    let ghost m4 = member("turns"@, encode_opt_u32(c@.turns));
    out.append("{");
    write_text_member(out, "title", &c.title);
    out.append(",");
    let ghost a1 = out@;
    let ghost m2 = member("text"@, quoted(c@.text));
    write_key(out, "text");
    write_quoted(out, c.text.as_str());
    assert(out@ =~= a1 + m2);
    out.append(",");
    write_text_member(out, "background", &c.background);
    out.append(",");
    write_turns_member(out, c.turns);
    out.append("}");
    proof {
        reveal(encode_card);
        assert(out@ =~= start + encode_card(c@));
    }
}

/// The persisted form of a deck: a JSON array of the cards, in order.
pub fn encode_cards(cards: &Vec<Card>) -> (r: String)
    ensures
        r@ == encode_deck(cards_view(cards@)),
{
    let ghost cs = cards_view(cards@);
    let mut out = String::new();
    if cards.len() == 0 {
        out.append("[]");
        return out;
    }
    out.append("[");
    write_card(&mut out, &cards[0]);
    let mut i: usize = 1;
    assert(cs.skip(1).take(0) =~= Seq::<CardModel>::empty());
    while i < cards.len()
        invariant
            cs == cards_view(cards@),
            1 <= i <= cards.len(),
            out@ == "["@ + encode_card(cs[0]) + concat_map(cs.skip(1).take(i - 1), later_fn()),
        decreases cards.len() - i,
    {
        let ghost before = out@;
        out.append(",");
        write_card(&mut out, &cards[i]);
        proof {
            assert(cs.skip(1).take(i as int) =~= cs.skip(1).take(i - 1).push(cs[i as int]));
            lemma_concat_map_push(cs.skip(1).take(i - 1), cs[i as int], later_fn());
            assert(out@ =~= before + encode_later_card(cs[i as int]));
        }
        i = i + 1;
    }
    assert(cs.skip(1).take(i - 1) =~= cs.skip(1));
    out.append("]");
    out
}

// ---------------------------------------------------------------------------
// Reading, over the characters of the text from a position on.
// ---------------------------------------------------------------------------

fn read_lit_at(t: &Vec<char>, i: usize, l: &str) -> (r: Option<usize>)
    requires
        i <= t@.len(),
    ensures
        match r {
            Some(j) => i <= j <= t@.len() && read_lit(t@.skip(i as int), l@) == Some(
                t@.skip(j as int),
            ),
            None => read_lit(t@.skip(i as int), l@) is None,
        },
{
    let m = l.unicode_len();
    if m > t.len() - i {
        return None;
    }
    let mut k: usize = 0;
    while k < m
        invariant
            i + m <= t.len(),
            m == l@.len(),
            k <= m,
            forall|x: int| 0 <= x < k ==> t@[i + x] == l@[x],
        decreases m - k,
    {
        if t[i + k] != l.get_char(k) {
            assert(t@.skip(i as int).take(m as int)[k as int] != l@[k as int]);
            return None;
        }
        k = k + 1;
    }
    assert(t@.skip(i as int).take(m as int) =~= l@);
    assert(t@.skip(i as int).skip(m as int) =~= t@.skip(i + m));
    Some(i + m)
}

fn hex_at(c: char) -> (r: Option<u32>)
    ensures
        match r {
            Some(v) => is_hex(c) && v == hex_value(c) && v < 16,
            None => !is_hex(c),
        },
{
    if '0' <= c && c <= '9' {
        Some(c as u32 - 48)
    } else if 'a' <= c && c <= 'f' {
        Some(c as u32 - 87)
    } else if 'A' <= c && c <= 'F' {
        Some(c as u32 - 55)
    } else {
        None
    }
}

fn hex4_at(t: &Vec<char>, i: usize, off: usize) -> (r: Option<u32>)
    requires
        i <= t@.len(),
        off <= 8,
    ensures
        match r {
            Some(v) => hex4(t@.skip(i as int), off as int) == Some(v as nat) && v < 0x10000,
            None => hex4(t@.skip(i as int), off as int) is None,
        },
{
    if t.len() - i < off + 4 {
        return None;
    }
    let j = i + off;
    let ghost s = t@.skip(i as int);
    assert(s[off as int] == t@[j as int] && s[off + 1] == t@[j + 1] && s[off + 2] == t@[j + 2]
        && s[off + 3] == t@[j + 3]);
    match (hex_at(t[j]), hex_at(t[j + 1]), hex_at(t[j + 2]), hex_at(t[j + 3])) {
        (Some(a), Some(b), Some(c), Some(d)) => Some(a * 4096 + b * 256 + c * 16 + d),
        _ => None,
    }
}

fn read_unicode_escape_at(t: &Vec<char>, i: usize) -> (r: Option<(char, usize)>)
    requires
        i < t@.len(),
    ensures
        match r {
            Some((c, k)) => read_unicode_escape(t@.skip(i as int)) == Some((c, k as int)) && 2
                <= k && i + k <= t@.len(),
            None => read_unicode_escape(t@.skip(i as int)) is None,
        },
{
    let ghost s = t@.skip(i as int);
    let u = match hex4_at(t, i, 2) {
        Some(u) => u,
        None => return None,
    };
    if 0xD800 <= u && u <= 0xDBFF {
        if t.len() - i >= 12 && t[i + 6] == '\\' && t[i + 7] == 'u' {
            assert(s[6] == t@[i + 6] && s[7] == t@[i + 7]);
            match hex4_at(t, i, 8) {
                Some(l) => if 0xDC00 <= l && l <= 0xDFFF {
                    let v: u32 = 0x10000 + (u - 0xD800) * 1024 + (l - 0xDC00);
                    match char_from_u32(v) {
                        Some(c) => {
                            proof {
                                vstd::utf8::char_u32_cast(c, v);
                            }
                            Some((c, 12))
                        },
                        None => None,
                    }
                } else {
                    None
                },
                None => None,
            }
        } else {
            None
        }
    } else if 0xDC00 <= u && u <= 0xDFFF {
        None
    } else {
        match char_from_u32(u) {
            Some(c) => {
                proof {
                    vstd::utf8::char_u32_cast(c, u);
                }
                Some((c, 6))
            },
            None => None,
        }
    }
}

fn read_escape_at(t: &Vec<char>, i: usize) -> (r: Option<(char, usize)>)
    requires
        i < t@.len(),
    ensures
        match r {
            Some((c, k)) => read_escape(t@.skip(i as int)) == Some((c, k as int)) && 1 <= k && i
                + k <= t@.len(),
            None => read_escape(t@.skip(i as int)) is None,
        },
{
    reveal(read_escape);
    let ghost s = t@.skip(i as int);
    if t.len() - i < 2 {
        return None;
    }
    let e = t[i + 1];
    assert(s[1] == e);
    if e == '"' {
        Some(('"', 2))
    } else if e == '\\' {
        Some(('\\', 2))
    } else if e == '/' {
        Some(('/', 2))
    } else if e == 'n' {
        Some(('\n', 2))
    } else if e == 'r' {
        Some(('\r', 2))
    } else if e == 't' {
        Some(('\t', 2))
    } else if e == 'b' {
        Some(('\x08', 2))
    } else if e == 'f' {
        Some(('\x0c', 2))
    } else if e == 'u' {
        read_unicode_escape_at(t, i)
    } else {
        None
    }
}

fn read_char_at(t: &Vec<char>, i: usize) -> (r: Option<(char, usize)>)
    requires
        i <= t@.len(),
    ensures
        match r {
            Some((c, k)) => read_char(t@.skip(i as int)) == Some((c, k as int)) && 1 <= k && i + k
                <= t@.len(),
            None => read_char(t@.skip(i as int)) is None,
        },
{
    if i == t.len() {
        return None;
    }
    let c = t[i];
    assert(t@.skip(i as int)[0] == c);
    if c == '"' {
        None
    } else if c == '\\' {
        read_escape_at(t, i)
    } else if (c as u32) < 0x20 {
        None
    } else {
        Some((c, 1))
    }
}

fn read_body_at(t: &Vec<char>, i: usize) -> (r: Option<(String, usize)>)
    requires
        i <= t@.len(),
    ensures
        match r {
            Some((v, j)) => i <= j <= t@.len() && read_body(t@.skip(i as int)) == Some(
                (v@, t@.skip(j as int)),
            ),
            None => read_body(t@.skip(i as int)) is None,
        },
{
    let mut out = String::new();
    let mut k: usize = i;
    while k < t.len()
        invariant
            i <= k <= t@.len(),
            read_body(t@.skip(i as int)) == match read_body(t@.skip(k as int)) {
                Some((v, rest)) => Some((out@ + v, rest)),
                None => None,
            },
        decreases t@.len() - k,
    {
        let ghost before = out@;
        let ghost s = t@.skip(k as int);
        if t[k] == '"' {
            assert(s[0] == '"');
            assert(s.skip(1) =~= t@.skip(k + 1));
            assert(out@ + Seq::<char>::empty() =~= out@);
            return Some((out, k + 1));
        }
        match read_char_at(t, k) {
            Some((c, n)) => {
                proof {
                    assert(s.skip(n as int) =~= t@.skip(k + n));
                    assert forall|v: Seq<char>| #[trigger] (before + (seq![c] + v)) == before.push(c) + v by {
                        assert(before + (seq![c] + v) =~= before.push(c) + v);
                    }
                }
                push_char(&mut out, c);
                k = k + n;
            },
            None => {
                return None;
            },
        }
    }
    assert(t@.skip(k as int).len() == 0);
    None
}

fn read_text_at(t: &Vec<char>, i: usize) -> (r: Option<(String, usize)>)
    requires
        i <= t@.len(),
    ensures
        match r {
            Some((v, j)) => i <= j <= t@.len() && read_text(t@.skip(i as int)) == Some(
                (v@, t@.skip(j as int)),
            ),
            None => read_text(t@.skip(i as int)) is None,
        },
{
    if i < t.len() && t[i] == '"' {
        assert(t@.skip(i as int).skip(1) =~= t@.skip(i + 1));
        read_body_at(t, i + 1)
    } else {
        None
    }
}

fn read_opt_text_at(t: &Vec<char>, i: usize) -> (r: Option<(Option<String>, usize)>)
    requires
        i <= t@.len(),
    ensures
        match r {
            Some((v, j)) => i <= j <= t@.len() && read_opt_text(t@.skip(i as int)) == Some(
                (opt_view(v), t@.skip(j as int)),
            ),
            None => read_opt_text(t@.skip(i as int)) is None,
        },
{
    match read_lit_at(t, i, "null") {
        Some(j) => Some((None, j)),
        None => match read_text_at(t, i) {
            Some((v, j)) => Some((Some(v), j)),
            None => None,
        },
    }
}

fn read_u32_at(t: &Vec<char>, i: usize) -> (r: Option<(u32, usize)>)
    requires
        i <= t@.len(),
    ensures
        match r {
            Some((v, j)) => i <= j <= t@.len() && read_u32(t@.skip(i as int)) == Some(
                (v, t@.skip(j as int)),
            ),
            None => read_u32(t@.skip(i as int)) is None,
        },
{
    let mut acc: u64 = 0;
    let mut k: usize = i;
    assert(t@.subrange(i as int, i as int) =~= Seq::<char>::empty());
    while k < t.len() && '0' <= t[k] && t[k] <= '9'
        invariant
            i <= k <= t@.len(),
            all_digits(t@.subrange(i as int, k as int)),
            acc as nat == capped(decimal_value(t@.subrange(i as int, k as int))),
        decreases t@.len() - k,
    {
        let x: u64 = (t[k] as u32 - '0' as u32) as u64;
        proof {
            let d = t@.subrange(i as int, k + 1);
            assert(d.drop_last() =~= t@.subrange(i as int, k as int));
            assert(d.last() == t@[k as int]);
            lemma_capped_step(decimal_value(t@.subrange(i as int, k as int)), x as nat);
            assert forall|y: int| 0 <= y < d.len() implies is_digit(#[trigger] d[y]) by {
                if y < d.len() - 1 {
                    assert(d[y] == t@.subrange(i as int, k as int)[y]);
                }
            }
        }
        let next: u64 = acc * 10 + x;
        acc = if next > 0x1_0000_0000 { 0x1_0000_0000 } else { next };
        k = k + 1;
    }
    proof {
        let d = t@.subrange(i as int, k as int);
        let rest = t@.skip(k as int);
        assert(t@.skip(i as int) =~= d + rest);
        if rest.len() > 0 {
            assert(rest[0] == t@[k as int]);
        }
        lemma_digit_run(d, rest);
        assert(t@.skip(i as int).take(d.len() as int) =~= d);
        assert(t@.skip(i as int).skip(d.len() as int) =~= rest);
    }
    if k == i || (k - i > 1 && t[i] == '0') || acc > 0xFFFF_FFFF {
        proof {
            if k - i > 1 {
                assert(t@.skip(i as int)[0] == t@[i as int]);
            }
        }
        None
    } else {
        proof {
            if k - i > 1 {
                assert(t@.skip(i as int)[0] == t@[i as int]);
            }
        }
        Some((acc as u32, k))
    }
}

fn read_opt_u32_at(t: &Vec<char>, i: usize) -> (r: Option<(Option<u32>, usize)>)
    requires
        i <= t@.len(),
    ensures
        match r {
            Some((v, j)) => i <= j <= t@.len() && read_opt_u32(t@.skip(i as int)) == Some(
                (v, t@.skip(j as int)),
            ),
            None => read_opt_u32(t@.skip(i as int)) is None,
        },
{
    match read_lit_at(t, i, "null") {
        Some(j) => Some((None, j)),
        None => match read_u32_at(t, i) {
            Some((v, j)) => Some((Some(v), j)),
            None => None,
        },
    }
}

fn skip_ws_at(t: &Vec<char>, i: usize) -> (j: usize)
    requires
        i <= t@.len(),
    ensures
        i <= j <= t@.len(),
        t@.skip(j as int) == skip_ws(t@.skip(i as int)),
{
    let mut k: usize = i;
    while k < t.len() && (t[k] == ' ' || t[k] == '\t' || t[k] == '\n' || t[k] == '\r')
        invariant
            i <= k <= t@.len(),
            skip_ws(t@.skip(i as int)) == skip_ws(t@.skip(k as int)),
        decreases t@.len() - k,
    {
        assert(t@.skip(k as int)[0] == t@[k as int]);
        assert(t@.skip(k as int).skip(1) =~= t@.skip(k + 1));
        k = k + 1;
    }
    if k < t.len() {
        assert(t@.skip(k as int)[0] == t@[k as int]);
    }
    k
}

/// The fields of a card object read so far.
struct PartialCard {
    title: Option<Option<String>>,
    text: Option<String>,
    background: Option<Option<String>>,
    turns: Option<Option<u32>>,
}

spec fn opt_opt_view(o: Option<Option<String>>) -> Option<Option<Seq<char>>> {
    match o {
        Some(v) => Some(opt_view(v)),
        None => None,
    }
}

spec fn seen_view(p: PartialCard) -> SeenFields {
    SeenFields {
        title: opt_opt_view(p.title),
        text: opt_view(p.text),
        background: opt_opt_view(p.background),
        turns: p.turns,
    }
}

fn read_value_at(t: &Vec<char>, i: usize, key: &str, p: &mut PartialCard) -> (r: Option<usize>)
    requires
        i <= t@.len(),
    ensures
        match r {
            Some(j) => i <= j <= t@.len() && read_value(key@, t@.skip(i as int), seen_view(*old(p)))
                == Some((seen_view(*final(p)), t@.skip(j as int))),
            None => read_value(key@, t@.skip(i as int), seen_view(*old(p))) is None,
        },
{
    let title_free = match p.title { Some(_) => false, None => true };
    let text_free = match p.text { Some(_) => false, None => true };
    let background_free = match p.background { Some(_) => false, None => true };
    let turns_free = match p.turns { Some(_) => false, None => true };
    if same_text(key, "title") && title_free {
        match read_opt_text_at(t, i) {
            Some((v, j)) => {
                p.title = Some(v);
                Some(j)
            },
            None => None,
        }
    } else if same_text(key, "text") && text_free {
        match read_text_at(t, i) {
            Some((v, j)) => {
                p.text = Some(v);
                Some(j)
            },
            None => None,
        }
    } else if same_text(key, "background") && background_free {
        match read_opt_text_at(t, i) {
            Some((v, j)) => {
                p.background = Some(v);
                Some(j)
            },
            None => None,
        }
    } else if same_text(key, "turns") && turns_free {
        match read_opt_u32_at(t, i) {
            Some((v, j)) => {
                p.turns = Some(v);
                Some(j)
            },
            None => None,
        }
    } else {
        None
    }
}

fn read_members_at(t: &Vec<char>, i: usize, p: &mut PartialCard) -> (r: Option<usize>)
    requires
        i <= t@.len(),
    ensures
        match r {
            Some(j) => i <= j <= t@.len() && read_members(t@.skip(i as int), seen_view(*old(p)))
                == Some((seen_view(*final(p)), t@.skip(j as int))),
            None => read_members(t@.skip(i as int), seen_view(*old(p))) is None,
        },
{
    let ghost first = seen_view(*p);
    let mut k: usize = i;
    loop
        invariant
            i <= k <= t@.len(),
            first == seen_view(*old(p)),
            read_members(t@.skip(i as int), first) == read_members(
                t@.skip(k as int),
                seen_view(*p),
            ),
        decreases t@.len() - k,
    {
        proof {
            reveal(read_members);
        }
        let (key, k1) = match read_text_at(t, k) {
            Some(x) => x,
            None => return None,
        };
        let k2 = skip_ws_at(t, k1);
        let k3 = match read_lit_at(t, k2, ":") {
            Some(j) => j,
            None => return None,
        };
        let k4 = skip_ws_at(t, k3);
        let k5 = match read_value_at(t, k4, key.as_str(), p) {
            Some(j) => j,
            None => return None,
        };
        let k6 = skip_ws_at(t, k5);
        if k6 < t.len() && t[k6] == '}' {
            assert(t@.skip(k6 as int)[0] == t@[k6 as int]);
            assert(t@.skip(k6 as int).skip(1) =~= t@.skip(k6 + 1));
            return Some(k6 + 1);
        } else if k6 < t.len() && t[k6] == ',' {
            assert(t@.skip(k6 as int)[0] == t@[k6 as int]);
            assert(t@.skip(k6 as int).skip(1) =~= t@.skip(k6 + 1));
            let k7 = skip_ws_at(t, k6 + 1);
            k = k7;
        } else {
            if k6 < t.len() {
                assert(t@.skip(k6 as int)[0] == t@[k6 as int]);
            }
            return None;
        }
    }
}

fn read_card_at(t: &Vec<char>, i: usize) -> (r: Option<(Card, usize)>)
    requires
        i <= t@.len(),
    ensures
        match r {
            Some((c, j)) => i <= j <= t@.len() && read_card(t@.skip(i as int)) == Some(
                (c@, t@.skip(j as int)),
            ),
            None => read_card(t@.skip(i as int)) is None,
        },
{
    if i < t.len() && t[i] == '{' {
        assert(t@.skip(i as int)[0] == t@[i as int]);
        assert(t@.skip(i as int).skip(1) =~= t@.skip(i + 1));
        let k = skip_ws_at(t, i + 1);
        let mut p = PartialCard { title: None, text: None, background: None, turns: None };
        match read_members_at(t, k, &mut p) {
            Some(j) => match p.text {
                Some(text) => {
                    let title = match p.title {
                        Some(v) => v,
                        None => None,
                    };
                    let background = match p.background {
                        Some(v) => v,
                        None => None,
                    };
                    let turns = match p.turns {
                        Some(v) => v,
                        None => None,
                    };
                    Some((Card { title, text, background, turns }, j))
                },
                None => None,
            },
            None => None,
        }
    } else {
        if i < t.len() {
            assert(t@.skip(i as int)[0] == t@[i as int]);
        }
        None
    }
}

/// Maps what is read after a prefix to what is read with the prefix's cards in front.
pub open spec fn after_cards(
    front: Seq<CardModel>,
    o: Option<(Seq<CardModel>, Seq<char>)>,
) -> Option<(Seq<CardModel>, Seq<char>)> {
    match o {
        Some((cs, rest)) => Some((front + cs, rest)),
        None => None,
    }
}

fn read_later_cards_at(t: &Vec<char>, i: usize, out: &mut Vec<Card>) -> (r: Option<usize>)
    requires
        i <= t@.len(),
    ensures
        match r {
            Some(j) => i <= j <= t@.len() && after_cards(
                cards_view(old(out)@),
                read_later_cards(t@.skip(i as int)),
            ) == Some((cards_view(final(out)@), t@.skip(j as int))),
            None => read_later_cards(t@.skip(i as int)) is None,
        },
{
    let ghost first = cards_view(out@);
    let mut k: usize = i;
    loop
        invariant
            i <= k <= t@.len(),
            first == cards_view(old(out)@),
            after_cards(first, read_later_cards(t@.skip(i as int))) == after_cards(
                cards_view(out@),
                read_later_cards(t@.skip(k as int)),
            ),
        decreases t@.len() - k,
    {
        let ghost s = t@.skip(k as int);
        let k0 = skip_ws_at(t, k);
        if k0 < t.len() && t[k0] == ',' {
            assert(t@.skip(k0 as int)[0] == ',');
            assert(t@.skip(k0 as int).skip(1) =~= t@.skip(k0 + 1));
            let k1 = skip_ws_at(t, k0 + 1);
            match read_card_at(t, k1) {
                Some((c, j)) => {
                    let ghost before = cards_view(out@);
                    proof {
                        assert(t@.skip(j as int).len() < s.len());
                        assert forall|cs: Seq<CardModel>| #[trigger] (before + (seq![c@] + cs))
                            == before.push(c@) + cs by {
                            assert(before + (seq![c@] + cs) =~= before.push(c@) + cs);
                        }
                    }
                    out.push(c);
                    proof {
                        assert(cards_view(out@) =~= before.push(c@));
                    }
                    k = j;
                },
                None => {
                    return None;
                },
            }
        } else {
            proof {
                if k0 < t@.len() {
                    assert(t@.skip(k0 as int)[0] == t@[k0 as int]);
                }
                assert(cards_view(out@) + Seq::<CardModel>::empty() =~= cards_view(out@));
            }
            return Some(k0);
        }
    }
}

/// Reads a deck back from its persisted form: a JSON array of card objects.
/// `None` where the text is not such an array.
pub fn decode_cards(text: &str) -> (r: Option<Vec<Card>>)
    ensures
        match r {
            Some(cs) => decode_deck(text@) == Some(cards_view(cs@)),
            None => decode_deck(text@) is None,
        },
{
    let t = chars_of(text);
    assert(t@.skip(0) =~= t@);
    let mut cards: Vec<Card> = Vec::new();
    let k0 = skip_ws_at(&t, 0);
    let k1 = match read_lit_at(&t, k0, "[") {
        Some(j) => j,
        None => return None,
    };
    let k2 = skip_ws_at(&t, k1);
    if k2 < t.len() && t[k2] == ']' {
        assert(t@.skip(k2 as int)[0] == t@[k2 as int]);
        assert(t@.skip(k2 as int).skip(1) =~= t@.skip(k2 + 1));
        let k3 = skip_ws_at(&t, k2 + 1);
        if k3 == t.len() {
            assert(cards_view(cards@) =~= Seq::<CardModel>::empty());
            return Some(cards);
        }
        return None;
    }
    if k2 < t.len() {
        assert(t@.skip(k2 as int)[0] == t@[k2 as int]);
    }
    let (first, k3) = match read_card_at(&t, k2) {
        Some(x) => x,
        None => return None,
    };
    let ghost c0 = first@;
    cards.push(first);
    assert(cards_view(cards@) =~= seq![c0]);
    let k4 = match read_later_cards_at(&t, k3, &mut cards) {
        Some(j) => j,
        None => return None,
    };
    if k4 < t.len() && t[k4] == ']' {
        assert(t@.skip(k4 as int)[0] == t@[k4 as int]);
        assert(t@.skip(k4 as int).skip(1) =~= t@.skip(k4 + 1));
        let k5 = skip_ws_at(&t, k4 + 1);
        if k5 == t.len() {
            Some(cards)
        } else {
            None
        }
    } else {
        if k4 < t.len() {
            assert(t@.skip(k4 as int)[0] == t@[k4 as int]);
        }
        None
    }
}

} // verus!
