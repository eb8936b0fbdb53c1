use vstd::prelude::*;
use crate::entry::ClipboardEntry;
use crate::entry::EntryModel;
use crate::store::HistoryStore;
use crate::store::MAX_HISTORY;
use crate::store::models;
use crate::store::distinct_contents;
use crate::store::nonempty_contents;
use crate::text::is_digit;
use crate::text::is_digit_exec;
use crate::text::digit_val;
use crate::text::digit_val_exec;
use crate::text::dec_digits;
use crate::text::dec_digits_exec;
use crate::text::lemma_dec_digits_are_digits;
use crate::text::chars_of;
use crate::text::string_from_chars;

verus! {

// ---------------------------------------------------------------------------
// The persisted layout: a JSON array of entry objects, newest-first,
// each `{"id":N,"content":"...","timestamp":N,"favorite":B}`.
// ---------------------------------------------------------------------------

/// One content character as it stands inside the persisted string:
/// quote and backslash are escaped, everything else stands as itself.
pub open spec fn esc_char(c: char) -> Seq<char> {
    if c == '"' {
        seq!['\\', '"']
    } else if c == '\\' {
        seq!['\\', '\\']
    } else {
        seq![c]
    }
}

/// A whole content string as it stands inside the persisted string.
pub open spec fn esc_str(s: Seq<char>) -> Seq<char>
    decreases s.len(),
{
    if s.len() == 0 {
        Seq::empty()
    } else {
        esc_char(s[0]) + esc_str(s.drop_first())
    }
}

/// The persisted form of a boolean.
pub open spec fn enc_bool(b: bool) -> Seq<char> {
    if b {
        seq!['t', 'r', 'u', 'e']
    } else {
        seq!['f', 'a', 'l', 's', 'e']
    }
}

/// The opening of an entry object, through the id key.
pub open spec fn lit_id() -> Seq<char> {
    seq!['{', '"', 'i', 'd', '"', ':']
}

/// The content key, through its opening quote.
pub open spec fn lit_content() -> Seq<char> {
    seq![',', '"', 'c', 'o', 'n', 't', 'e', 'n', 't', '"', ':', '"']
}

/// The timestamp key, after the content's closing quote.
pub open spec fn lit_timestamp() -> Seq<char> {
    seq![',', '"', 't', 'i', 'm', 'e', 's', 't', 'a', 'm', 'p', '"', ':']
}

/// The favorite key.
pub open spec fn lit_favorite() -> Seq<char> {
    seq![',', '"', 'f', 'a', 'v', 'o', 'r', 'i', 't', 'e', '"', ':']
}

/// The persisted form of one entry.
pub open spec fn enc_entry(e: EntryModel) -> Seq<char> {
    lit_id() + dec_digits(e.id as nat) + lit_content() + esc_str(e.content) + seq!['"']
        + lit_timestamp() + dec_digits(e.timestamp as nat) + lit_favorite() + enc_bool(e.favorite)
        + seq!['}']
}

/// The persisted form of every entry after the first, each preceded by
/// a comma.
pub open spec fn enc_rest(s: Seq<EntryModel>) -> Seq<char>
    decreases s.len(),
{
    if s.len() == 0 {
        Seq::empty()
    } else {
        seq![','] + enc_entry(s[0]) + enc_rest(s.drop_first())
    }
}

/// The persisted form of a whole store.
pub open spec fn enc_store(s: Seq<EntryModel>) -> Seq<char> {
    if s.len() == 0 {
        seq!['[', ']']
    } else {
        seq!['['] + enc_entry(s[0]) + enc_rest(s.drop_first()) + seq![']']
    }
}

// ---------------------------------------------------------------------------
// The parser, over the remaining input
// ---------------------------------------------------------------------------

/// Consume an exact literal, or fail.
pub open spec fn expect(s: Seq<char>, lit: Seq<char>) -> Option<Seq<char>> {
    if lit.len() <= s.len() && s.take(lit.len() as int) == lit {
        Some(s.skip(lit.len() as int))
    } else {
        None
    }
}

/// Consume decimal digits, accumulating their value.
pub open spec fn parse_digits(s: Seq<char>, acc: nat) -> (nat, Seq<char>)
    decreases s.len(),
{
    if s.len() > 0 && is_digit(s[0]) {
        parse_digits(s.drop_first(), (acc * 10 + digit_val(s[0])) as nat)
    } else {
        (acc, s)
    }
}

/// Consume a decimal number that fits a u64, or fail.
pub open spec fn parse_u64(s: Seq<char>) -> Option<(u64, Seq<char>)> {
    if s.len() > 0 && is_digit(s[0]) {
        let vr = parse_digits(s, 0);
        if vr.0 <= u64::MAX as nat {
            Some((vr.0 as u64, vr.1))
        } else {
            None
        }
    } else {
        None
    }
}

/// Consume the body of a quoted string, up to and including the closing
/// quote, undoing the escapes; fail on a lone backslash, an unknown
/// escape, or a missing closing quote.
pub open spec fn parse_jstr(s: Seq<char>) -> Option<(Seq<char>, Seq<char>)>
    decreases s.len(),
{
    if s.len() == 0 {
        None
    } else if s[0] == '"' {
        Some((Seq::empty(), s.drop_first()))
    } else if s[0] == '\\' {
        if s.len() >= 2 && (s[1] == '"' || s[1] == '\\') {
            match parse_jstr(s.skip(2)) {
                Some(tr) => Some((seq![s[1]] + tr.0, tr.1)),
                None => None,
            }
        } else {
            None
        }
    } else {
        match parse_jstr(s.drop_first()) {
            Some(tr) => Some((seq![s[0]] + tr.0, tr.1)),
            None => None,
        }
    }
}

/// Consume a boolean literal, or fail.
pub open spec fn parse_bool(s: Seq<char>) -> Option<(bool, Seq<char>)> {
    match expect(s, enc_bool(true)) {
        Some(r) => Some((true, r)),
        None => match expect(s, enc_bool(false)) {
            Some(r) => Some((false, r)),
            None => None,
        },
    }
}

/// Consume one entry object, or fail.
pub open spec fn parse_entry(s: Seq<char>) -> Option<(EntryModel, Seq<char>)> {
    match expect(s, lit_id()) {
        Some(s1) => match parse_u64(s1) {
            Some(idr) => match expect(idr.1, lit_content()) {
                Some(s2) => match parse_jstr(s2) {
                    Some(cr) => match expect(cr.1, lit_timestamp()) {
                        Some(s3) => match parse_u64(s3) {
                            Some(tsr) => match expect(tsr.1, lit_favorite()) {
                                Some(s4) => match parse_bool(s4) {
                                    Some(br) => match expect(br.1, seq!['}']) {
                                        Some(s5) => Some(
                                            (
                                                EntryModel {
                                                    id: idr.0,
                                                    content: cr.0,
                                                    timestamp: tsr.0,
                                                    favorite: br.0,
                                                },
                                                s5,
                                            ),
                                        ),
                                        None => None,
                                    },
                                    None => None,
                                },
                                None => None,
                            },
                            None => None,
                        },
                        None => None,
                    },
                    None => None,
                },
                None => None,
            },
            None => None,
        },
        None => None,
    }
}

/// Consume every further comma-preceded entry.
pub open spec fn parse_rest(s: Seq<char>) -> Option<(Seq<EntryModel>, Seq<char>)>
    decreases s.len(),
{
    if s.len() > 0 && s[0] == ',' {
        match parse_entry(s.drop_first()) {
            Some(er) => if er.1.len() < s.len() {
                match parse_rest(er.1) {
                    Some(rr) => Some((seq![er.0] + rr.0, rr.1)),
                    None => None,
                }
            } else {
                None
            },
            None => None,
        }
    } else {
        Some((Seq::empty(), s))
    }
}

/// Parse a whole persisted text, which must be consumed exactly.
pub open spec fn parse_store(s: Seq<char>) -> Option<Seq<EntryModel>> {
    match expect(s, seq!['[']) {
        Some(s1) => if s1 == seq![']'] {
            Some(Seq::empty())
        } else {
            match parse_entry(s1) {
                Some(er) => match parse_rest(er.1) {
                    Some(rr) => if rr.1 == seq![']'] {
                        Some(seq![er.0] + rr.0)
                    } else {
                        None
                    },
                    None => None,
                },
                None => None,
            }
        },
        None => None,
    }
}

// ---------------------------------------------------------------------------
// Round trip: parsing what was encoded gives back the same entries
// ---------------------------------------------------------------------------

/// Consuming a literal off the front of what it prefixes leaves the
/// rest.
proof fn lemma_expect_prefix(lit: Seq<char>, rest: Seq<char>)
    ensures
        expect(lit + rest, lit) == Some(rest),
{
    assert((lit + rest).take(lit.len() as int) =~= lit);
    assert((lit + rest).skip(lit.len() as int) =~= rest);
}

/// Powers of ten.
pub open spec fn pow10(k: nat) -> nat
    decreases k,
{
    if k == 0 {
        1
    } else {
        10 * pow10((k - 1) as nat)
    }
}

/// Digit accumulation over an encoded number: the accumulator is scaled
/// past the rendered digits and the number is added.
proof fn lemma_parse_digits_enc(n: nat, rest: Seq<char>, acc: nat)
    ensures
        parse_digits(dec_digits(n) + rest, acc) == parse_digits(
            rest,
            acc * pow10(dec_digits(n).len() as nat) + n,
        ),
    decreases n,
{
    lemma_dec_digits_are_digits(n);
    let s = dec_digits(n) + rest;
    if n < 10 {
        assert(s[0] == dec_digits(n)[0]);
        assert(is_digit(s[0]));
        assert(digit_val(s[0]) == n);
        assert(s.drop_first() =~= rest);
        assert(pow10(0) == 1);
        assert(pow10(1) == 10);
    } else {
        let hi = dec_digits(n / 10);
        let lo = seq![crate::text::digit_char((n % 10) as int)];
        assert(dec_digits(n) == hi + lo);
        assert(s =~= hi + (lo + rest));
        lemma_parse_digits_enc(n / 10, lo + rest, acc);
        let k1 = hi.len() as nat;
        let acc1 = acc * pow10(k1) + n / 10;
        assert(parse_digits(s, acc) == parse_digits(lo + rest, acc1));
        let c = lo[0];
        assert(is_digit(c) && digit_val(c) == n % 10);
        assert((lo + rest)[0] == c);
        assert((lo + rest).drop_first() =~= rest);
        assert(parse_digits(lo + rest, acc1) == parse_digits(
            rest,
            (acc1 * 10 + digit_val(c)) as nat,
        ));
        assert(pow10((k1 + 1) as nat) == 10 * pow10(k1));
        assert(dec_digits(n).len() == k1 + 1);
        assert(acc1 * 10 + n % 10 == acc * (10 * pow10(k1)) + n) by (nonlinear_arith)
            requires
                acc1 == acc * pow10(k1) + n / 10,
                n % 10 == n - 10 * (n / 10),
        ;
    }
}

/// Parsing an encoded u64 followed by a non-digit gives back the value.
proof fn lemma_parse_u64_enc(n: u64, rest: Seq<char>)
    requires
        rest.len() == 0 || !is_digit(rest[0]),
    ensures
        parse_u64(dec_digits(n as nat) + rest) == Some((n, rest)),
{
    lemma_dec_digits_are_digits(n as nat);
    let s = dec_digits(n as nat) + rest;
    assert(s[0] == dec_digits(n as nat)[0]);
    assert(is_digit(s[0]));
    lemma_parse_digits_enc(n as nat, rest, 0);
    assert(0 * pow10(dec_digits(n as nat).len() as nat) + n as nat == n as nat);
    if rest.len() == 0 {
        assert(parse_digits(rest, n as nat) == (n as nat, rest));
    } else {
        assert(parse_digits(rest, n as nat) == (n as nat, rest));
    }
}

/// Parsing an escaped string, its closing quote, and anything after
/// gives back the original characters and leaves the rest.
proof fn lemma_parse_jstr_enc(content: Seq<char>, rest: Seq<char>)
    ensures
        parse_jstr(esc_str(content) + seq!['"'] + rest) == Some((content, rest)),
    decreases content.len(),
{
    let s = esc_str(content) + seq!['"'] + rest;
    if content.len() == 0 {
        assert(s =~= seq!['"'] + rest);
        assert(s[0] == '"');
        assert(s.drop_first() =~= rest);
    } else {
        let c = content[0];
        let tail = content.drop_first();
        lemma_parse_jstr_enc(tail, rest);
        let inner = esc_str(tail) + seq!['"'] + rest;
        if c == '"' || c == '\\' {
            assert(esc_char(c) == seq!['\\', c]);
            assert(s =~= seq!['\\', c] + inner);
            assert(s[0] == '\\');
            assert(s[1] == c);
            assert(s.len() >= 2);
            assert(s.skip(2) =~= inner);
            assert(seq![c] + tail =~= content);
        } else {
            assert(esc_char(c) == seq![c]);
            assert(s =~= seq![c] + inner);
            assert(s[0] == c);
            assert(s.drop_first() =~= inner);
            assert(seq![c] + tail =~= content);
        }
    }
}

/// Parsing an encoded boolean leaves the rest.
proof fn lemma_parse_bool_enc(b: bool, rest: Seq<char>)
    ensures
        parse_bool(enc_bool(b) + rest) == Some((b, rest)),
{
    let s = enc_bool(b) + rest;
    if b {
        lemma_expect_prefix(enc_bool(true), rest);
    } else {
        assert(expect(s, enc_bool(true)) is None) by {
            if expect(s, enc_bool(true)) is Some {
                assert(s.take(4)[0] == 't');
                assert(s[0] == 'f');
            }
        }
        lemma_expect_prefix(enc_bool(false), rest);
    }
}

/// Concatenation of character sequences reassociates.
proof fn lemma_assoc(a: Seq<char>, b: Seq<char>, c: Seq<char>)
    ensures
        a + b + c == a + (b + c),
{
    assert(a + b + c =~= a + (b + c));
}

/// Parsing an encoded entry gives back the entry and leaves the rest.
proof fn lemma_parse_entry_enc(e: EntryModel, rest: Seq<char>)
    ensures
        parse_entry(enc_entry(e) + rest) == Some((e, rest)),
{
    let p1 = lit_id();
    let p2 = dec_digits(e.id as nat);
    let p3 = lit_content();
    let p4 = esc_str(e.content);
    let p5 = seq!['"'];
    let p6 = lit_timestamp();
    let p7 = dec_digits(e.timestamp as nat);
    let p8 = lit_favorite();
    let p9 = enc_bool(e.favorite);
    let p10 = seq!['}'];
    let s = enc_entry(e) + rest;
    let r9 = p10 + rest;
    let r8 = p9 + r9;
    let r7 = p8 + r8;
    let r6 = p7 + r7;
    let r5 = p6 + r6;
    let r4 = p5 + r5;
    let r3 = p4 + r4;
    let r2 = p3 + r3;
    let r1 = p2 + r2;
    lemma_assoc(p1 + p2 + p3 + p4 + p5 + p6 + p7 + p8 + p9, p10, rest);
    lemma_assoc(p1 + p2 + p3 + p4 + p5 + p6 + p7 + p8, p9, r9);
    lemma_assoc(p1 + p2 + p3 + p4 + p5 + p6 + p7, p8, r8);
    lemma_assoc(p1 + p2 + p3 + p4 + p5 + p6, p7, r7);
    lemma_assoc(p1 + p2 + p3 + p4 + p5, p6, r6);
    lemma_assoc(p1 + p2 + p3 + p4, p5, r5);
    lemma_assoc(p1 + p2 + p3, p4, r4);
    lemma_assoc(p1 + p2, p3, r3);
    lemma_assoc(p1, p2, r2);
    assert(s == p1 + r1);
    lemma_expect_prefix(p1, r1);
    assert(r2[0] == ',');
    lemma_parse_u64_enc(e.id, r2);
    lemma_expect_prefix(p3, r3);
    lemma_assoc(p4, p5, r5);
    lemma_parse_jstr_enc(e.content, r5);
    assert(parse_jstr(r3) == Some((e.content, r5)));
    lemma_expect_prefix(p6, r6);
    assert(r7[0] == ',');
    lemma_parse_u64_enc(e.timestamp, r7);
    lemma_expect_prefix(p8, r8);
    lemma_parse_bool_enc(e.favorite, r9);
    lemma_expect_prefix(p10, rest);
}

/// Parsing the encoded tail of a store, against a rest that does not
/// begin another entry, gives back those entries.
proof fn lemma_parse_rest_enc(s: Seq<EntryModel>, rest: Seq<char>)
    requires
        rest.len() > 0,
        rest[0] != ',',
    ensures
        parse_rest(enc_rest(s) + rest) == Some((s, rest)),
    decreases s.len(),
{
    let t = enc_rest(s) + rest;
    if s.len() == 0 {
        assert(t =~= rest);
    } else {
        let e = s[0];
        let tail = s.drop_first();
        let inner = enc_rest(tail) + rest;
        assert(t =~= seq![','] + (enc_entry(e) + inner));
        assert(t[0] == ',');
        assert(t.drop_first() =~= enc_entry(e) + inner);
        lemma_parse_entry_enc(e, inner);
        assert(inner.len() < t.len()) by {
            assert(enc_entry(e).len() >= 1);
        }
        lemma_parse_rest_enc(tail, rest);
        assert(seq![e] + tail =~= s);
    }
}

/// The accumulated value never shrinks while digits are consumed.
proof fn lemma_parse_digits_ge(s: Seq<char>, acc: nat)
    ensures
        parse_digits(s, acc).0 >= acc,
    decreases s.len(),
{
    if s.len() > 0 && is_digit(s[0]) {
        lemma_parse_digits_ge(s.drop_first(), (acc * 10 + digit_val(s[0])) as nat);
        assert(acc * 10 + digit_val(s[0]) >= acc);
    }
}

/// The whole round trip: parsing an encoded store gives back exactly
/// the entries that were saved, in order.
pub proof fn lemma_parse_enc_store(s: Seq<EntryModel>)
    ensures
        parse_store(enc_store(s)) == Some(s),
{
    let t = enc_store(s);
    if s.len() == 0 {
        assert(t =~= seq!['['] + seq![']']);
        lemma_expect_prefix(seq!['['], seq![']']);
    } else {
        let e = s[0];
        let tail = s.drop_first();
        let body = enc_entry(e) + (enc_rest(tail) + seq![']']);
        assert(t =~= seq!['['] + body);
        lemma_expect_prefix(seq!['['], body);
        assert(body != seq![']']) by {
            assert(body[0] == enc_entry(e)[0]);
            assert(enc_entry(e)[0] == '{');
        }
        lemma_parse_entry_enc(e, enc_rest(tail) + seq![']']);
        lemma_parse_rest_enc(tail, seq![']']);
        assert(seq![e] + tail =~= s);
    }
}

// ---------------------------------------------------------------------------
// The executable parser
// ---------------------------------------------------------------------------

/// The opening literal of an entry object, executably.
fn lit_id_vec() -> (r: Vec<char>)
    ensures
        r@ == lit_id(),
{
    let mut v: Vec<char> = Vec::new();
    v.push('{');
    v.push('"');
    v.push('i');
    v.push('d');
    v.push('"');
    v.push(':');
    proof {
        assert(v@ =~= lit_id());
    }
    v
}

/// The content key literal, executably.
fn lit_content_vec() -> (r: Vec<char>)
    ensures
        r@ == lit_content(),
{
    let mut v: Vec<char> = Vec::new();
    v.push(',');
    v.push('"');
    v.push('c');
    v.push('o');
    v.push('n');
    v.push('t');
    v.push('e');
    v.push('n');
    v.push('t');
    v.push('"');
    v.push(':');
    v.push('"');
    proof {
        assert(v@ =~= lit_content());
    }
    v
}

/// The timestamp key literal, executably.
fn lit_timestamp_vec() -> (r: Vec<char>)
    ensures
        r@ == lit_timestamp(),
{
    let mut v: Vec<char> = Vec::new();
    v.push(',');
    v.push('"');
    v.push('t');
    v.push('i');
    v.push('m');
    v.push('e');
    v.push('s');
    v.push('t');
    v.push('a');
    v.push('m');
    v.push('p');
    v.push('"');
    v.push(':');
    proof {
        assert(v@ =~= lit_timestamp());
    }
    v
}

/// The favorite key literal, executably.
fn lit_favorite_vec() -> (r: Vec<char>)
    ensures
        r@ == lit_favorite(),
{
    let mut v: Vec<char> = Vec::new();
    v.push(',');
    v.push('"');
    v.push('f');
    v.push('a');
    v.push('v');
    v.push('o');
    v.push('r');
    v.push('i');
    v.push('t');
    v.push('e');
    v.push('"');
    v.push(':');
    proof {
        assert(v@ =~= lit_favorite());
    }
    v
}

/// The boolean literals, executably.
fn bool_vec(b: bool) -> (r: Vec<char>)
    ensures
        r@ == enc_bool(b),
{
    let mut v: Vec<char> = Vec::new();
    if b {
        v.push('t');
        v.push('r');
        v.push('u');
        v.push('e');
        proof {
            assert(v@ =~= enc_bool(true));
        }
    } else {
        v.push('f');
        v.push('a');
        v.push('l');
        v.push('s');
        v.push('e');
        proof {
            assert(v@ =~= enc_bool(false));
        }
    }
    v
}

/// Consume an exact literal at position `i`, executably.
fn expect_exec(v: &Vec<char>, i: usize, lit: &Vec<char>) -> (r: Option<usize>)
    requires
        i <= v.len(),
    ensures
        match r {
            Some(j) => {
                &&& j == i + lit@.len()
                &&& j <= v.len()
                &&& expect(v@.skip(i as int), lit@) == Some(v@.skip(j as int))
            },
            None => expect(v@.skip(i as int), lit@) is None,
        },
{
    if v.len() - i < lit.len() {
        return None;
    }
    let mut k: usize = 0;
    while k < lit.len()
        invariant
            i <= v.len(),
            k <= lit.len(),
            lit.len() <= v.len() - i,
            forall|t: int| 0 <= t < k ==> v@[i + t] == lit@[t],
        decreases lit.len() - k,
    {
        if v[i + k] != lit[k] {
            proof {
                let s = v@.skip(i as int);
                if lit@.len() <= s.len() && s.take(lit@.len() as int) == lit@ {
                    assert(s.take(lit@.len() as int)[k as int] == lit@[k as int]);
                    assert(s[k as int] == v@[i + k]);
                }
            }
            return None;
        }
        k = k + 1;
    }
    proof {
        let s = v@.skip(i as int);
        assert(s.take(lit@.len() as int) =~= lit@);
        assert(s.skip(lit@.len() as int) =~= v@.skip(i + lit@.len()));
    }
    Some(i + lit.len())
}

/// Whether the character at a position is a digit, executably.
fn digit_at(v: &Vec<char>, j: usize) -> (r: bool)
    requires
        j < v.len(),
    ensures
        r == is_digit(v@[j as int]),
{
    is_digit_exec(v[j])
}

/// Consume a decimal number at position `i`, executably; numbers past
/// the u64 range fail.
fn parse_u64_exec(v: &Vec<char>, i: usize) -> (r: Option<(u64, usize)>)
    requires
        i <= v.len(),
    ensures
        match r {
            Some(p) => {
                &&& i < p.1 <= v.len()
                &&& parse_u64(v@.skip(i as int)) == Some((p.0, v@.skip(p.1 as int)))
            },
            None => parse_u64(v@.skip(i as int)) is None,
        },
{
    let ghost s0 = v@.skip(i as int);
    if i == v.len() {
        return None;
    }
    if !is_digit_exec(v[i]) {
        proof {
            assert(s0[0] == v@[i as int]);
        }
        return None;
    }
    let mut j: usize = i;
    let mut acc: u64 = 0;
    while j < v.len() && digit_at(v, j)
        invariant
            i <= j <= v.len(),
            i < v.len(),
            is_digit(v@[i as int]),
            s0 == v@.skip(i as int),
            parse_digits(s0, 0) == parse_digits(v@.skip(j as int), acc as nat),
        decreases v.len() - j,
    {
        let d = digit_val_exec(v[j]);
        let ghost cur = v@.skip(j as int);
        proof {
            assert(cur[0] == v@[j as int]);
            assert(cur.drop_first() =~= v@.skip(j + 1));
            assert(parse_digits(cur, acc as nat) == parse_digits(
                v@.skip(j + 1),
                (acc * 10 + digit_val(cur[0])) as nat,
            ));
        }
        if acc > (u64::MAX - d) / 10 {
            proof {
                lemma_parse_digits_ge(v@.skip(j + 1), (acc * 10 + d) as nat);
                assert(acc * 10 + d > u64::MAX);
                assert(parse_digits(s0, 0).0 > u64::MAX as nat);
                assert(s0.len() > 0 && is_digit(s0[0]));
            }
            return None;
        }
        proof {
            assert(acc * 10 + d <= u64::MAX);
        }
        acc = acc * 10 + d;
        j = j + 1;
    }
    proof {
        let cur = v@.skip(j as int);
        if j < v.len() {
            assert(cur[0] == v@[j as int]);
            assert(!is_digit(cur[0]));
        }
        assert(parse_digits(cur, acc as nat) == ((acc as nat, cur)));
        assert(s0.len() > 0 && is_digit(s0[0]));
    }
    Some((acc, j))
}

/// Consume a quoted string body at position `i`, undoing escapes,
/// executably.
fn parse_jstr_exec(v: &Vec<char>, i: usize) -> (r: Option<(Vec<char>, usize)>)
    requires
        i <= v.len(),
    ensures
        match r {
            Some(p) => {
                &&& i < p.1 <= v.len()
                &&& parse_jstr(v@.skip(i as int)) == Some((p.0@, v@.skip(p.1 as int)))
            },
            None => parse_jstr(v@.skip(i as int)) is None,
        },
    decreases v.len() - i,
{
    let ghost s = v@.skip(i as int);
    if i == v.len() {
        return None;
    }
    let c = v[i];
    proof {
        assert(s[0] == c);
    }
    if c == '"' {
        proof {
            assert(s.drop_first() =~= v@.skip(i + 1));
        }
        Some((Vec::new(), i + 1))
    } else if c == '\\' {
        if i + 1 < v.len() {
            let c2 = v[i + 1];
            proof {
                assert(s[1] == c2);
            }
            if c2 == '"' || c2 == '\\' {
                proof {
                    assert(s.skip(2) =~= v@.skip(i + 2));
                }
                match parse_jstr_exec(v, i + 2) {
                    Some((tv, j)) => {
                        let ghost t0 = tv@;
                        let mut out: Vec<char> = Vec::new();
                        out.push(c2);
                        let mut tv = tv;
                        out.append(&mut tv);
                        proof {
                            assert(out@ =~= seq![s[1]] + t0);
                        }
                        Some((out, j))
                    },
                    None => None,
                }
            } else {
                None
            }
        } else {
            proof {
                assert(s.len() == 1);
            }
            None
        }
    } else {
        proof {
            assert(s.drop_first() =~= v@.skip(i + 1));
        }
        match parse_jstr_exec(v, i + 1) {
            Some((tv, j)) => {
                let ghost t0 = tv@;
                let mut out: Vec<char> = Vec::new();
                out.push(c);
                let mut tv = tv;
                out.append(&mut tv);
                proof {
                    assert(out@ =~= seq![s[0]] + t0);
                }
                Some((out, j))
            },
            None => None,
        }
    }
}

/// Consume a boolean literal at position `i`, executably.
fn parse_bool_exec(v: &Vec<char>, i: usize) -> (r: Option<(bool, usize)>)
    requires
        i <= v.len(),
    ensures
        match r {
            Some(p) => {
                &&& i < p.1 <= v.len()
                &&& parse_bool(v@.skip(i as int)) == Some((p.0, v@.skip(p.1 as int)))
            },
            None => parse_bool(v@.skip(i as int)) is None,
        },
{
    let t = bool_vec(true);
    match expect_exec(v, i, &t) {
        Some(j) => Some((true, j)),
        None => {
            let f = bool_vec(false);
            match expect_exec(v, i, &f) {
                Some(j) => Some((false, j)),
                None => None,
            }
        },
    }
}

/// Consume one entry object at position `i`, executably.
fn parse_entry_exec(v: &Vec<char>, i: usize) -> (r: Option<(ClipboardEntry, usize)>)
    requires
        i <= v.len(),
    ensures
        match r {
            Some(p) => {
                &&& i < p.1 <= v.len()
                &&& parse_entry(v@.skip(i as int)) == Some((p.0@, v@.skip(p.1 as int)))
            },
            None => parse_entry(v@.skip(i as int)) is None,
        },
{
    let lid = lit_id_vec();
    let j1 = match expect_exec(v, i, &lid) {
        Some(j) => j,
        None => {
            return None;
        },
    };
    let (idv, j2) = match parse_u64_exec(v, j1) {
        Some(p) => p,
        None => {
            return None;
        },
    };
    let lc = lit_content_vec();
    let j3 = match expect_exec(v, j2, &lc) {
        Some(j) => j,
        None => {
            return None;
        },
    };
    let (content_chars, j4) = match parse_jstr_exec(v, j3) {
        Some(p) => p,
        None => {
            return None;
        },
    };
    let lt = lit_timestamp_vec();
    let j5 = match expect_exec(v, j4, &lt) {
        Some(j) => j,
        None => {
            return None;
        },
    };
    let (tsv, j6) = match parse_u64_exec(v, j5) {
        Some(p) => p,
        None => {
            return None;
        },
    };
    let lf = lit_favorite_vec();
    let j7 = match expect_exec(v, j6, &lf) {
        Some(j) => j,
        None => {
            return None;
        },
    };
    let (favv, j8) = match parse_bool_exec(v, j7) {
        Some(p) => p,
        None => {
            return None;
        },
    };
    let mut rb: Vec<char> = Vec::new();
    rb.push('}');
    proof {
        assert(rb@ =~= seq!['}']);
    }
    let j9 = match expect_exec(v, j8, &rb) {
        Some(j) => j,
        None => {
            return None;
        },
    };
    let e = ClipboardEntry {
        id: idv,
        content: string_from_chars(&content_chars),
        timestamp: tsv,
        favorite: favv,
    };
    Some((e, j9))
}

/// Consume every further comma-preceded entry at position `i`,
/// executably.
fn parse_rest_exec(v: &Vec<char>, i: usize) -> (r: Option<(Vec<ClipboardEntry>, usize)>)
    requires
        i <= v.len(),
    ensures
        match r {
            Some(p) => {
                &&& i <= p.1 <= v.len()
                &&& parse_rest(v@.skip(i as int)) == Some((models(p.0@), v@.skip(p.1 as int)))
            },
            None => parse_rest(v@.skip(i as int)) is None,
        },
    decreases v.len() - i,
{
    let ghost s = v@.skip(i as int);
    if i == v.len() {
        let r: Vec<ClipboardEntry> = Vec::new();
        proof {
            assert(models(r@) =~= Seq::<EntryModel>::empty());
        }
        return Some((r, i));
    }
    if v[i] != ',' {
        proof {
            assert(s[0] == v@[i as int]);
        }
        let r: Vec<ClipboardEntry> = Vec::new();
        proof {
            assert(models(r@) =~= Seq::<EntryModel>::empty());
        }
        return Some((r, i));
    }
    proof {
        assert(s[0] == ',');
        assert(s.drop_first() =~= v@.skip(i + 1));
    }
    match parse_entry_exec(v, i + 1) {
        Some((e, j)) => {
            proof {
                assert(v@.skip(j as int).len() < s.len());
            }
            match parse_rest_exec(v, j) {
                Some((restv, j2)) => {
                    let ghost rest0 = models(restv@);
                    let mut out: Vec<ClipboardEntry> = Vec::new();
                    out.push(e);
                    let mut restv = restv;
                    out.append(&mut restv);
                    proof {
                        assert(models(out@) =~= seq![e@] + rest0);
                    }
                    Some((out, j2))
                },
                None => None,
            }
        },
        None => None,
    }
}

/// Parse a whole persisted text, which must be consumed exactly,
/// executably.
fn parse_store_exec(v: &Vec<char>) -> (r: Option<Vec<ClipboardEntry>>)
    ensures
        match r {
            Some(es) => parse_store(v@) == Some(models(es@)),
            None => parse_store(v@) is None,
        },
{
    let mut lb: Vec<char> = Vec::new();
    lb.push('[');
    proof {
        assert(lb@ =~= seq!['[']);
        assert(v@.skip(0) =~= v@);
    }
    let j0 = match expect_exec(v, 0, &lb) {
        Some(j) => j,
        None => {
            return None;
        },
    };
    let ghost s1 = v@.skip(j0 as int);
    if v.len() - j0 == 1 && v[j0] == ']' {
        proof {
            assert(s1 =~= seq![']']);
        }
        let r: Vec<ClipboardEntry> = Vec::new();
        proof {
            assert(models(r@) =~= Seq::<EntryModel>::empty());
        }
        return Some(r);
    }
    proof {
        assert(s1 != seq![']']) by {
            if s1 == seq![']'] {
                assert(s1.len() == 1);
                assert(s1[0] == ']');
                assert(s1[0] == v@[j0 as int]);
            }
        }
    }
    let (e, j1) = match parse_entry_exec(v, j0) {
        Some(p) => p,
        None => {
            return None;
        },
    };
    let (restv, j2) = match parse_rest_exec(v, j1) {
        Some(p) => p,
        None => {
            return None;
        },
    };
    if v.len() - j2 == 1 && v[j2] == ']' {
        proof {
            assert(v@.skip(j2 as int) =~= seq![']']);
        }
        let ghost rest0 = models(restv@);
        let mut out: Vec<ClipboardEntry> = Vec::new();
        out.push(e);
        let mut restv = restv;
        out.append(&mut restv);
        proof {
            assert(models(out@) =~= seq![e@] + rest0);
        }
        Some(out)
    } else {
        proof {
            let s2 = v@.skip(j2 as int);
            assert(s2 != seq![']']) by {
                if s2 == seq![']'] {
                    assert(s2.len() == 1);
                    assert(s2[0] == ']');
                    if j2 < v.len() {
                        assert(s2[0] == v@[j2 as int]);
                    }
                }
            }
        }
        None
    }
}

// ---------------------------------------------------------------------------
// The executable encoder
// ---------------------------------------------------------------------------

/// Escape a content string from position `i` on, executably.
fn esc_exec(v: &Vec<char>, i: usize) -> (r: Vec<char>)
    requires
        i <= v.len(),
    ensures
        r@ == esc_str(v@.skip(i as int)),
    decreases v.len() - i,
{
    if i == v.len() {
        let r: Vec<char> = Vec::new();
        proof {
            assert(v@.skip(i as int).len() == 0);
        }
        return r;
    }
    let c = v[i];
    let mut out: Vec<char> = Vec::new();
    if c == '"' || c == '\\' {
        out.push('\\');
        out.push(c);
    } else {
        out.push(c);
    }
    let mut tail = esc_exec(v, i + 1);
    out.append(&mut tail);
    proof {
        let s = v@.skip(i as int);
        assert(s[0] == c);
        assert(s.drop_first() =~= v@.skip(i + 1));
        assert(out@ =~= esc_char(c) + esc_str(v@.skip(i + 1)));
    }
    out
}

/// Encode one entry, executably.
fn enc_entry_exec(e: &ClipboardEntry) -> (r: Vec<char>)
    ensures
        r@ == enc_entry(e@),
{
    let mut out = lit_id_vec();
    let mut t = dec_digits_exec(e.id);
    out.append(&mut t);
    let mut t = lit_content_vec();
    out.append(&mut t);
    let content_chars = chars_of(e.content.as_str());
    let mut t = esc_exec(&content_chars, 0);
    proof {
        assert(content_chars@.skip(0) =~= content_chars@);
    }
    out.append(&mut t);
    out.push('"');
    let ghost upto_quote = lit_id() + dec_digits(e.id as nat) + lit_content() + esc_str(e.content@);
    proof {
        assert(out@ =~= upto_quote + seq!['"']);
    }
    let mut t = lit_timestamp_vec();
    out.append(&mut t);
    let mut t = dec_digits_exec(e.timestamp);
    out.append(&mut t);
    let mut t = lit_favorite_vec();
    out.append(&mut t);
    let mut t = bool_vec(e.favorite);
    out.append(&mut t);
    out.push('}');
    proof {
        assert(out@ =~= enc_entry(e@));
    }
    out
}

/// Encode every entry after position `i`, each preceded by a comma,
/// executably.
fn enc_rest_exec(entries: &Vec<ClipboardEntry>, i: usize) -> (r: Vec<char>)
    requires
        i <= entries.len(),
    ensures
        r@ == enc_rest(models(entries@).skip(i as int)),
    decreases entries.len() - i,
{
    if i == entries.len() {
        let r: Vec<char> = Vec::new();
        proof {
            assert(models(entries@).skip(i as int).len() == 0);
        }
        return r;
    }
    let mut out: Vec<char> = Vec::new();
    out.push(',');
    let mut t = enc_entry_exec(&entries[i]);
    out.append(&mut t);
    let mut t2 = enc_rest_exec(entries, i + 1);
    out.append(&mut t2);
    proof {
        let s = models(entries@).skip(i as int);
        assert(s[0] == entries@[i as int]@);
        assert(s.drop_first() =~= models(entries@).skip(i + 1));
        assert(out@ =~= seq![','] + enc_entry(s[0]) + enc_rest(s.drop_first()));
    }
    out
}

/// Serialize the whole store, newest-first, for persistence.
pub fn to_json(store: &HistoryStore) -> (r: String)
    ensures
        r@ == enc_store(store@),
{
    let entries = store.entries();
    let mut out: Vec<char> = Vec::new();
    out.push('[');
    if entries.len() > 0 {
        let mut t = enc_entry_exec(&entries[0]);
        out.append(&mut t);
        let mut t2 = enc_rest_exec(entries, 1);
        out.append(&mut t2);
        proof {
            let s = models(entries@);
            assert(s[0] == entries@[0]@);
            assert(s.skip(1) =~= s.drop_first());
        }
    }
    out.push(']');
    proof {
        assert(out@ =~= enc_store(store@));
    }
    string_from_chars(&out)
}

// ---------------------------------------------------------------------------
// Loading
// ---------------------------------------------------------------------------

/// The entry sequence a persisted text denotes: a text that does not
/// parse, or that breaks the store's invariants, denotes the empty
/// store.
pub open spec fn load_spec(t: Seq<char>) -> Seq<EntryModel> {
    match parse_store(t) {
        Some(s) => if s.len() <= MAX_HISTORY && distinct_contents(s) && nonempty_contents(s) {
            s
        } else {
            Seq::<EntryModel>::empty()
        },
        None => Seq::<EntryModel>::empty(),
    }
}

/// Whether parsed entries satisfy the store's invariants, executably.
fn valid_entries(entries: &Vec<ClipboardEntry>) -> (r: bool)
    ensures
        r == (models(entries@).len() <= MAX_HISTORY && distinct_contents(models(entries@))
            && nonempty_contents(models(entries@))),
{
    let ghost s = models(entries@);
    if entries.len() > MAX_HISTORY {
        return false;
    }
    let mut i: usize = 0;
    while i < entries.len()
        invariant
            i <= entries.len(),
            s == models(entries@),
            forall|a: int| 0 <= a < i ==> (#[trigger] s[a]).content.len() > 0,
        decreases entries.len() - i,
    {
        if entries[i].content.as_str().is_empty() {
            proof {
                assert(s[i as int].content.len() == 0);
            }
            return false;
        }
        i = i + 1;
    }
    let mut a: usize = 0;
    while a < entries.len()
        invariant
            a <= entries.len(),
            s == models(entries@),
            forall|x: int, y: int|
                0 <= x < y < entries.len() && x < a ==> (#[trigger] s[x]).content != (
                #[trigger] s[y]).content,
        decreases entries.len() - a,
    {
        let mut b: usize = a + 1;
        while b < entries.len()
            invariant
                a < entries.len(),
                a < b <= entries.len(),
                s == models(entries@),
                forall|y: int|
                    a < y < b ==> (#[trigger] s[y]).content != s[a as int].content,
            decreases entries.len() - b,
        {
            if entries[a].content == entries[b].content {
                proof {
                    assert(s[a as int].content == s[b as int].content);
                }
                return false;
            }
            b = b + 1;
        }
        a = a + 1;
    }
    proof {
        assert(distinct_contents(s));
        assert(nonempty_contents(s));
    }
    true
}

/// Rebuild a store from a persisted text: a text that does not parse,
/// or one that breaks the store's invariants, yields the empty store,
/// never an error.
pub fn from_json(text: &str) -> (r: HistoryStore)
    ensures
        r.wf(),
        r.capacity() == MAX_HISTORY as int,
        r@ == load_spec(text@),
{
    let v = chars_of(text);
    match parse_store_exec(&v) {
        Some(entries) => {
            if valid_entries(&entries) {
                HistoryStore::from_entries(entries)
            } else {
                HistoryStore::new()
            }
        },
        None => HistoryStore::new(),
    }
}

/// Saving a well-formed store and loading the text back yields the
/// identical ordered sequence of entries.
pub proof fn lemma_save_load_round_trip(s: Seq<EntryModel>)
    requires
        s.len() <= MAX_HISTORY,
        distinct_contents(s),
        nonempty_contents(s),
    ensures
        load_spec(enc_store(s)) == s,
{
    lemma_parse_enc_store(s);
}

} // verus!
