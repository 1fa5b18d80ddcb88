//! The codec: converting a key-value mapping to and from the byte
//! sequence kept in the backing file.
//!
//! The default encoding is structured text: records in braces, sequences
//! in brackets, strings in quotes with hexadecimal escapes, integers as
//! fixed-width hexadecimal. A second codec wraps that text in a
//! length-prefixed binary frame. The decoder accepts exactly what the
//! encoder produces and is proved to invert it.

use vstd::prelude::*;

use crate::value::{lemma_arr_model, lemma_obj_model, Value, ValueModel};
use vstd::string::StrSliceExecFns;

verus! {

pub const B_QUOTE: u8 = 34;
pub const B_BSLASH: u8 = 92;
pub const B_LBRACKET: u8 = 91;
pub const B_RBRACKET: u8 = 93;
pub const B_LBRACE: u8 = 123;
pub const B_RBRACE: u8 = 125;
pub const B_COMMA: u8 = 44;
pub const B_COLON: u8 = 58;
pub const B_INT: u8 = 105;

/// The byte for one hexadecimal digit, lowercase.
pub open spec fn hex_digit(d: int) -> u8 {
    if d < 10 {
        (48 + d) as u8
    } else {
        (87 + d) as u8
    }
}

/// A value written as exactly `n` lowercase hexadecimal digits, most
/// significant first.
pub open spec fn enc_hex(x: int, n: nat) -> Seq<u8>
    decreases n,
{
    if n == 0 {
        Seq::empty()
    } else {
        enc_hex(x / 16, (n - 1) as nat) + seq![hex_digit(x % 16)]
    }
}

/// One character of a string: directly for printable seven-bit bytes,
/// as a backslash and eight hexadecimal digits otherwise.
pub open spec fn enc_char(c: char) -> Seq<u8> {
    let u = c as u32;
    if 0x20 <= u && u < 0x7f && u != 34 && u != 92 {
        seq![u as u8]
    } else {
        seq![B_BSLASH] + enc_hex(u as int, 8)
    }
}

/// The characters of a string, in order.
pub open spec fn enc_chars(cs: Seq<char>) -> Seq<u8>
    decreases cs.len(),
{
    if cs.len() == 0 {
        Seq::empty()
    } else {
        enc_char(cs[0]) + enc_chars(cs.drop_first())
    }
}

/// A string: its characters between quotes.
pub open spec fn enc_string(cs: Seq<char>) -> Seq<u8> {
    seq![B_QUOTE] + enc_chars(cs) + seq![B_QUOTE]
}

/// An integer: a marker byte and sixteen hexadecimal digits of its
/// two's-complement bits.
pub open spec fn enc_int(x: i64) -> Seq<u8> {
    seq![B_INT] + enc_hex(x as u64 as int, 16)
}

/// One value.
pub open spec fn enc_value(v: Value) -> Seq<u8>
    decreases v,
{
    match v {
        Value::Null => seq![110u8, 117u8, 108u8, 108u8],
        Value::Bool(b) => if b {
            seq![116u8, 114u8, 117u8, 101u8]
        } else {
            seq![102u8, 97u8, 108u8, 115u8, 101u8]
        },
        Value::Int(x) => enc_int(x),
        Value::Str(s) => enc_string(s@),
        Value::Arr(vs) => seq![B_LBRACKET] + enc_items(vs@) + seq![B_RBRACKET],
        Value::Obj(es) => seq![B_LBRACE] + enc_entries(es@) + seq![B_RBRACE],
    }
}

/// The elements of a sequence value, separated by commas.
pub open spec fn enc_items(vs: Seq<Value>) -> Seq<u8>
    decreases vs,
{
    if vs.len() == 0 {
        Seq::empty()
    } else if vs.len() == 1 {
        enc_value(vs[0])
    } else {
        enc_value(vs[0]) + seq![B_COMMA] + enc_items(vs.drop_first())
    }
}

/// One keyed entry: the key as a string, a colon, the value.
pub open spec fn enc_entry(e: (String, Value)) -> Seq<u8>
    decreases e,
{
    enc_string(e.0@) + seq![B_COLON] + enc_value(e.1)
}

/// The entries of a record, separated by commas.
pub open spec fn enc_entries(es: Seq<(String, Value)>) -> Seq<u8>
    decreases es,
{
    if es.len() == 0 {
        Seq::empty()
    } else if es.len() == 1 {
        enc_entry(es[0])
    } else {
        enc_entry(es[0]) + seq![B_COMMA] + enc_entries(es.drop_first())
    }
}

/// The full encoding of a mapping's entries: a record in braces.
pub open spec fn enc_map(es: Seq<(String, Value)>) -> Seq<u8> {
    seq![B_LBRACE] + enc_entries(es) + seq![B_RBRACE]
}

/// Whether the window `w` stands in `s` at position `pos`.
pub open spec fn matches_at(s: Seq<u8>, pos: int, w: Seq<u8>) -> bool {
    0 <= pos && pos + w.len() <= s.len() && forall|j: int|
        0 <= j < w.len() ==> s[pos + j] == #[trigger] w[j]
}

/// A window of two parts stands at a position exactly when each part
/// stands at its own position.
pub proof fn lemma_matches_split(s: Seq<u8>, pos: int, a: Seq<u8>, b: Seq<u8>)
    ensures
        matches_at(s, pos, a + b) <==> matches_at(s, pos, a) && matches_at(
            s,
            pos + a.len(),
            b,
        ),
{
    if matches_at(s, pos, a + b) {
        assert forall|j: int| 0 <= j < a.len() implies s[pos + j] == a[j] by {
            assert((a + b)[j] == a[j]);
        }
        assert forall|j: int| 0 <= j < b.len() implies s[pos + a.len() + j] == b[j] by {
            assert((a + b)[a.len() + j] == b[j]);
        }
    }
    if matches_at(s, pos, a) && matches_at(s, pos + a.len(), b) {
        assert forall|j: int| 0 <= j < (a + b).len() implies s[pos + j] == (a + b)[j] by {
            if j < a.len() {
                assert(s[pos + j] == a[j]);
            } else {
                assert(s[pos + a.len() + (j - a.len())] == b[j - a.len()]);
            }
        }
    }
}

/// Whether the byte is a lowercase hexadecimal digit.
pub open spec fn is_hex(b: u8) -> bool {
    (48 <= b && b <= 57) || (97 <= b && b <= 102)
}

/// The digit a hexadecimal byte stands for.
pub open spec fn hex_val(b: u8) -> int {
    if b <= 57 {
        b - 48
    } else {
        b - 87
    }
}

/// Whether `n` hexadecimal digit bytes stand at the position.
pub open spec fn valid_hex_run(s: Seq<u8>, pos: int, n: nat) -> bool {
    0 <= pos && pos + n <= s.len() && forall|j: int| 0 <= j < n ==> is_hex(#[trigger] s[pos + j])
}

/// The value of `n` hexadecimal digits at the position, most
/// significant first.
pub open spec fn hex_run_val(s: Seq<u8>, pos: int, n: nat) -> int
    decreases n,
{
    if n == 0 {
        0
    } else {
        hex_run_val(s, pos, (n - 1) as nat) * 16 + hex_val(s[pos + n - 1])
    }
}

/// Sixteen to the `n`th power.
pub open spec fn pow16(n: nat) -> int
    decreases n,
{
    if n == 0 {
        1
    } else {
        16 * pow16((n - 1) as nat)
    }
}

pub proof fn lemma_enc_hex_len(x: int, n: nat)
    ensures
        enc_hex(x, n).len() == n,
    decreases n,
{
    if n > 0 {
        lemma_enc_hex_len(x / 16, (n - 1) as nat);
    }
}

/// Reading back the digits of an encoded value yields the value.
pub proof fn lemma_hex_roundtrip(s: Seq<u8>, pos: int, x: int, n: nat)
    requires
        0 <= x < pow16(n),
        matches_at(s, pos, enc_hex(x, n)),
    ensures
        valid_hex_run(s, pos, n),
        hex_run_val(s, pos, n) == x,
    decreases n,
{
    lemma_enc_hex_len(x, n);
    if n > 0 {
        let m = (n - 1) as nat;
        vstd::arithmetic::div_mod::lemma_fundamental_div_mod(x, 16);
        assert(x / 16 < pow16(m));
        assert(0 <= x % 16 < 16);
        lemma_matches_split(s, pos, enc_hex(x / 16, m), seq![hex_digit(x % 16)]);
        lemma_enc_hex_len(x / 16, m);
        lemma_hex_roundtrip(s, pos, x / 16, m);
        assert(seq![hex_digit(x % 16)][0] == hex_digit(x % 16));
        assert(s[pos + m] == hex_digit(x % 16));
        assert(is_hex(hex_digit(x % 16)));
        assert(hex_val(hex_digit(x % 16)) == x % 16);
        assert forall|j: int| 0 <= j < n implies is_hex(#[trigger] s[pos + j]) by {
            if j < m {
                assert(is_hex(s[pos + j]));
            }
        }
    }
}

/// The signed value whose sixty-four two's-complement bits have the
/// given unsigned value.
pub open spec fn as_i64_val(v: int) -> int {
    ((v as u64) as i64) as int
}

/// A signed value survives the round trip through its unsigned bits.
pub proof fn lemma_i64_roundtrip(x: i64)
    ensures
        (x as u64) as i64 == x,
{
    assert((x as u64) as i64 == x) by (bit_vector);
}

/// Parse the body of a string, up to and past its closing quote.
pub open spec fn sp_chars(s: Seq<u8>, pos: int) -> Option<(Seq<char>, int)>
    decreases s.len() - pos,
{
    if pos < 0 || pos >= s.len() {
        None
    } else if s[pos] == B_QUOTE {
        Some((Seq::empty(), pos + 1))
    } else if s[pos] == B_BSLASH {
        if valid_hex_run(s, pos + 1, 8) {
            let u = hex_run_val(s, pos + 1, 8);
            if u < 0xD800 || (0xE000 <= u && u <= 0x10FFFF) {
                match sp_chars(s, pos + 9) {
                    Some((cs, p)) => Some((seq![(u as u32) as char] + cs, p)),
                    None => None,
                }
            } else {
                None
            }
        } else {
            None
        }
    } else if 0x20 <= s[pos] && s[pos] < 0x7f {
        match sp_chars(s, pos + 1) {
            Some((cs, p)) => Some((seq![s[pos] as char] + cs, p)),
            None => None,
        }
    } else {
        None
    }
}

/// Parse an integer: its marker byte and sixteen hexadecimal digits.
pub open spec fn sp_int(s: Seq<u8>, pos: int) -> Option<(int, int)> {
    if 0 <= pos && pos < s.len() && s[pos] == B_INT && valid_hex_run(s, pos + 1, 16) {
        Some((as_i64_val(hex_run_val(s, pos + 1, 16)), pos + 17))
    } else {
        None
    }
}

/// Parse one value. The fuel bounds nesting; any fuel above the number
/// of bytes left behaves the same.
pub open spec fn sp_value(s: Seq<u8>, pos: int, fuel: nat) -> Option<(ValueModel, int)>
    decreases fuel, 0nat,
{
    if fuel == 0 || pos < 0 || pos >= s.len() {
        None
    } else {
        let b = s[pos];
        if b == 110 {
            if pos + 4 <= s.len() && s[pos + 1] == 117 && s[pos + 2] == 108 && s[pos + 3] == 108 {
                Some((ValueModel::Null, pos + 4))
            } else {
                None
            }
        } else if b == 116 {
            if pos + 4 <= s.len() && s[pos + 1] == 114 && s[pos + 2] == 117 && s[pos + 3] == 101 {
                Some((ValueModel::Bool(true), pos + 4))
            } else {
                None
            }
        } else if b == 102 {
            if pos + 5 <= s.len() && s[pos + 1] == 97 && s[pos + 2] == 108 && s[pos + 3] == 115
                && s[pos + 4] == 101 {
                Some((ValueModel::Bool(false), pos + 5))
            } else {
                None
            }
        } else if b == B_INT {
            match sp_int(s, pos) {
                Some((x, p)) => Some((ValueModel::Int(x), p)),
                None => None,
            }
        } else if b == B_QUOTE {
            match sp_chars(s, pos + 1) {
                Some((cs, p)) => Some((ValueModel::Str(cs), p)),
                None => None,
            }
        } else if b == B_LBRACKET {
            if pos + 1 < s.len() && s[pos + 1] == B_RBRACKET {
                Some((ValueModel::Arr(Seq::empty()), pos + 2))
            } else {
                match sp_items(s, pos + 1, (fuel - 1) as nat) {
                    Some((vs, p)) => Some((ValueModel::Arr(vs), p)),
                    None => None,
                }
            }
        } else if b == B_LBRACE {
            if pos + 1 < s.len() && s[pos + 1] == B_RBRACE {
                Some((ValueModel::Obj(Seq::empty()), pos + 2))
            } else {
                match sp_entries(s, pos + 1, (fuel - 1) as nat) {
                    Some((ps, p)) => Some((ValueModel::Obj(ps), p)),
                    None => None,
                }
            }
        } else {
            None
        }
    }
}

/// Parse the elements of a non-empty sequence, up to and past the
/// closing bracket.
pub open spec fn sp_items(s: Seq<u8>, pos: int, fuel: nat) -> Option<(Seq<ValueModel>, int)>
    decreases fuel, 1nat,
{
    if fuel == 0 {
        None
    } else {
        match sp_value(s, pos, fuel) {
            Some((v, p)) => if p < s.len() {
                if s[p] == B_COMMA {
                    match sp_items(s, p + 1, (fuel - 1) as nat) {
                        Some((vs, q)) => Some((seq![v] + vs, q)),
                        None => None,
                    }
                } else if s[p] == B_RBRACKET {
                    Some((seq![v], p + 1))
                } else {
                    None
                }
            } else {
                None
            },
            None => None,
        }
    }
}

/// Parse the entries of a non-empty record, up to and past the closing
/// brace.
pub open spec fn sp_entries(s: Seq<u8>, pos: int, fuel: nat) -> Option<
    (Seq<(Seq<char>, ValueModel)>, int),
>
    decreases fuel, 1nat,
{
    if fuel == 0 {
        None
    } else if 0 <= pos && pos < s.len() && s[pos] == B_QUOTE {
        match sp_chars(s, pos + 1) {
            Some((k, p1)) => if p1 < s.len() && s[p1] == B_COLON {
                match sp_value(s, p1 + 1, fuel) {
                    Some((v, p2)) => if p2 < s.len() {
                        if s[p2] == B_COMMA {
                            match sp_entries(s, p2 + 1, (fuel - 1) as nat) {
                                Some((ps, q)) => Some((seq![(k, v)] + ps, q)),
                                None => None,
                            }
                        } else if s[p2] == B_RBRACE {
                            Some((seq![(k, v)], p2 + 1))
                        } else {
                            None
                        }
                    } else {
                        None
                    },
                    None => None,
                }
            } else {
                None
            },
            None => None,
        }
    } else {
        None
    }
}

/// Fuel that is always enough to parse from the position.
pub open spec fn sp_fuel(s: Seq<u8>, pos: int) -> nat {
    (s.len() - pos + 1) as nat
}

/// The mapping entries a whole byte sequence stands for: a record in
/// braces with nothing after it, or nothing if the bytes are malformed.
pub open spec fn parse_text(s: Seq<u8>) -> Option<Seq<(Seq<char>, ValueModel)>> {
    match sp_value(s, 0, sp_fuel(s, 0)) {
        Some((ValueModel::Obj(ps), p)) => if p == s.len() {
            Some(ps)
        } else {
            None
        },
        _ => None,
    }
}

pub proof fn lemma_sp_chars_range(s: Seq<u8>, pos: int)
    ensures
        sp_chars(s, pos) matches Some((cs, p)) ==> pos < p <= s.len(),
    decreases s.len() - pos,
{
    if 0 <= pos && pos < s.len() {
        if s[pos] == B_BSLASH {
            if valid_hex_run(s, pos + 1, 8) {
                lemma_sp_chars_range(s, pos + 9);
            }
        } else if s[pos] != B_QUOTE && 0x20 <= s[pos] && s[pos] < 0x7f {
            lemma_sp_chars_range(s, pos + 1);
        }
    }
}

pub proof fn lemma_sp_value_range(s: Seq<u8>, pos: int, fuel: nat)
    ensures
        sp_value(s, pos, fuel) matches Some((v, p)) ==> pos < p <= s.len(),
    decreases fuel, 0nat,
{
    if fuel > 0 && 0 <= pos && pos < s.len() {
        lemma_sp_chars_range(s, pos + 1);
        if s[pos] == B_LBRACKET {
            lemma_sp_items_range(s, pos + 1, (fuel - 1) as nat);
        }
        if s[pos] == B_LBRACE {
            lemma_sp_entries_range(s, pos + 1, (fuel - 1) as nat);
        }
    }
}

pub proof fn lemma_sp_items_range(s: Seq<u8>, pos: int, fuel: nat)
    ensures
        sp_items(s, pos, fuel) matches Some((vs, p)) ==> pos < p <= s.len(),
    decreases fuel, 1nat,
{
    if fuel > 0 {
        lemma_sp_value_range(s, pos, fuel);
        if let Some((v, p)) = sp_value(s, pos, fuel) {
            if p < s.len() && s[p] == B_COMMA {
                lemma_sp_items_range(s, p + 1, (fuel - 1) as nat);
            }
        }
    }
}

pub proof fn lemma_sp_entries_range(s: Seq<u8>, pos: int, fuel: nat)
    ensures
        sp_entries(s, pos, fuel) matches Some((ps, p)) ==> pos < p <= s.len(),
    decreases fuel, 1nat,
{
    if fuel > 0 && 0 <= pos && pos < s.len() && s[pos] == B_QUOTE {
        lemma_sp_chars_range(s, pos + 1);
        if let Some((k, p1)) = sp_chars(s, pos + 1) {
            if p1 < s.len() && s[p1] == B_COLON {
                lemma_sp_value_range(s, p1 + 1, fuel);
                if let Some((v, p2)) = sp_value(s, p1 + 1, fuel) {
                    if p2 < s.len() && s[p2] == B_COMMA {
                        lemma_sp_entries_range(s, p2 + 1, (fuel - 1) as nat);
                    }
                }
            }
        }
    }
}

/// Any two fuels at least one past the bytes left parse alike.
pub proof fn lemma_sp_value_fuel(s: Seq<u8>, pos: int, f1: nat, f2: nat)
    requires
        f1 >= s.len() - pos + 1,
        f2 >= s.len() - pos + 1,
    ensures
        sp_value(s, pos, f1) == sp_value(s, pos, f2),
    decreases f1 + f2, 0nat,
{
    if f1 > 0 && f2 > 0 && 0 <= pos && pos < s.len() {
        if s[pos] == B_LBRACKET && !(pos + 1 < s.len() && s[pos + 1] == B_RBRACKET) {
            lemma_sp_items_fuel(s, pos + 1, (f1 - 1) as nat, (f2 - 1) as nat);
        }
        if s[pos] == B_LBRACE && !(pos + 1 < s.len() && s[pos + 1] == B_RBRACE) {
            lemma_sp_entries_fuel(s, pos + 1, (f1 - 1) as nat, (f2 - 1) as nat);
        }
    }
}

pub proof fn lemma_sp_items_fuel(s: Seq<u8>, pos: int, f1: nat, f2: nat)
    requires
        f1 >= s.len() - pos + 1,
        f2 >= s.len() - pos + 1,
    ensures
        sp_items(s, pos, f1) == sp_items(s, pos, f2),
    decreases f1 + f2, 1nat,
{
    if f1 > 0 && f2 > 0 {
        lemma_sp_value_fuel(s, pos, f1, f2);
        lemma_sp_value_range(s, pos, f1);
        if let Some((v, p)) = sp_value(s, pos, f1) {
            if p < s.len() && s[p] == B_COMMA {
                lemma_sp_items_fuel(s, p + 1, (f1 - 1) as nat, (f2 - 1) as nat);
            }
        }
    } else {
        assert(pos > s.len());
        assert(sp_value(s, pos, f1) is None);
        assert(sp_value(s, pos, f2) is None);
        assert(sp_items(s, pos, f1) is None);
        assert(sp_items(s, pos, f2) is None);
    }
}

pub proof fn lemma_sp_entries_fuel(s: Seq<u8>, pos: int, f1: nat, f2: nat)
    requires
        f1 >= s.len() - pos + 1,
        f2 >= s.len() - pos + 1,
    ensures
        sp_entries(s, pos, f1) == sp_entries(s, pos, f2),
    decreases f1 + f2, 1nat,
{
    if f1 > 0 && f2 > 0 && 0 <= pos && pos < s.len() && s[pos] == B_QUOTE {
        lemma_sp_chars_range(s, pos + 1);
        if let Some((k, p1)) = sp_chars(s, pos + 1) {
            if p1 < s.len() && s[p1] == B_COLON {
                lemma_sp_value_fuel(s, p1 + 1, f1, f2);
                lemma_sp_value_range(s, p1 + 1, f1);
                if let Some((v, p2)) = sp_value(s, p1 + 1, f1) {
                    if p2 < s.len() && s[p2] == B_COMMA {
                        lemma_sp_entries_fuel(s, p2 + 1, (f1 - 1) as nat, (f2 - 1) as nat);
                    }
                }
            }
        }
    } else if f1 == 0 || f2 == 0 {
        assert(pos > s.len());
        assert(sp_entries(s, pos, f1) is None);
        assert(sp_entries(s, pos, f2) is None);
    }
}

/// The first byte of any value's encoding, used to tell a closing
/// bracket or brace from the start of an element.
pub proof fn lemma_enc_value_first(v: Value)
    ensures
        enc_value(v).len() >= 1,
        enc_value(v)[0] == 110 || enc_value(v)[0] == 116 || enc_value(v)[0] == 102
            || enc_value(v)[0] == B_INT || enc_value(v)[0] == B_QUOTE
            || enc_value(v)[0] == B_LBRACKET || enc_value(v)[0] == B_LBRACE,
{
    match v {
        Value::Null => {
            assert(enc_value(v)[0] == 110);
        },
        Value::Bool(b) => {
            assert(enc_value(v)[0] == if b { 116u8 } else { 102u8 });
        },
        Value::Int(x) => {
            assert(enc_value(v)[0] == B_INT);
        },
        Value::Str(s) => {
            assert(enc_value(v)[0] == B_QUOTE);
        },
        Value::Arr(vs) => {
            assert(enc_value(v)[0] == B_LBRACKET);
        },
        Value::Obj(es) => {
            assert(enc_value(v)[0] == B_LBRACE);
        },
    }
}

/// A non-empty element list's encoding starts with its first element's
/// first byte.
pub proof fn lemma_enc_items_first(vs: Seq<Value>)
    requires
        vs.len() >= 1,
    ensures
        enc_items(vs).len() >= 1,
        enc_items(vs)[0] == enc_value(vs[0])[0],
{
    lemma_enc_value_first(vs[0]);
    if vs.len() > 1 {
        assert(enc_items(vs) == (enc_value(vs[0]) + seq![B_COMMA]) + enc_items(vs.drop_first()));
        assert((enc_value(vs[0]) + seq![B_COMMA])[0] == enc_value(vs[0])[0]);
    }
}

/// A non-empty entry list's encoding starts with a quote.
pub proof fn lemma_enc_entries_first(es: Seq<(String, Value)>)
    requires
        es.len() >= 1,
    ensures
        enc_entries(es).len() >= 1,
        enc_entries(es)[0] == B_QUOTE,
{
    let e0 = es[0];
    let ks = enc_string(e0.0@);
    assert(seq![B_QUOTE][0] == B_QUOTE);
    assert((seq![B_QUOTE] + enc_chars(e0.0@))[0] == B_QUOTE);
    assert(ks[0] == B_QUOTE);
    assert(enc_entry(e0)[0] == B_QUOTE) by {
        assert(enc_entry(e0) == (ks + seq![B_COLON]) + enc_value(e0.1));
        assert((ks + seq![B_COLON])[0] == ks[0]);
    }
    if es.len() > 1 {
        assert(enc_entries(es) == (enc_entry(e0) + seq![B_COMMA]) + enc_entries(es.drop_first()));
        assert((enc_entry(e0) + seq![B_COMMA])[0] == enc_entry(e0)[0]);
    }
}

/// Parsing the bytes of an encoded string body yields its characters.
pub proof fn lemma_rt_chars(s: Seq<u8>, pos: int, cs: Seq<char>)
    requires
        matches_at(s, pos, enc_chars(cs) + seq![B_QUOTE]),
    ensures
        sp_chars(s, pos) == Some((cs, pos + enc_chars(cs).len() + 1)),
    decreases cs.len(),
{
    lemma_matches_split(s, pos, enc_chars(cs), seq![B_QUOTE]);
    assert(seq![B_QUOTE][0] == B_QUOTE);
    let n = enc_chars(cs).len() as int;
    assert(s[pos + n] == B_QUOTE);
    if cs.len() == 0 {
        assert(n == 0);
        assert(cs =~= Seq::<char>::empty());
        assert(sp_chars(s, pos) == Some((Seq::<char>::empty(), pos + 1)));
    } else {
        let c = cs[0];
        let rest = cs.drop_first();
        let u = c as u32;
        assert(enc_chars(cs) == enc_char(c) + enc_chars(rest));
        assert((enc_char(c) + enc_chars(rest)) + seq![B_QUOTE] =~= enc_char(c) + (enc_chars(rest)
            + seq![B_QUOTE]));
        lemma_matches_split(s, pos, enc_char(c), enc_chars(rest) + seq![B_QUOTE]);
        let m = enc_char(c).len() as int;
        lemma_rt_chars(s, pos + m, rest);
        vstd::utf8::char_u32_cast(c, u);
        if 0x20 <= u && u < 0x7f && u != 34 && u != 92 {
            assert(enc_char(c) == seq![u as u8]);
            assert(seq![u as u8][0] == u as u8);
            assert(s[pos] == u as u8);
            assert(s[pos] != B_QUOTE && s[pos] != B_BSLASH);
            assert(0x20 <= s[pos] && s[pos] < 0x7f);
            assert((s[pos] as char) == c);
            assert(sp_chars(s, pos) == Some((seq![c] + rest, pos + n + 1)));
            assert(seq![c] + rest =~= cs);
        } else {
            vstd::utf8::char_is_scalar(c);
            assert(enc_char(c) == seq![B_BSLASH] + enc_hex(u as int, 8));
            lemma_matches_split(s, pos, seq![B_BSLASH], enc_hex(u as int, 8));
            assert(seq![B_BSLASH][0] == B_BSLASH);
            assert(s[pos] == B_BSLASH);
            assert(pow16(8) == 0x100000000) by {
                reveal_with_fuel(pow16, 9);
            }
            lemma_enc_hex_len(u as int, 8);
            lemma_hex_roundtrip(s, pos + 1, u as int, 8);
            assert(m == 9);
            let uv = hex_run_val(s, pos + 1, 8);
            assert(uv == u as int);
            assert(uv < 0xD800 || (0xE000 <= uv && uv <= 0x10FFFF));
            assert(((uv as u32) as char) == c);
            assert(sp_chars(s, pos) == Some((seq![c] + rest, pos + n + 1)));
            assert(seq![c] + rest =~= cs);
        }
    }
}

/// Parsing the bytes of an encoded string yields its characters.
pub proof fn lemma_rt_string(s: Seq<u8>, pos: int, cs: Seq<char>)
    requires
        matches_at(s, pos, enc_string(cs)),
    ensures
        pos < s.len(),
        s[pos] == B_QUOTE,
        sp_chars(s, pos + 1) == Some((cs, pos + enc_string(cs).len())),
    decreases cs.len(),
{
    assert((seq![B_QUOTE] + enc_chars(cs)) + seq![B_QUOTE] =~= seq![B_QUOTE] + (enc_chars(cs)
        + seq![B_QUOTE]));
    lemma_matches_split(s, pos, seq![B_QUOTE], enc_chars(cs) + seq![B_QUOTE]);
    assert(seq![B_QUOTE][0] == B_QUOTE);
    assert(s[pos] == B_QUOTE);
    lemma_rt_chars(s, pos + 1, cs);
}

/// Parsing the bytes of one encoded value yields that value's shape and
/// stops right past it.
pub proof fn lemma_rt_value(s: Seq<u8>, pos: int, fuel: nat, v: Value)
    requires
        matches_at(s, pos, enc_value(v)),
        fuel >= s.len() - pos + 1,
    ensures
        sp_value(s, pos, fuel) == Some((v@, pos + enc_value(v).len())),
    decreases v, 0nat,
{
    lemma_enc_value_first(v);
    assert(s[pos] == enc_value(v)[0]);
    match v {
        Value::Null => {
            assert(seq![110u8, 117u8, 108u8, 108u8][1] == 117);
            assert(seq![110u8, 117u8, 108u8, 108u8][2] == 108);
            assert(seq![110u8, 117u8, 108u8, 108u8][3] == 108);
            assert(s[pos + 1] == 117 && s[pos + 2] == 108 && s[pos + 3] == 108);
        },
        Value::Bool(b) => {
            if b {
                assert(seq![116u8, 114u8, 117u8, 101u8][1] == 114);
                assert(seq![116u8, 114u8, 117u8, 101u8][2] == 117);
                assert(seq![116u8, 114u8, 117u8, 101u8][3] == 101);
                assert(s[pos + 1] == 114 && s[pos + 2] == 117 && s[pos + 3] == 101);
            } else {
                assert(seq![102u8, 97u8, 108u8, 115u8, 101u8][1] == 97);
                assert(seq![102u8, 97u8, 108u8, 115u8, 101u8][2] == 108);
                assert(seq![102u8, 97u8, 108u8, 115u8, 101u8][3] == 115);
                assert(seq![102u8, 97u8, 108u8, 115u8, 101u8][4] == 101);
                assert(s[pos + 1] == 97 && s[pos + 2] == 108 && s[pos + 3] == 115
                    && s[pos + 4] == 101);
            }
        },
        Value::Int(x) => {
            let u = (x as u64) as int;
            lemma_matches_split(s, pos, seq![B_INT], enc_hex(u, 16));
            assert(pow16(16) == 0x10000000000000000) by {
                reveal_with_fuel(pow16, 17);
            }
            lemma_enc_hex_len(u, 16);
            lemma_hex_roundtrip(s, pos + 1, u, 16);
            lemma_i64_roundtrip(x);
            assert(as_i64_val(u) == x as int);
            assert(sp_int(s, pos) == Some((x as int, pos + 17)));
        },
        Value::Str(st) => {
            lemma_rt_string(s, pos, st@);
        },
        Value::Arr(vs) => {
            let inner = enc_items(vs@);
            assert((seq![B_LBRACKET] + inner) + seq![B_RBRACKET] =~= seq![B_LBRACKET] + (inner
                + seq![B_RBRACKET]));
            lemma_matches_split(s, pos, seq![B_LBRACKET], inner + seq![B_RBRACKET]);
            assert(seq![B_LBRACKET][0] == B_LBRACKET);
            if vs@.len() == 0 {
                assert(inner =~= Seq::<u8>::empty());
                lemma_matches_split(s, pos + 1, inner, seq![B_RBRACKET]);
                assert(seq![B_RBRACKET][0] == B_RBRACKET);
                assert(s[pos + 1] == B_RBRACKET);
                assert(Value::arr_model(vs@) =~= Seq::<ValueModel>::empty());
                assert(sp_value(s, pos, fuel) == Some((v@, pos + 2)));
            } else {
                lemma_enc_value_first(vs@[0]);
                lemma_enc_items_first(vs@);
                assert((inner + seq![B_RBRACKET])[0] == inner[0]);
                assert(s[pos + 1] == inner[0]);
                assert(s[pos + 1] != B_RBRACKET);
                lemma_rt_items(s, pos + 1, (fuel - 1) as nat, vs@);
                assert(sp_value(s, pos, fuel) == Some((v@, pos + enc_value(v).len())));
            }
        },
        Value::Obj(es) => {
            let inner = enc_entries(es@);
            assert((seq![B_LBRACE] + inner) + seq![B_RBRACE] =~= seq![B_LBRACE] + (inner
                + seq![B_RBRACE]));
            lemma_matches_split(s, pos, seq![B_LBRACE], inner + seq![B_RBRACE]);
            assert(seq![B_LBRACE][0] == B_LBRACE);
            if es@.len() == 0 {
                assert(inner =~= Seq::<u8>::empty());
                lemma_matches_split(s, pos + 1, inner, seq![B_RBRACE]);
                assert(seq![B_RBRACE][0] == B_RBRACE);
                assert(s[pos + 1] == B_RBRACE);
                assert(Value::obj_model(es@) =~= Seq::<(Seq<char>, ValueModel)>::empty());
                assert(sp_value(s, pos, fuel) == Some((v@, pos + 2)));
            } else {
                lemma_enc_entries_first(es@);
                assert((inner + seq![B_RBRACE])[0] == inner[0]);
                assert(s[pos + 1] == inner[0]);
                assert(s[pos + 1] != B_RBRACE);
                lemma_rt_entries(s, pos + 1, (fuel - 1) as nat, es@);
                assert(sp_value(s, pos, fuel) == Some((v@, pos + enc_value(v).len())));
            }
        },
    }
}

/// Parsing encoded elements followed by the closing bracket yields the
/// elements' shapes.
pub proof fn lemma_rt_items(s: Seq<u8>, pos: int, fuel: nat, vs: Seq<Value>)
    requires
        vs.len() >= 1,
        matches_at(s, pos, enc_items(vs) + seq![B_RBRACKET]),
        fuel >= s.len() - pos + 1,
    ensures
        sp_items(s, pos, fuel) == Some((Value::arr_model(vs), pos + enc_items(vs).len() + 1)),
    decreases vs, 1nat,
{
    let v0 = vs[0];
    let a = enc_value(v0);
    lemma_enc_value_first(v0);
    if vs.len() == 1 {
        assert(enc_items(vs) == a);
        lemma_matches_split(s, pos, a, seq![B_RBRACKET]);
        lemma_rt_value(s, pos, fuel, v0);
        assert(seq![B_RBRACKET][0] == B_RBRACKET);
        let p = pos + a.len() as int;
        assert(s[p] == B_RBRACKET);
        assert(vs.drop_first() =~= Seq::<Value>::empty());
        assert(Value::arr_model(Seq::<Value>::empty()) =~= Seq::<ValueModel>::empty());
        assert(seq![v0@] + Seq::<ValueModel>::empty() =~= seq![v0@]);
        assert(Value::arr_model(vs) =~= seq![v0@]);
        assert(sp_items(s, pos, fuel) == Some((seq![v0@], p + 1)));
    } else {
        let rest = vs.drop_first();
        let r = enc_items(rest);
        assert(enc_items(vs) == (a + seq![B_COMMA]) + r);
        assert(((a + seq![B_COMMA]) + r) + seq![B_RBRACKET] =~= a + (seq![B_COMMA] + (r
            + seq![B_RBRACKET])));
        lemma_matches_split(s, pos, a, seq![B_COMMA] + (r + seq![B_RBRACKET]));
        lemma_matches_split(s, pos + a.len(), seq![B_COMMA], r + seq![B_RBRACKET]);
        lemma_rt_value(s, pos, fuel, v0);
        assert(seq![B_COMMA][0] == B_COMMA);
        let p = pos + a.len() as int;
        assert(s[p] == B_COMMA);
        lemma_rt_items(s, p + 1, (fuel - 1) as nat, rest);
        assert(sp_items(s, pos, fuel) == Some(
            (seq![v0@] + Value::arr_model(rest), p + 1 + r.len() + 1),
        ));
        assert(seq![v0@] + Value::arr_model(rest) =~= Value::arr_model(vs));
    }
}

/// Parsing encoded entries followed by the closing brace yields the
/// entries' shapes.
pub proof fn lemma_rt_entries(s: Seq<u8>, pos: int, fuel: nat, es: Seq<(String, Value)>)
    requires
        es.len() >= 1,
        matches_at(s, pos, enc_entries(es) + seq![B_RBRACE]),
        fuel >= s.len() - pos + 1,
    ensures
        sp_entries(s, pos, fuel) == Some(
            (Value::obj_model(es), pos + enc_entries(es).len() + 1),
        ),
    decreases es, 1nat,
{
    let e0 = es[0];
    let ks = enc_string(e0.0@);
    let a = enc_entry(e0);
    let vbytes = enc_value(e0.1);
    assert(a == (ks + seq![B_COLON]) + vbytes);
    let tail: Seq<u8> = if es.len() == 1 {
        seq![B_RBRACE]
    } else {
        seq![B_COMMA] + (enc_entries(es.drop_first()) + seq![B_RBRACE])
    };
    assert(enc_entries(es) + seq![B_RBRACE] =~= ks + (seq![B_COLON] + (vbytes + tail))) by {
        if es.len() == 1 {
            assert(enc_entries(es) == a);
        } else {
            assert(enc_entries(es) == (a + seq![B_COMMA]) + enc_entries(es.drop_first()));
        }
    }
    lemma_matches_split(s, pos, ks, seq![B_COLON] + (vbytes + tail));
    lemma_matches_split(s, pos + ks.len(), seq![B_COLON], vbytes + tail);
    lemma_matches_split(s, pos + ks.len() + 1, vbytes, tail);
    lemma_rt_string(s, pos, e0.0@);
    assert(seq![B_COLON][0] == B_COLON);
    let p1 = pos + ks.len() as int;
    assert(s[p1] == B_COLON);
    lemma_rt_value(s, p1 + 1, fuel, e0.1);
    let p2 = p1 + 1 + vbytes.len() as int;
    if es.len() == 1 {
        assert(seq![B_RBRACE][0] == B_RBRACE);
        assert(s[p2] == B_RBRACE);
        assert(es.drop_first() =~= Seq::<(String, Value)>::empty());
        assert(Value::obj_model(Seq::<(String, Value)>::empty())
            =~= Seq::<(Seq<char>, ValueModel)>::empty());
        assert(sp_entries(s, pos, fuel) == Some((seq![(e0.0@, e0.1@)], p2 + 1)));
        assert(seq![(e0.0@, e0.1@)] =~= Value::obj_model(es));
    } else {
        let rest = es.drop_first();
        assert(seq![B_COMMA][0] == B_COMMA);
        lemma_matches_split(s, p2, seq![B_COMMA], enc_entries(rest) + seq![B_RBRACE]);
        assert(s[p2] == B_COMMA);
        lemma_rt_entries(s, p2 + 1, (fuel - 1) as nat, rest);
        assert(sp_entries(s, pos, fuel) == Some(
            (seq![(e0.0@, e0.1@)] + Value::obj_model(rest), p2 + 1 + enc_entries(rest).len() + 1),
        ));
        assert(seq![(e0.0@, e0.1@)] + Value::obj_model(rest) =~= Value::obj_model(es));
    }
}

pub proof fn lemma_enc_chars_push(cs: Seq<char>, c: char)
    ensures
        enc_chars(cs.push(c)) == enc_chars(cs) + enc_char(c),
    decreases cs.len(),
{
    assert(cs.push(c)[0] == if cs.len() == 0 { c } else { cs[0] });
    if cs.len() == 0 {
        assert(cs.push(c).drop_first() =~= Seq::<char>::empty());
        assert(enc_chars(Seq::<char>::empty()) =~= Seq::<u8>::empty());
        assert(enc_chars(cs.push(c)) =~= enc_char(c));
        assert(enc_chars(cs) + enc_char(c) =~= enc_char(c));
    } else {
        assert(cs.push(c).drop_first() =~= cs.drop_first().push(c));
        lemma_enc_chars_push(cs.drop_first(), c);
        assert(enc_chars(cs.push(c)) =~= enc_chars(cs) + enc_char(c));
    }
}

pub proof fn lemma_enc_items_push(vs: Seq<Value>, v: Value)
    ensures
        enc_items(vs.push(v)) == if vs.len() == 0 {
            enc_value(v)
        } else {
            enc_items(vs) + seq![B_COMMA] + enc_value(v)
        },
    decreases vs.len(),
{
    assert(vs.push(v)[0] == if vs.len() == 0 { v } else { vs[0] });
    if vs.len() == 0 {
        assert(enc_items(vs.push(v)) =~= enc_value(v));
    } else {
        assert(vs.push(v).drop_first() =~= vs.drop_first().push(v));
        lemma_enc_items_push(vs.drop_first(), v);
        if vs.len() == 1 {
            assert(enc_items(vs.push(v)) =~= enc_items(vs) + seq![B_COMMA] + enc_value(v));
        } else {
            assert(enc_items(vs.push(v)) =~= enc_items(vs) + seq![B_COMMA] + enc_value(v));
        }
    }
}

pub proof fn lemma_enc_entries_push(es: Seq<(String, Value)>, e: (String, Value))
    ensures
        enc_entries(es.push(e)) == if es.len() == 0 {
            enc_entry(e)
        } else {
            enc_entries(es) + seq![B_COMMA] + enc_entry(e)
        },
    decreases es.len(),
{
    assert(es.push(e)[0] == if es.len() == 0 { e } else { es[0] });
    if es.len() == 0 {
        assert(enc_entries(es.push(e)) =~= enc_entry(e));
    } else {
        assert(es.push(e).drop_first() =~= es.drop_first().push(e));
        lemma_enc_entries_push(es.drop_first(), e);
        assert(enc_entries(es.push(e)) =~= enc_entries(es) + seq![B_COMMA] + enc_entry(e));
    }
}

/// Powers of sixteen grow with the exponent and are at least one.
pub proof fn lemma_pow16_mono(a: nat, b: nat)
    requires
        a <= b,
    ensures
        pow16(a) <= pow16(b),
        pow16(a) >= 1,
    decreases b,
{
    if b > 0 {
        if a == b {
            lemma_pow16_mono((a - 1) as nat, (b - 1) as nat);
        } else {
            lemma_pow16_mono(a, (b - 1) as nat);
        }
    }
}

fn parse_hex(s: &Vec<u8>, pos: usize, n: usize) -> (r: Option<u64>)
    requires
        pos <= s@.len(),
        n <= 16,
    ensures
        match r {
            Some(x) => valid_hex_run(s@, pos as int, n as nat) && x as int == hex_run_val(
                s@,
                pos as int,
                n as nat,
            ) && x < pow16(n as nat),
            None => !valid_hex_run(s@, pos as int, n as nat),
        },
{
    if s.len() - pos < n {
        return None;
    }
    let len = s.len();
    let mut acc: u64 = 0;
    let mut i: usize = 0;
    proof {
        lemma_pow16_mono(0, 16);
        assert(pow16(16) == 0x10000000000000000) by {
            reveal_with_fuel(pow16, 17);
        }
    }
    while i < n
        invariant
            i <= n,
            n <= 16,
            len == s@.len(),
            pos + n <= len,
            acc as int == hex_run_val(s@, pos as int, i as nat),
            acc < pow16(i as nat),
            pow16(16) == 0x10000000000000000,
            forall|j: int| 0 <= j < i ==> is_hex(#[trigger] s@[pos + j]),
        decreases n - i,
    {
        let b = s[pos + i];
        let v: u64 = if 48 <= b && b <= 57 {
            (b - 48) as u64
        } else if 97 <= b && b <= 102 {
            (b - 87) as u64
        } else {
            proof {
                assert(!is_hex(s@[pos + i as int]));
            }
            return None;
        };
        proof {
            lemma_pow16_mono(i as nat, 15);
            lemma_pow16_mono((i + 1) as nat, 16);
            assert(pow16((i + 1) as nat) == 16 * pow16(i as nat));
            assert(16 * (acc as int) + v < pow16((i + 1) as nat));
        }
        acc = acc * 16 + v;
        proof {
            assert(is_hex(s@[pos + i as int]));
            assert(acc as int == hex_run_val(s@, pos as int, (i + 1) as nat));
        }
        i = i + 1;
    }
    Some(acc)
}

fn parse_chars(s: &Vec<u8>, pos: usize) -> (r: Option<(Vec<char>, usize)>)
    requires
        pos <= s@.len(),
    ensures
        match r {
            Some((cs, p)) => sp_chars(s@, pos as int) == Some((cs@, p as int)) && pos < p
                <= s@.len(),
            None => sp_chars(s@, pos as int) is None,
        },
{
    let mut out: Vec<char> = Vec::new();
    let mut cur: usize = pos;
    loop
        invariant
            pos <= cur <= s@.len(),
            match sp_chars(s@, cur as int) {
                Some((cs, p)) => sp_chars(s@, pos as int) == Some((out@ + cs, p)),
                None => sp_chars(s@, pos as int) is None,
            },
        decreases s@.len() - cur,
    {
        if cur >= s.len() {
            return None;
        }
        let b = s[cur];
        if b == B_QUOTE {
            proof {
                assert(out@ + Seq::<char>::empty() =~= out@);
            }
            return Some((out, cur + 1));
        } else if b == B_BSLASH {
            if s.len() - cur < 9 {
                proof {
                    assert(!valid_hex_run(s@, cur + 1, 8));
                }
                return None;
            }
            match parse_hex(s, cur + 1, 8) {
                Some(u) => {
                    match crate::strutil::char_from_u32(u as u32) {
                        Some(c) => {
                            let ghost prev = out@;
                            out.push(c);
                            proof {
                                let uv = hex_run_val(s@, cur + 1, 8);
                                assert(pow16(8) == 0x100000000) by {
                                    reveal_with_fuel(pow16, 9);
                                }
                                assert(uv == u as int);
                                assert(c as u32 == u as u32);
                                vstd::utf8::char_u32_cast(c, c as u32);
                                assert(((uv as u32) as char) == c);
                                match sp_chars(s@, cur + 9) {
                                    Some((cs2, p2)) => {
                                        assert(sp_chars(s@, cur as int) == Some(
                                            (seq![c] + cs2, p2),
                                        ));
                                        assert(prev + (seq![c] + cs2) =~= out@ + cs2);
                                    },
                                    None => {
                                        assert(sp_chars(s@, cur as int) is None);
                                    },
                                }
                            }
                            cur = cur + 9;
                        },
                        None => {
                            proof {
                                let uv = hex_run_val(s@, cur + 1, 8);
                                assert(pow16(8) == 0x100000000) by {
                                    reveal_with_fuel(pow16, 9);
                                }
                                assert(uv == u as int);
                                assert(!(uv < 0xD800 || (0xE000 <= uv && uv <= 0x10FFFF)));
                            }
                            return None;
                        },
                    }
                },
                None => {
                    return None;
                },
            }
        } else if 0x20 <= b && b < 0x7f {
            let c = b as char;
            let ghost prev = out@;
            out.push(c);
            proof {
                match sp_chars(s@, cur + 1) {
                    Some((cs2, p2)) => {
                        assert(sp_chars(s@, cur as int) == Some((seq![c] + cs2, p2)));
                        assert(prev + (seq![c] + cs2) =~= out@ + cs2);
                    },
                    None => {
                        assert(sp_chars(s@, cur as int) is None);
                    },
                }
            }
            cur = cur + 1;
        } else {
            return None;
        }
    }
}

fn parse_value(s: &Vec<u8>, pos: usize) -> (r: Option<(Value, usize)>)
    requires
        pos <= s@.len(),
    ensures
        match r {
            Some((v, p)) => sp_value(s@, pos as int, sp_fuel(s@, pos as int)) == Some(
                (v@, p as int),
            ) && pos < p <= s@.len(),
            None => sp_value(s@, pos as int, sp_fuel(s@, pos as int)) is None,
        },
    decreases s@.len() - pos, 0nat,
{
    let len = s.len();
    if pos >= len {
        return None;
    }
    let b = s[pos];
    if b == 110 {
        if len - pos >= 4 && s[pos + 1] == 117 && s[pos + 2] == 108 && s[pos + 3] == 108 {
            Some((Value::Null, pos + 4))
        } else {
            None
        }
    } else if b == 116 {
        if len - pos >= 4 && s[pos + 1] == 114 && s[pos + 2] == 117 && s[pos + 3] == 101 {
            Some((Value::Bool(true), pos + 4))
        } else {
            None
        }
    } else if b == 102 {
        if len - pos >= 5 && s[pos + 1] == 97 && s[pos + 2] == 108 && s[pos + 3] == 115 && s[pos
            + 4] == 101 {
            Some((Value::Bool(false), pos + 5))
        } else {
            None
        }
    } else if b == B_INT {
        if len - pos >= 17 {
            match parse_hex(s, pos + 1, 16) {
                Some(u) => {
                    let x = u as i64;
                    proof {
                        assert((u as int) as u64 == u);
                        assert(sp_int(s@, pos as int) == Some((x as int, pos + 17)));
                    }
                    Some((Value::Int(x), pos + 17))
                },
                None => None,
            }
        } else {
            proof {
                assert(!valid_hex_run(s@, pos + 1, 16));
            }
            None
        }
    } else if b == B_QUOTE {
        match parse_chars(s, pos + 1) {
            Some((cv, p)) => {
                let st = crate::strutil::string_from_chars(&cv);
                Some((Value::Str(st), p))
            },
            None => None,
        }
    } else if b == B_LBRACKET {
        if len - pos >= 2 && s[pos + 1] == B_RBRACKET {
            let v = Value::Arr(Vec::new());
            proof {
                assert(Value::arr_model(Seq::<Value>::empty()) =~= Seq::<ValueModel>::empty());
            }
            Some((v, pos + 2))
        } else {
            match parse_items(s, pos + 1) {
                Some((vs, p)) => Some((Value::Arr(vs), p)),
                None => None,
            }
        }
    } else if b == B_LBRACE {
        if len - pos >= 2 && s[pos + 1] == B_RBRACE {
            let v = Value::Obj(Vec::new());
            proof {
                assert(Value::obj_model(Seq::<(String, Value)>::empty())
                    =~= Seq::<(Seq<char>, ValueModel)>::empty());
            }
            Some((v, pos + 2))
        } else {
            match parse_entries(s, pos + 1) {
                Some((es, p)) => Some((Value::Obj(es), p)),
                None => None,
            }
        }
    } else {
        None
    }
}

fn parse_items(s: &Vec<u8>, pos: usize) -> (r: Option<(Vec<Value>, usize)>)
    requires
        pos <= s@.len(),
    ensures
        match r {
            Some((vs, p)) => sp_items(s@, pos as int, sp_fuel(s@, pos as int)) == Some(
                (Value::arr_model(vs@), p as int),
            ) && pos < p <= s@.len(),
            None => sp_items(s@, pos as int, sp_fuel(s@, pos as int)) is None,
        },
    decreases s@.len() - pos, 1nat,
{
    let len = s.len();
    match parse_value(s, pos) {
        Some((v, p)) => {
            if p < len {
                if s[p] == B_COMMA {
                    match parse_items(s, p + 1) {
                        Some((mut vs, q)) => {
                            proof {
                                lemma_sp_items_fuel(
                                    s@,
                                    p + 1,
                                    (sp_fuel(s@, pos as int) - 1) as nat,
                                    sp_fuel(s@, p + 1),
                                );
                            }
                            let ghost rest = vs@;
                            let mut out: Vec<Value> = Vec::new();
                            out.push(v);
                            out.append(&mut vs);
                            proof {
                                lemma_arr_model(out@);
                                lemma_arr_model(rest);
                                assert(Value::arr_model(out@) =~= seq![v@]
                                    + Value::arr_model(rest));
                            }
                            Some((out, q))
                        },
                        None => {
                            proof {
                                lemma_sp_items_fuel(
                                    s@,
                                    p + 1,
                                    (sp_fuel(s@, pos as int) - 1) as nat,
                                    sp_fuel(s@, p + 1),
                                );
                            }
                            None
                        },
                    }
                } else if s[p] == B_RBRACKET {
                    let mut out: Vec<Value> = Vec::new();
                    out.push(v);
                    proof {
                        lemma_arr_model(out@);
                        assert(Value::arr_model(out@) =~= seq![v@]);
                    }
                    Some((out, p + 1))
                } else {
                    None
                }
            } else {
                None
            }
        },
        None => None,
    }
}

fn parse_entries(s: &Vec<u8>, pos: usize) -> (r: Option<(Vec<(String, Value)>, usize)>)
    requires
        pos <= s@.len(),
    ensures
        match r {
            Some((es, p)) => sp_entries(s@, pos as int, sp_fuel(s@, pos as int)) == Some(
                (Value::obj_model(es@), p as int),
            ) && pos < p <= s@.len(),
            None => sp_entries(s@, pos as int, sp_fuel(s@, pos as int)) is None,
        },
    decreases s@.len() - pos, 1nat,
{
    let len = s.len();
    if pos < len && s[pos] == B_QUOTE {
        match parse_chars(s, pos + 1) {
            Some((kcv, p1)) => {
                let key = crate::strutil::string_from_chars(&kcv);
                if p1 < len && s[p1] == B_COLON {
                    proof {
                        lemma_sp_value_fuel(
                            s@,
                            p1 + 1,
                            sp_fuel(s@, pos as int),
                            sp_fuel(s@, p1 + 1),
                        );
                    }
                    match parse_value(s, p1 + 1) {
                        Some((v, p2)) => {
                            if p2 < len {
                                if s[p2] == B_COMMA {
                                    match parse_entries(s, p2 + 1) {
                                        Some((mut es, q)) => {
                                            proof {
                                                lemma_sp_entries_fuel(
                                                    s@,
                                                    p2 + 1,
                                                    (sp_fuel(s@, pos as int) - 1) as nat,
                                                    sp_fuel(s@, p2 + 1),
                                                );
                                            }
                                            let ghost rest = es@;
                                            let mut out: Vec<(String, Value)> = Vec::new();
                                            out.push((key, v));
                                            out.append(&mut es);
                                            proof {
                                                lemma_obj_model(out@);
                                                lemma_obj_model(rest);
                                                assert(Value::obj_model(out@) =~= seq![
                                                    (kcv@, v@),
                                                ] + Value::obj_model(rest));
                                            }
                                            Some((out, q))
                                        },
                                        None => {
                                            proof {
                                                lemma_sp_entries_fuel(
                                                    s@,
                                                    p2 + 1,
                                                    (sp_fuel(s@, pos as int) - 1) as nat,
                                                    sp_fuel(s@, p2 + 1),
                                                );
                                            }
                                            None
                                        },
                                    }
                                } else if s[p2] == B_RBRACE {
                                    let mut out: Vec<(String, Value)> = Vec::new();
                                    out.push((key, v));
                                    proof {
                                        lemma_obj_model(out@);
                                        assert(Value::obj_model(out@) =~= seq![(kcv@, v@)]);
                                    }
                                    Some((out, p2 + 1))
                                } else {
                                    None
                                }
                            } else {
                                None
                            }
                        },
                        None => None,
                    }
                } else {
                    None
                }
            },
            None => None,
        }
    } else {
        None
    }
}

fn encode_hex(x: u64, n: usize, out: &mut Vec<u8>)
    ensures
        final(out)@ == old(out)@ + enc_hex(x as int, n as nat),
    decreases n,
{
    if n > 0 {
        encode_hex(x / 16, n - 1, out);
        let d = x % 16;
        if d < 10 {
            out.push((48 + d) as u8);
        } else {
            out.push((87 + d) as u8);
        }
        proof {
            assert(out@ =~= old(out)@ + enc_hex(x as int, n as nat));
        }
    } else {
        proof {
            assert(out@ =~= old(out)@ + enc_hex(x as int, 0));
        }
    }
}

fn encode_char(c: char, out: &mut Vec<u8>)
    ensures
        final(out)@ == old(out)@ + enc_char(c),
{
    let u = c as u32;
    if 0x20 <= u && u < 0x7f && u != 34 && u != 92 {
        out.push(u as u8);
        proof {
            assert(out@ =~= old(out)@ + enc_char(c));
        }
    } else {
        out.push(B_BSLASH);
        encode_hex(u as u64, 8, out);
        proof {
            assert(out@ =~= old(out)@ + enc_char(c));
        }
    }
}

fn encode_string(s: &str, out: &mut Vec<u8>)
    ensures
        final(out)@ == old(out)@ + enc_string(s@),
{
    out.push(B_QUOTE);
    let n = s.unicode_len();
    let mut i: usize = 0;
    proof {
        assert(s@.subrange(0, 0) =~= Seq::<char>::empty());
    }
    while i < n
        invariant
            i <= n,
            n == s@.len(),
            out@ == old(out)@ + seq![B_QUOTE] + enc_chars(s@.subrange(0, i as int)),
        decreases n - i,
    {
        let c = s.get_char(i);
        encode_char(c, out);
        proof {
            assert(s@.subrange(0, i + 1) =~= s@.subrange(0, i as int).push(s@[i as int]));
            lemma_enc_chars_push(s@.subrange(0, i as int), s@[i as int]);
            assert(out@ =~= old(out)@ + seq![B_QUOTE] + enc_chars(s@.subrange(0, i + 1)));
        }
        i = i + 1;
    }
    out.push(B_QUOTE);
    proof {
        assert(s@.subrange(0, s@.len() as int) =~= s@);
        assert(out@ =~= old(out)@ + enc_string(s@));
    }
}

/// Append the encoding of one value.
pub fn encode_value(v: &Value, out: &mut Vec<u8>)
    ensures
        final(out)@ == old(out)@ + enc_value(*v),
    decreases v,
{
    match v {
        Value::Null => {
            out.push(110);
            out.push(117);
            out.push(108);
            out.push(108);
            proof {
                assert(out@ =~= old(out)@ + enc_value(*v));
            }
        },
        Value::Bool(b) => {
            if *b {
                out.push(116);
                out.push(114);
                out.push(117);
                out.push(101);
            } else {
                out.push(102);
                out.push(97);
                out.push(108);
                out.push(115);
                out.push(101);
            }
            proof {
                assert(out@ =~= old(out)@ + enc_value(*v));
            }
        },
        Value::Int(x) => {
            out.push(B_INT);
            encode_hex(*x as u64, 16, out);
            proof {
                assert(out@ =~= old(out)@ + enc_value(*v));
            }
        },
        Value::Str(s) => {
            encode_string(s.as_str(), out);
        },
        Value::Arr(vs) => {
            out.push(B_LBRACKET);
            encode_values(vs, out);
            out.push(B_RBRACKET);
            proof {
                assert(out@ =~= old(out)@ + enc_value(*v));
            }
        },
        Value::Obj(es) => {
            out.push(B_LBRACE);
            encode_entries_vec(es, out);
            out.push(B_RBRACE);
            proof {
                assert(out@ =~= old(out)@ + enc_value(*v));
            }
        },
    }
}

fn encode_values(vs: &Vec<Value>, out: &mut Vec<u8>)
    ensures
        final(out)@ == old(out)@ + enc_items(vs@),
    decreases vs,
{
    let mut i: usize = 0;
    proof {
        assert(vs@.subrange(0, 0) =~= Seq::<Value>::empty());
    }
    while i < vs.len()
        invariant
            i <= vs@.len(),
            out@ == old(out)@ + enc_items(vs@.subrange(0, i as int)),
        decreases vs@.len() - i,
    {
        if i > 0 {
            out.push(B_COMMA);
        }
        encode_value(&vs[i], out);
        proof {
            assert(vs@.subrange(0, i + 1) =~= vs@.subrange(0, i as int).push(vs@[i as int]));
            lemma_enc_items_push(vs@.subrange(0, i as int), vs@[i as int]);
            assert(out@ =~= old(out)@ + enc_items(vs@.subrange(0, i + 1)));
        }
        i = i + 1;
    }
    proof {
        assert(vs@.subrange(0, vs@.len() as int) =~= vs@);
    }
}

fn encode_entry(e: &(String, Value), out: &mut Vec<u8>)
    ensures
        final(out)@ == old(out)@ + enc_entry(*e),
    decreases e,
{
    encode_string(e.0.as_str(), out);
    out.push(B_COLON);
    encode_value(&e.1, out);
    proof {
        assert(out@ =~= old(out)@ + enc_entry(*e));
    }
}

fn encode_entries_vec(es: &Vec<(String, Value)>, out: &mut Vec<u8>)
    ensures
        final(out)@ == old(out)@ + enc_entries(es@),
    decreases es,
{
    let mut i: usize = 0;
    proof {
        assert(es@.subrange(0, 0) =~= Seq::<(String, Value)>::empty());
    }
    while i < es.len()
        invariant
            i <= es@.len(),
            out@ == old(out)@ + enc_entries(es@.subrange(0, i as int)),
        decreases es@.len() - i,
    {
        if i > 0 {
            out.push(B_COMMA);
        }
        encode_entry(&es[i], out);
        proof {
            assert(es@.subrange(0, i + 1) =~= es@.subrange(0, i as int).push(es@[i as int]));
            lemma_enc_entries_push(es@.subrange(0, i as int), es@[i as int]);
            assert(out@ =~= old(out)@ + enc_entries(es@.subrange(0, i + 1)));
        }
        i = i + 1;
    }
    proof {
        assert(es@.subrange(0, es@.len() as int) =~= es@);
    }
}

/// Which byte-level encoding a store uses.
#[derive(Clone, Copy, Debug, PartialEq, Eq, Structural)]
pub enum CodecKind {
    /// Structured text: the default encoding.
    Text,
    /// A length-prefixed binary frame around the structured text.
    Framed,
}

/// A value written as `k` bytes, least significant first.
pub open spec fn enc_le(x: int, k: nat) -> Seq<u8>
    decreases k,
{
    if k == 0 {
        Seq::empty()
    } else {
        seq![(x % 256) as u8] + enc_le(x / 256, (k - 1) as nat)
    }
}

/// The value of `k` bytes at the position, least significant first.
pub open spec fn le_val(s: Seq<u8>, pos: int, k: nat) -> int
    decreases k,
{
    if k == 0 {
        0
    } else {
        s[pos] + 256 * le_val(s, pos + 1, (k - 1) as nat)
    }
}

/// Two-hundred-fifty-six to the `k`th power.
pub open spec fn pow256(k: nat) -> int
    decreases k,
{
    if k == 0 {
        1
    } else {
        256 * pow256((k - 1) as nat)
    }
}

pub proof fn lemma_enc_le_len(x: int, k: nat)
    ensures
        enc_le(x, k).len() == k,
    decreases k,
{
    if k > 0 {
        lemma_enc_le_len(x / 256, (k - 1) as nat);
    }
}

/// Reading back a little-endian length prefix yields the length.
pub proof fn lemma_le_roundtrip(s: Seq<u8>, pos: int, x: int, k: nat)
    requires
        0 <= x < pow256(k),
        matches_at(s, pos, enc_le(x, k)),
    ensures
        le_val(s, pos, k) == x,
    decreases k,
{
    lemma_enc_le_len(x, k);
    if k > 0 {
        let m = (k - 1) as nat;
        vstd::arithmetic::div_mod::lemma_fundamental_div_mod(x, 256);
        assert(x / 256 < pow256(m));
        assert(seq![(x % 256) as u8][0] == (x % 256) as u8);
        lemma_matches_split(s, pos, seq![(x % 256) as u8], enc_le(x / 256, m));
        assert(s[pos] == (x % 256) as u8);
        lemma_le_roundtrip(s, pos + 1, x / 256, m);
    }
}

pub proof fn lemma_pow256_mono(a: nat, b: nat)
    requires
        a <= b,
    ensures
        pow256(a) <= pow256(b),
        pow256(a) >= 1,
    decreases b,
{
    if b > 0 {
        if a == b {
            lemma_pow256_mono((a - 1) as nat, (b - 1) as nat);
        } else {
            lemma_pow256_mono(a, (b - 1) as nat);
        }
    }
}

/// The mapping entries framed bytes stand for: an eight-byte length of
/// the rest, then the structured text, with nothing after it.
pub open spec fn parse_framed(s: Seq<u8>) -> Option<Seq<(Seq<char>, ValueModel)>> {
    if s.len() >= 8 && le_val(s, 0, 8) == s.len() - 8 {
        match sp_value(s, 8, sp_fuel(s, 8)) {
            Some((ValueModel::Obj(ps), p)) => if p == s.len() {
                Some(ps)
            } else {
                None
            },
            _ => None,
        }
    } else {
        None
    }
}

/// The mapping entries a byte sequence stands for under a codec.
pub open spec fn spec_pairs(kind: CodecKind, s: Seq<u8>) -> Option<
    Seq<(Seq<char>, ValueModel)>,
> {
    match kind {
        CodecKind::Text => parse_text(s),
        CodecKind::Framed => parse_framed(s),
    }
}

/// The mapping a byte sequence stands for under a codec, if any: what
/// `decode` must return, and what any output of `encode` stands for.
pub open spec fn spec_decode(kind: CodecKind, s: Seq<u8>) -> Option<
    Map<Seq<char>, ValueModel>,
> {
    match spec_pairs(kind, s) {
        Some(ps) => Some(crate::value::pairs_map(ps)),
        None => None,
    }
}

fn encode_le(x: u64, k: usize, out: &mut Vec<u8>)
    ensures
        final(out)@ == old(out)@ + enc_le(x as int, k as nat),
    decreases k,
{
    if k > 0 {
        out.push((x % 256) as u8);
        encode_le(x / 256, k - 1, out);
        proof {
            assert(out@ =~= old(out)@ + enc_le(x as int, k as nat));
        }
    } else {
        proof {
            assert(out@ =~= old(out)@ + enc_le(x as int, 0));
        }
    }
}

fn read_le(s: &Vec<u8>, pos: usize, k: usize) -> (r: u64)
    requires
        pos + k <= s@.len(),
        k <= 8,
    ensures
        r as int == le_val(s@, pos as int, k as nat),
        r < pow256(k as nat),
    decreases k,
{
    let len = s.len();
    proof {
        lemma_pow256_mono(k as nat, 8);
        assert(pow256(8) == 0x10000000000000000) by {
            reveal_with_fuel(pow256, 9);
        }
    }
    if k > 0 {
        let rest = read_le(s, pos + 1, k - 1);
        proof {
            lemma_pow256_mono((k - 1) as nat, 7);
            assert(pow256(7) == 0x100000000000000) by {
                reveal_with_fuel(pow256, 8);
            }
        }
        s[pos] as u64 + 256 * rest
    } else {
        0
    }
}

/// The bytes a mapping's entries encode to under a codec. Decoding them
/// yields the entries again: see the ensures.
pub fn encode_map_bytes(kind: CodecKind, es: &Vec<(String, Value)>) -> (r: Vec<u8>)
    ensures
        spec_pairs(kind, r@) == Some(Value::obj_model(es@)),
{
    let ghost ov = Value::Obj(*es);
    let mut text: Vec<u8> = Vec::new();
    text.push(B_LBRACE);
    encode_entries_vec(es, &mut text);
    text.push(B_RBRACE);
    proof {
        assert(text@ =~= enc_value(ov));
    }
    match kind {
        CodecKind::Text => {
            proof {
                assert(matches_at(text@, 0, enc_value(ov))) by {
                    assert(forall|j: int|
                        0 <= j < enc_value(ov).len() ==> text@[0 + j] == enc_value(ov)[j]);
                }
                lemma_rt_value(text@, 0, sp_fuel(text@, 0), ov);
            }
            text
        },
        CodecKind::Framed => {
            let n = text.len();
            let mut out: Vec<u8> = Vec::new();
            encode_le(n as u64, 8, &mut out);
            let ghost prefix = out@;
            let mut t = text;
            out.append(&mut t);
            proof {
                lemma_enc_le_len(n as int, 8);
                assert(pow256(8) == 0x10000000000000000) by {
                    reveal_with_fuel(pow256, 9);
                }
                assert(out@.len() == 8 + n);
                assert(matches_at(out@, 0, enc_le(n as int, 8))) by {
                    assert forall|j: int| 0 <= j < 8 implies out@[0 + j] == #[trigger] enc_le(
                        n as int,
                        8,
                    )[j] by {
                        assert(out@[j] == (prefix + enc_value(ov))[j]);
                        assert((prefix + enc_value(ov))[j] == prefix[j]);
                    }
                }
                lemma_le_roundtrip(out@, 0, n as int, 8);
                assert(matches_at(out@, 8, enc_value(ov))) by {
                    assert(forall|j: int|
                        0 <= j < enc_value(ov).len() ==> out@[8 + j] == enc_value(ov)[j]);
                }
                lemma_rt_value(out@, 8, sp_fuel(out@, 8), ov);
            }
            out
        },
    }
}

/// The mapping entries bytes stand for under a codec, or nothing if the
/// bytes are malformed.
pub fn decode_map_bytes(kind: CodecKind, s: &Vec<u8>) -> (r: Option<Vec<(String, Value)>>)
    ensures
        match r {
            Some(es) => spec_pairs(kind, s@) == Some(Value::obj_model(es@)),
            None => spec_pairs(kind, s@) is None,
        },
{
    let start: usize = match kind {
        CodecKind::Text => 0,
        CodecKind::Framed => {
            if s.len() < 8 {
                return None;
            }
            let n = read_le(s, 0, 8);
            if n != (s.len() - 8) as u64 {
                proof {
                    assert(le_val(s@, 0, 8) != s@.len() - 8);
                }
                return None;
            }
            8
        },
    };
    match parse_value(s, start) {
        Some((v, p)) => {
            if p == s.len() {
                match v {
                    Value::Obj(es) => Some(es),
                    _ => None,
                }
            } else {
                None
            }
        },
        None => None,
    }
}

} // verus!
