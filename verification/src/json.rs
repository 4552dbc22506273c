//! The JSON document model and its canonical text form.
//!
//! [`JModel`] is the mathematical shape of a JSON document; [`print_jm`]
//! is its one canonical text. [`JsonValue`] is the executable tree that
//! the parser produces; its [`JsonValue::jm`] view ties it back to the
//! model. Strings are escaped the standard way: quote, backslash and the
//! named control characters by letter, the remaining control characters
//! as a four-digit hexadecimal escape. Numbers are unsigned decimal
//! integers, the only numeric form the graph format uses.

use vstd::prelude::*;

use crate::text::{dec_rep, digit_val, is_digit};

verus! {

broadcast use vstd::seq::group_seq_axioms, vstd::std_specs::vec::group_vec_axioms;

/// The mathematical shape of a JSON document.
pub enum JModel {
    Null,
    Bool(bool),
    Num(nat),
    Str(Seq<char>),
    Arr(Seq<JModel>),
    Obj(Seq<(Seq<char>, JModel)>),
}

/// The lowercase hexadecimal digit character for `d` (0 to 15).
pub open spec fn hex_char(d: int) -> char {
    if d < 10 {
        crate::text::digit_char(d)
    } else if d == 10 {
        'a'
    } else if d == 11 {
        'b'
    } else if d == 12 {
        'c'
    } else if d == 13 {
        'd'
    } else if d == 14 {
        'e'
    } else {
        'f'
    }
}

/// The escape of one character inside a JSON string.
pub open spec fn esc_char(c: char) -> Seq<char> {
    if c == '"' {
        seq!['\\', '"']
    } else if c == '\\' {
        seq!['\\', '\\']
    } else if c == '\u{8}' {
        seq!['\\', 'b']
    } else if c == '\u{c}' {
        seq!['\\', 'f']
    } else if c == '\n' {
        seq!['\\', 'n']
    } else if c == '\r' {
        seq!['\\', 'r']
    } else if c == '\t' {
        seq!['\\', 't']
    } else if (c as u32) < 32 {
        seq!['\\', 'u', '0', '0', hex_char((c as u32 / 16) as int), hex_char((c as u32 % 16) as int)]
    } else {
        seq![c]
    }
}

/// The escaped body of a JSON string.
pub open spec fn esc(s: Seq<char>) -> Seq<char>
    decreases s.len(),
{
    if s.len() == 0 {
        Seq::empty()
    } else {
        esc_char(s[0]) + esc(s.drop_first())
    }
}

/// The canonical text of a string value, quotes included.
pub open spec fn print_str(s: Seq<char>) -> Seq<char> {
    seq!['"'] + esc(s) + seq!['"']
}

/// The canonical text of a document.
pub open spec fn print_jm(m: JModel) -> Seq<char>
    decreases m,
{
    match m {
        JModel::Null => seq!['n', 'u', 'l', 'l'],
        JModel::Bool(b) => if b {
            seq!['t', 'r', 'u', 'e']
        } else {
            seq!['f', 'a', 'l', 's', 'e']
        },
        JModel::Num(n) => dec_rep(n),
        JModel::Str(s) => print_str(s),
        JModel::Arr(items) => seq!['['] + print_items(items) + seq![']'],
        JModel::Obj(members) => seq!['{'] + print_members(members) + seq!['}'],
    }
}

/// The comma-separated texts of array elements.
pub open spec fn print_items(items: Seq<JModel>) -> Seq<char>
    decreases items,
{
    if items.len() == 0 {
        Seq::empty()
    } else if items.len() == 1 {
        print_jm(items[0])
    } else {
        print_jm(items[0]) + seq![','] + print_items(items.drop_first())
    }
}

/// The comma-separated texts of object members.
pub open spec fn print_members(members: Seq<(Seq<char>, JModel)>) -> Seq<char>
    decreases members,
{
    if members.len() == 0 {
        Seq::empty()
    } else if members.len() == 1 {
        print_member(members[0])
    } else {
        print_member(members[0]) + seq![','] + print_members(members.drop_first())
    }
}

/// The text of one object member.
pub open spec fn print_member(m: (Seq<char>, JModel)) -> Seq<char>
    decreases m,
{
    print_str(m.0) + seq![':'] + print_jm(m.1)
}

/// Escaping one more character extends the escaped body on the right.
pub proof fn lemma_esc_snoc(s: Seq<char>, i: int)
    requires
        0 <= i < s.len(),
    ensures
        esc(s.take(i + 1)) == esc(s.take(i)) + esc_char(s[i]),
    decreases i,
{
    if i == 0 {
        assert(s.take(1) =~= seq![s[0]]);
        assert(s.take(1).drop_first() =~= Seq::<char>::empty());
        assert(s.take(0) =~= Seq::<char>::empty());
        assert(esc(Seq::<char>::empty()) =~= Seq::<char>::empty());
        assert(esc(s.take(1)) == esc_char(s.take(1)[0]) + esc(s.take(1).drop_first()));
        assert(s.take(1)[0] == s[0]);
        assert(esc(s.take(1)) =~= esc_char(s[0]));
        assert(esc(s.take(0)) + esc_char(s[0]) =~= esc_char(s[0]));
    } else {
        lemma_esc_snoc(s.drop_first(), i - 1);
        assert(s.take(i + 1).drop_first() =~= s.drop_first().take(i));
        assert(s.take(i).drop_first() =~= s.drop_first().take(i - 1));
        assert(s.drop_first()[i - 1] == s[i]);
        assert(esc(s.take(i + 1)) == esc_char(s[0]) + esc(s.drop_first().take(i)));
        assert(esc(s.take(i)) == esc_char(s[0]) + esc(s.drop_first().take(i - 1)));
        assert(esc(s.take(i + 1)) =~= esc(s.take(i)) + esc_char(s[i]));
    }
}

/// One more element extends the printed element list after a comma.
pub proof fn lemma_print_items_snoc(s: Seq<JModel>, i: int)
    requires
        1 <= i < s.len(),
    ensures
        print_items(s.take(i + 1)) == print_items(s.take(i)) + seq![','] + print_jm(s[i]),
    decreases i,
{
    if i == 1 {
        let t2 = s.take(2);
        assert(t2.drop_first() =~= seq![s[1]]);
        assert(s.take(1) =~= seq![s[0]]);
        assert(print_items(t2) == print_jm(s[0]) + seq![','] + print_items(t2.drop_first()));
        assert(print_items(t2.drop_first()) == print_jm(s[1]));
        assert(print_items(s.take(2)) =~= print_items(s.take(1)) + seq![','] + print_jm(s[1]));
    } else {
        lemma_print_items_snoc(s.drop_first(), i - 1);
        assert(s.take(i + 1).drop_first() =~= s.drop_first().take(i));
        assert(s.take(i).drop_first() =~= s.drop_first().take(i - 1));
        assert(s.drop_first()[i - 1] == s[i]);
        assert(print_items(s.take(i + 1)) == print_jm(s[0]) + seq![','] + print_items(
            s.drop_first().take(i),
        ));
        assert(print_items(s.take(i)) == print_jm(s[0]) + seq![','] + print_items(
            s.drop_first().take(i - 1),
        ));
        assert(print_items(s.take(i + 1)) =~= print_items(s.take(i)) + seq![','] + print_jm(
            s[i],
        ));
    }
}

/// One more member extends the printed member list after a comma.
pub proof fn lemma_print_members_snoc(s: Seq<(Seq<char>, JModel)>, i: int)
    requires
        1 <= i < s.len(),
    ensures
        print_members(s.take(i + 1)) == print_members(s.take(i)) + seq![','] + print_member(
            s[i],
        ),
    decreases i,
{
    if i == 1 {
        let t2 = s.take(2);
        assert(t2.drop_first() =~= seq![s[1]]);
        assert(s.take(1) =~= seq![s[0]]);
        assert(print_members(t2) == print_member(s[0]) + seq![','] + print_members(
            t2.drop_first(),
        ));
        assert(print_members(t2.drop_first()) == print_member(s[1]));
        assert(print_members(s.take(2)) =~= print_members(s.take(1)) + seq![','] + print_member(
            s[1],
        ));
    } else {
        lemma_print_members_snoc(s.drop_first(), i - 1);
        assert(s.take(i + 1).drop_first() =~= s.drop_first().take(i));
        assert(s.take(i).drop_first() =~= s.drop_first().take(i - 1));
        assert(s.drop_first()[i - 1] == s[i]);
        assert(print_members(s.take(i + 1)) == print_member(s[0]) + seq![','] + print_members(
            s.drop_first().take(i),
        ));
        assert(print_members(s.take(i)) == print_member(s[0]) + seq![','] + print_members(
            s.drop_first().take(i - 1),
        ));
        assert(print_members(s.take(i + 1)) =~= print_members(s.take(i)) + seq![','] + print_member(
            s[i],
        ));
    }
}

/// Text without characters that need escaping is its own escaped body;
/// decimal digit runs are the common case.
pub proof fn lemma_esc_plain(s: Seq<char>)
    requires
        forall|i: int| 0 <= i < s.len() ==> esc_char(#[trigger] s[i]) == seq![s[i]],
    ensures
        esc(s) == s,
    decreases s.len(),
{
    if s.len() == 0 {
        assert(esc(s) =~= s);
    } else {
        assert forall|i: int| 0 <= i < s.drop_first().len() implies esc_char(
            #[trigger] s.drop_first()[i],
        ) == seq![s.drop_first()[i]] by {
            assert(s.drop_first()[i] == s[i + 1]);
        }
        lemma_esc_plain(s.drop_first());
        assert(esc_char(s[0]) == seq![s[0]]);
        assert(esc(s) =~= s);
    }
}

/// Digit characters escape to themselves.
pub proof fn lemma_esc_digits(s: Seq<char>)
    requires
        crate::text::all_digits(s),
    ensures
        esc(s) == s,
{
    assert forall|i: int| 0 <= i < s.len() implies esc_char(#[trigger] s[i]) == seq![s[i]] by {
        assert(is_digit(s[i]));
        assert(digit_val(s[i]) >= 0);
    }
    lemma_esc_plain(s);
}

/// The executable JSON tree that the parser produces.
pub enum JsonValue {
    Null,
    Bool(bool),
    Num(usize),
    Str(String),
    Arr(Vec<JsonValue>),
    Obj(Vec<(String, JsonValue)>),
}

impl JsonValue {
    /// The document model this tree stands for.
    pub open spec fn jm(self) -> JModel
        decreases self,
    {
        match self {
            JsonValue::Null => JModel::Null,
            JsonValue::Bool(b) => JModel::Bool(b),
            JsonValue::Num(n) => JModel::Num(n as nat),
            JsonValue::Str(s) => JModel::Str(s@),
            JsonValue::Arr(items) => JModel::Arr(jm_of_list(items@)),
            JsonValue::Obj(members) => JModel::Obj(jm_of_members(members@)),
        }
    }
}

/// The models of a sequence of trees.
pub open spec fn jm_of_list(items: Seq<JsonValue>) -> Seq<JModel>
    decreases items,
{
    if items.len() == 0 {
        Seq::empty()
    } else {
        seq![items[0].jm()] + jm_of_list(items.drop_first())
    }
}

/// The models of a sequence of keyed trees.
pub open spec fn jm_of_members(members: Seq<(String, JsonValue)>) -> Seq<(Seq<char>, JModel)>
    decreases members,
{
    if members.len() == 0 {
        Seq::empty()
    } else {
        seq![(members[0].0@, members[0].1.jm())] + jm_of_members(members.drop_first())
    }
}

/// Model sequences index elementwise.
pub proof fn lemma_jm_of_list_index(items: Seq<JsonValue>, i: int)
    requires
        0 <= i < items.len(),
    ensures
        jm_of_list(items).len() == items.len(),
        jm_of_list(items)[i] == items[i].jm(),
    decreases items.len(),
{
    lemma_jm_of_list_len(items);
    if i > 0 {
        lemma_jm_of_list_index(items.drop_first(), i - 1);
        assert(items.drop_first()[i - 1] == items[i]);
    }
}

/// Model sequences keep their length.
pub proof fn lemma_jm_of_list_len(items: Seq<JsonValue>)
    ensures
        jm_of_list(items).len() == items.len(),
    decreases items.len(),
{
    if items.len() > 0 {
        lemma_jm_of_list_len(items.drop_first());
    }
}

/// Keyed model sequences index elementwise.
pub proof fn lemma_jm_of_members_index(members: Seq<(String, JsonValue)>, i: int)
    requires
        0 <= i < members.len(),
    ensures
        jm_of_members(members).len() == members.len(),
        jm_of_members(members)[i] == (members[i].0@, members[i].1.jm()),
    decreases members.len(),
{
    lemma_jm_of_members_len(members);
    if i > 0 {
        lemma_jm_of_members_index(members.drop_first(), i - 1);
        assert(members.drop_first()[i - 1] == members[i]);
    }
}

/// Keyed model sequences keep their length.
pub proof fn lemma_jm_of_members_len(members: Seq<(String, JsonValue)>)
    ensures
        jm_of_members(members).len() == members.len(),
    decreases members.len(),
{
    if members.len() > 0 {
        lemma_jm_of_members_len(members.drop_first());
    }
}

/// The lowercase hexadecimal digit for a small number.
fn hex_of(d: usize) -> (c: char)
    requires
        d < 16,
    ensures
        c == hex_char(d as int),
{
    if d < 10 {
        crate::text::digit_of(d)
    } else {
        match d {
            10 => 'a',
            11 => 'b',
            12 => 'c',
            13 => 'd',
            14 => 'e',
            _ => 'f',
        }
    }
}

/// Appends the escape of one string character.
pub fn write_escaped_char(c: char, out: &mut Vec<char>)
    ensures
        final(out)@ == old(out)@ + esc_char(c),
{
    if c == '"' {
        out.push('\\');
        out.push('"');
    } else if c == '\\' {
        out.push('\\');
        out.push('\\');
    } else if c == '\u{8}' {
        out.push('\\');
        out.push('b');
    } else if c == '\u{c}' {
        out.push('\\');
        out.push('f');
    } else if c == '\n' {
        out.push('\\');
        out.push('n');
    } else if c == '\r' {
        out.push('\\');
        out.push('r');
    } else if c == '\t' {
        out.push('\\');
        out.push('t');
    } else {
        let u = c as u32;
        if u < 32 {
            out.push('\\');
            out.push('u');
            out.push('0');
            out.push('0');
            out.push(hex_of((u / 16) as usize));
            out.push(hex_of((u % 16) as usize));
        } else {
            out.push(c);
        }
    }
    proof {
        assert(final(out)@ =~= old(out)@ + esc_char(c));
    }
}

/// Appends the canonical text of a string value, quotes included.
#[verifier::loop_isolation(false)]
pub fn write_string(s: &str, out: &mut Vec<char>)
    ensures
        final(out)@ == old(out)@ + print_str(s@),
{
    let ghost base = out@;
    out.push('"');
    let n = s.unicode_len();
    let mut i: usize = 0;
    while i < n
        invariant
            i <= n,
            n == s@.len(),
            out@ == base + seq!['"'] + esc(s@.take(i as int)),
        decreases n - i,
    {
        proof {
            assert(esc(s@.take(0)) =~= Seq::<char>::empty());
        }
        write_escaped_char(s.get_char(i), out);
        proof {
            lemma_esc_snoc(s@, i as int);
            assert(out@ =~= base + seq!['"'] + esc(s@.take(i as int + 1)));
        }
        i += 1;
    }
    out.push('"');
    proof {
        assert(s@.take(s@.len() as int) =~= s@);
        assert(out@ =~= base + print_str(s@));
        assert(esc(s@.take(0)) =~= Seq::<char>::empty());
    }
}

/// JSON whitespace.
pub open spec fn is_ws(c: char) -> bool {
    c == ' ' || c == '\t' || c == '\n' || c == '\r'
}

/// The first position at or after `i` that does not hold whitespace.
pub open spec fn skip_ws(s: Seq<char>, i: int) -> int
    decreases s.len() - i when 0 <= i <= s.len()
{
    if i < s.len() && is_ws(s[i]) {
        skip_ws(s, i + 1)
    } else {
        i
    }
}

/// Where whitespace skipping lands.
pub proof fn lemma_skip_ws(s: Seq<char>, i: int)
    requires
        0 <= i <= s.len(),
    ensures
        i <= skip_ws(s, i) <= s.len(),
    decreases s.len() - i,
{
    if i < s.len() && is_ws(s[i]) {
        lemma_skip_ws(s, i + 1);
    }
}

/// The value of an unescape letter, if it is one.
pub open spec fn unesc_char(e: char) -> Option<char> {
    if e == '"' {
        Some('"')
    } else if e == '\\' {
        Some('\\')
    } else if e == '/' {
        Some('/')
    } else if e == 'b' {
        Some('\u{8}')
    } else if e == 'f' {
        Some('\u{c}')
    } else if e == 'n' {
        Some('\n')
    } else if e == 'r' {
        Some('\r')
    } else if e == 't' {
        Some('\t')
    } else {
        Option::None
    }
}

/// The value of a hexadecimal digit character, or 16 for any other.
pub open spec fn hex_val(c: char) -> int {
    if is_digit(c) {
        digit_val(c)
    } else if 97 <= c as u32 <= 102 {
        c as u32 - 87
    } else if 65 <= c as u32 <= 70 {
        c as u32 - 55
    } else {
        16
    }
}

/// The character with a small code.
pub open spec fn char_of_code(v: int) -> char {
    (v as u8) as char
}

/// Reads a string body from just after the opening quote to just after
/// the closing one. Escapes are the named ones and `\u00XX`; other
/// `\uXXXX` forms are not part of the graph format and are rejected.
pub open spec fn parse_string_body(s: Seq<char>, i: int) -> Option<(Seq<char>, int)>
    decreases s.len() - i when 0 <= i <= s.len()
{
    if i >= s.len() {
        Option::None
    } else if s[i] == '"' {
        Some((Seq::empty(), i + 1))
    } else if s[i] == '\\' {
        if i + 1 >= s.len() {
            Option::None
        } else if s[i + 1] == 'u' {
            if i + 6 <= s.len() && s[i + 2] == '0' && s[i + 3] == '0' && hex_val(s[i + 4]) < 16
                && hex_val(s[i + 5]) < 16 {
                match parse_string_body(s, i + 6) {
                    Some((rest, j)) => Some(
                        (seq![char_of_code(hex_val(s[i + 4]) * 16 + hex_val(s[i + 5]))] + rest, j),
                    ),
                    Option::None => Option::None,
                }
            } else {
                Option::None
            }
        } else {
            match unesc_char(s[i + 1]) {
                Some(c) => match parse_string_body(s, i + 2) {
                    Some((rest, j)) => Some((seq![c] + rest, j)),
                    Option::None => Option::None,
                },
                Option::None => Option::None,
            }
        }
    } else {
        match parse_string_body(s, i + 1) {
            Some((rest, j)) => Some((seq![s[i]] + rest, j)),
            Option::None => Option::None,
        }
    }
}

/// The end of the digit run starting at `i`.
pub open spec fn digits_end(s: Seq<char>, i: int) -> int
    decreases s.len() - i when 0 <= i <= s.len()
{
    if i < s.len() && is_digit(s[i]) {
        digits_end(s, i + 1)
    } else {
        i
    }
}

/// Where a digit run ends, and that it is all digits.
pub proof fn lemma_digits_end(s: Seq<char>, i: int)
    requires
        0 <= i <= s.len(),
    ensures
        i <= digits_end(s, i) <= s.len(),
        crate::text::all_digits(s.subrange(i, digits_end(s, i))),
        digits_end(s, i) < s.len() ==> !is_digit(s[digits_end(s, i)]),
    decreases s.len() - i,
{
    if i < s.len() && is_digit(s[i]) {
        lemma_digits_end(s, i + 1);
        let e = digits_end(s, i);
        assert forall|w: int| 0 <= w < e - i implies is_digit(#[trigger] s.subrange(i, e)[w]) by {
            if w > 0 {
                assert(s.subrange(i + 1, e)[w - 1] == s[i + w]);
            }
        }
    }
}

/// Reads an unsigned decimal number.
pub open spec fn parse_number(s: Seq<char>, i: int) -> Option<(JModel, int)> {
    let e = digits_end(s, i);
    if e == i {
        Option::None
    } else {
        let v = dec_val_at(s, i, e);
        if v > usize::MAX as nat {
            Option::None
        } else {
            Some((JModel::Num(v), e))
        }
    }
}

/// The value of the digit run between two positions.
pub open spec fn dec_val_at(s: Seq<char>, i: int, e: int) -> nat {
    crate::text::dec_val(s.subrange(i, e))
}

/// Whether the literal text stands at position `i`.
pub open spec fn has_at(s: Seq<char>, i: int, lit: Seq<char>) -> bool {
    0 <= i && i + lit.len() <= s.len() && s.subrange(i, i + lit.len() as int) == lit
}

/// Reads one JSON value. The fuel only bounds nesting of the recursion;
/// any actual document parses with fuel one past the text length.
pub open spec fn parse_value(s: Seq<char>, i: int, fuel: nat) -> Option<(JModel, int)>
    decreases fuel, 0nat,
{
    if fuel == 0 || !(0 <= i <= s.len()) {
        Option::None
    } else {
        let j = skip_ws(s, i);
        if j >= s.len() {
            Option::None
        } else if s[j] == 'n' {
            if has_at(s, j, seq!['n', 'u', 'l', 'l']) {
                Some((JModel::Null, j + 4))
            } else {
                Option::None
            }
        } else if s[j] == 't' {
            if has_at(s, j, seq!['t', 'r', 'u', 'e']) {
                Some((JModel::Bool(true), j + 4))
            } else {
                Option::None
            }
        } else if s[j] == 'f' {
            if has_at(s, j, seq!['f', 'a', 'l', 's', 'e']) {
                Some((JModel::Bool(false), j + 5))
            } else {
                Option::None
            }
        } else if s[j] == '"' {
            match parse_string_body(s, j + 1) {
                Some((cs, e)) => Some((JModel::Str(cs), e)),
                Option::None => Option::None,
            }
        } else if s[j] == '[' {
            let k = skip_ws(s, j + 1);
            if k < s.len() && s[k] == ']' {
                Some((JModel::Arr(Seq::empty()), k + 1))
            } else {
                match parse_items(s, j + 1, (fuel - 1) as nat) {
                    Some((vs, e)) => Some((JModel::Arr(vs), e)),
                    Option::None => Option::None,
                }
            }
        } else if s[j] == '{' {
            let k = skip_ws(s, j + 1);
            if k < s.len() && s[k] == '}' {
                Some((JModel::Obj(Seq::empty()), k + 1))
            } else {
                match parse_members(s, j + 1, (fuel - 1) as nat) {
                    Some((ms, e)) => Some((JModel::Obj(ms), e)),
                    Option::None => Option::None,
                }
            }
        } else if is_digit(s[j]) {
            parse_number(s, j)
        } else {
            Option::None
        }
    }
}

/// Reads the elements of a non-empty array, up to and including the
/// closing bracket.
pub open spec fn parse_items(s: Seq<char>, i: int, fuel: nat) -> Option<(Seq<JModel>, int)>
    decreases fuel, 1nat,
{
    if fuel == 0 {
        Option::None
    } else {
        match parse_value(s, i, fuel) {
            Option::None => Option::None,
            Some((v, j)) => {
                if !(0 <= j <= s.len()) {
                    Option::None
                } else {
                    let k = skip_ws(s, j);
                    if k < s.len() && s[k] == ']' {
                        Some((seq![v], k + 1))
                    } else if k < s.len() && s[k] == ',' {
                        match parse_items(s, k + 1, (fuel - 1) as nat) {
                            Some((rest, e)) => Some((seq![v] + rest, e)),
                            Option::None => Option::None,
                        }
                    } else {
                        Option::None
                    }
                }
            },
        }
    }
}

/// Reads the members of a non-empty object, up to and including the
/// closing brace.
pub open spec fn parse_members(s: Seq<char>, i: int, fuel: nat) -> Option<
    (Seq<(Seq<char>, JModel)>, int),
>
    decreases fuel, 1nat,
{
    if fuel == 0 {
        Option::None
    } else {
        let j = skip_ws(s, i);
        if !(0 <= i <= s.len()) || j >= s.len() || s[j] != '"' {
            Option::None
        } else {
            match parse_string_body(s, j + 1) {
                Option::None => Option::None,
                Some((key, j2)) => {
                    let k = skip_ws(s, j2);
                    if k >= s.len() || s[k] != ':' {
                        Option::None
                    } else {
                        match parse_value(s, k + 1, fuel) {
                            Option::None => Option::None,
                            Some((v, j3)) => {
                                if !(0 <= j3 <= s.len()) {
                                    Option::None
                                } else {
                                    let k2 = skip_ws(s, j3);
                                    if k2 < s.len() && s[k2] == '}' {
                                        Some((seq![(key, v)], k2 + 1))
                                    } else if k2 < s.len() && s[k2] == ',' {
                                        match parse_members(s, k2 + 1, (fuel - 1) as nat) {
                                            Some((rest, e)) => Some((seq![(key, v)] + rest, e)),
                                            Option::None => Option::None,
                                        }
                                    } else {
                                        Option::None
                                    }
                                }
                            },
                        }
                    }
                },
            }
        }
    }
}

/// Reads a whole text as one JSON document: one value and nothing but
/// whitespace after it.
pub open spec fn parse_text(s: Seq<char>) -> Option<JModel> {
    match parse_value(s, 0, (s.len() + 1) as nat) {
        Option::None => Option::None,
        Some((m, j)) => {
            if 0 <= j <= s.len() && skip_ws(s, j) == s.len() {
                Some(m)
            } else {
                Option::None
            }
        },
    }
}

/// Whitespace test.
fn ws(c: char) -> (b: bool)
    ensures
        b == is_ws(c),
{
    c == ' ' || c == '\t' || c == '\n' || c == '\r'
}

/// Advances past whitespace.
#[verifier::loop_isolation(false)]
fn p_skip_ws(s: &Vec<char>, i: usize) -> (r: usize)
    requires
        i <= s@.len(),
    ensures
        r as int == skip_ws(s@, i as int),
        i <= r <= s@.len(),
{
    let mut k = i;
    while k < s.len() && ws(s[k])
        invariant
            i <= k <= s@.len(),
            skip_ws(s@, i as int) == skip_ws(s@, k as int),
        decreases s@.len() - k,
    {
        k += 1;
    }
    proof {
        lemma_skip_ws(s@, i as int);
    }
    k
}

/// The value of a hexadecimal digit character, 16 for any other.
fn hexv(c: char) -> (r: u32)
    ensures
        r as int == hex_val(c),
{
    let u = c as u32;
    if 48 <= u && u <= 57 {
        u - 48
    } else if 97 <= u && u <= 102 {
        u - 87
    } else if 65 <= u && u <= 70 {
        u - 55
    } else {
        16
    }
}

/// The character with a small code.
fn code_char(v: u32) -> (c: char)
    requires
        v < 256,
    ensures
        c == char_of_code(v as int),
{
    (v as u8) as char
}

/// The unescape of one escape letter.
fn unesc_of(e: char) -> (r: Option<char>)
    ensures
        r == unesc_char(e),
{
    if e == '"' {
        Some('"')
    } else if e == '\\' {
        Some('\\')
    } else if e == '/' {
        Some('/')
    } else if e == 'b' {
        Some('\u{8}')
    } else if e == 'f' {
        Some('\u{c}')
    } else if e == 'n' {
        Some('\n')
    } else if e == 'r' {
        Some('\r')
    } else if e == 't' {
        Some('\t')
    } else {
        None
    }
}

/// Reads a string body, as [`parse_string_body`] describes.
fn p_string_body(s: &Vec<char>, i: usize) -> (r: Option<(Vec<char>, usize)>)
    requires
        i <= s@.len(),
    ensures
        match r {
            Some(p) => parse_string_body(s@, i as int) == Some((p.0@, p.1 as int)) && i < p.1
                <= s@.len(),
            None => parse_string_body(s@, i as int) is None,
        },
    decreases s@.len() - i,
{
    if i >= s.len() {
        return None;
    }
    let c = s[i];
    if c == '"' {
        let v: Vec<char> = Vec::new();
        proof {
            assert(v@ =~= Seq::<char>::empty());
        }
        Some((v, i + 1))
    } else if c == '\\' {
        if i + 1 >= s.len() {
            return None;
        }
        let e = s[i + 1];
        if e == 'u' {
            if s.len() - i >= 6 && s[i + 2] == '0' && s[i + 3] == '0' && hexv(s[i + 4]) < 16
                && hexv(s[i + 5]) < 16 {
                match p_string_body(s, i + 6) {
                    Some((mut rest, j)) => {
                        let hv = hexv(s[i + 4]) * 16 + hexv(s[i + 5]);
                        let ghost r0 = rest@;
                        rest.insert(0, code_char(hv));
                        proof {
                            assert(rest@ =~= seq![
                                char_of_code(
                                    hex_val(s@[i as int + 4]) * 16 + hex_val(s@[i as int + 5]),
                                ),
                            ] + r0);
                        }
                        Some((rest, j))
                    },
                    None => None,
                }
            } else {
                None
            }
        } else {
            match unesc_of(e) {
                Some(c2) => match p_string_body(s, i + 2) {
                    Some((mut rest, j)) => {
                        let ghost r0 = rest@;
                        rest.insert(0, c2);
                        proof {
                            assert(rest@ =~= seq![c2] + r0);
                        }
                        Some((rest, j))
                    },
                    None => None,
                },
                None => None,
            }
        }
    } else {
        match p_string_body(s, i + 1) {
            Some((mut rest, j)) => {
                let ghost r0 = rest@;
                rest.insert(0, c);
                proof {
                    assert(rest@ =~= seq![c] + r0);
                }
                Some((rest, j))
            },
            None => None,
        }
    }
}

/// Digit test.
fn dig(c: char) -> (b: bool)
    ensures
        b == is_digit(c),
{
    let u = c as u32;
    48 <= u && u <= 57
}

/// Reads an unsigned decimal number, as [`parse_number`] describes.
#[verifier::loop_isolation(false)]
fn p_number(s: &Vec<char>, i: usize) -> (r: Option<(usize, usize)>)
    requires
        i <= s@.len(),
    ensures
        match r {
            Some(p) => parse_number(s@, i as int) == Some((JModel::Num(p.0 as nat), p.1 as int))
                && i < p.1 <= s@.len(),
            None => parse_number(s@, i as int) is None,
        },
{
    let mut en = i;
    while en < s.len() && dig(s[en])
        invariant
            i <= en <= s@.len(),
            digits_end(s@, i as int) == digits_end(s@, en as int),
        decreases s@.len() - en,
    {
        en += 1;
    }
    proof {
        assert(en as int == digits_end(s@, i as int));
        lemma_digits_end(s@, i as int);
    }
    if en == i {
        return None;
    }
    let ghost run = s@.subrange(i as int, en as int);
    let mut acc: usize = 0;
    let mut k = i;
    proof {
        assert(s@.subrange(i as int, i as int) =~= run.take(0));
        assert(crate::text::dec_val(run.take(0)) == 0);
    }
    while k < en
        invariant
            i <= k <= en <= s@.len(),
            run == s@.subrange(i as int, en as int),
            crate::text::all_digits(run),
            acc as nat == crate::text::dec_val(run.take(k as int - i)),
        decreases en - k,
    {
        let c = s[k];
        let u = c as u32;
        proof {
            assert(run[k as int - i] == s@[k as int]);
            assert(is_digit(s@[k as int]));
        }
        let d = (u - 48) as usize;
        if acc > (usize::MAX - d) / 10 {
            proof {
                assert(run.take(k as int - i + 1).drop_last() =~= run.take(k as int - i));
                assert(run.take(k as int - i + 1).last() == run[k as int - i]);
                assert(crate::text::dec_val(run.take(k as int - i + 1)) == acc as nat * 10
                    + d as nat);
                assert(acc as nat * 10 + d as nat > usize::MAX) by (nonlinear_arith)
                    requires
                        acc > (usize::MAX - d) / 10,
                        d <= 9,
                ;
                crate::text::lemma_dec_val_prefix(run, k as int - i + 1);
            }
            return None;
        }
        proof {
            assert(acc as nat * 10 + d as nat <= usize::MAX) by (nonlinear_arith)
                requires
                    acc <= (usize::MAX - d) / 10,
                    d <= 9,
            ;
            assert(run.take(k as int - i + 1).drop_last() =~= run.take(k as int - i));
            assert(run.take(k as int - i + 1).last() == run[k as int - i]);
        }
        acc = acc * 10 + d;
        k += 1;
    }
    proof {
        assert(run.take(en as int - i) =~= run);
    }
    Some((acc, en))
}

/// Reads one JSON value, as [`parse_value`] describes.
pub fn p_value(s: &Vec<char>, i: usize, fuel: usize) -> (r: Option<(JsonValue, usize)>)
    requires
        i <= s@.len(),
    ensures
        match r {
            Some(p) => parse_value(s@, i as int, fuel as nat) == Some((p.0.jm(), p.1 as int))
                && p.1 <= s@.len(),
            None => parse_value(s@, i as int, fuel as nat) is None,
        },
    decreases fuel, 0nat,
{
    if fuel == 0 {
        return None;
    }
    let j = p_skip_ws(s, i);
    if j >= s.len() {
        return None;
    }
    let c = s[j];
    if c == 'n' {
        if s.len() - j >= 4 && s[j + 1] == 'u' && s[j + 2] == 'l' && s[j + 3] == 'l' {
            proof {
                assert(s@.subrange(j as int, j as int + 4) =~= seq!['n', 'u', 'l', 'l']);
            }
            Some((JsonValue::Null, j + 4))
        } else {
            proof {
                if has_at(s@, j as int, seq!['n', 'u', 'l', 'l']) {
                    assert(s@.subrange(j as int, j as int + 4)[1] == s@[j as int + 1]);
                    assert(s@.subrange(j as int, j as int + 4)[2] == s@[j as int + 2]);
                    assert(s@.subrange(j as int, j as int + 4)[3] == s@[j as int + 3]);
                }
            }
            None
        }
    } else if c == 't' {
        if s.len() - j >= 4 && s[j + 1] == 'r' && s[j + 2] == 'u' && s[j + 3] == 'e' {
            proof {
                assert(s@.subrange(j as int, j as int + 4) =~= seq!['t', 'r', 'u', 'e']);
            }
            Some((JsonValue::Bool(true), j + 4))
        } else {
            proof {
                if has_at(s@, j as int, seq!['t', 'r', 'u', 'e']) {
                    assert(s@.subrange(j as int, j as int + 4)[1] == s@[j as int + 1]);
                    assert(s@.subrange(j as int, j as int + 4)[2] == s@[j as int + 2]);
                    assert(s@.subrange(j as int, j as int + 4)[3] == s@[j as int + 3]);
                }
            }
            None
        }
    } else if c == 'f' {
        if s.len() - j >= 5 && s[j + 1] == 'a' && s[j + 2] == 'l' && s[j + 3] == 's' && s[j + 4]
            == 'e' {
            proof {
                assert(s@.subrange(j as int, j as int + 5) =~= seq!['f', 'a', 'l', 's', 'e']);
            }
            Some((JsonValue::Bool(false), j + 5))
        } else {
            proof {
                if has_at(s@, j as int, seq!['f', 'a', 'l', 's', 'e']) {
                    assert(s@.subrange(j as int, j as int + 5)[1] == s@[j as int + 1]);
                    assert(s@.subrange(j as int, j as int + 5)[2] == s@[j as int + 2]);
                    assert(s@.subrange(j as int, j as int + 5)[3] == s@[j as int + 3]);
                    assert(s@.subrange(j as int, j as int + 5)[4] == s@[j as int + 4]);
                }
            }
            None
        }
    } else if c == '"' {
        match p_string_body(s, j + 1) {
            Some((cs, e)) => {
                let st = crate::text::chars_to_string(&cs);
                Some((JsonValue::Str(st), e))
            },
            None => None,
        }
    } else if c == '[' {
        let k = p_skip_ws(s, j + 1);
        if k < s.len() && s[k] == ']' {
            let v: Vec<JsonValue> = Vec::new();
            proof {
                assert(jm_of_list(v@) =~= Seq::<JModel>::empty());
            }
            Some((JsonValue::Arr(v), k + 1))
        } else {
            match p_items(s, j + 1, fuel - 1) {
                Some((vs, e)) => Some((JsonValue::Arr(vs), e)),
                None => None,
            }
        }
    } else if c == '{' {
        let k = p_skip_ws(s, j + 1);
        if k < s.len() && s[k] == '}' {
            let v: Vec<(String, JsonValue)> = Vec::new();
            proof {
                assert(jm_of_members(v@) =~= Seq::<(Seq<char>, JModel)>::empty());
            }
            Some((JsonValue::Obj(v), k + 1))
        } else {
            match p_members(s, j + 1, fuel - 1) {
                Some((ms, e)) => Some((JsonValue::Obj(ms), e)),
                None => None,
            }
        }
    } else if dig(c) {
        match p_number(s, j) {
            Some((n, e)) => Some((JsonValue::Num(n), e)),
            None => None,
        }
    } else {
        None
    }
}

/// Reads the elements of a non-empty array, as [`parse_items`] describes.
fn p_items(s: &Vec<char>, i: usize, fuel: usize) -> (r: Option<(Vec<JsonValue>, usize)>)
    requires
        i <= s@.len(),
    ensures
        match r {
            Some(p) => parse_items(s@, i as int, fuel as nat) == Some(
                (jm_of_list(p.0@), p.1 as int),
            ) && p.1 <= s@.len(),
            None => parse_items(s@, i as int, fuel as nat) is None,
        },
    decreases fuel, 1nat,
{
    if fuel == 0 {
        return None;
    }
    match p_value(s, i, fuel) {
        None => None,
        Some((v, j)) => {
            let k = p_skip_ws(s, j);
            if k < s.len() && s[k] == ']' {
                let mut vs: Vec<JsonValue> = Vec::new();
                vs.push(v);
                proof {
                    assert(vs@.drop_first() =~= Seq::<JsonValue>::empty());
                    assert(jm_of_list(vs@.drop_first()) =~= Seq::<JModel>::empty());
                    assert(jm_of_list(vs@) =~= seq![vs@[0].jm()]);
                }
                Some((vs, k + 1))
            } else if k < s.len() && s[k] == ',' {
                match p_items(s, k + 1, fuel - 1) {
                    Some((mut rest, e)) => {
                        let ghost r0 = rest@;
                        rest.insert(0, v);
                        proof {
                            assert(rest@.drop_first() =~= r0);
                            assert(jm_of_list(rest@) =~= seq![rest@[0].jm()] + jm_of_list(r0));
                        }
                        Some((rest, e))
                    },
                    None => None,
                }
            } else {
                None
            }
        },
    }
}

/// Reads the members of a non-empty object, as [`parse_members`]
/// describes.
fn p_members(s: &Vec<char>, i: usize, fuel: usize) -> (r: Option<(Vec<(String, JsonValue)>, usize)>)
    requires
        i <= s@.len(),
    ensures
        match r {
            Some(p) => parse_members(s@, i as int, fuel as nat) == Some(
                (jm_of_members(p.0@), p.1 as int),
            ) && p.1 <= s@.len(),
            None => parse_members(s@, i as int, fuel as nat) is None,
        },
    decreases fuel, 1nat,
{
    if fuel == 0 {
        return None;
    }
    let j = p_skip_ws(s, i);
    if j >= s.len() {
        return None;
    }
    if s[j] != '"' {
        return None;
    }
    match p_string_body(s, j + 1) {
        None => None,
        Some((key_cs, j2)) => {
            let key = crate::text::chars_to_string(&key_cs);
            let k = p_skip_ws(s, j2);
            if k >= s.len() {
                return None;
            }
            if s[k] != ':' {
                return None;
            }
            match p_value(s, k + 1, fuel) {
                None => None,
                Some((v, j3)) => {
                    let k2 = p_skip_ws(s, j3);
                    if k2 < s.len() && s[k2] == '}' {
                        let mut ms: Vec<(String, JsonValue)> = Vec::new();
                        ms.push((key, v));
                        proof {
                            assert(ms@.drop_first() =~= Seq::<(String, JsonValue)>::empty());
                            assert(jm_of_members(ms@.drop_first()) =~= Seq::<
                                (Seq<char>, JModel),
                            >::empty());
                            assert(jm_of_members(ms@) =~= seq![(ms@[0].0@, ms@[0].1.jm())]);
                        }
                        Some((ms, k2 + 1))
                    } else if k2 < s.len() && s[k2] == ',' {
                        match p_members(s, k2 + 1, fuel - 1) {
                            Some((mut rest, e)) => {
                                let ghost r0 = rest@;
                                rest.insert(0, (key, v));
                                proof {
                                    assert(rest@.drop_first() =~= r0);
                                    assert(jm_of_members(rest@) =~= seq![
                                        (rest@[0].0@, rest@[0].1.jm()),
                                    ] + jm_of_members(r0));
                                }
                                Some((rest, e))
                            },
                            None => None,
                        }
                    } else {
                        None
                    }
                },
            }
        },
    }
}

/// Reads a whole text as one JSON document, as [`parse_text`] describes.
pub fn p_text(s: &Vec<char>) -> (r: Option<JsonValue>)
    requires
        s@.len() < usize::MAX,
    ensures
        match r {
            Some(v) => parse_text(s@) == Some(v.jm()),
            None => parse_text(s@) is None,
        },
{
    let fuel = s.len() + 1;
    match p_value(s, 0, fuel) {
        None => None,
        Some((v, j)) => {
            let k = p_skip_ws(s, j);
            if k == s.len() {
                Some(v)
            } else {
                None
            }
        },
    }
}

/// A document the machine can hold: every number fits in `usize`.
pub open spec fn wf_jm(m: JModel) -> bool
    decreases m,
{
    match m {
        JModel::Null => true,
        JModel::Bool(_) => true,
        JModel::Num(n) => n <= usize::MAX as nat,
        JModel::Str(_) => true,
        JModel::Arr(items) => wf_jm_list(items),
        JModel::Obj(members) => wf_jm_members(members),
    }
}

/// Every element of the list is a well-formed document.
pub open spec fn wf_jm_list(items: Seq<JModel>) -> bool
    decreases items,
{
    if items.len() == 0 {
        true
    } else {
        wf_jm(items[0]) && wf_jm_list(items.drop_first())
    }
}

/// Every member value is a well-formed document.
pub open spec fn wf_jm_members(members: Seq<(Seq<char>, JModel)>) -> bool
    decreases members,
{
    if members.len() == 0 {
        true
    } else {
        wf_jm(members[0].1) && wf_jm_members(members.drop_first())
    }
}

/// Reading a hexadecimal digit back gives the value it was written for.
proof fn lemma_hex_char_val(d: int)
    requires
        0 <= d < 16,
    ensures
        hex_val(hex_char(d)) == d,
{
}

/// The canonical text of a document starts with a character that is not
/// whitespace and not a closing or separating sign.
proof fn lemma_print_first(m: JModel)
    ensures
        print_jm(m).len() >= 1,
        !is_ws(print_jm(m)[0]),
        print_jm(m)[0] != ']',
        print_jm(m)[0] != '}',
        print_jm(m)[0] != ',',
        print_jm(m)[0] != ':',
{
    match m {
        JModel::Num(n) => {
            crate::text::lemma_dec_rep(n);
            assert(is_digit(print_jm(m)[0]));
        },
        _ => {},
    }
}

/// Parsing the escaped text of a string body, up to its closing quote,
/// gives the string back.
proof fn lemma_parse_esc(s: Seq<char>, i: int, content: Seq<char>)
    requires
        0 <= i,
        i + esc(content).len() + 1 <= s.len(),
        s.subrange(i, i + esc(content).len()) == esc(content),
        s[i + esc(content).len()] == '"',
    ensures
        parse_string_body(s, i) == Some((content, i + esc(content).len() + 1)),
    decreases content.len(),
{
    if content.len() == 0 {
        assert(esc(content) =~= Seq::<char>::empty());
        assert(s[i] == '"');
    } else {
        let c = content[0];
        let rest = content.drop_first();
        let ec = esc_char(c);
        assert(esc(content) == ec + esc(rest));
        assert forall|k: int| 0 <= k < ec.len() implies s[i + k] == ec[k] by {
            assert(s.subrange(i, i + esc(content).len())[k] == s[i + k]);
            assert(esc(content)[k] == ec[k]);
        }
        let i2 = i + ec.len();
        assert(s.subrange(i2, i2 + esc(rest).len()) =~= esc(rest)) by {
            assert forall|k: int| 0 <= k < esc(rest).len() implies s[i2 + k] == esc(rest)[k] by {
                assert(s.subrange(i, i + esc(content).len())[ec.len() + k] == s[i2 + k]);
                assert(esc(content)[ec.len() + k] == esc(rest)[k]);
            }
        }
        assert(s[i2 + esc(rest).len()] == '"');
        lemma_parse_esc(s, i2, rest);
        assert(seq![c] + rest =~= content);
        if c == '"' {
            assert(s[i] == '\\' && s[i + 1] == '"');
            assert(unesc_char(s[i + 1]) == Some('"'));
        } else if c == '\\' {
            assert(s[i] == '\\' && s[i + 1] == '\\');
        } else if c == '\u{8}' {
            assert(s[i] == '\\' && s[i + 1] == 'b');
        } else if c == '\u{c}' {
            assert(s[i] == '\\' && s[i + 1] == 'f');
        } else if c == '\n' {
            assert(s[i] == '\\' && s[i + 1] == 'n');
        } else if c == '\r' {
            assert(s[i] == '\\' && s[i + 1] == 'r');
        } else if c == '\t' {
            assert(s[i] == '\\' && s[i + 1] == 't');
        } else if (c as u32) < 32 {
            assert(s[i] == '\\' && s[i + 1] == 'u' && s[i + 2] == '0' && s[i + 3] == '0');
            assert(s[i + 4] == hex_char((c as u32 / 16) as int));
            assert(s[i + 5] == hex_char((c as u32 % 16) as int));
            lemma_hex_char_val((c as u32 / 16) as int);
            lemma_hex_char_val((c as u32 % 16) as int);
            assert(hex_val(s[i + 4]) * 16 + hex_val(s[i + 5]) == c as u32);
            let u: u32 = c as u32;
            let b: u8 = u as u8;
            assert(b as u32 == u);
            let ch = char_of_code(u as int);
            assert(ch == (b as char));
            assert(ch as u32 == u) by {
                vstd::utf8::char_is_scalar(ch);
            }
            vstd::utf8::char_u32_cast(ch, u);
            vstd::utf8::char_u32_cast(c, u);
            assert(char_of_code(c as u32 as int) == c);
        } else {
            assert(s[i] == c);
            assert(c != '"' && c != '\\');
        }
    }
}

/// A digit run between two positions whose neighbour is not a digit
/// ends exactly there.
proof fn lemma_digits_end_exact(s: Seq<char>, i: int, e: int)
    requires
        0 <= i <= e <= s.len(),
        forall|k: int| i <= k < e ==> is_digit(#[trigger] s[k]),
        e == s.len() || !is_digit(s[e]),
    ensures
        digits_end(s, i) == e,
    decreases e - i,
{
    if i < e {
        lemma_digits_end_exact(s, i + 1, e);
    }
}

/// Parsing the canonical text of a well-formed document at its position
/// gives the document back. The character after the text must not be a
/// digit, so that a number is not read beyond its end; every place a
/// value stands in a document is followed by a separator, a closer,
/// whitespace, or the end of the text.
proof fn lemma_parse_print_value(s: Seq<char>, i: int, fuel: nat, m: JModel)
    requires
        wf_jm(m),
        0 <= i,
        i + print_jm(m).len() <= s.len(),
        s.subrange(i, i + print_jm(m).len()) == print_jm(m),
        i + print_jm(m).len() == s.len() || !is_digit(s[i + print_jm(m).len()]),
        fuel >= s.len() - i + 1,
    ensures
        parse_value(s, i, fuel) == Some((m, i + print_jm(m).len())),
    decreases m,
{
    let t = print_jm(m);
    assert forall|k: int| 0 <= k < t.len() implies s[i + k] == t[k] by {
        assert(s.subrange(i, i + t.len())[k] == s[i + k]);
    }
    lemma_print_first(m);
    assert(s[i] == t[0]);
    assert(skip_ws(s, i) == i);
    match m {
        JModel::Null => {
            assert(s.subrange(i, i + 4) =~= seq!['n', 'u', 'l', 'l']);
            assert(has_at(s, i, seq!['n', 'u', 'l', 'l']));
        },
        JModel::Bool(b) => {
            if b {
                assert(s.subrange(i, i + 4) =~= seq!['t', 'r', 'u', 'e']);
                assert(has_at(s, i, seq!['t', 'r', 'u', 'e']));
            } else {
                assert(s.subrange(i, i + 5) =~= seq!['f', 'a', 'l', 's', 'e']);
                assert(has_at(s, i, seq!['f', 'a', 'l', 's', 'e']));
            }
        },
        JModel::Num(n) => {
            crate::text::lemma_dec_rep(n);
            assert(is_digit(s[i]));
            assert forall|k: int| i <= k < i + t.len() implies is_digit(#[trigger] s[k]) by {
                assert(s[k] == t[k - i]);
                assert(is_digit(t[k - i]));
            }
            lemma_digits_end_exact(s, i, i + t.len());
            assert(s.subrange(i, i + t.len()) == t);
            assert(dec_val_at(s, i, i + t.len()) == crate::text::dec_val(t));
            assert(crate::text::dec_val(t) == n);
        },
        JModel::Str(content) => {
            assert(s[i] == '"');
            let el = esc(content).len() as int;
            assert(t == seq!['"'] + esc(content) + seq!['"']);
            assert(t.len() == el + 2);
            assert(s.subrange(i + 1, i + 1 + el) =~= esc(content)) by {
                assert forall|k: int| 0 <= k < el implies s[i + 1 + k] == esc(content)[k] by {
                    assert(s[i + 1 + k] == t[1 + k]);
                    assert(t[1 + k] == esc(content)[k]);
                }
            }
            assert(s[i + 1 + el] == t[1 + el]);
            assert(t[1 + el] == '"');
            lemma_parse_esc(s, i + 1, content);
        },
        JModel::Arr(items) => {
            assert(s[i] == '[');
            let ti = print_items(items);
            assert(t == seq!['['] + ti + seq![']']);
            if items.len() == 0 {
                assert(ti =~= Seq::<char>::empty());
                assert(s[i + 1] == t[1]);
                assert(t[1] == ']');
                assert(skip_ws(s, i + 1) == i + 1);
                assert(m == JModel::Arr(Seq::<JModel>::empty())) by {
                    assert(items =~= Seq::<JModel>::empty());
                }
            } else {
                lemma_print_first(items[0]);
                assert(ti[0] == print_jm(items[0])[0]) by {
                    if items.len() == 1 {
                    } else {
                        assert(ti == print_jm(items[0]) + seq![','] + print_items(
                            items.drop_first(),
                        ));
                    }
                }
                assert(s[i + 1] == t[1]);
                assert(t[1] == ti[0]);
                assert(skip_ws(s, i + 1) == i + 1);
                assert(s[i + 1] != ']');
                assert(s.subrange(i + 1, i + 1 + ti.len()) =~= ti) by {
                    assert forall|k: int| 0 <= k < ti.len() implies s[i + 1 + k] == ti[k] by {
                        assert(s[i + 1 + k] == t[1 + k]);
                        assert(t[1 + k] == ti[k]);
                    }
                }
                assert(s[i + 1 + ti.len() as int] == t[1 + ti.len() as int]);
                assert(t[1 + ti.len() as int] == ']');
                lemma_parse_print_items(s, i + 1, (fuel - 1) as nat, items);
            }
        },
        JModel::Obj(members) => {
            assert(s[i] == '{');
            let tm = print_members(members);
            assert(t == seq!['{'] + tm + seq!['}']);
            if members.len() == 0 {
                assert(tm =~= Seq::<char>::empty());
                assert(s[i + 1] == t[1]);
                assert(t[1] == '}');
                assert(skip_ws(s, i + 1) == i + 1);
                assert(m == JModel::Obj(Seq::<(Seq<char>, JModel)>::empty())) by {
                    assert(members =~= Seq::<(Seq<char>, JModel)>::empty());
                }
            } else {
                assert(tm[0] == print_member(members[0])[0]) by {
                    if members.len() == 1 {
                    } else {
                        assert(tm == print_member(members[0]) + seq![','] + print_members(
                            members.drop_first(),
                        ));
                    }
                }
                assert(print_member(members[0])[0] == '"');
                assert(s[i + 1] == t[1]);
                assert(t[1] == tm[0]);
                assert(skip_ws(s, i + 1) == i + 1);
                assert(s[i + 1] != '}');
                assert(s.subrange(i + 1, i + 1 + tm.len()) =~= tm) by {
                    assert forall|k: int| 0 <= k < tm.len() implies s[i + 1 + k] == tm[k] by {
                        assert(s[i + 1 + k] == t[1 + k]);
                        assert(t[1 + k] == tm[k]);
                    }
                }
                assert(s[i + 1 + tm.len() as int] == t[1 + tm.len() as int]);
                assert(t[1 + tm.len() as int] == '}');
                lemma_parse_print_members(s, i + 1, (fuel - 1) as nat, members);
            }
        },
    }
}

/// Parsing the canonical element list of a non-empty array, closer
/// included, gives the elements back.
proof fn lemma_parse_print_items(s: Seq<char>, i: int, fuel: nat, items: Seq<JModel>)
    requires
        items.len() >= 1,
        wf_jm_list(items),
        0 <= i,
        i + print_items(items).len() + 1 <= s.len(),
        s.subrange(i, i + print_items(items).len()) == print_items(items),
        s[i + print_items(items).len()] == ']',
        fuel >= s.len() - i + 1,
    ensures
        parse_items(s, i, fuel) == Some((items, i + print_items(items).len() + 1)),
    decreases items,
{
    let ti = print_items(items);
    let v0 = items[0];
    let t0 = print_jm(v0);
    assert forall|k: int| 0 <= k < ti.len() implies s[i + k] == ti[k] by {
        assert(s.subrange(i, i + ti.len())[k] == s[i + k]);
    }
    if items.len() == 1 {
        assert(ti == t0);
        assert(s.subrange(i, i + t0.len()) == t0);
        assert(s[i + t0.len() as int] == ']');
        assert(!is_digit(s[i + t0.len() as int]));
        lemma_parse_print_value(s, i, fuel, v0);
        let j = i + t0.len() as int;
        assert(skip_ws(s, j) == j);
        assert(items =~= seq![v0]);
    } else {
        let rest = items.drop_first();
        let tr = print_items(rest);
        assert(ti == t0 + seq![','] + tr);
        assert(s.subrange(i, i + t0.len()) =~= t0) by {
            assert forall|k: int| 0 <= k < t0.len() implies s[i + k] == t0[k] by {
                assert(ti[k] == t0[k]);
            }
        }
        assert(s[i + t0.len() as int] == ti[t0.len() as int]);
        assert(ti[t0.len() as int] == ',');
        assert(!is_digit(s[i + t0.len() as int]));
        lemma_parse_print_value(s, i, fuel, v0);
        let j = i + t0.len() as int;
        assert(skip_ws(s, j) == j);
        assert(s[j] != ']');
        assert(s.subrange(j + 1, j + 1 + tr.len()) =~= tr) by {
            assert forall|k: int| 0 <= k < tr.len() implies s[j + 1 + k] == tr[k] by {
                assert(s[j + 1 + k] == ti[t0.len() as int + 1 + k]);
                assert(ti[t0.len() as int + 1 + k] == tr[k]);
            }
        }
        assert(s[j + 1 + tr.len() as int] == s[i + ti.len() as int]);
        lemma_parse_print_items(s, j + 1, (fuel - 1) as nat, rest);
        assert(seq![v0] + rest =~= items);
    }
}

/// Parsing the canonical member list of a non-empty object, closer
/// included, gives the members back.
proof fn lemma_parse_print_members(s: Seq<char>, i: int, fuel: nat, members: Seq<
    (Seq<char>, JModel),
>)
    requires
        members.len() >= 1,
        wf_jm_members(members),
        0 <= i,
        i + print_members(members).len() + 1 <= s.len(),
        s.subrange(i, i + print_members(members).len()) == print_members(members),
        s[i + print_members(members).len()] == '}',
        fuel >= s.len() - i + 1,
    ensures
        parse_members(s, i, fuel) == Some((members, i + print_members(members).len() + 1)),
    decreases members,
{
    let tm = print_members(members);
    let key = members[0].0;
    let v0 = members[0].1;
    let pm0 = print_member(members[0]);
    let el = esc(key).len() as int;
    assert forall|k: int| 0 <= k < tm.len() implies s[i + k] == tm[k] by {
        assert(s.subrange(i, i + tm.len())[k] == s[i + k]);
    }
    assert(pm0 == print_str(key) + seq![':'] + print_jm(v0));
    assert forall|k: int| 0 <= k < pm0.len() implies s[i + k] == pm0[k] by {
        if members.len() == 1 {
            assert(tm[k] == pm0[k]);
        } else {
            assert(tm == pm0 + seq![','] + print_members(members.drop_first()));
            assert(tm[k] == pm0[k]);
        }
    }
    assert(s[i] == pm0[0]);
    assert(pm0[0] == '"');
    assert(skip_ws(s, i) == i);
    // the key string
    assert(s.subrange(i + 1, i + 1 + el) =~= esc(key)) by {
        assert forall|k: int| 0 <= k < el implies s[i + 1 + k] == esc(key)[k] by {
            assert(s[i + 1 + k] == pm0[1 + k]);
            assert(pm0[1 + k] == print_str(key)[1 + k]);
            assert(print_str(key)[1 + k] == esc(key)[k]);
        }
    }
    assert(s[i + 1 + el] == pm0[1 + el]);
    assert(pm0[1 + el] == print_str(key)[1 + el]);
    assert(print_str(key)[1 + el] == '"');
    lemma_parse_esc(s, i + 1, key);
    let j2 = i + 1 + el + 1;
    assert(j2 == i + print_str(key).len() as int);
    // the colon
    assert(s[j2] == pm0[print_str(key).len() as int]);
    assert(pm0[print_str(key).len() as int] == ':');
    assert(skip_ws(s, j2) == j2);
    // the member's value
    let t0 = print_jm(v0);
    let vstart = j2 + 1;
    assert(s.subrange(vstart, vstart + t0.len()) =~= t0) by {
        assert forall|k: int| 0 <= k < t0.len() implies s[vstart + k] == t0[k] by {
            assert(s[vstart + k] == pm0[print_str(key).len() as int + 1 + k]);
            assert(pm0[print_str(key).len() as int + 1 + k] == t0[k]);
        }
    }
    let vend = vstart + t0.len() as int;
    assert(vend == i + pm0.len() as int);
    if members.len() == 1 {
        assert(tm == pm0);
        assert(s[vend] == '}');
        assert(!is_digit(s[vend]));
        lemma_parse_print_value(s, vstart, fuel, v0);
        assert(skip_ws(s, vend) == vend);
        assert(members =~= seq![(key, v0)]);
        assert(members[0] == (key, v0));
    } else {
        let rest = members.drop_first();
        let tr = print_members(rest);
        assert(tm == pm0 + seq![','] + tr);
        assert(s[vend] == tm[pm0.len() as int]);
        assert(tm[pm0.len() as int] == ',');
        assert(!is_digit(s[vend]));
        lemma_parse_print_value(s, vstart, fuel, v0);
        assert(skip_ws(s, vend) == vend);
        assert(s[vend] != '}');
        assert(s.subrange(vend + 1, vend + 1 + tr.len()) =~= tr) by {
            assert forall|k: int| 0 <= k < tr.len() implies s[vend + 1 + k] == tr[k] by {
                assert(s[vend + 1 + k] == tm[pm0.len() as int + 1 + k]);
                assert(tm[pm0.len() as int + 1 + k] == tr[k]);
            }
        }
        assert(s[vend + 1 + tr.len() as int] == s[i + tm.len() as int]);
        lemma_parse_print_members(s, vend + 1, (fuel - 1) as nat, rest);
        assert(seq![(key, v0)] + rest =~= members);
        assert(members[0] == (key, v0));
    }
}

/// The codec's round trip: the canonical text of any well-formed
/// document parses back to exactly that document. Together with the
/// contracts of `Graph::to_json_string` and `Graph::from_json`, loading
/// a saved graph always gets past parsing and sees the very document
/// that was saved.
pub proof fn lemma_parse_print(m: JModel)
    requires
        wf_jm(m),
    ensures
        parse_text(print_jm(m)) == Some(m),
{
    let s = print_jm(m);
    assert(s.subrange(0, s.len() as int) =~= s);
    lemma_parse_print_value(s, 0, (s.len() + 1) as nat, m);
    assert(skip_ws(s, s.len() as int) == s.len());
}

} // verus!
