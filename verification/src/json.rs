//! JSON values, their compact text, and a parser for JSON text.
//!
//! Text is handled as UTF-8 bytes throughout. Numbers are kept as the bytes
//! of their literal, so that no precision is lost between reading and writing.

use vstd::prelude::*;
use crate::MAX_DEPTH;
use crate::bytes::{bytes_append, copy_range};

verus! {

pub const QUOTE: u8 = 0x22;

pub const BACKSLASH: u8 = 0x5c;

pub const COMMA: u8 = 0x2c;

pub const COLON: u8 = 0x3a;

pub const LEFT_BRACKET: u8 = 0x5b;

pub const RIGHT_BRACKET: u8 = 0x5d;

pub const LEFT_BRACE: u8 = 0x7b;

pub const RIGHT_BRACE: u8 = 0x7d;

/// The mathematical value that a `NP_JSON` stands for.
pub enum JsonValue {
    Null,
    True,
    False,
    Number(Seq<u8>),
    String(Seq<u8>),
    Array(Seq<JsonValue>),
    Dictionary(Seq<(Seq<u8>, JsonValue)>),
}

/// A JSON value. Dictionaries keep their members in the order given.
#[derive(Debug, PartialEq, Eq)]
pub enum NP_JSON {
    Null,
    True,
    False,
    Number(Vec<u8>),
    String(Vec<u8>),
    Array(Vec<NP_JSON>),
    Dictionary(Vec<(Vec<u8>, NP_JSON)>),
}

impl NP_JSON {
    /// The values of the first `n` of `items`.
    pub open spec fn items_view(items: Seq<NP_JSON>, n: nat) -> Seq<JsonValue>
        decreases items, n,
    {
        if n == 0 || n > items.len() {
            Seq::empty()
        } else {
            Self::items_view(items, (n - 1) as nat).push(items[n - 1].view())
        }
    }

    /// The keys and values of the first `n` of `members`.
    pub open spec fn members_view(members: Seq<(Vec<u8>, NP_JSON)>, n: nat) -> Seq<
        (Seq<u8>, JsonValue),
    >
        decreases members, n,
    {
        if n == 0 || n > members.len() {
            Seq::empty()
        } else {
            Self::members_view(members, (n - 1) as nat).push(
                (members[n - 1].0@, members[n - 1].1.view()),
            )
        }
    }

    /// `items_view` holds one value per item, in order.
    pub proof fn lemma_items_view(items: Seq<NP_JSON>, n: nat)
        requires
            n <= items.len(),
        ensures
            Self::items_view(items, n).len() == n,
            forall|i: int| 0 <= i < n ==> Self::items_view(items, n)[i] == items[i]@,
        decreases n,
    {
        if n > 0 {
            Self::lemma_items_view(items, (n - 1) as nat);
            assert(Self::items_view(items, n) == Self::items_view(items, (n - 1) as nat).push(
                items[n - 1].view(),
            ));
        } else {
            assert(Self::items_view(items, n) == Seq::<JsonValue>::empty());
        }
    }

    /// `members_view` holds one pair per member, in order.
    pub proof fn lemma_members_view(members: Seq<(Vec<u8>, NP_JSON)>, n: nat)
        requires
            n <= members.len(),
        ensures
            Self::members_view(members, n).len() == n,
            forall|i: int|
                0 <= i < n ==> Self::members_view(members, n)[i] == (
                    members[i].0@,
                    members[i].1@,
                ),
        decreases n,
    {
        if n > 0 {
            Self::lemma_members_view(members, (n - 1) as nat);
            assert(Self::members_view(members, n) == Self::members_view(
                members,
                (n - 1) as nat,
            ).push((members[n - 1].0@, members[n - 1].1.view())));
        } else {
            assert(Self::members_view(members, n) == Seq::<(Seq<u8>, JsonValue)>::empty());
        }
    }
}

impl NP_JSON {
    /// The values of a vector of items after one more was pushed.
    pub proof fn lemma_items_view_push(items: Seq<NP_JSON>, item: NP_JSON)
        ensures
            Self::items_view(items.push(item), items.len() + 1) == Self::items_view(
                items,
                items.len(),
            ).push(item@),
    {
        Self::lemma_items_view(items, items.len());
        Self::lemma_items_view(items.push(item), items.len() + 1);
        assert(Self::items_view(items.push(item), items.len() + 1) =~= Self::items_view(
            items,
            items.len(),
        ).push(item@));
    }

    /// The pairs of a vector of members after one more was pushed.
    pub proof fn lemma_members_view_push(members: Seq<(Vec<u8>, NP_JSON)>, member: (Vec<u8>, NP_JSON))
        ensures
            Self::members_view(members.push(member), members.len() + 1) == Self::members_view(
                members,
                members.len(),
            ).push((member.0@, member.1@)),
    {
        Self::lemma_members_view(members, members.len());
        Self::lemma_members_view(members.push(member), members.len() + 1);
        assert(Self::members_view(members.push(member), members.len() + 1)
            =~= Self::members_view(members, members.len()).push((member.0@, member.1@)));
    }
}

impl View for NP_JSON {
    type V = JsonValue;

    open spec fn view(&self) -> JsonValue
        decreases self, 0nat,
    {
        match self {
            NP_JSON::Null => JsonValue::Null,
            NP_JSON::True => JsonValue::True,
            NP_JSON::False => JsonValue::False,
            NP_JSON::Number(n) => JsonValue::Number(n@),
            NP_JSON::String(s) => JsonValue::String(s@),
            NP_JSON::Array(items) => JsonValue::Array(NP_JSON::items_view(items@, items@.len())),
            NP_JSON::Dictionary(members) => JsonValue::Dictionary(
                NP_JSON::members_view(members@, members@.len()),
            ),
        }
    }
}

/// The text `null`.
pub open spec fn null_text() -> Seq<u8> {
    seq![0x6eu8, 0x75u8, 0x6cu8, 0x6cu8]
}

/// The text `true`.
pub open spec fn true_text() -> Seq<u8> {
    seq![0x74u8, 0x72u8, 0x75u8, 0x65u8]
}

/// The text `false`.
pub open spec fn false_text() -> Seq<u8> {
    seq![0x66u8, 0x61u8, 0x6cu8, 0x73u8, 0x65u8]
}

/// The lower-case hexadecimal digit for a number below 16.
pub open spec fn hex_digit(n: int) -> u8 {
    if n < 10 {
        (48 + n) as u8
    } else {
        (87 + n) as u8
    }
}

/// How one byte of a string is written between the quotes.
pub open spec fn escape_byte(b: u8) -> Seq<u8> {
    if b == QUOTE {
        seq![BACKSLASH, QUOTE]
    } else if b == BACKSLASH {
        seq![BACKSLASH, BACKSLASH]
    } else if b == 0x0a {
        seq![BACKSLASH, 0x6eu8]
    } else if b == 0x0d {
        seq![BACKSLASH, 0x72u8]
    } else if b == 0x09 {
        seq![BACKSLASH, 0x74u8]
    } else if b == 0x08 {
        seq![BACKSLASH, 0x62u8]
    } else if b == 0x0c {
        seq![BACKSLASH, 0x66u8]
    } else if b < 0x20 {
        seq![BACKSLASH, 0x75u8, 0x30u8, 0x30u8, hex_digit(b as int / 16), hex_digit(b as int % 16)]
    } else {
        seq![b]
    }
}

/// The first `n` bytes of `s`, each written as `escape_byte` says.
pub open spec fn escape_bytes(s: Seq<u8>, n: nat) -> Seq<u8>
    decreases n,
{
    if n == 0 || n > s.len() {
        Seq::empty()
    } else {
        escape_bytes(s, (n - 1) as nat) + escape_byte(s[n - 1])
    }
}

/// A string between quotes.
pub open spec fn quoted(s: Seq<u8>) -> Seq<u8> {
    seq![QUOTE] + escape_bytes(s, s.len()) + seq![QUOTE]
}

/// The text of the first `n` of `items`, with commas between them.
pub open spec fn items_text(items: Seq<JsonValue>, n: nat) -> Seq<u8>
    decreases items, n,
{
    if n == 0 || n > items.len() {
        Seq::empty()
    } else if n == 1 {
        stringify_spec(items[0])
    } else {
        items_text(items, (n - 1) as nat) + seq![COMMA] + stringify_spec(items[n - 1])
    }
}

/// The text of the first `n` of `members`, with commas between them.
pub open spec fn members_text(members: Seq<(Seq<u8>, JsonValue)>, n: nat) -> Seq<u8>
    decreases members, n,
{
    if n == 0 || n > members.len() {
        Seq::empty()
    } else if n == 1 {
        quoted(members[0].0) + seq![COLON] + stringify_spec(members[0].1)
    } else {
        members_text(members, (n - 1) as nat) + seq![COMMA] + quoted(members[n - 1].0) + seq![
            COLON,
        ] + stringify_spec(members[n - 1].1)
    }
}

/// The compact text of a value: no white space, members in their order.
pub open spec fn stringify_spec(j: JsonValue) -> Seq<u8>
    decreases j, 0nat,
{
    match j {
        JsonValue::Null => null_text(),
        JsonValue::True => true_text(),
        JsonValue::False => false_text(),
        JsonValue::Number(n) => n,
        JsonValue::String(s) => quoted(s),
        JsonValue::Array(items) => seq![LEFT_BRACKET] + items_text(items, items.len()) + seq![
            RIGHT_BRACKET,
        ],
        JsonValue::Dictionary(members) => seq![LEFT_BRACE] + members_text(members, members.len())
            + seq![RIGHT_BRACE],
    }
}

/// The lower-case hexadecimal digit for a number below 16.
pub fn hex_digit_of(n: u8) -> (r: u8)
    requires
        n < 16,
    ensures
        r == hex_digit(n as int),
{
    if n < 10 {
        48 + n
    } else {
        87 + n
    }
}

/// Appends a string between quotes to `out`.
pub fn push_quoted(out: &mut Vec<u8>, s: &Vec<u8>)
    ensures
        final(out)@ == old(out)@ + quoted(s@),
{
    out.push(QUOTE);
    let mut i: usize = 0;
    while i < s.len()
        invariant
            i <= s.len(),
            out@ == old(out)@ + seq![QUOTE] + escape_bytes(s@, i as nat),
        decreases s.len() - i,
    {
        let b: u8 = s[i];
        let ghost before = out@;
        if b == QUOTE {
            out.push(BACKSLASH);
            out.push(QUOTE);
        } else if b == BACKSLASH {
            out.push(BACKSLASH);
            out.push(BACKSLASH);
        } else if b == 0x0a {
            out.push(BACKSLASH);
            out.push(0x6e);
        } else if b == 0x0d {
            out.push(BACKSLASH);
            out.push(0x72);
        } else if b == 0x09 {
            out.push(BACKSLASH);
            out.push(0x74);
        } else if b == 0x08 {
            out.push(BACKSLASH);
            out.push(0x62);
        } else if b == 0x0c {
            out.push(BACKSLASH);
            out.push(0x66);
        } else if b < 0x20 {
            out.push(BACKSLASH);
            out.push(0x75);
            out.push(0x30);
            out.push(0x30);
            out.push(hex_digit_of(b / 16));
            out.push(hex_digit_of(b % 16));
        } else {
            out.push(b);
        }
        assert(out@ =~= before + escape_byte(b));
        i += 1;
        assert(out@ =~= old(out)@ + seq![QUOTE] + escape_bytes(s@, i as nat));
    }
    out.push(QUOTE);
    assert(out@ =~= old(out)@ + quoted(s@));
}

impl NP_JSON {
    /// Appends the compact text of this value to `out`.
    pub fn stringify_into(&self, out: &mut Vec<u8>)
        ensures
            final(out)@ == old(out)@ + stringify_spec(self@),
        decreases self,
    {
        match self {
            NP_JSON::Null => {
                out.push(0x6e);
                out.push(0x75);
                out.push(0x6c);
                out.push(0x6c);
                assert(out@ =~= old(out)@ + stringify_spec(self@));
            },
            NP_JSON::True => {
                out.push(0x74);
                out.push(0x72);
                out.push(0x75);
                out.push(0x65);
                assert(out@ =~= old(out)@ + stringify_spec(self@));
            },
            NP_JSON::False => {
                out.push(0x66);
                out.push(0x61);
                out.push(0x6c);
                out.push(0x73);
                out.push(0x65);
                assert(out@ =~= old(out)@ + stringify_spec(self@));
            },
            NP_JSON::Number(n) => {
                bytes_append(out, n.as_slice());
            },
            NP_JSON::String(s) => {
                push_quoted(out, s);
            },
            NP_JSON::Array(items) => {
                out.push(LEFT_BRACKET);
                let ghost views = NP_JSON::items_view(items@, items@.len());
                proof {
                    NP_JSON::lemma_items_view(items@, items@.len());
                }
                let mut i: usize = 0;
                while i < items.len()
                    invariant
                        i <= items.len(),
                        views.len() == items.len(),
                        forall|k: int| 0 <= k < items.len() ==> views[k] == items@[k]@,
                        forall|k: int| 0 <= k < items.len() ==> decreases_to!(self => items@[k]),
                        out@ == old(out)@ + seq![LEFT_BRACKET] + items_text(views, i as nat),
                    decreases items.len() - i,
                {
                    if i > 0 {
                        out.push(COMMA);
                    }
                    let ghost before = out@;
                    items[i].stringify_into(out);
                    i += 1;
                    assert(out@ =~= old(out)@ + seq![LEFT_BRACKET] + items_text(views, i as nat));
                }
                out.push(RIGHT_BRACKET);
                assert(out@ =~= old(out)@ + stringify_spec(self@));
            },
            NP_JSON::Dictionary(members) => {
                out.push(LEFT_BRACE);
                let ghost views = NP_JSON::members_view(members@, members@.len());
                proof {
                    NP_JSON::lemma_members_view(members@, members@.len());
                }
                let mut i: usize = 0;
                while i < members.len()
                    invariant
                        i <= members.len(),
                        views.len() == members.len(),
                        forall|k: int|
                            0 <= k < members.len() ==> views[k] == (
                                members@[k].0@,
                                members@[k].1@,
                            ),
                        forall|k: int|
                            0 <= k < members.len() ==> decreases_to!(self => members@[k].1),
                        out@ == old(out)@ + seq![LEFT_BRACE] + members_text(views, i as nat),
                    decreases members.len() - i,
                {
                    if i > 0 {
                        out.push(COMMA);
                    }
                    push_quoted(out, &members[i].0);
                    out.push(COLON);
                    members[i].1.stringify_into(out);
                    i += 1;
                    assert(out@ =~= old(out)@ + seq![LEFT_BRACE] + members_text(views, i as nat));
                }
                out.push(RIGHT_BRACE);
                assert(out@ =~= old(out)@ + stringify_spec(self@));
            },
        }
    }

    /// The compact text of this value, as UTF-8 bytes.
    pub fn stringify(&self) -> (r: Vec<u8>)
        ensures
            r@ == stringify_spec(self@),
    {
        let mut out: Vec<u8> = Vec::new();
        self.stringify_into(&mut out);
        assert(out@ =~= stringify_spec(self@));
        out
    }
}


/// White space between the tokens of a text.
pub open spec fn is_ws(b: u8) -> bool {
    b == 0x20 || b == 0x09 || b == 0x0a || b == 0x0d
}

/// A decimal digit.
pub open spec fn is_digit(b: u8) -> bool {
    0x30 <= b <= 0x39
}

/// The first position from `pos` on that holds no white space.
pub open spec fn skip_ws(s: Seq<u8>, pos: int) -> int
    decreases s.len() - pos,
{
    if 0 <= pos < s.len() && is_ws(s[pos]) {
        skip_ws(s, pos + 1)
    } else {
        pos
    }
}

/// The first position from `pos` on that holds no digit.
pub open spec fn skip_digits(s: Seq<u8>, pos: int) -> int
    decreases s.len() - pos,
{
    if 0 <= pos < s.len() && is_digit(s[pos]) {
        skip_digits(s, pos + 1)
    } else {
        pos
    }
}

/// The number a hexadecimal digit stands for.
pub open spec fn hex_value(b: u8) -> Option<int> {
    if 0x30 <= b <= 0x39 {
        Some(b - 0x30)
    } else if 0x61 <= b <= 0x66 {
        Some(b - 0x57)
    } else if 0x41 <= b <= 0x46 {
        Some(b - 0x37)
    } else {
        None
    }
}

/// The number that the four hexadecimal digits at `pos` stand for.
pub open spec fn hex4(s: Seq<u8>, pos: int) -> Option<int> {
    if 0 <= pos && pos + 4 <= s.len() && hex_value(s[pos]) is Some && hex_value(s[pos + 1]) is Some
        && hex_value(s[pos + 2]) is Some && hex_value(s[pos + 3]) is Some {
        Some(
            ((hex_value(s[pos])->0 * 16 + hex_value(s[pos + 1])->0) * 16 + hex_value(
                s[pos + 2],
            )->0) * 16 + hex_value(s[pos + 3])->0,
        )
    } else {
        None
    }
}

/// The UTF-8 bytes of a code point.
pub open spec fn utf8_bytes(cp: int) -> Seq<u8> {
    if cp < 0x80 {
        seq![cp as u8]
    } else if cp < 0x800 {
        seq![(0xC0 + cp / 64) as u8, (0x80 + cp % 64) as u8]
    } else if cp < 0x10000 {
        seq![(0xE0 + cp / 4096) as u8, (0x80 + cp / 64 % 64) as u8, (0x80 + cp % 64) as u8]
    } else {
        seq![
            (0xF0 + cp / 262144) as u8,
            (0x80 + cp / 4096 % 64) as u8,
            (0x80 + cp / 64 % 64) as u8,
            (0x80 + cp % 64) as u8,
        ]
    }
}

/// The escape whose letter stands at `pos`, just behind a backslash: the
/// bytes it stands for and the position behind it. A `\u` escape gives the
/// UTF-8 bytes of its code point; a high surrogate must be followed by a low
/// one, and the two give one code point.
pub open spec fn parse_escape(s: Seq<u8>, pos: int) -> Option<(Seq<u8>, int)> {
    if pos < 0 || pos >= s.len() {
        None
    } else if s[pos] == QUOTE {
        Some((seq![QUOTE], pos + 1))
    } else if s[pos] == BACKSLASH {
        Some((seq![BACKSLASH], pos + 1))
    } else if s[pos] == 0x2f {
        Some((seq![0x2fu8], pos + 1))
    } else if s[pos] == 0x62 {
        Some((seq![0x08u8], pos + 1))
    } else if s[pos] == 0x66 {
        Some((seq![0x0cu8], pos + 1))
    } else if s[pos] == 0x6e {
        Some((seq![0x0au8], pos + 1))
    } else if s[pos] == 0x72 {
        Some((seq![0x0du8], pos + 1))
    } else if s[pos] == 0x74 {
        Some((seq![0x09u8], pos + 1))
    } else if s[pos] == 0x75 {
        match hex4(s, pos + 1) {
            None => None,
            Some(unit) => {
                if 0xD800 <= unit < 0xDC00 {
                    if pos + 7 <= s.len() && s[pos + 5] == BACKSLASH && s[pos + 6] == 0x75 {
                        match hex4(s, pos + 7) {
                            None => None,
                            Some(low) => {
                                if 0xDC00 <= low < 0xE000 {
                                    Some(
                                        (
                                            utf8_bytes(
                                                0x10000 + (unit - 0xD800) * 1024 + (low - 0xDC00),
                                            ),
                                            pos + 11,
                                        ),
                                    )
                                } else {
                                    None
                                }
                            },
                        }
                    } else {
                        None
                    }
                } else if 0xDC00 <= unit < 0xE000 {
                    None
                } else {
                    Some((utf8_bytes(unit), pos + 5))
                }
            },
        }
    } else {
        None
    }
}

/// The rest of a string from `pos` on, up to its closing quote: the bytes
/// it stands for, behind those in `acc`, and the position behind the quote.
/// Control bytes must be escaped.
pub open spec fn parse_string_body(s: Seq<u8>, pos: int, acc: Seq<u8>) -> Option<(Seq<u8>, int)>
    decreases s.len() - pos,
{
    if pos < 0 || pos >= s.len() {
        None
    } else if s[pos] == QUOTE {
        Some((acc, pos + 1))
    } else if s[pos] == BACKSLASH {
        match parse_escape(s, pos + 1) {
            None => None,
            Some((bytes, next)) => parse_string_body(s, next, acc + bytes),
        }
    } else if s[pos] < 0x20 {
        None
    } else {
        parse_string_body(s, pos + 1, acc.push(s[pos]))
    }
}

/// Where the number that starts at `pos` ends: a minus sign if any, digits
/// without a needless leading zero, then a fraction and an exponent if any.
pub open spec fn number_end(s: Seq<u8>, pos: int) -> Option<int> {
    let digits_at = if 0 <= pos < s.len() && s[pos] == 0x2d {
        pos + 1
    } else {
        pos
    };
    if digits_at < 0 || digits_at >= s.len() || !is_digit(s[digits_at]) {
        None
    } else {
        let whole_end = if s[digits_at] == 0x30 {
            digits_at + 1
        } else {
            skip_digits(s, digits_at)
        };
        if 0 <= whole_end < s.len() && s[whole_end] == 0x2e {
            if whole_end + 1 < s.len() && is_digit(s[whole_end + 1]) {
                exponent_end(s, skip_digits(s, whole_end + 1))
            } else {
                None
            }
        } else {
            exponent_end(s, whole_end)
        }
    }
}

/// Where the exponent that may start at `pos` ends.
pub open spec fn exponent_end(s: Seq<u8>, pos: int) -> Option<int> {
    if 0 <= pos < s.len() && (s[pos] == 0x65 || s[pos] == 0x45) {
        let p = if pos + 1 < s.len() && (s[pos + 1] == 0x2b || s[pos + 1] == 0x2d) {
            pos + 2
        } else {
            pos + 1
        };
        if p < s.len() && is_digit(s[p]) {
            Some(skip_digits(s, p))
        } else {
            None
        }
    } else {
        Some(pos)
    }
}

/// Whether `text` stands in `s` at `pos`.
pub open spec fn matches_at(s: Seq<u8>, pos: int, text: Seq<u8>) -> bool {
    0 <= pos && pos + text.len() <= s.len() && s.subrange(pos, pos + text.len()) == text
}

/// The value that starts at `pos`, and the position behind it. Arrays and
/// dictionaries may nest `MAX_DEPTH` deep.
pub open spec fn parse_value(s: Seq<u8>, pos: int, depth: nat) -> Option<(JsonValue, int)>
    decreases s.len() - pos, 0nat,
{
    if pos < 0 || pos >= s.len() || depth > MAX_DEPTH {
        None
    } else if s[pos] == 0x6e {
        if matches_at(s, pos, null_text()) {
            Some((JsonValue::Null, pos + 4))
        } else {
            None
        }
    } else if s[pos] == 0x74 {
        if matches_at(s, pos, true_text()) {
            Some((JsonValue::True, pos + 4))
        } else {
            None
        }
    } else if s[pos] == 0x66 {
        if matches_at(s, pos, false_text()) {
            Some((JsonValue::False, pos + 5))
        } else {
            None
        }
    } else if s[pos] == QUOTE {
        match parse_string_body(s, pos + 1, Seq::empty()) {
            None => None,
            Some((bytes, next)) => Some((JsonValue::String(bytes), next)),
        }
    } else if s[pos] == LEFT_BRACKET {
        let p = skip_ws(s, pos + 1);
        if p <= pos || p >= s.len() {
            None
        } else if s[p] == RIGHT_BRACKET {
            Some((JsonValue::Array(Seq::empty()), p + 1))
        } else {
            match parse_elements(s, p, depth + 1, Seq::empty()) {
                None => None,
                Some((items, next)) => Some((JsonValue::Array(items), next)),
            }
        }
    } else if s[pos] == LEFT_BRACE {
        let p = skip_ws(s, pos + 1);
        if p <= pos || p >= s.len() {
            None
        } else if s[p] == RIGHT_BRACE {
            Some((JsonValue::Dictionary(Seq::empty()), p + 1))
        } else {
            match parse_members(s, p, depth + 1, Seq::empty()) {
                None => None,
                Some((members, next)) => Some((JsonValue::Dictionary(members), next)),
            }
        }
    } else if s[pos] == 0x2d || is_digit(s[pos]) {
        match number_end(s, pos) {
            None => None,
            Some(end) => Some((JsonValue::Number(s.subrange(pos, end)), end)),
        }
    } else {
        None
    }
}

/// The items of an array from the one that starts at `pos` on, behind those
/// in `acc`, and the position behind the closing bracket.
pub open spec fn parse_elements(s: Seq<u8>, pos: int, depth: nat, acc: Seq<JsonValue>) -> Option<
    (Seq<JsonValue>, int),
>
    decreases s.len() - pos, 2nat,
{
    match parse_value(s, pos, depth) {
        None => None,
        Some((item, next)) => {
            let p = skip_ws(s, next);
            if next <= pos || p < next || p >= s.len() {
                None
            } else if s[p] == RIGHT_BRACKET {
                Some((acc.push(item), p + 1))
            } else if s[p] == COMMA {
                let q = skip_ws(s, p + 1);
                if q <= p || q >= s.len() {
                    None
                } else {
                    parse_elements(s, q, depth, acc.push(item))
                }
            } else {
                None
            }
        },
    }
}

/// The member whose key starts at `pos`: its key, a colon and its value,
/// and the position behind the value.
pub open spec fn parse_member(s: Seq<u8>, pos: int, depth: nat) -> Option<
    ((Seq<u8>, JsonValue), int),
>
    decreases s.len() - pos, 1nat,
{
    if pos < 0 || pos >= s.len() || s[pos] != QUOTE {
        None
    } else {
        match parse_string_body(s, pos + 1, Seq::empty()) {
            None => None,
            Some((key, after_key)) => {
                let c = skip_ws(s, after_key);
                if after_key <= pos || c < after_key || c >= s.len() || s[c] != COLON {
                    None
                } else {
                    let v = skip_ws(s, c + 1);
                    if v <= c || v >= s.len() {
                        None
                    } else {
                        match parse_value(s, v, depth) {
                            None => None,
                            Some((value, next)) => Some(((key, value), next)),
                        }
                    }
                }
            },
        }
    }
}

/// The members of a dictionary from the one whose key starts at `pos` on,
/// behind those in `acc`, and the position behind the closing brace.
pub open spec fn parse_members(
    s: Seq<u8>,
    pos: int,
    depth: nat,
    acc: Seq<(Seq<u8>, JsonValue)>,
) -> Option<(Seq<(Seq<u8>, JsonValue)>, int)>
    decreases s.len() - pos, 2nat,
{
    match parse_member(s, pos, depth) {
        None => None,
        Some((member, next)) => {
            let p = skip_ws(s, next);
            if next <= pos || p < next || p >= s.len() {
                None
            } else if s[p] == RIGHT_BRACE {
                Some((acc.push(member), p + 1))
            } else if s[p] == COMMA {
                let q = skip_ws(s, p + 1);
                if q <= p || q >= s.len() {
                    None
                } else {
                    parse_members(s, q, depth, acc.push(member))
                }
            } else {
                None
            }
        },
    }
}

/// The value that a whole text stands for, white space around it allowed.
pub open spec fn parse_json(s: Seq<u8>) -> Option<JsonValue> {
    match parse_value(s, skip_ws(s, 0), 0) {
        None => None,
        Some((value, next)) => if skip_ws(s, next) == s.len() {
            Some(value)
        } else {
            None
        },
    }
}


/// Skips white space from `pos` on.
pub fn skip_white_space(s: &[u8], pos: usize) -> (r: usize)
    requires
        pos <= s.len(),
    ensures
        r == skip_ws(s@, pos as int),
        pos <= r <= s.len(),
{
    let mut p: usize = pos;
    while p < s.len() && (s[p] == 0x20 || s[p] == 0x09 || s[p] == 0x0a || s[p] == 0x0d)
        invariant
            pos <= p <= s.len(),
            skip_ws(s@, p as int) == skip_ws(s@, pos as int),
        decreases s.len() - p,
    {
        p += 1;
    }
    p
}

/// Skips digits from `pos` on.
pub fn skip_number_digits(s: &[u8], pos: usize) -> (r: usize)
    requires
        pos <= s.len(),
    ensures
        r == skip_digits(s@, pos as int),
        pos <= r <= s.len(),
{
    let mut p: usize = pos;
    while p < s.len() && 0x30 <= s[p] && s[p] <= 0x39
        invariant
            pos <= p <= s.len(),
            skip_digits(s@, p as int) == skip_digits(s@, pos as int),
        decreases s.len() - p,
    {
        p += 1;
    }
    p
}

/// The number a hexadecimal digit stands for.
pub fn hex_value_of(b: u8) -> (r: Option<u8>)
    ensures
        match r {
            Some(v) => hex_value(b) == Some(v as int) && v < 16,
            None => hex_value(b) is None,
        },
{
    if 0x30 <= b && b <= 0x39 {
        Some(b - 0x30)
    } else if 0x61 <= b && b <= 0x66 {
        Some(b - 0x57)
    } else if 0x41 <= b && b <= 0x46 {
        Some(b - 0x37)
    } else {
        None
    }
}

/// Reads the four hexadecimal digits at `pos`.
pub fn read_hex4(s: &[u8], pos: usize) -> (r: Option<u32>)
    requires
        pos <= s.len(),
    ensures
        match r {
            Some(v) => hex4(s@, pos as int) == Some(v as int) && v < 0x10000,
            None => hex4(s@, pos as int) is None,
        },
{
    if s.len() - pos < 4 {
        return None;
    }
    let h0: u32 = match hex_value_of(s[pos]) {
        Some(v) => v as u32,
        None => { return None; },
    };
    let h1: u32 = match hex_value_of(s[pos + 1]) {
        Some(v) => v as u32,
        None => { return None; },
    };
    let h2: u32 = match hex_value_of(s[pos + 2]) {
        Some(v) => v as u32,
        None => { return None; },
    };
    let h3: u32 = match hex_value_of(s[pos + 3]) {
        Some(v) => v as u32,
        None => { return None; },
    };
    Some(((h0 * 16 + h1) * 16 + h2) * 16 + h3)
}

/// Appends the UTF-8 bytes of a code point.
pub fn push_utf8(out: &mut Vec<u8>, cp: u32)
    requires
        cp < 0x110000,
    ensures
        final(out)@ == old(out)@ + utf8_bytes(cp as int),
{
    if cp < 0x80 {
        out.push(cp as u8);
    } else if cp < 0x800 {
        out.push((0xC0 + cp / 64) as u8);
        out.push((0x80 + cp % 64) as u8);
    } else if cp < 0x10000 {
        out.push((0xE0 + cp / 4096) as u8);
        out.push((0x80 + cp / 64 % 64) as u8);
        out.push((0x80 + cp % 64) as u8);
    } else {
        out.push((0xF0 + cp / 262144) as u8);
        out.push((0x80 + cp / 4096 % 64) as u8);
        out.push((0x80 + cp / 64 % 64) as u8);
        out.push((0x80 + cp % 64) as u8);
    }
    assert(out@ =~= old(out)@ + utf8_bytes(cp as int));
}

/// Reads the escape whose letter stands at `pos` and appends the bytes it
/// stands for. Returns the position behind it.
pub fn read_escape(s: &[u8], pos: usize, out: &mut Vec<u8>) -> (r: Option<usize>)
    requires
        pos <= s.len(),
    ensures
        match r {
            Some(next) => {
                &&& parse_escape(s@, pos as int) matches Some((bytes, end))
                &&& end == next
                &&& final(out)@ == old(out)@ + bytes
                &&& pos < next <= s.len()
            },
            None => parse_escape(s@, pos as int) is None,
        },
{
    if pos >= s.len() {
        return None;
    }
    let c: u8 = s[pos];
    if c == QUOTE || c == BACKSLASH || c == 0x2f {
        out.push(c);
        assert(out@ =~= old(out)@ + seq![c]);
        Some(pos + 1)
    } else if c == 0x62 {
        out.push(0x08);
        assert(out@ =~= old(out)@ + seq![0x08u8]);
        Some(pos + 1)
    } else if c == 0x66 {
        out.push(0x0c);
        assert(out@ =~= old(out)@ + seq![0x0cu8]);
        Some(pos + 1)
    } else if c == 0x6e {
        out.push(0x0a);
        assert(out@ =~= old(out)@ + seq![0x0au8]);
        Some(pos + 1)
    } else if c == 0x72 {
        out.push(0x0d);
        assert(out@ =~= old(out)@ + seq![0x0du8]);
        Some(pos + 1)
    } else if c == 0x74 {
        out.push(0x09);
        assert(out@ =~= old(out)@ + seq![0x09u8]);
        Some(pos + 1)
    } else if c == 0x75 {
        let unit: u32 = match read_hex4(s, pos + 1) {
            Some(v) => v,
            None => { return None; },
        };
        if 0xD800 <= unit && unit < 0xDC00 {
            if s.len() - pos < 7 || s[pos + 5] != BACKSLASH || s[pos + 6] != 0x75 {
                return None;
            }
            let low: u32 = match read_hex4(s, pos + 7) {
                Some(v) => v,
                None => { return None; },
            };
            if 0xDC00 <= low && low < 0xE000 {
                push_utf8(out, 0x10000 + (unit - 0xD800) * 1024 + (low - 0xDC00));
                Some(pos + 11)
            } else {
                None
            }
        } else if 0xDC00 <= unit && unit < 0xE000 {
            None
        } else {
            push_utf8(out, unit);
            Some(pos + 5)
        }
    } else {
        None
    }
}

/// Reads a string from behind its opening quote. Returns the bytes it
/// stands for and the position behind its closing quote.
pub fn read_string(s: &[u8], pos: usize) -> (r: Option<(Vec<u8>, usize)>)
    requires
        pos <= s.len(),
    ensures
        match r {
            Some((bytes, next)) => parse_string_body(s@, pos as int, Seq::empty()) == Some(
                (bytes@, next as int),
            ) && pos < next <= s.len(),
            None => parse_string_body(s@, pos as int, Seq::empty()) is None,
        },
{
    let mut out: Vec<u8> = Vec::new();
    let mut p: usize = pos;
    loop
        invariant
            pos <= p <= s.len(),
            parse_string_body(s@, p as int, out@) == parse_string_body(
                s@,
                pos as int,
                Seq::empty(),
            ),
        decreases s.len() - p,
    {
        if p >= s.len() {
            return None;
        }
        let b: u8 = s[p];
        if b == QUOTE {
            return Some((out, p + 1));
        } else if b == BACKSLASH {
            match read_escape(s, p + 1, &mut out) {
                None => { return None; },
                Some(next) => {
                    p = next;
                },
            }
        } else if b < 0x20 {
            return None;
        } else {
            out.push(b);
            p += 1;
        }
    }
}

/// Finds where the exponent that may start at `pos` ends.
pub fn read_exponent(s: &[u8], pos: usize) -> (r: Option<usize>)
    requires
        pos <= s.len(),
    ensures
        match r {
            Some(end) => exponent_end(s@, pos as int) == Some(end as int) && pos <= end <= s.len(),
            None => exponent_end(s@, pos as int) is None,
        },
{
    if pos < s.len() && (s[pos] == 0x65 || s[pos] == 0x45) {
        let p: usize = if s.len() - pos > 1 && (s[pos + 1] == 0x2b || s[pos + 1] == 0x2d) {
            pos + 2
        } else {
            pos + 1
        };
        if p < s.len() && 0x30 <= s[p] && s[p] <= 0x39 {
            Some(skip_number_digits(s, p))
        } else {
            None
        }
    } else {
        Some(pos)
    }
}

/// Finds where the number that starts at `pos` ends.
pub fn read_number(s: &[u8], pos: usize) -> (r: Option<usize>)
    requires
        pos <= s.len(),
    ensures
        match r {
            Some(end) => number_end(s@, pos as int) == Some(end as int) && pos < end <= s.len(),
            None => number_end(s@, pos as int) is None,
        },
{
    let digits_at: usize = if pos < s.len() && s[pos] == 0x2d {
        pos + 1
    } else {
        pos
    };
    if digits_at >= s.len() || !(0x30 <= s[digits_at] && s[digits_at] <= 0x39) {
        return None;
    }
    let whole_end: usize = if s[digits_at] == 0x30 {
        digits_at + 1
    } else {
        skip_number_digits(s, digits_at + 1)
    };
    assert(s@[digits_at as int] != 0x30 ==> whole_end == skip_digits(s@, digits_at as int));
    if whole_end < s.len() && s[whole_end] == 0x2e {
        if s.len() - whole_end > 1 && 0x30 <= s[whole_end + 1] && s[whole_end + 1] <= 0x39 {
            let fraction_end: usize = skip_number_digits(s, whole_end + 1);
            read_exponent(s, fraction_end)
        } else {
            None
        }
    } else {
        read_exponent(s, whole_end)
    }
}

/// Reads the value that starts at `pos`, nested `depth` deep. Returns it
/// with the position behind it, or nothing where no value stands.
pub fn read_value(s: &[u8], pos: usize, depth: usize) -> (r: Option<(NP_JSON, usize)>)
    requires
        pos <= s.len(),
    ensures
        match r {
            Some((value, next)) => parse_value(s@, pos as int, depth as nat) == Some(
                (value@, next as int),
            ) && pos < next <= s.len(),
            None => parse_value(s@, pos as int, depth as nat) is None,
        },
    decreases s.len() - pos, 0nat,
{
    if pos >= s.len() || depth > MAX_DEPTH {
        return None;
    }
    let c: u8 = s[pos];
    if c == 0x6e {
        if s.len() - pos >= 4 && s[pos + 1] == 0x75 && s[pos + 2] == 0x6c && s[pos + 3] == 0x6c {
            assert(s@.subrange(pos as int, pos + 4) =~= null_text());
            Some((NP_JSON::Null, pos + 4))
        } else {
            assert(!matches_at(s@, pos as int, null_text())) by {
                if matches_at(s@, pos as int, null_text()) {
                    let t = s@.subrange(pos as int, pos + 4);
                    assert(t[1] == 0x75 && t[2] == 0x6c && t[3] == 0x6c);
                }
            }
            None
        }
    } else if c == 0x74 {
        if s.len() - pos >= 4 && s[pos + 1] == 0x72 && s[pos + 2] == 0x75 && s[pos + 3] == 0x65 {
            assert(s@.subrange(pos as int, pos + 4) =~= true_text());
            Some((NP_JSON::True, pos + 4))
        } else {
            assert(!matches_at(s@, pos as int, true_text())) by {
                if matches_at(s@, pos as int, true_text()) {
                    let t = s@.subrange(pos as int, pos + 4);
                    assert(t[1] == 0x72 && t[2] == 0x75 && t[3] == 0x65);
                }
            }
            None
        }
    } else if c == 0x66 {
        if s.len() - pos >= 5 && s[pos + 1] == 0x61 && s[pos + 2] == 0x6c && s[pos + 3] == 0x73
            && s[pos + 4] == 0x65 {
            assert(s@.subrange(pos as int, pos + 5) =~= false_text());
            Some((NP_JSON::False, pos + 5))
        } else {
            assert(!matches_at(s@, pos as int, false_text())) by {
                if matches_at(s@, pos as int, false_text()) {
                    let t = s@.subrange(pos as int, pos + 5);
                    assert(t[1] == 0x61 && t[2] == 0x6c && t[3] == 0x73 && t[4] == 0x65);
                }
            }
            None
        }
    } else if c == QUOTE {
        match read_string(s, pos + 1) {
            None => None,
            Some((bytes, next)) => Some((NP_JSON::String(bytes), next)),
        }
    } else if c == LEFT_BRACKET {
        let first: usize = skip_white_space(s, pos + 1);
        if first >= s.len() {
            None
        } else if s[first] == RIGHT_BRACKET {
            let items: Vec<NP_JSON> = Vec::new();
            let value = NP_JSON::Array(items);
            assert(value@ == JsonValue::Array(Seq::<JsonValue>::empty())) by {
                assert(NP_JSON::items_view(items@, 0) =~= Seq::<JsonValue>::empty());
            }
            Some((value, first + 1))
        } else {
            match read_elements(s, first, depth + 1) {
                None => None,
                Some((items, next)) => {
                    let value = NP_JSON::Array(items);
                    assert(value@ == JsonValue::Array(NP_JSON::items_view(items@, items@.len())));
                    Some((value, next))
                },
            }
        }
    } else if c == LEFT_BRACE {
        let first: usize = skip_white_space(s, pos + 1);
        if first >= s.len() {
            None
        } else if s[first] == RIGHT_BRACE {
            let members: Vec<(Vec<u8>, NP_JSON)> = Vec::new();
            let value = NP_JSON::Dictionary(members);
            assert(value@ == JsonValue::Dictionary(Seq::<(Seq<u8>, JsonValue)>::empty())) by {
                assert(NP_JSON::members_view(members@, 0) =~= Seq::<(Seq<u8>, JsonValue)>::empty());
            }
            Some((value, first + 1))
        } else {
            match read_members(s, first, depth + 1) {
                None => None,
                Some((members, next)) => {
                    let value = NP_JSON::Dictionary(members);
                    assert(value@ == JsonValue::Dictionary(
                        NP_JSON::members_view(members@, members@.len()),
                    ));
                    Some((value, next))
                },
            }
        }
    } else if c == 0x2d || (0x30 <= c && c <= 0x39) {
        match read_number(s, pos) {
            None => None,
            Some(end) => Some((NP_JSON::Number(copy_range(s, pos, end)), end)),
        }
    } else {
        None
    }
}

/// Reads the items of an array from the one that starts at `pos` on.
/// Returns them with the position behind the closing bracket.
pub fn read_elements(s: &[u8], pos: usize, depth: usize) -> (r: Option<(Vec<NP_JSON>, usize)>)
    requires
        pos < s.len(),
    ensures
        match r {
            Some((items, next)) => parse_elements(
                s@,
                pos as int,
                depth as nat,
                Seq::empty(),
            ) == Some((NP_JSON::items_view(items@, items@.len()), next as int)) && pos < next
                <= s.len(),
            None => parse_elements(s@, pos as int, depth as nat, Seq::empty()) is None,
        },
    decreases s.len() - pos, 2nat,
{
    let mut items: Vec<NP_JSON> = Vec::new();
    let mut p: usize = pos;
    assert(NP_JSON::items_view(items@, 0) =~= Seq::<JsonValue>::empty());
    loop
        invariant
            pos <= p < s.len(),
            parse_elements(
                s@,
                p as int,
                depth as nat,
                NP_JSON::items_view(items@, items@.len()),
            ) == parse_elements(s@, pos as int, depth as nat, Seq::empty()),
        decreases s.len() - p,
    {
        let (item, next) = match read_value(s, p, depth) {
            None => { return None; },
            Some(found) => found,
        };
        let q: usize = skip_white_space(s, next);
        if q >= s.len() {
            return None;
        }
        proof {
            NP_JSON::lemma_items_view_push(items@, item);
        }
        if s[q] == RIGHT_BRACKET {
            items.push(item);
            return Some((items, q + 1));
        } else if s[q] == COMMA {
            let after: usize = skip_white_space(s, q + 1);
            if after >= s.len() {
                return None;
            }
            items.push(item);
            p = after;
        } else {
            return None;
        }
    }
}

/// Reads the member whose key starts at `pos`. Returns it with the
/// position behind its value.
pub fn read_member(s: &[u8], pos: usize, depth: usize) -> (r: Option<((Vec<u8>, NP_JSON), usize)>)
    requires
        pos < s.len(),
    ensures
        match r {
            Some((member, next)) => parse_member(s@, pos as int, depth as nat) == Some(
                ((member.0@, member.1@), next as int),
            ) && pos < next <= s.len(),
            None => parse_member(s@, pos as int, depth as nat) is None,
        },
    decreases s.len() - pos, 1nat,
{
    if s[pos] != QUOTE {
        return None;
    }
    let (key, after_key) = match read_string(s, pos + 1) {
        None => { return None; },
        Some(found) => found,
    };
    let colon: usize = skip_white_space(s, after_key);
    if colon >= s.len() || s[colon] != COLON {
        return None;
    }
    let start: usize = skip_white_space(s, colon + 1);
    if start >= s.len() {
        return None;
    }
    match read_value(s, start, depth) {
        None => None,
        Some((value, next)) => Some(((key, value), next)),
    }
}

/// Reads the members of a dictionary from the one whose key starts at `pos`
/// on. Returns them with the position behind the closing brace.
pub fn read_members(s: &[u8], pos: usize, depth: usize) -> (r: Option<
    (Vec<(Vec<u8>, NP_JSON)>, usize),
>)
    requires
        pos < s.len(),
    ensures
        match r {
            Some((members, next)) => parse_members(
                s@,
                pos as int,
                depth as nat,
                Seq::empty(),
            ) == Some((NP_JSON::members_view(members@, members@.len()), next as int)) && pos < next
                <= s.len(),
            None => parse_members(s@, pos as int, depth as nat, Seq::empty()) is None,
        },
    decreases s.len() - pos, 2nat,
{
    let mut members: Vec<(Vec<u8>, NP_JSON)> = Vec::new();
    let mut p: usize = pos;
    assert(NP_JSON::members_view(members@, 0) =~= Seq::<(Seq<u8>, JsonValue)>::empty());
    loop
        invariant
            pos <= p < s.len(),
            parse_members(
                s@,
                p as int,
                depth as nat,
                NP_JSON::members_view(members@, members@.len()),
            ) == parse_members(s@, pos as int, depth as nat, Seq::empty()),
        decreases s.len() - p,
    {
        let (member, next) = match read_member(s, p, depth) {
            None => { return None; },
            Some(found) => found,
        };
        let q: usize = skip_white_space(s, next);
        if q >= s.len() {
            return None;
        }
        proof {
            NP_JSON::lemma_members_view_push(members@, member);
        }
        if s[q] == RIGHT_BRACE {
            members.push(member);
            return Some((members, q + 1));
        } else if s[q] == COMMA {
            let after: usize = skip_white_space(s, q + 1);
            if after >= s.len() {
                return None;
            }
            members.push(member);
            p = after;
        } else {
            return None;
        }
    }
}

/// Reads a whole text as one value.
pub fn json_decode(text: &[u8]) -> (r: Option<NP_JSON>)
    ensures
        match r {
            Some(value) => parse_json(text@) == Some(value@),
            None => parse_json(text@) is None,
        },
{
    let start: usize = skip_white_space(text, 0);
    match read_value(text, start, 0) {
        None => None,
        Some((value, next)) => {
            let end: usize = skip_white_space(text, next);
            if end == text.len() {
                Some(value)
            } else {
                None
            }
        },
    }
}

/// The index of the first member from `from` on whose key is `key`.
pub open spec fn find_member(
    members: Seq<(Seq<u8>, JsonValue)>,
    key: Seq<u8>,
    from: int,
) -> Option<int>
    decreases members.len() - from,
{
    if from < 0 || from >= members.len() {
        None
    } else if members[from].0 == key {
        Some(from)
    } else {
        find_member(members, key, from + 1)
    }
}

/// The value of the first member whose key is `key`.
pub open spec fn member_value(members: Seq<(Seq<u8>, JsonValue)>, key: Seq<u8>) -> Option<
    JsonValue,
> {
    match find_member(members, key, 0) {
        Some(i) => Some(members[i].1),
        None => None,
    }
}

impl NP_JSON {
    /// The index of the first of `members` whose key is `key`.
    pub fn member_index(members: &Vec<(Vec<u8>, NP_JSON)>, key: &[u8]) -> (r: Option<usize>)
        ensures
            match r {
                Some(i) => find_member(
                    NP_JSON::members_view(members@, members@.len()),
                    key@,
                    0,
                ) == Some(i as int) && i < members.len(),
                None => find_member(NP_JSON::members_view(members@, members@.len()), key@, 0)
                    is None,
            },
    {
        let ghost views = NP_JSON::members_view(members@, members@.len());
        proof {
            NP_JSON::lemma_members_view(members@, members@.len());
        }
        let mut i: usize = 0;
        while i < members.len()
            invariant
                i <= members.len(),
                views == NP_JSON::members_view(members@, members@.len()),
                views.len() == members.len(),
                forall|k: int| 0 <= k < members.len() ==> views[k] == (members@[k].0@, members@[k].1@),
                find_member(views, key@, i as int) == find_member(views, key@, 0),
            decreases members.len() - i,
        {
            if crate::bytes::bytes_equal(members[i].0.as_slice(), key) {
                return Some(i);
            }
            i += 1;
        }
        None
    }
}

/// The value of the member of a dictionary whose key is `key`.
pub open spec fn json_member(j: JsonValue, key: Seq<u8>) -> Option<JsonValue> {
    match j {
        JsonValue::Dictionary(members) => member_value(members, key),
        _ => None,
    }
}

impl NP_JSON {
    /// What this value stands for, one level down.
    pub proof fn lemma_view(&self)
        ensures
            match self {
                NP_JSON::Null => self@ == JsonValue::Null,
                NP_JSON::True => self@ == JsonValue::True,
                NP_JSON::False => self@ == JsonValue::False,
                NP_JSON::Number(n) => self@ == JsonValue::Number(n@),
                NP_JSON::String(s) => self@ == JsonValue::String(s@),
                NP_JSON::Array(items) => {
                    let views = NP_JSON::items_view(items@, items@.len());
                    &&& self@ == JsonValue::Array(views)
                    &&& views.len() == items@.len()
                    &&& forall|i: int| 0 <= i < items@.len() ==> views[i] == items@[i]@
                },
                NP_JSON::Dictionary(members) => {
                    let views = NP_JSON::members_view(members@, members@.len());
                    &&& self@ == JsonValue::Dictionary(views)
                    &&& views.len() == members@.len()
                    &&& forall|i: int|
                        0 <= i < members@.len() ==> views[i] == (members@[i].0@, members@[i].1@)
                },
            },
    {
        match self {
            NP_JSON::Array(items) => {
                NP_JSON::lemma_items_view(items@, items@.len());
            },
            NP_JSON::Dictionary(members) => {
                NP_JSON::lemma_members_view(members@, members@.len());
            },
            _ => {},
        }
    }

    /// The value of the member whose key is `key`, if this is a dictionary
    /// that has one.
    pub fn get(&self, key: &[u8]) -> (r: Option<&NP_JSON>)
        ensures
            match r {
                Some(value) => json_member(self@, key@) == Some(value@),
                None => json_member(self@, key@) is None,
            },
    {
        proof {
            self.lemma_view();
        }
        match self {
            NP_JSON::Dictionary(members) => match NP_JSON::member_index(members, key) {
                Some(i) => Some(&members[i].1),
                None => None,
            },
            _ => None,
        }
    }

    /// An array of the given items.
    pub fn array_of(items: Vec<NP_JSON>) -> (r: NP_JSON)
        ensures
            r@ == JsonValue::Array(NP_JSON::items_view(items@, items@.len())),
    {
        let r = NP_JSON::Array(items);
        proof {
            r.lemma_view();
        }
        r
    }

    /// A dictionary of the given members.
    pub fn dictionary_of(members: Vec<(Vec<u8>, NP_JSON)>) -> (r: NP_JSON)
        ensures
            r@ == JsonValue::Dictionary(NP_JSON::members_view(members@, members@.len())),
    {
        let r = NP_JSON::Dictionary(members);
        proof {
            r.lemma_view();
        }
        r
    }

    /// A string of the given bytes.
    pub fn string_of(bytes: Vec<u8>) -> (r: NP_JSON)
        ensures
            r@ == JsonValue::String(bytes@),
    {
        NP_JSON::String(bytes)
    }
}

} // verus!
