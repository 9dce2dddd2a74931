//! What holds of JSON text: what is written is read back as the same value.

use vstd::prelude::*;
use crate::MAX_DEPTH;
use crate::json::{
    escape_byte, escape_bytes, exponent_end, false_text, hex4, hex_digit, hex_value, is_digit,
    is_ws, items_text, members_text, null_text, number_end, parse_elements, parse_escape,
    parse_json, parse_member, parse_members, parse_string_body, parse_value, quoted, skip_digits,
    skip_ws, stringify_spec, true_text, utf8_bytes, JsonValue, BACKSLASH, COLON, COMMA, LEFT_BRACE,
    LEFT_BRACKET, QUOTE, RIGHT_BRACE, RIGHT_BRACKET,
};

verus! {

/// Whether the bytes of `text` stand in `s` from `pos` on.
pub open spec fn holds_text(s: Seq<u8>, pos: int, text: Seq<u8>) -> bool {
    &&& 0 <= pos
    &&& pos + text.len() <= s.len()
    &&& forall|i: int| 0 <= i < text.len() ==> s[pos + i] == #[trigger] text[i]
}

/// A text that is held holds its parts.
pub proof fn lemma_holds_parts(s: Seq<u8>, pos: int, a: Seq<u8>, b: Seq<u8>)
    requires
        holds_text(s, pos, a + b),
    ensures
        holds_text(s, pos, a),
        holds_text(s, pos + a.len(), b),
{
    assert forall|i: int| 0 <= i < a.len() implies s[pos + i] == #[trigger] a[i] by {
        assert((a + b)[i] == a[i]);
    }
    assert forall|i: int| 0 <= i < b.len() implies s[pos + a.len() + i] == #[trigger] b[i] by {
        assert((a + b)[a.len() + i] == b[i]);
    }
}

/// The escaped form of the first `k` bytes starts that of the first `n`.
pub proof fn lemma_escape_bytes_grow(b: Seq<u8>, k: nat, n: nat)
    requires
        k <= n <= b.len(),
    ensures
        escape_bytes(b, k).len() <= escape_bytes(b, n).len(),
        forall|i: int|
            0 <= i < escape_bytes(b, k).len() ==> escape_bytes(b, n)[i] == escape_bytes(b, k)[i],
    decreases n,
{
    if k < n {
        lemma_escape_bytes_grow(b, k, (n - 1) as nat);
    }
}

/// A hexadecimal digit that was written stands for its number.
pub proof fn lemma_hex_digit_value(n: int)
    requires
        0 <= n < 16,
    ensures
        hex_value(hex_digit(n)) == Some(n),
{
}

/// A string that was written between quotes, read from behind what was
/// written of its first `k` bytes on, is read as the string.
pub proof fn lemma_parse_escaped(b: Seq<u8>, k: nat, s: Seq<u8>, start: int, acc: Seq<u8>)
    requires
        k <= b.len(),
        holds_text(s, start, escape_bytes(b, b.len()) + seq![QUOTE]),
    ensures
        parse_string_body(
            s,
            start + escape_bytes(b, k).len(),
            acc + b.subrange(0, k as int),
        ) == Some((acc + b, start + escape_bytes(b, b.len()).len() + 1)),
    decreases b.len() - k,
{
    let n = b.len();
    let all = escape_bytes(b, n);
    let pos = start + escape_bytes(b, k).len();
    lemma_holds_parts(s, start, all, seq![QUOTE]);
    lemma_escape_bytes_grow(b, k, n);
    if k == n {
        assert(b.subrange(0, k as int) =~= b);
        assert(s[start + all.len() + 0] == seq![QUOTE][0]);
    } else {
        let c = b[k as int];
        let piece = escape_byte(c);
        let next = escape_bytes(b, k + 1);
        lemma_escape_bytes_grow(b, k + 1, n);
        assert(next == escape_bytes(b, k) + piece);
        assert forall|i: int| 0 <= i < piece.len() implies s[pos + i] == piece[i] by {
            assert(next[escape_bytes(b, k).len() + i] == piece[i]);
            assert(all[escape_bytes(b, k).len() + i] == next[escape_bytes(b, k).len() + i]);
            assert(s[start + (escape_bytes(b, k).len() + i)] == all[escape_bytes(b, k).len() + i]);
        }
        assert(pos + piece.len() <= start + all.len());
        let grown = acc + b.subrange(0, k as int);
        assert(grown.push(c) =~= acc + b.subrange(0, (k + 1) as int));
        assert(grown + seq![c] =~= acc + b.subrange(0, (k + 1) as int));
        lemma_parse_escaped(b, k + 1, s, start, acc);
        if c == QUOTE || c == BACKSLASH || c == 0x0a || c == 0x0d || c == 0x09 || c == 0x08 || c
            == 0x0c {
            assert(s[pos] == piece[0] && s[pos + 1] == piece[1]);
            assert(parse_escape(s, pos + 1) == Some((seq![c], pos + 2)));
        } else if c < 0x20 {
            assert(s[pos] == piece[0] && s[pos + 1] == piece[1] && s[pos + 2] == piece[2] && s[pos
                + 3] == piece[3] && s[pos + 4] == piece[4] && s[pos + 5] == piece[5]);
            lemma_hex_digit_value(c as int / 16);
            lemma_hex_digit_value(c as int % 16);
            assert(hex_value(0x30u8) == Some(0int));
            assert(hex4(s, pos + 2) == Some(c as int));
            assert(utf8_bytes(c as int) =~= seq![c]);
            assert(parse_escape(s, pos + 1) == Some((seq![c], pos + 6)));
        } else {
            assert(s[pos] == piece[0]);
        }
    }
}

/// A string that was written between quotes is read as the string.
pub proof fn lemma_parse_quoted(b: Seq<u8>, s: Seq<u8>, pos: int)
    requires
        holds_text(s, pos, quoted(b)),
    ensures
        s[pos] == QUOTE,
        parse_string_body(s, pos + 1, Seq::empty()) == Some((b, pos + quoted(b).len())),
{
    let inner = escape_bytes(b, b.len()) + seq![QUOTE];
    assert(quoted(b) =~= seq![QUOTE] + inner);
    lemma_holds_parts(s, pos, seq![QUOTE], inner);
    assert(s[pos + 0] == seq![QUOTE][0]);
    lemma_parse_escaped(b, 0, s, pos + 1, Seq::empty());
    assert(escape_bytes(b, 0).len() == 0);
    assert(Seq::<u8>::empty() + b.subrange(0, 0) =~= Seq::<u8>::empty());
    assert(Seq::<u8>::empty() + b =~= b);
}

/// Whether the byte at `pos`, if there is one, can not go on a number.
pub open spec fn ends_number(s: Seq<u8>, pos: int) -> bool {
    pos >= s.len() || !(is_digit(s[pos]) || s[pos] == 0x2e || s[pos] == 0x65 || s[pos] == 0x45)
}

/// Whether the bytes of a number are those of a number, all of them.
pub open spec fn valid_number(n: Seq<u8>) -> bool {
    number_end(n, 0) == Some(n.len() as int)
}

/// Digits are skipped alike in a text and in what holds the text, up to
/// the end of the text.
pub proof fn lemma_skip_digits_held(n: Seq<u8>, s: Seq<u8>, pos: int, k: int)
    requires
        holds_text(s, pos, n),
        0 <= k <= n.len(),
        skip_digits(n, k) < n.len() || ends_number(s, pos + n.len()),
    ensures
        skip_digits(s, pos + k) == pos + skip_digits(n, k),
        k <= skip_digits(n, k) <= n.len(),
    decreases n.len() - k,
{
    if k < n.len() {
        assert(s[pos + k] == n[k]);
        if is_digit(n[k]) {
            lemma_skip_digits_held(n, s, pos, k + 1);
        }
    }
}

/// Digits are skipped no further than the end.
pub proof fn lemma_skip_digits_bounds(n: Seq<u8>, k: int)
    requires
        0 <= k <= n.len(),
    ensures
        k <= skip_digits(n, k) <= n.len(),
        skip_digits(n, k) < n.len() ==> !is_digit(n[skip_digits(n, k)]),
    decreases n.len() - k,
{
    if k < n.len() && is_digit(n[k]) {
        lemma_skip_digits_bounds(n, k + 1);
    }
}

/// An exponent ends alike in a text and in what holds the text.
pub proof fn lemma_exponent_held(n: Seq<u8>, s: Seq<u8>, pos: int, k: int)
    requires
        holds_text(s, pos, n),
        0 <= k <= n.len(),
        exponent_end(n, k) == Some(n.len() as int),
        ends_number(s, pos + n.len()),
    ensures
        exponent_end(s, pos + k) == Some(pos + n.len()),
{
    if k < n.len() {
        assert(s[pos + k] == n[k]);
        if n[k] == 0x65 || n[k] == 0x45 {
            if k + 1 < n.len() {
                assert(s[pos + (k + 1)] == n[k + 1]);
            }
            let p = if k + 1 < n.len() && (n[k + 1] == 0x2b || n[k + 1] == 0x2d) {
                k + 2
            } else {
                k + 1
            };
            assert(s[pos + p] == n[p]);
            lemma_skip_digits_held(n, s, pos, p);
        }
    }
}

/// A number that was written is read as the number, where what follows
/// it can not go on a number.
pub proof fn lemma_parse_number(n: Seq<u8>, s: Seq<u8>, pos: int)
    requires
        valid_number(n),
        holds_text(s, pos, n),
        ends_number(s, pos + n.len()),
    ensures
        n.len() > 0,
        n[0] == 0x2d || is_digit(n[0]),
        number_end(s, pos) == Some(pos + n.len()),
        s.subrange(pos, pos + n.len()) == n,
{
    assert(s.subrange(pos, pos + n.len()) =~= n);
    assert(s[pos + 0] == n[0]);
    let digits_at = if n[0] == 0x2d {
        1int
    } else {
        0int
    };
    assert(s[pos + digits_at] == n[digits_at]);
    let whole_end = if n[digits_at] == 0x30 {
        digits_at + 1
    } else {
        skip_digits(n, digits_at)
    };
    lemma_skip_digits_bounds(n, digits_at);
    if n[digits_at] != 0x30 {
        lemma_skip_digits_held(n, s, pos, digits_at);
    }
    if whole_end < n.len() {
        assert(s[pos + whole_end] == n[whole_end]);
    }
    if whole_end < n.len() && n[whole_end] == 0x2e {
        assert(s[pos + (whole_end + 1)] == n[whole_end + 1]);
        lemma_skip_digits_bounds(n, whole_end + 1);
        lemma_skip_digits_held(n, s, pos, whole_end + 1);
        lemma_exponent_held(n, s, pos, skip_digits(n, whole_end + 1));
    } else {
        lemma_exponent_held(n, s, pos, whole_end);
    }
}


/// Whether a value that stands `depth` arrays and dictionaries deep can be
/// written and read back: its numbers are numbers, and nothing in it nests
/// deeper than `MAX_DEPTH`.
pub open spec fn printable(j: JsonValue, depth: nat) -> bool
    decreases MAX_DEPTH + 1 - depth,
{
    if depth > MAX_DEPTH {
        false
    } else {
        match j {
            JsonValue::Number(n) => valid_number(n),
            JsonValue::Array(items) => forall|i: int|
                0 <= i < items.len() ==> printable(#[trigger] items[i], depth + 1),
            JsonValue::Dictionary(members) => forall|i: int|
                0 <= i < members.len() ==> printable((#[trigger] members[i]).1, depth + 1),
            _ => true,
        }
    }
}

/// Whether a byte can start the text of a value.
pub open spec fn starts_value(b: u8) -> bool {
    b == QUOTE || b == LEFT_BRACKET || b == LEFT_BRACE || b == 0x6e || b == 0x74 || b == 0x66 || b
        == 0x2d || is_digit(b)
}

/// The text of a value is not empty, and starts as a value starts.
pub proof fn lemma_text_starts(j: JsonValue, depth: nat)
    requires
        printable(j, depth),
    ensures
        stringify_spec(j).len() > 0,
        starts_value(stringify_spec(j)[0]),
{
    match j {
        JsonValue::Number(n) => {
            if n.len() > 0 {
                let digits_at = if n[0] == 0x2d {
                    1int
                } else {
                    0int
                };
            }
        },
        JsonValue::String(b) => {
            assert(quoted(b)[0] == QUOTE);
        },
        JsonValue::Array(items) => {
            assert(stringify_spec(j)[0] == LEFT_BRACKET);
        },
        JsonValue::Dictionary(members) => {
            assert(stringify_spec(j)[0] == LEFT_BRACE);
        },
        _ => {},
    }
}

/// Where the `k`-th of some items starts in their text.
pub open spec fn item_start(items: Seq<JsonValue>, k: nat) -> int {
    if k == 0 {
        0
    } else {
        items_text(items, k).len() as int + 1
    }
}

/// The text of the first `k` items starts that of the first `n`, and a
/// comma follows it where more items follow.
pub proof fn lemma_items_text_grow(items: Seq<JsonValue>, k: nat, n: nat)
    requires
        k <= n <= items.len(),
    ensures
        items_text(items, k).len() <= items_text(items, n).len(),
        forall|i: int|
            0 <= i < items_text(items, k).len() ==> items_text(items, n)[i] == items_text(
                items,
                k,
            )[i],
        0 < k < n ==> items_text(items, k).len() < items_text(items, n).len() && items_text(
            items,
            n,
        )[items_text(items, k).len() as int] == COMMA,
    decreases n,
{
    if k < n {
        lemma_items_text_grow(items, k, (n - 1) as nat);
        if n == 1 {
            assert(items_text(items, 0) == Seq::<u8>::empty());
            assert(items_text(items, n) == stringify_spec(items[0]));
        } else {
            assert(items_text(items, n) == items_text(items, (n - 1) as nat) + seq![COMMA]
                + stringify_spec(items[n - 1]));
        }
    }
}

/// Where the `k`-th of some members starts in their text.
pub open spec fn member_start(members: Seq<(Seq<u8>, JsonValue)>, k: nat) -> int {
    if k == 0 {
        0
    } else {
        members_text(members, k).len() as int + 1
    }
}

/// The text of one member.
pub open spec fn member_text(member: (Seq<u8>, JsonValue)) -> Seq<u8> {
    quoted(member.0) + seq![COLON] + stringify_spec(member.1)
}

/// The text of the first `k` members starts that of the first `n`, and a
/// comma follows it where more members follow.
pub proof fn lemma_members_text_grow(members: Seq<(Seq<u8>, JsonValue)>, k: nat, n: nat)
    requires
        k <= n <= members.len(),
    ensures
        members_text(members, k).len() <= members_text(members, n).len(),
        forall|i: int|
            0 <= i < members_text(members, k).len() ==> members_text(members, n)[i]
                == members_text(members, k)[i],
        0 < k < n ==> members_text(members, k).len() < members_text(members, n).len()
            && members_text(members, n)[members_text(members, k).len() as int] == COMMA,
    decreases n,
{
    if k < n {
        lemma_members_text_grow(members, k, (n - 1) as nat);
        if n == 1 {
            assert(members_text(members, 0) == Seq::<u8>::empty());
            assert(members_text(members, n) == quoted(members[0].0) + seq![COLON]
                + stringify_spec(members[0].1));
        } else {
            assert(members_text(members, n) == members_text(members, (n - 1) as nat) + seq![
                COMMA,
            ] + quoted(members[n - 1].0) + seq![COLON] + stringify_spec(members[n - 1].1));
        }
    }
}

/// White space is not skipped where none stands.
pub proof fn lemma_no_white_space(s: Seq<u8>, pos: int)
    requires
        0 <= pos < s.len() ==> !is_ws(s[pos]),
    ensures
        skip_ws(s, pos) == pos,
{
}

/// The text that was written for a value is read as that value, where what
/// follows a number can not go on the number.
pub proof fn lemma_parse_written(j: JsonValue, depth: nat, s: Seq<u8>, pos: int)
    requires
        printable(j, depth),
        holds_text(s, pos, stringify_spec(j)),
        j is Number ==> ends_number(s, pos + stringify_spec(j).len()),
    ensures
        parse_value(s, pos, depth) == Some((j, pos + stringify_spec(j).len())),
    decreases j, 0nat,
{
    let text = stringify_spec(j);
    lemma_text_starts(j, depth);
    assert(s[pos + 0] == text[0]);
    match j {
        JsonValue::Null => {
            assert(s.subrange(pos, pos + 4) =~= null_text());
        },
        JsonValue::True => {
            assert(s.subrange(pos, pos + 4) =~= true_text());
        },
        JsonValue::False => {
            assert(s.subrange(pos, pos + 5) =~= false_text());
        },
        JsonValue::Number(n) => {
            lemma_parse_number(n, s, pos);
        },
        JsonValue::String(b) => {
            lemma_parse_quoted(b, s, pos);
        },
        JsonValue::Array(items) => {
            let inner = items_text(items, items.len()) + seq![RIGHT_BRACKET];
            assert(text =~= seq![LEFT_BRACKET] + inner);
            lemma_holds_parts(s, pos, seq![LEFT_BRACKET], inner);
            if items.len() == 0 {
                assert(inner =~= seq![RIGHT_BRACKET]);
                assert(s[pos + 1 + 0] == inner[0]);
                lemma_no_white_space(s, pos + 1);
                assert(items =~= Seq::<JsonValue>::empty());
            } else {
                lemma_text_starts(items[0], depth + 1);
                lemma_items_text_grow(items, 1, items.len());
                assert(items_text(items, 1) == stringify_spec(items[0]));
                assert(s[pos + 1 + 0] == inner[0]);
                assert(inner[0] == items_text(items, items.len())[0]);
                lemma_no_white_space(s, pos + 1);
                lemma_parse_items(items, 0, depth + 1, s, pos + 1);
                assert(items.subrange(0, 0) =~= Seq::<JsonValue>::empty());
            }
        },
        JsonValue::Dictionary(members) => {
            let inner = members_text(members, members.len()) + seq![RIGHT_BRACE];
            assert(text =~= seq![LEFT_BRACE] + inner);
            lemma_holds_parts(s, pos, seq![LEFT_BRACE], inner);
            if members.len() == 0 {
                assert(inner =~= seq![RIGHT_BRACE]);
                assert(s[pos + 1 + 0] == inner[0]);
                lemma_no_white_space(s, pos + 1);
                assert(members =~= Seq::<(Seq<u8>, JsonValue)>::empty());
            } else {
                lemma_members_text_grow(members, 1, members.len());
                assert(members_text(members, 1) == member_text(members[0]));
                assert(member_text(members[0])[0] == QUOTE);
                assert(s[pos + 1 + 0] == inner[0]);
                assert(inner[0] == members_text(members, members.len())[0]);
                lemma_no_white_space(s, pos + 1);
                lemma_parse_members(members, 0, depth + 1, s, pos + 1);
                assert(members.subrange(0, 0) =~= Seq::<(Seq<u8>, JsonValue)>::empty());
            }
        },
    }
}

/// The text that was written for some items, read from the `k`-th on, is
/// read as those items.
pub proof fn lemma_parse_items(items: Seq<JsonValue>, k: nat, depth: nat, s: Seq<u8>, start: int)
    requires
        k < items.len(),
        forall|i: int| 0 <= i < items.len() ==> printable(#[trigger] items[i], depth),
        holds_text(s, start, items_text(items, items.len()) + seq![RIGHT_BRACKET]),
    ensures
        parse_elements(s, start + item_start(items, k), depth, items.subrange(0, k as int))
            == Some((items, start + items_text(items, items.len()).len() + 1)),
    decreases items, items.len() - k,
{
    let n = items.len();
    let all = items_text(items, n);
    let item = items[k as int];
    let text = stringify_spec(item);
    let begin = start + item_start(items, k);
    lemma_holds_parts(s, start, all, seq![RIGHT_BRACKET]);
    assert(s[start + all.len() + 0] == seq![RIGHT_BRACKET][0]);
    lemma_items_text_grow(items, k, n);
    lemma_items_text_grow(items, k + 1, n);
    lemma_text_starts(item, depth);
    let upto = items_text(items, k + 1);
    if k == 0 {
        assert(upto == text);
    } else {
        assert(upto == items_text(items, k) + seq![COMMA] + text);
    }
    let end = start + upto.len();
    assert(begin + text.len() == end);
    assert forall|i: int| 0 <= i < text.len() implies s[begin + i] == #[trigger] text[i] by {
        assert(upto[item_start(items, k) + i] == text[i]);
        assert(all[item_start(items, k) + i] == upto[item_start(items, k) + i]);
        assert(s[start + (item_start(items, k) + i)] == all[item_start(items, k) + i]);
    }
    if k + 1 < n {
        assert(s[start + upto.len()] == all[upto.len() as int]);
    }
    assert(s[end] == COMMA || s[end] == RIGHT_BRACKET);
    lemma_parse_written(item, depth, s, begin);
    lemma_no_white_space(s, end);
    assert(items.subrange(0, k as int).push(item) =~= items.subrange(0, (k + 1) as int));
    if k + 1 == n {
        assert(items.subrange(0, n as int) =~= items);
    } else {
        let following = items[k as int + 1];
        let cut = upto.len() as int;
        lemma_text_starts(following, depth);
        lemma_items_text_grow(items, k + 2, n);
        let more = items_text(items, k + 2);
        assert(more == upto + seq![COMMA] + stringify_spec(following));
        assert(s[start + (cut + 1)] == all[cut + 1]);
        assert(all[cut + 1] == more[cut + 1]);
        assert(more[cut + 1] == stringify_spec(following)[0]);
        lemma_no_white_space(s, end + 1);
        lemma_parse_items(items, k + 1, depth, s, start);
    }
}

/// The text that was written for a member is read as that member, where
/// what follows a number can not go on the number.
pub proof fn lemma_parse_member(
    member: (Seq<u8>, JsonValue),
    depth: nat,
    s: Seq<u8>,
    pos: int,
)
    requires
        printable(member.1, depth),
        holds_text(s, pos, member_text(member)),
        member.1 is Number ==> ends_number(s, pos + member_text(member).len()),
    ensures
        parse_member(s, pos, depth) == Some((member, pos + member_text(member).len())),
    decreases member.1, 1nat,
{
    let key = quoted(member.0);
    let rest = seq![COLON] + stringify_spec(member.1);
    assert(member_text(member) =~= key + rest);
    lemma_holds_parts(s, pos, key, rest);
    lemma_holds_parts(s, pos + key.len(), seq![COLON], stringify_spec(member.1));
    lemma_parse_quoted(member.0, s, pos);
    assert(s[pos + key.len() + 0] == seq![COLON][0]);
    lemma_no_white_space(s, pos + key.len());
    lemma_text_starts(member.1, depth);
    assert(s[pos + key.len() + 1 + 0] == stringify_spec(member.1)[0]);
    lemma_no_white_space(s, pos + key.len() + 1);
    lemma_parse_written(member.1, depth, s, pos + key.len() + 1);
}

/// The text that was written for some members, read from the `k`-th on,
/// is read as those members.
pub proof fn lemma_parse_members(
    members: Seq<(Seq<u8>, JsonValue)>,
    k: nat,
    depth: nat,
    s: Seq<u8>,
    start: int,
)
    requires
        k < members.len(),
        forall|i: int| 0 <= i < members.len() ==> printable((#[trigger] members[i]).1, depth),
        holds_text(s, start, members_text(members, members.len()) + seq![RIGHT_BRACE]),
    ensures
        parse_members(s, start + member_start(members, k), depth, members.subrange(0, k as int))
            == Some((members, start + members_text(members, members.len()).len() + 1)),
    decreases members, members.len() - k,
{
    let n = members.len();
    let all = members_text(members, n);
    let member = members[k as int];
    let text = member_text(member);
    let begin = start + member_start(members, k);
    lemma_holds_parts(s, start, all, seq![RIGHT_BRACE]);
    assert(s[start + all.len() + 0] == seq![RIGHT_BRACE][0]);
    lemma_members_text_grow(members, k, n);
    lemma_members_text_grow(members, k + 1, n);
    let upto = members_text(members, k + 1);
    if k == 0 {
        assert(upto == text);
    } else {
        assert(upto =~= members_text(members, k) + seq![COMMA] + text);
    }
    let end = start + upto.len();
    assert(begin + text.len() == end);
    assert forall|i: int| 0 <= i < text.len() implies s[begin + i] == #[trigger] text[i] by {
        assert(upto[member_start(members, k) + i] == text[i]);
        assert(all[member_start(members, k) + i] == upto[member_start(members, k) + i]);
        assert(s[start + (member_start(members, k) + i)] == all[member_start(members, k) + i]);
    }
    if k + 1 < n {
        assert(s[start + upto.len()] == all[upto.len() as int]);
    }
    assert(s[end] == COMMA || s[end] == RIGHT_BRACE);
    lemma_parse_member(member, depth, s, begin);
    lemma_no_white_space(s, end);
    assert(members.subrange(0, k as int).push(member) =~= members.subrange(0, (k + 1) as int));
    if k + 1 == n {
        assert(members.subrange(0, n as int) =~= members);
    } else {
        let following = members[k as int + 1];
        let cut = upto.len() as int;
        lemma_members_text_grow(members, k + 2, n);
        let more = members_text(members, k + 2);
        assert(more =~= upto + seq![COMMA] + member_text(following));
        assert(member_text(following)[0] == QUOTE);
        assert(s[start + (cut + 1)] == all[cut + 1]);
        assert(all[cut + 1] == more[cut + 1]);
        assert(more[cut + 1] == member_text(following)[0]);
        lemma_no_white_space(s, end + 1);
        lemma_parse_members(members, k + 1, depth, s, start);
    }
}

/// The round trip of JSON text: the text that is written for a value is
/// read as that value.
pub proof fn law_json_round_trip(j: JsonValue)
    requires
        printable(j, 0),
    ensures
        parse_json(stringify_spec(j)) == Some(j),
{
    let s = stringify_spec(j);
    lemma_text_starts(j, 0);
    lemma_no_white_space(s, 0);
    lemma_parse_written(j, 0, s, 0);
    lemma_no_white_space(s, s.len() as int);
}

} // verus!
