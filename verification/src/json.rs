//! Building JSON text: decimal numbers, escaped strings and comma-separated
//! lists, each with the characters it produces stated exactly.

use vstd::prelude::*;

verus! {

/// The character of a decimal digit.
pub open spec fn digit_char(d: nat) -> char {
    if d == 0 {
        '0'
    } else if d == 1 {
        '1'
    } else if d == 2 {
        '2'
    } else if d == 3 {
        '3'
    } else if d == 4 {
        '4'
    } else if d == 5 {
        '5'
    } else if d == 6 {
        '6'
    } else if d == 7 {
        '7'
    } else if d == 8 {
        '8'
    } else {
        '9'
    }
}

/// The decimal digits of `n`, without leading zeros.
pub open spec fn decimal(n: nat) -> Seq<char>
    decreases n,
{
    if n < 10 {
        seq![digit_char(n)]
    } else {
        decimal(n / 10).push(digit_char(n % 10))
    }
}

/// The decimal text of a signed integer.
pub open spec fn signed_decimal(n: int) -> Seq<char> {
    if n < 0 {
        seq!['-'] + decimal((-n) as nat)
    } else {
        decimal(n as nat)
    }
}

/// The JSON text of a boolean.
pub open spec fn bool_text(b: bool) -> Seq<char> {
    if b { "true"@ } else { "false"@ }
}

/// `items` separated by commas.
pub open spec fn comma_join(items: Seq<Seq<char>>) -> Seq<char>
    decreases items.len(),
{
    if items.len() == 0 {
        Seq::empty()
    } else if items.len() == 1 {
        items[0]
    } else {
        comma_join(items.drop_last()) + seq![','] + items.last()
    }
}

/// The JSON escape of one character.
pub open spec fn escape_char(c: char) -> Seq<char> {
    if c == '"' {
        seq!['\\', '"']
    } else if c == '\\' {
        seq!['\\', '\\']
    } else if c == '\n' {
        seq!['\\', 'n']
    } else if c == '\r' {
        seq!['\\', 'r']
    } else if c == '\t' {
        seq!['\\', 't']
    } else if (c as u32) < 32 {
        seq!['\\', 'u', '0', '0', hex_char(((c as u32) / 16) as nat), hex_char(((c as u32) % 16) as nat)]
    } else {
        seq![c]
    }
}

/// The lower-case hexadecimal character of a digit below sixteen.
pub open spec fn hex_char(d: nat) -> char {
    if d < 10 {
        digit_char(d)
    } else if d == 10 {
        'a'
    } else if d == 11 {
        'b'
    } else if d == 12 {
        'c'
    } else if d == 13 {
        'd'
    } else if d == 14 {
        'e'
    } else {
        'f'
    }
}

/// The JSON escape of a character sequence, without the quotes.
pub open spec fn escape_chars(s: Seq<char>) -> Seq<char>
    decreases s.len(),
{
    if s.len() == 0 {
        Seq::empty()
    } else {
        escape_chars(s.drop_last()) + escape_char(s.last())
    }
}

/// A quoted, escaped JSON string.
pub open spec fn json_string_text(s: Seq<char>) -> Seq<char> {
    seq!['"'] + escape_chars(s) + seq!['"']
}

fn digit_str(d: u64) -> (r: &'static str)
    requires
        d < 10,
    ensures
        r@ == seq![digit_char(d as nat)],
{
    if d == 0 {
        proof { reveal_strlit("0"); }
        "0"
    } else if d == 1 {
        proof { reveal_strlit("1"); }
        "1"
    } else if d == 2 {
        proof { reveal_strlit("2"); }
        "2"
    } else if d == 3 {
        proof { reveal_strlit("3"); }
        "3"
    } else if d == 4 {
        proof { reveal_strlit("4"); }
        "4"
    } else if d == 5 {
        proof { reveal_strlit("5"); }
        "5"
    } else if d == 6 {
        proof { reveal_strlit("6"); }
        "6"
    } else if d == 7 {
        proof { reveal_strlit("7"); }
        "7"
    } else if d == 8 {
        proof { reveal_strlit("8"); }
        "8"
    } else {
        proof { reveal_strlit("9"); }
        "9"
    }
}

/// Append the decimal digits of `n`.
pub fn push_u64(out: &mut String, n: u64)
    ensures
        final(out)@ == old(out)@ + decimal(n as nat),
    decreases n,
{
    if n >= 10 {
        push_u64(out, n / 10);
    }
    out.append(digit_str(n % 10));
    proof {
        if n >= 10 {
            assert(decimal(n as nat) == decimal((n / 10) as nat).push(digit_char((n % 10) as nat)));
        }
    }
}

/// Append the decimal digits of `n`.
pub fn push_usize(out: &mut String, n: usize)
    ensures
        final(out)@ == old(out)@ + decimal(n as nat),
{
    push_u64(out, n as u64);
}

/// Append the decimal text of a signed `n`.
pub fn push_i64(out: &mut String, n: i64)
    ensures
        final(out)@ == old(out)@ + signed_decimal(n as int),
{
    if n < 0 {
        let ghost before = out@;
        out.append("-");
        proof { reveal_strlit("-"); }
        let magnitude: u64 = if n == i64::MIN { 9223372036854775808u64 } else { (-n) as u64 };
        push_u64(out, magnitude);
        proof {
            assert(out@ =~= before + (seq!['-'] + decimal((-n) as nat)));
        }
    } else {
        push_u64(out, n as u64);
    }
}

/// Append `true` or `false`.
pub fn push_bool(out: &mut String, b: bool)
    ensures
        final(out)@ == old(out)@ + bool_text(b),
{
    if b {
        proof { reveal_strlit("true"); }
        out.append("true");
    } else {
        proof { reveal_strlit("false"); }
        out.append("false");
    }
}

fn hex_str(d: u32) -> (r: &'static str)
    requires
        d < 16,
    ensures
        r@ == seq![hex_char(d as nat)],
{
    if d < 10 {
        digit_str(d as u64)
    } else if d == 10 {
        proof { reveal_strlit("a"); }
        "a"
    } else if d == 11 {
        proof { reveal_strlit("b"); }
        "b"
    } else if d == 12 {
        proof { reveal_strlit("c"); }
        "c"
    } else if d == 13 {
        proof { reveal_strlit("d"); }
        "d"
    } else if d == 14 {
        proof { reveal_strlit("e"); }
        "e"
    } else {
        proof { reveal_strlit("f"); }
        "f"
    }
}

/// Append the escape of the character `piece` holds.
fn push_escaped_char(out: &mut String, c: char, piece: &str)
    requires
        piece@ == seq![c],
    ensures
        final(out)@ == old(out)@ + escape_char(c),
{
    if c == '"' {
        proof { reveal_strlit("\\\""); }
        out.append("\\\"");
    } else if c == '\\' {
        proof { reveal_strlit("\\\\"); }
        out.append("\\\\");
    } else if c == '\n' {
        proof { reveal_strlit("\\n"); }
        out.append("\\n");
    } else if c == '\r' {
        proof { reveal_strlit("\\r"); }
        out.append("\\r");
    } else if c == '\t' {
        proof { reveal_strlit("\\t"); }
        out.append("\\t");
    } else if (c as u32) < 32 {
        let code = c as u32;
        let ghost before = out@;
        proof { reveal_strlit("\\u00"); }
        out.append("\\u00");
        out.append(hex_str(code / 16));
        out.append(hex_str(code % 16));
        proof {
            assert(out@ =~= before + escape_char(c));
        }
    } else {
        out.append(piece);
    }
}

/// The quoted, escaped JSON text of a string.
pub fn json_string(value: &str) -> (out: String)
    ensures
        out@ == json_string_text(value@),
{
    let mut out = String::new();
    proof { reveal_strlit("\""); }
    out.append("\"");
    let n = value.unicode_len();
    let mut i: usize = 0;
    while i < n
        invariant
            n == value@.len(),
            i <= n,
            out@ == seq!['"'] + escape_chars(value@.take(i as int)),
        decreases n - i,
    {
        let c = value.get_char(i);
        let piece = value.substring_char(i, i + 1);
        proof {
            assert(piece@ =~= seq![c]);
        }
        push_escaped_char(&mut out, c, piece);
        proof {
            assert(value@.take(i + 1).drop_last() =~= value@.take(i as int));
            assert(value@.take(i + 1).last() == c);
        }
        i = i + 1;
    }
    out.append("\"");
    proof {
        assert(value@.take(n as int) =~= value@);
    }
    out
}

/// A JSON array of counts.
pub open spec fn count_list_text(values: Seq<usize>) -> Seq<char> {
    seq!['['] + comma_join(values.map(|i: int, x: usize| decimal(x as nat))) + seq![']']
}

pub proof fn lemma_comma_join_push(items: Seq<Seq<char>>, item: Seq<char>)
    ensures
        comma_join(items.push(item)) == if items.len() == 0 { item } else { comma_join(items) + seq![','] + item },
{
    assert(items.push(item).drop_last() =~= items);
}

/// Append `,` before every item but the first; with `done` items already
/// written this keeps the text equal to the join of the items so far.
pub fn push_separator(out: &mut String, done: usize)
    ensures
        final(out)@ == old(out)@ + (if done == 0 { Seq::<char>::empty() } else { seq![','] }),
{
    if done > 0 {
        proof { reveal_strlit(","); }
        out.append(",");
    } else {
        assert(old(out)@ + Seq::<char>::empty() =~= old(out)@);
    }
}

/// Append a JSON array of counts.
pub fn push_count_list(out: &mut String, values: &Vec<usize>)
    ensures
        final(out)@ == old(out)@ + count_list_text(values@),
{
    let ghost start = out@;
    let ghost items = values@.map(|i: int, x: usize| decimal(x as nat));
    proof { reveal_strlit("["); }
    out.append("[");
    let mut i: usize = 0;
    while i < values.len()
        invariant
            i <= values@.len(),
            items == values@.map(|i: int, x: usize| decimal(x as nat)),
            out@ == start + seq!['['] + comma_join(items.take(i as int)),
        decreases values@.len() - i,
    {
        let ghost before = out@;
        push_separator(out, i);
        push_usize(out, values[i]);
        proof {
            assert(items.take(i + 1) =~= items.take(i as int).push(items[i as int]));
            lemma_comma_join_push(items.take(i as int), items[i as int]);
            if i == 0 {
                assert(items.take(0) =~= Seq::<Seq<char>>::empty());
            }
            assert(out@ =~= start + seq!['['] + comma_join(items.take(i + 1)));
        }
        i = i + 1;
    }
    proof { reveal_strlit("]"); }
    out.append("]");
    proof {
        assert(items.take(values@.len() as int) =~= items);
        assert(out@ =~= start + count_list_text(values@));
    }
}


/// `items` separated by a comma and a space.
pub open spec fn spaced_join(items: Seq<Seq<char>>) -> Seq<char>
    decreases items.len(),
{
    if items.len() == 0 {
        Seq::empty()
    } else if items.len() == 1 {
        items[0]
    } else {
        spaced_join(items.drop_last()) + seq![',', ' '] + items.last()
    }
}

/// The debug text of a list of counts: `[a, b, c]`.
pub open spec fn debug_list_text(values: Seq<usize>) -> Seq<char> {
    seq!['['] + spaced_join(values.map(|i: int, x: usize| decimal(x as nat))) + seq![']']
}

/// Append the debug text of a list of counts.
pub fn push_debug_list(out: &mut String, values: &[usize])
    ensures
        final(out)@ == old(out)@ + debug_list_text(values@),
{
    let ghost start = out@;
    let ghost items = values@.map(|i: int, x: usize| decimal(x as nat));
    proof { reveal_strlit("["); }
    out.append("[");
    let mut i: usize = 0;
    while i < values.len()
        invariant
            i <= values@.len(),
            items == values@.map(|i: int, x: usize| decimal(x as nat)),
            out@ == start + seq!['['] + spaced_join(items.take(i as int)),
        decreases values@.len() - i,
    {
        let ghost before = out@;
        if i > 0 {
            proof { reveal_strlit(", "); }
            out.append(", ");
        }
        push_usize(out, values[i]);
        proof {
            assert(items.take(i + 1) =~= items.take(i as int).push(items[i as int]));
            assert(items.take(i + 1).drop_last() =~= items.take(i as int));
            if i == 0 {
                assert(items.take(0) =~= Seq::<Seq<char>>::empty());
                assert(out@ =~= start + seq!['['] + spaced_join(items.take(i + 1)));
            } else {
                assert(out@ =~= start + seq!['['] + spaced_join(items.take(i + 1)));
            }
        }
        i = i + 1;
    }
    proof { reveal_strlit("]"); }
    out.append("]");
    proof {
        assert(items.take(values@.len() as int) =~= items);
        assert(out@ =~= start + debug_list_text(values@));
    }
}


/// The last `count` hexadecimal digits of `h`, zero-padded, in lower case.
pub open spec fn hex_digits(h: nat, count: nat) -> Seq<char>
    decreases count,
{
    if count == 0 {
        Seq::empty()
    } else {
        hex_digits(h / 16, (count - 1) as nat).push(hex_char(h % 16))
    }
}

/// Append the last `count` hexadecimal digits of `h`, zero-padded.
pub fn push_hex_digits(out: &mut String, h: u64, count: u32)
    ensures
        final(out)@ == old(out)@ + hex_digits(h as nat, count as nat),
    decreases count,
{
    if count > 0 {
        push_hex_digits(out, h / 16, count - 1);
        out.append(hex_str((h % 16) as u32));
    }
}

} // verus!
