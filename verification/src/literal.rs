//! JSON string literals in their compact form: how a text is quoted and
//! escaped, and how a quoted text is read back.
//!
//! Every text has exactly one literal. A double quote and a backslash are
//! written behind a backslash; backspace, form feed, line feed, carriage
//! return and tab have the short escapes `\b \f \n \r \t`; any other
//! character below U+0020 is written as `\u00` and two lower-case hex
//! digits; every other character stands for itself.

use vstd::prelude::*;
use crate::text::occurs_at;

verus! {

/// The lower-case hex digit for `n`, where `0 <= n < 16`.
pub open spec fn hex_digit(n: int) -> char {
    if n == 0 {
        '0'
    } else if n == 1 {
        '1'
    } else if n == 2 {
        '2'
    } else if n == 3 {
        '3'
    } else if n == 4 {
        '4'
    } else if n == 5 {
        '5'
    } else if n == 6 {
        '6'
    } else if n == 7 {
        '7'
    } else if n == 8 {
        '8'
    } else if n == 9 {
        '9'
    } else if n == 10 {
        'a'
    } else if n == 11 {
        'b'
    } else if n == 12 {
        'c'
    } else if n == 13 {
        'd'
    } else if n == 14 {
        'e'
    } else {
        'f'
    }
}

/// The number that the lower-case hex digit `c` stands for.
pub open spec fn hex_value(c: char) -> Option<int> {
    if c == '0' {
        Some(0)
    } else if c == '1' {
        Some(1)
    } else if c == '2' {
        Some(2)
    } else if c == '3' {
        Some(3)
    } else if c == '4' {
        Some(4)
    } else if c == '5' {
        Some(5)
    } else if c == '6' {
        Some(6)
    } else if c == '7' {
        Some(7)
    } else if c == '8' {
        Some(8)
    } else if c == '9' {
        Some(9)
    } else if c == 'a' {
        Some(10)
    } else if c == 'b' {
        Some(11)
    } else if c == 'c' {
        Some(12)
    } else if c == 'd' {
        Some(13)
    } else if c == 'e' {
        Some(14)
    } else if c == 'f' {
        Some(15)
    } else {
        None
    }
}

/// Whether the code point `n` has one of the short escapes `\b \t \n \f \r`.
pub open spec fn has_short_escape(n: int) -> bool {
    n == 8 || n == 9 || n == 10 || n == 12 || n == 13
}

/// The characters that stand for `c` inside a literal.
pub open spec fn escape_char(c: char) -> Seq<char> {
    if c == '"' {
        seq!['\\', '"']
    } else if c == '\\' {
        seq!['\\', '\\']
    } else if c == '\u{08}' {
        seq!['\\', 'b']
    } else if c == '\u{0c}' {
        seq!['\\', 'f']
    } else if c == '\n' {
        seq!['\\', 'n']
    } else if c == '\r' {
        seq!['\\', 'r']
    } else if c == '\t' {
        seq!['\\', 't']
    } else if c <= '\u{1f}' {
        seq!['\\', 'u', '0', '0', hex_digit((c as int) / 16), hex_digit((c as int) % 16)]
    } else {
        seq![c]
    }
}

/// The characters that stand for `s` inside a literal.
pub open spec fn escaped(s: Seq<char>) -> Seq<char>
    decreases s.len(),
{
    if s.len() == 0 {
        Seq::empty()
    } else {
        escape_char(s[0]) + escaped(s.drop_first())
    }
}

/// The literal of `s`: its escaped characters between two double quotes.
pub open spec fn quote(s: Seq<char>) -> Seq<char> {
    seq!['"'] + escaped(s) + seq!['"']
}

/// The character that is encoded at position `i` of `t`, with the position
/// behind its encoding; `None` where no character is encoded there.
pub open spec fn read_char(t: Seq<char>, i: int) -> Option<(char, int)> {
    if !(0 <= i < t.len()) {
        None
    } else if t[i] == '\\' {
        if i + 1 >= t.len() {
            None
        } else if t[i + 1] == '"' {
            Some(('"', i + 2))
        } else if t[i + 1] == '\\' {
            Some(('\\', i + 2))
        } else if t[i + 1] == 'b' {
            Some(('\u{08}', i + 2))
        } else if t[i + 1] == 'f' {
            Some(('\u{0c}', i + 2))
        } else if t[i + 1] == 'n' {
            Some(('\n', i + 2))
        } else if t[i + 1] == 'r' {
            Some(('\r', i + 2))
        } else if t[i + 1] == 't' {
            Some(('\t', i + 2))
        } else if t[i + 1] == 'u' && i + 6 <= t.len() && t[i + 2] == '0' && t[i + 3] == '0' {
            match (hex_value(t[i + 4]), hex_value(t[i + 5])) {
                (Some(high), Some(low)) => {
                    let n = 16 * high + low;
                    if n < 0x20 && !has_short_escape(n) {
                        Some((n as char, i + 6))
                    } else {
                        None
                    }
                },
                _ => None,
            }
        } else {
            None
        }
    } else if t[i] == '"' || t[i] <= '\u{1f}' {
        None
    } else {
        Some((t[i], i + 1))
    }
}

/// The text whose escaped characters start at position `i` of `t` and end
/// before a double quote, with the position behind that quote.
pub open spec fn read_body(t: Seq<char>, i: int) -> Option<(Seq<char>, int)>
    decreases t.len() - i,
{
    if !(0 <= i < t.len()) {
        None
    } else if t[i] == '"' {
        Some((Seq::empty(), i + 1))
    } else {
        match read_char(t, i) {
            Some((c, j)) => match read_body(t, j) {
                Some((rest, k)) => Some((seq![c] + rest, k)),
                None => None,
            },
            None => None,
        }
    }
}

/// The text whose literal starts at position `i` of `t`, with the position
/// behind the literal.
pub open spec fn read_literal(t: Seq<char>, i: int) -> Option<(Seq<char>, int)> {
    if 0 <= i < t.len() && t[i] == '"' {
        read_body(t, i + 1)
    } else {
        None
    }
}

/// A block occurs at a position exactly when its two halves occur one
/// behind the other.
pub proof fn lemma_occurs_split(t: Seq<char>, a: Seq<char>, b: Seq<char>, i: int)
    ensures
        occurs_at(t, a + b, i) <==> occurs_at(t, a, i) && occurs_at(t, b, i + a.len()),
{
    if occurs_at(t, a + b, i) {
        assert forall|j: int| 0 <= j < a.len() implies t[i + j] == a[j] by {
            assert((a + b)[j] == a[j]);
        }
        assert forall|j: int| 0 <= j < b.len() implies t[i + a.len() + j] == b[j] by {
            assert((a + b)[a.len() + j] == b[j]);
        }
    }
    if occurs_at(t, a, i) && occurs_at(t, b, i + a.len()) {
        assert forall|j: int| 0 <= j < (a + b).len() implies t[i + j] == (a + b)[j] by {
            if j >= a.len() {
                assert(t[i + a.len() + (j - a.len())] == b[j - a.len()]);
            }
        }
    }
}

/// Where the encoding of `c` stands at position `i`, `read_char` finds `c`
/// there; and that position holds no double quote.
pub proof fn lemma_read_char_of_escape(t: Seq<char>, i: int, c: char)
    requires
        occurs_at(t, escape_char(c), i),
    ensures
        read_char(t, i) == Some((c, i + escape_char(c).len())),
        t[i] != '"',
{
    let e = escape_char(c);
    assert(t[i + 0] == e[0]);
    if e.len() >= 2 {
        assert(t[i + 1] == e[1]);
    }
    if e.len() == 6 {
        assert(t[i + 2] == e[2]);
        assert(t[i + 3] == e[3]);
        assert(t[i + 4] == e[4]);
        assert(t[i + 5] == e[5]);
        let n = c as int;
        assert(0 <= n < 0x20);
        assert(hex_value(hex_digit(n / 16)) == Some(n / 16));
        assert(hex_value(hex_digit(n % 16)) == Some(n % 16));
        assert(16 * (n / 16) + n % 16 == n);
        assert(n as char == c);
    }
}

/// Whatever `read_char` finds at position `i` stands there in its one
/// encoding.
pub proof fn lemma_escape_of_read_char(t: Seq<char>, i: int)
    ensures
        read_char(t, i) matches Some((c, j)) ==> occurs_at(t, escape_char(c), i) && j == i
            + escape_char(c).len(),
{
    if let Some((c, j)) = read_char(t, i) {
        if t[i] == '\\' && t[i + 1] == 'u' {
            let high = hex_value(t[i + 4])->0;
            let low = hex_value(t[i + 5])->0;
            let n = 16 * high + low;
            assert(c == n as char);
            assert(c as int == n);
            assert(n / 16 == high && n % 16 == low);
            assert(hex_digit(high) == t[i + 4]);
            assert(hex_digit(low) == t[i + 5]);
            assert(escape_char(c) =~= seq!['\\', 'u', '0', '0', t[i + 4], t[i + 5]]);
        }
    }
}

/// Where the escaped characters of `s` and a double quote stand at position
/// `i`, `read_body` finds `s` there.
pub proof fn lemma_read_body_of_escaped(t: Seq<char>, i: int, s: Seq<char>)
    requires
        occurs_at(t, escaped(s) + seq!['"'], i),
    ensures
        read_body(t, i) == Some((s, i + escaped(s).len() + 1)),
    decreases s.len(),
{
    lemma_occurs_split(t, escaped(s), seq!['"'], i);
    if s.len() == 0 {
        assert(t[i + 0] == seq!['"'][0]);
        assert(s =~= Seq::empty());
    } else {
        let c = s[0];
        let rest = s.drop_first();
        assert(escaped(s) + seq!['"'] =~= escape_char(c) + (escaped(rest) + seq!['"']));
        lemma_occurs_split(t, escape_char(c), escaped(rest) + seq!['"'], i);
        lemma_read_char_of_escape(t, i, c);
        lemma_read_body_of_escaped(t, i + escape_char(c).len(), rest);
        assert(seq![c] + rest =~= s);
    }
}

/// Whatever `read_body` finds at position `i` stands there as its escaped
/// characters and a double quote.
pub proof fn lemma_escaped_of_read_body(t: Seq<char>, i: int)
    ensures
        read_body(t, i) matches Some((s, k)) ==> occurs_at(t, escaped(s) + seq!['"'], i) && k == i
            + escaped(s).len() + 1,
    decreases t.len() - i,
{
    if let Some((s, k)) = read_body(t, i) {
        if t[i] == '"' {
            assert(escaped(s) + seq!['"'] =~= seq!['"']);
        } else {
            let (c, j) = read_char(t, i)->0;
            lemma_escape_of_read_char(t, i);
            lemma_escaped_of_read_body(t, j);
            let (rest, k2) = read_body(t, j)->0;
            assert(s == seq![c] + rest);
            assert(s[0] == c);
            assert(s.drop_first() =~= rest);
            assert(escaped(s) + seq!['"'] =~= escape_char(c) + (escaped(rest) + seq!['"']));
            lemma_occurs_split(t, escape_char(c), escaped(rest) + seq!['"'], i);
        }
    }
}

/// A literal opens with a double quote.
pub proof fn lemma_quote_opens(s: Seq<char>)
    ensures
        quote(s).len() >= 2,
        quote(s)[0] == '"',
{
    assert(quote(s) =~= seq!['"'] + (escaped(s) + seq!['"']));
}

/// Where the literal of `s` stands at position `i`, `read_literal` finds
/// `s` there.
pub proof fn lemma_read_literal_of_quote(t: Seq<char>, i: int, s: Seq<char>)
    requires
        occurs_at(t, quote(s), i),
    ensures
        read_literal(t, i) == Some((s, i + quote(s).len())),
{
    assert(quote(s) =~= seq!['"'] + (escaped(s) + seq!['"']));
    lemma_occurs_split(t, seq!['"'], escaped(s) + seq!['"'], i);
    assert(t[i + 0] == seq!['"'][0]);
    lemma_read_body_of_escaped(t, i + 1, s);
}

/// Whatever `read_literal` finds at position `i` stands there as its
/// literal.
pub proof fn lemma_quote_of_read_literal(t: Seq<char>, i: int)
    ensures
        read_literal(t, i) matches Some((s, k)) ==> occurs_at(t, quote(s), i) && k == i + quote(
            s,
        ).len(),
{
    if let Some((s, k)) = read_literal(t, i) {
        lemma_escaped_of_read_body(t, i + 1);
        assert(quote(s) =~= seq!['"'] + (escaped(s) + seq!['"']));
        assert(occurs_at(t, seq!['"'], i));
        lemma_occurs_split(t, seq!['"'], escaped(s) + seq!['"'], i);
    }
}

/// The lower-case hex digit for `n`.
fn hex_char(n: u32) -> (c: char)
    requires
        n < 16,
    ensures
        c == hex_digit(n as int),
{
    if n == 0 {
        '0'
    } else if n == 1 {
        '1'
    } else if n == 2 {
        '2'
    } else if n == 3 {
        '3'
    } else if n == 4 {
        '4'
    } else if n == 5 {
        '5'
    } else if n == 6 {
        '6'
    } else if n == 7 {
        '7'
    } else if n == 8 {
        '8'
    } else if n == 9 {
        '9'
    } else if n == 10 {
        'a'
    } else if n == 11 {
        'b'
    } else if n == 12 {
        'c'
    } else if n == 13 {
        'd'
    } else if n == 14 {
        'e'
    } else {
        'f'
    }
}

/// The number that the lower-case hex digit `c` stands for.
fn hex_number(c: char) -> (r: Option<u8>)
    ensures
        match r {
            Some(n) => hex_value(c) == Some(n as int),
            None => hex_value(c) is None,
        },
{
    if c == '0' {
        Some(0)
    } else if c == '1' {
        Some(1)
    } else if c == '2' {
        Some(2)
    } else if c == '3' {
        Some(3)
    } else if c == '4' {
        Some(4)
    } else if c == '5' {
        Some(5)
    } else if c == '6' {
        Some(6)
    } else if c == '7' {
        Some(7)
    } else if c == '8' {
        Some(8)
    } else if c == '9' {
        Some(9)
    } else if c == 'a' {
        Some(10)
    } else if c == 'b' {
        Some(11)
    } else if c == 'c' {
        Some(12)
    } else if c == 'd' {
        Some(13)
    } else if c == 'e' {
        Some(14)
    } else if c == 'f' {
        Some(15)
    } else {
        None
    }
}

/// Appends to `out` the characters that stand for `c` inside a literal.
pub fn push_escaped(out: &mut String, c: char)
    ensures
        final(out)@ == old(out)@ + escape_char(c),
{
    if c == '"' {
        out.push('\\');
        out.push('"');
    } else if c == '\\' {
        out.push('\\');
        out.push('\\');
    } else if c == '\u{08}' {
        out.push('\\');
        out.push('b');
    } else if c == '\u{0c}' {
        out.push('\\');
        out.push('f');
    } else if c == '\n' {
        out.push('\\');
        out.push('n');
    } else if c == '\r' {
        out.push('\\');
        out.push('r');
    } else if c == '\t' {
        out.push('\\');
        out.push('t');
    } else if c <= '\u{1f}' {
        let n: u32 = c as u32;
        out.push('\\');
        out.push('u');
        out.push('0');
        out.push('0');
        out.push(hex_char(n / 16));
        out.push(hex_char(n % 16));
    } else {
        out.push(c);
    }
    assert(out@ =~= old(out)@ + escape_char(c));
}

/// Appends to `out` the literal of the text `s`.
pub fn push_quoted(out: &mut String, s: &Vec<char>)
    ensures
        final(out)@ == old(out)@ + quote(s@),
{
    out.push('"');
    let mut i: usize = 0;
    assert(s@.skip(0) =~= s@);
    while i < s.len()
        invariant
            i <= s.len(),
            out@ + escaped(s@.skip(i as int)) == old(out)@ + seq!['"'] + escaped(s@),
        decreases s.len() - i,
    {
        let ghost before = out@;
        let ghost rest = s@.skip(i as int);
        push_escaped(out, s[i]);
        proof {
            assert(rest[0] == s@[i as int]);
            assert(rest.drop_first() =~= s@.skip(i + 1));
            assert(out@ + escaped(s@.skip(i + 1)) =~= before + escaped(rest));
        }
        i += 1;
    }
    out.push('"');
    proof {
        assert(s@.skip(s.len() as int) =~= Seq::<char>::empty());
        assert(out@ =~= old(out)@ + quote(s@));
    }
}

/// The character that is encoded at position `i` of `t`, with the position
/// behind its encoding.
fn read_char_at(t: &Vec<char>, i: usize) -> (r: Option<(char, usize)>)
    ensures
        match r {
            Some((c, j)) => read_char(t@, i as int) == Some((c, j as int)) && i < j <= t.len(),
            None => read_char(t@, i as int) is None,
        },
{
    if i >= t.len() {
        return None;
    }
    let c = t[i];
    if c == '\\' {
        if t.len() - i < 2 {
            return None;
        }
        let e = t[i + 1];
        if e == '"' {
            Some(('"', i + 2))
        } else if e == '\\' {
            Some(('\\', i + 2))
        } else if e == 'b' {
            Some(('\u{08}', i + 2))
        } else if e == 'f' {
            Some(('\u{0c}', i + 2))
        } else if e == 'n' {
            Some(('\n', i + 2))
        } else if e == 'r' {
            Some(('\r', i + 2))
        } else if e == 't' {
            Some(('\t', i + 2))
        } else if e == 'u' && t.len() - i >= 6 && t[i + 2] == '0' && t[i + 3] == '0' {
            match (hex_number(t[i + 4]), hex_number(t[i + 5])) {
                (Some(high), Some(low)) => {
                    let n: u8 = 16 * high + low;
                    if n < 0x20 && n != 8 && n != 9 && n != 10 && n != 12 && n != 13 {
                        Some((n as char, i + 6))
                    } else {
                        None
                    }
                },
                _ => None,
            }
        } else {
            None
        }
    } else if c == '"' || c <= '\u{1f}' {
        None
    } else {
        Some((c, i + 1))
    }
}

/// Reads the literal that starts at position `i` of `t`: the text it
/// stands for and the position behind it.
pub fn read_literal_at(t: &Vec<char>, i: usize) -> (r: Option<(String, usize)>)
    ensures
        match r {
            Some((s, j)) => read_literal(t@, i as int) == Some((s@, j as int)) && i < j <= t.len(),
            None => read_literal(t@, i as int) is None,
        },
{
    if i >= t.len() || t[i] != '"' {
        return None;
    }
    let mut s = String::new();
    let mut p: usize = i + 1;
    loop
        invariant
            i < p <= t.len(),
            read_literal(t@, i as int) == (match read_body(t@, p as int) {
                Some((rest, k)) => Some((s@ + rest, k)),
                None => None,
            }),
        decreases t.len() - p,
    {
        if p >= t.len() {
            return None;
        }
        if t[p] == '"' {
            proof {
                assert(s@ + Seq::<char>::empty() =~= s@);
            }
            return Some((s, p + 1));
        }
        match read_char_at(t, p) {
            Some((c, j)) => {
                proof {
                    let ghost before = s@;
                    assert forall|rest: Seq<char>| before + (seq![c] + rest) == before.push(c)
                        + rest by {
                        assert(before + (seq![c] + rest) =~= before.push(c) + rest);
                    }
                }
                s.push(c);
                p = j;
            },
            None => {
                return None;
            },
        }
    }
}

} // verus!
