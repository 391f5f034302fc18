//! Double-quoted string literals with Rust's default character escapes.
use crate::doc::is_printable_ascii;
use crate::research::push_char;
use vstd::prelude::*;

verus! {

/// The lowercase hexadecimal digit of `n`, below sixteen.
pub open spec fn hex_digit(n: nat) -> char {
    if n == 0 {
        '0'
    } else if n == 1 {
        '1'
    } else if n == 2 {
        '2'
    } else if n == 3 {
        '3'
    } else if n == 4 {
        '4'
    } else if n == 5 {
        '5'
    } else if n == 6 {
        '6'
    } else if n == 7 {
        '7'
    } else if n == 8 {
        '8'
    } else if n == 9 {
        '9'
    } else if n == 10 {
        'a'
    } else if n == 11 {
        'b'
    } else if n == 12 {
        'c'
    } else if n == 13 {
        'd'
    } else if n == 14 {
        'e'
    } else {
        'f'
    }
}

/// The shortest lowercase hexadecimal representation of `n`.
pub open spec fn hex(n: nat) -> Seq<char>
    decreases n,
{
    if n < 16 {
        seq![hex_digit(n)]
    } else {
        hex(n / 16).push(hex_digit(n % 16))
    }
}

/// The default escape of one character: backslash escapes for tab,
/// carriage return, line feed, quotes and backslash, printable ASCII as
/// itself, and `\u{...}` with the scalar value in hexadecimal otherwise.
pub open spec fn escape_char(c: char) -> Seq<char> {
    if c == '\t' {
        seq!['\\', 't']
    } else if c == '\r' {
        seq!['\\', 'r']
    } else if c == '\n' {
        seq!['\\', 'n']
    } else if c == '\'' {
        seq!['\\', '\'']
    } else if c == '"' {
        seq!['\\', '"']
    } else if c == '\\' {
        seq!['\\', '\\']
    } else if 0x20 <= c as u32 <= 0x7e {
        seq![c]
    } else {
        seq!['\\', 'u', '{'] + hex(c as u32 as nat) + seq!['}']
    }
}

/// The default escape of every character of `s`.
pub open spec fn escape(s: Seq<char>) -> Seq<char>
    decreases s.len(),
{
    if s.len() == 0 {
        seq![]
    } else {
        escape(s.drop_last()) + escape_char(s.last())
    }
}

/// `s` escaped and between double quotes.
pub open spec fn quoted(s: Seq<char>) -> Seq<char> {
    seq!['"'] + escape(s) + seq!['"']
}

proof fn lemma_hex_ascii(n: nat)
    ensures
        is_printable_ascii(hex(n)),
        1 <= hex(n).len(),
    decreases n,
{
    if n >= 16 {
        lemma_hex_ascii(n / 16);
        assert(is_printable_ascii(hex(n))) by {
            assert forall|i: int| 0 <= i < hex(n).len() implies 0x20 <= (#[trigger] hex(n)[i]) as u32 <= 0x7e by {
                if i < hex(n / 16).len() {
                    assert(hex(n)[i] == hex(n / 16)[i]);
                }
            }
        }
    }
}

/// The hexadecimal representation of `n` has at most six digits below
/// `0x110000`.
proof fn lemma_hex_len(n: nat)
    requires
        n <= 0x10ffff,
    ensures
        hex(n).len() <= 6,
{
    if n < 16 {
    } else if n < 0x100 {
        assert(hex(n / 16).len() == 1);
    } else if n < 0x1000 {
        assert(hex(n / 16 / 16).len() == 1);
        assert(hex(n / 16).len() == 2);
    } else if n < 0x10000 {
        assert(hex(n / 16 / 16 / 16).len() == 1);
        assert(hex(n / 16 / 16).len() == 2);
        assert(hex(n / 16).len() == 3);
    } else if n < 0x100000 {
        assert(hex(n / 16 / 16 / 16 / 16).len() == 1);
        assert(hex(n / 16 / 16 / 16).len() == 2);
        assert(hex(n / 16 / 16).len() == 3);
        assert(hex(n / 16).len() == 4);
    } else {
        assert(hex(n / 16 / 16 / 16 / 16 / 16).len() == 1);
        assert(hex(n / 16 / 16 / 16 / 16).len() == 2);
        assert(hex(n / 16 / 16 / 16).len() == 3);
        assert(hex(n / 16 / 16).len() == 4);
        assert(hex(n / 16).len() == 5);
    }
}

/// An escaped character is printable ASCII of at most ten characters.
proof fn lemma_escape_char(c: char)
    ensures
        is_printable_ascii(escape_char(c)),
        escape_char(c).len() <= 10,
{
    if !(c == '\t' || c == '\r' || c == '\n' || c == '\'' || c == '"' || c == '\\' || 0x20 <= c as u32 <= 0x7e) {
        let h = hex(c as u32 as nat);
        lemma_hex_ascii(c as u32 as nat);
        lemma_hex_len(c as u32 as nat);
        let e = seq!['\\', 'u', '{'] + h + seq!['}'];
        assert forall|i: int| 0 <= i < e.len() implies 0x20 <= (#[trigger] e[i]) as u32 <= 0x7e by {
            if 3 <= i < 3 + h.len() {
                assert(e[i] == h[i - 3]);
            }
        }
    }
}

/// An escaped string is printable ASCII of at most ten characters per
/// character.
pub proof fn lemma_escape(s: Seq<char>)
    ensures
        is_printable_ascii(escape(s)),
        escape(s).len() <= 10 * s.len(),
    decreases s.len(),
{
    if s.len() > 0 {
        lemma_escape(s.drop_last());
        lemma_escape_char(s.last());
        let a = escape(s.drop_last());
        let b = escape_char(s.last());
        assert forall|i: int| 0 <= i < (a + b).len() implies 0x20 <= (#[trigger] (a + b)[i]) as u32 <= 0x7e by {
            if i < a.len() {
                assert((a + b)[i] == a[i]);
            } else {
                assert((a + b)[i] == b[i - a.len()]);
            }
        }
    }
}

fn hex_digit_char(n: u32) -> (r: char)
    requires
        n < 16,
    ensures
        r == hex_digit(n as nat),
{
    if n == 0 {
        '0'
    } else if n == 1 {
        '1'
    } else if n == 2 {
        '2'
    } else if n == 3 {
        '3'
    } else if n == 4 {
        '4'
    } else if n == 5 {
        '5'
    } else if n == 6 {
        '6'
    } else if n == 7 {
        '7'
    } else if n == 8 {
        '8'
    } else if n == 9 {
        '9'
    } else if n == 10 {
        'a'
    } else if n == 11 {
        'b'
    } else if n == 12 {
        'c'
    } else if n == 13 {
        'd'
    } else if n == 14 {
        'e'
    } else {
        'f'
    }
}

fn push_hex(out: &mut String, n: u32)
    ensures
        final(out)@ == old(out)@ + hex(n as nat),
    decreases n,
{
    if n >= 16 {
        push_hex(out, n / 16);
    }
    push_char(out, hex_digit_char(n % 16));
    proof {
        if n >= 16 {
            assert(final(out)@ =~= old(out)@ + hex(n as nat));
        } else {
            assert(final(out)@ =~= old(out)@ + hex(n as nat));
        }
    }
}

fn push_escaped(out: &mut String, c: char)
    ensures
        final(out)@ == old(out)@ + escape_char(c),
{
    let ghost start = out@;
    if c == '\t' {
        push_char(out, '\\');
        push_char(out, 't');
    } else if c == '\r' {
        push_char(out, '\\');
        push_char(out, 'r');
    } else if c == '\n' {
        push_char(out, '\\');
        push_char(out, 'n');
    } else if c == '\'' {
        push_char(out, '\\');
        push_char(out, '\'');
    } else if c == '"' {
        push_char(out, '\\');
        push_char(out, '"');
    } else if c == '\\' {
        push_char(out, '\\');
        push_char(out, '\\');
    } else if 0x20 <= c as u32 && c as u32 <= 0x7e {
        push_char(out, c);
    } else {
        push_char(out, '\\');
        push_char(out, 'u');
        push_char(out, '{');
        push_hex(out, c as u32);
        push_char(out, '}');
    }
    assert(out@ =~= start + escape_char(c));
}

/// `s` between double quotes with every character escaped by its default
/// escape, as `format!("\"{}\"", s.escape_default())` writes it.
pub fn quote(s: &str) -> (r: String)
    ensures
        r@ == quoted(s@),
        is_printable_ascii(r@),
        r@.len() <= 10 * s@.len() + 2,
{
    let mut out = String::new();
    push_char(&mut out, '"');
    let n = s.unicode_len();
    let mut i: usize = 0;
    while i < n
        invariant
            n == s@.len(),
            i <= n,
            out@ == seq!['"'] + escape(s@.take(i as int)),
        decreases n - i,
    {
        let c = s.get_char(i);
        push_escaped(&mut out, c);
        proof {
            assert(s@.take(i as int + 1).drop_last() =~= s@.take(i as int));
            assert(s@.take(i as int + 1).last() == c);
            assert(out@ =~= seq!['"'] + escape(s@.take(i as int + 1)));
        }
        i = i + 1;
    }
    push_char(&mut out, '"');
    proof {
        assert(s@.take(n as int) =~= s@);
        lemma_escape(s@);
        let q = quoted(s@);
        assert(out@ =~= q);
        assert forall|j: int| 0 <= j < q.len() implies 0x20 <= (#[trigger] q[j]) as u32 <= 0x7e by {
            if 1 <= j < 1 + escape(s@).len() {
                assert(q[j] == escape(s@)[j - 1]);
            }
        }
    }
    out
}

} // verus!
