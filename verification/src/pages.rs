//! What the pages around the engine compute from their tables: the text of
//! a combinator's example with its arguments written out, how a symbol is
//! set, where its diagram lies, and whether a constant is described.
use crate::editor::push_range;
use crate::show::{digits, push_char, push_digits};
use vstd::prelude::*;

verus! {

/// Argument `i` of an example: a blank, then the three numbers from
/// `3 * i + 1` on, joined by `_`.
pub open spec fn argument_text(i: nat) -> Seq<char> {
    seq![' '] + digits(3 * i + 1) + seq!['_'] + digits(3 * i + 2) + seq!['_'] + digits(3 * i + 3)
}

/// The first `n` arguments one after another.
pub open spec fn arguments_text(n: nat) -> Seq<char>
    decreases n,
{
    if n == 0 {
        Seq::empty()
    } else {
        arguments_text((n - 1) as nat) + argument_text((n - 1) as nat)
    }
}

/// One line of an example: a comment, which starts with `#`, stays as it
/// is; any other line is followed by its arguments and two blanks.
pub open spec fn line_text(line: Seq<char>, inputs: nat) -> Seq<char> {
    if line.len() > 0 && line[0] == '#' {
        line
    } else {
        line + arguments_text(inputs) + seq![' ', ' ']
    }
}

/// How many characters stand between place `from` of `s` and the next
/// line feed, or the end.
pub open spec fn line_len(s: Seq<char>, from: nat) -> nat
    decreases s.len() - from,
{
    if from >= s.len() || s[from as int] == '\n' {
        0
    } else {
        1 + line_len(s, from + 1)
    }
}

/// The line that starts at place `from` of `s`, without the line feed that
/// ends it and without a carriage return in front of that line feed.
pub open spec fn line_at(s: Seq<char>, from: nat) -> Seq<char> {
    let stop = from + line_len(s, from);
    if stop < s.len() && stop > from && s[stop - 1] == '\r' {
        s.subrange(from as int, stop - 1)
    } else {
        s.subrange(from as int, stop as int)
    }
}

/// The lines of `s` from place `from` on. A line ends at a line feed or at
/// the end of the text; a text that ends in a line feed has no empty line
/// after it.
pub open spec fn lines_from(s: Seq<char>, from: nat) -> Seq<Seq<char>>
    decreases s.len() - from,
{
    if from >= s.len() {
        Seq::empty()
    } else if from + line_len(s, from) >= s.len() {
        seq![line_at(s, from)]
    } else {
        seq![line_at(s, from)] + lines_from(s, from + line_len(s, from) + 1)
    }
}

/// The texts of the given lines with a line feed between each two.
pub open spec fn joined(lines: Seq<Seq<char>>, inputs: nat) -> Seq<char>
    decreases lines.len(),
{
    if lines.len() == 0 {
        Seq::empty()
    } else if lines.len() == 1 {
        line_text(lines[0], inputs)
    } else {
        line_text(lines[0], inputs) + seq!['\n'] + joined(lines.drop_first(), inputs)
    }
}

/// What is still to be written when the lines from `from` on are left:
/// nothing where none is left, else the lines, after a line feed unless
/// they are the first.
pub open spec fn remaining(s: Seq<char>, from: nat, inputs: nat) -> Seq<char> {
    let lines = lines_from(s, from);
    if lines.len() == 0 {
        Seq::empty()
    } else if from == 0 {
        joined(lines, inputs)
    } else {
        seq!['\n'] + joined(lines, inputs)
    }
}

proof fn lemma_remaining(s: Seq<char>, from: nat, inputs: nat)
    requires
        from < s.len(),
    ensures
        joined(lines_from(s, from), inputs) == line_text(line_at(s, from), inputs) + remaining(
            s,
            from + line_len(s, from) + 1,
            inputs,
        ),
{
    let lines = lines_from(s, from);
    let rest = lines_from(s, from + line_len(s, from) + 1);
    assert(lines.drop_first() =~= rest);
    let head = line_text(line_at(s, from), inputs);
    if rest.len() == 0 {
        assert(head + Seq::<char>::empty() =~= head);
    } else {
        assert(head + seq!['\n'] + joined(rest, inputs) =~= head + (seq!['\n'] + joined(
            rest,
            inputs,
        )));
    }
}

fn push_arguments(out: &mut String, inputs: usize)
    requires
        3 * inputs + 3 <= u64::MAX,
    ensures
        final(out)@ == old(out)@ + arguments_text(inputs as nat),
{
    let mut i: usize = 0;
    assert(out@ =~= old(out)@ + arguments_text(0));
    while i < inputs
        invariant
            i <= inputs,
            3 * inputs + 3 <= u64::MAX,
            out@ == old(out)@ + arguments_text(i as nat),
        decreases inputs - i,
    {
        let ghost before = out@;
        let a: u64 = (i as u64) * 3 + 1;
        push_char(out, ' ');
        push_digits(out, a);
        push_char(out, '_');
        push_digits(out, a + 1);
        push_char(out, '_');
        push_digits(out, a + 2);
        assert(out@ =~= before + argument_text(i as nat));
        i += 1;
        assert(out@ =~= old(out)@ + arguments_text(i as nat));
    }
}

/// Where the line that starts at place `from` ends.
fn line_stop(text: &str, from: usize) -> (stop: usize)
    requires
        from <= text@.len(),
    ensures
        stop == from + line_len(text@, from as nat),
        stop <= text@.len(),
{
    let len = text.unicode_len();
    let mut stop: usize = from;
    while stop < len && text.get_char(stop) != '\n'
        invariant
            from <= stop <= len,
            len == text@.len(),
            line_len(text@, from as nat) == (stop - from) + line_len(text@, stop as nat),
        decreases len - stop,
    {
        stop += 1;
    }
    stop
}

/// Appends the text of the line that starts at place `from`, and gives the
/// place where that line stops.
fn push_line(out: &mut String, text: &str, from: usize, inputs: usize) -> (stop: usize)
    requires
        from < text@.len(),
        3 * inputs + 3 <= u64::MAX,
    ensures
        stop == from + line_len(text@, from as nat),
        stop <= text@.len(),
        final(out)@ == old(out)@ + line_text(line_at(text@, from as nat), inputs as nat),
{
    let len = text.unicode_len();
    let stop = line_stop(text, from);
    let end = if stop < len && stop > from && text.get_char(stop - 1) == '\r' {
        stop - 1
    } else {
        stop
    };
    let ghost line = line_at(text@, from as nat);
    assert(line == text@.subrange(from as int, end as int));
    push_range(out, text, from, end);
    if end > from && text.get_char(from) == '#' {
        assert(line[0] == '#');
    } else {
        assert(line.len() > 0 ==> line[0] == text@[from as int]);
        let ghost mid = out@;
        push_arguments(out, inputs);
        push_char(out, ' ');
        push_char(out, ' ');
        assert(out@ =~= mid + arguments_text(inputs as nat) + seq![' ', ' ']);
        assert(out@ =~= old(out)@ + (line + arguments_text(inputs as nat) + seq![' ', ' ']));
    }
    stop
}

/// The text of an example as it is put into an editor: every line that is
/// no comment gets the example's `inputs` arguments and two blanks behind
/// it, and the lines are joined by line feeds.
pub fn example_text(example: &str, inputs: usize) -> (r: String)
    requires
        3 * inputs + 3 <= u64::MAX,
    ensures
        r@ == joined(lines_from(example@, 0), inputs as nat),
{
    let ghost s = example@;
    let len = example.unicode_len();
    let mut out = String::new();
    let mut from: usize = 0;
    assert(out@ + remaining(s, 0, inputs as nat) =~= joined(lines_from(s, 0), inputs as nat));
    while from < len
        invariant
            from <= len,
            len == s.len(),
            s == example@,
            3 * inputs + 3 <= u64::MAX,
            out@ + remaining(s, from as nat, inputs as nat) == joined(
                lines_from(s, 0),
                inputs as nat,
            ),
        decreases len - from,
    {
        let ghost before = out@;
        if from > 0 {
            push_char(&mut out, '\n');
        }
        let ghost mid = out@;
        let stop = push_line(&mut out, example, from, inputs);
        proof {
            lemma_remaining(s, from as nat, inputs as nat);
            let text = line_text(line_at(s, from as nat), inputs as nat);
            let rest = remaining(s, (stop + 1) as nat, inputs as nat);
            assert(mid + text + rest =~= before + remaining(s, from as nat, inputs as nat));
            if stop >= len {
                assert(lines_from(s, (stop + 1) as nat) =~= lines_from(s, len as nat));
            }
        }
        from = if stop < len {
            stop + 1
        } else {
            len
        };
    }
    assert(out@ + Seq::<char>::empty() =~= out@);
    out
}

/// Whether a combinator's symbol is one of those that carry a footnote.
pub open spec fn footnoted(symbol: Seq<char>) -> bool {
    symbol == seq!['N'] || symbol == seq!['ν'] || symbol == seq!['X'] || symbol == seq!['χ']
        || symbol == seq!['R'] || symbol == seq!['ρ']
}

/// Whether the combinator with this symbol carries a footnote.
pub fn has_footnote(symbol: &str) -> (r: bool)
    ensures
        r == footnoted(symbol@),
{
    if symbol.unicode_len() != 1 {
        return false;
    }
    let c = symbol.get_char(0);
    assert(symbol@ =~= seq![c]);
    assert(symbol@[0] == c);
    c == 'N' || c == 'ν' || c == 'X' || c == 'χ' || c == 'R' || c == 'ρ'
}

/// Whether a character is one of the ten ASCII digits.
pub open spec fn is_digit(c: char) -> bool {
    '0' <= c && c <= '9'
}

/// The ASCII digits at the end of `s`, the last one first.
pub open spec fn digits_behind(s: Seq<char>) -> Seq<char>
    decreases s.len(),
{
    if s.len() > 0 && is_digit(s.last()) {
        seq![s.last()] + digits_behind(s.drop_last())
    } else {
        Seq::empty()
    }
}

/// The two parts in which a symbol is set: the symbol without a digit at
/// its end, and the digits at its end, the last one first, which go below
/// the line.
pub open spec fn subscript_parts(symbol: Seq<char>) -> (Seq<char>, Seq<char>) {
    if symbol.len() > 0 && is_digit(symbol.last()) {
        (symbol.drop_last(), digits_behind(symbol))
    } else {
        (symbol, Seq::empty())
    }
}

fn digit_at(text: &str, i: usize) -> (r: bool)
    requires
        i < text@.len(),
    ensures
        r == is_digit(text@[i as int]),
{
    let c = text.get_char(i);
    '0' <= c && c <= '9'
}

/// Splits a symbol into what stands on the line and what goes below it.
/// A symbol that ends in one digit is split in front of that digit.
pub fn split_subscript(symbol: &str) -> (r: (String, String))
    ensures
        (r.0@, r.1@) == subscript_parts(symbol@),
        digits_behind(symbol@).len() <= 1 ==> r.0@ + r.1@ == symbol@,
{
    let ghost s = symbol@;
    let len = symbol.unicode_len();
    let mut main = String::new();
    let mut sub = String::new();
    if len == 0 || !digit_at(symbol, len - 1) {
        push_range(&mut main, symbol, 0, len);
        assert(s.subrange(0, len as int) =~= s);
        assert(main@ =~= s);
        assert(main@ + sub@ =~= s);
        return (main, sub);
    }
    push_range(&mut main, symbol, 0, len - 1);
    assert(main@ =~= s.drop_last());
    let mut n: usize = len;
    assert(s.take(n as int) =~= s);
    while n > 0 && digit_at(symbol, n - 1)
        invariant
            n <= len,
            len == s.len(),
            s == symbol@,
            sub@ + digits_behind(s.take(n as int)) == digits_behind(s),
        decreases n,
    {
        let ghost before = sub@;
        let ghost front = s.take(n as int);
        push_char(&mut sub, symbol.get_char(n - 1));
        n -= 1;
        proof {
            assert(front.last() == s[n as int]);
            assert(front.drop_last() =~= s.take(n as int));
            assert(sub@ + digits_behind(s.take(n as int)) =~= before + digits_behind(front));
        }
    }
    proof {
        let front = s.take(n as int);
        assert(n > 0 ==> front.last() == s[n - 1]);
        assert(digits_behind(front) =~= Seq::<char>::empty());
        assert(sub@ + Seq::<char>::empty() =~= sub@);
        if digits_behind(s).len() <= 1 {
            assert(digits_behind(s) =~= seq![s.last()] + digits_behind(s.drop_last()));
            assert(digits_behind(s.drop_last()).len() == 0);
            assert(sub@ =~= seq![s.last()]);
            assert(main@ + sub@ =~= s);
        }
    }
    (main, sub)
}

/// Where the diagram of the combinator with this symbol lies.
pub fn diagram_path(symbol: &str) -> (r: String)
    ensures
        r@ == "/combinators/"@ + symbol@ + ".svg"@,
{
    let mut out = "/combinators/".to_owned();
    let ghost head = out@;
    push_range(&mut out, symbol, 0, symbol.unicode_len());
    assert(symbol@.subrange(0, symbol@.len() as int) =~= symbol@);
    let tail = ".svg";
    push_range(&mut out, tail, 0, tail.unicode_len());
    assert(tail@.subrange(0, tail@.len() as int) =~= tail@);
    out
}

/// The characters that count as white space: the blank, the controls from
/// tab to carriage return, the next-line control, and the spaces and
/// separators beyond ASCII.
pub open spec fn is_white_space(c: char) -> bool {
    let n = c as u32;
    (0x09 <= n <= 0x0d) || n == 0x20 || n == 0x85 || n == 0xa0 || n == 0x1680 || (0x2000 <= n
        <= 0x200a) || n == 0x2028 || n == 0x2029 || n == 0x202f || n == 0x205f || n == 0x3000
}

/// Whether a text holds anything but white space.
pub open spec fn texted(doc: Seq<char>) -> bool {
    exists|i: int| 0 <= i < doc.len() && !is_white_space(#[trigger] doc[i])
}

fn white_space(c: char) -> (r: bool)
    ensures
        r == is_white_space(c),
{
    let n: u32 = c as u32;
    (0x09 <= n && n <= 0x0d) || n == 0x20 || n == 0x85 || n == 0xa0 || n == 0x1680 || (0x2000
        <= n && n <= 0x200a) || n == 0x2028 || n == 0x2029 || n == 0x202f || n == 0x205f || n
        == 0x3000
}

/// Whether a description says anything: whether it holds a character that
/// is no white space.
pub fn has_text(doc: &str) -> (r: bool)
    ensures
        r == texted(doc@),
{
    let len = doc.unicode_len();
    let mut i: usize = 0;
    while i < len
        invariant
            i <= len,
            len == doc@.len(),
            forall|k: int| 0 <= k < i ==> is_white_space(#[trigger] doc@[k]),
        decreases len - i,
    {
        if !white_space(doc.get_char(i)) {
            return true;
        }
        i += 1;
    }
    false
}

} // verus!
