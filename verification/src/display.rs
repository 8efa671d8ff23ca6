//! The live terminal table of register values: its layout and its ANSI styles.
use vstd::prelude::*;
use vstd::string::*;
use colored::Colorize;
use crate::clock::local_time_label;
use crate::text::{decimal, digit_char, lemma_decimal_len, push_decimal, push_str};

verus! {

/// Width of the register column.
pub const COL_REG: usize = 12;
/// Width of the decimal value column.
pub const COL_DEC: usize = 14;
/// Width of the hexadecimal value column.
pub const COL_HEX: usize = 12;

/// Whether `s` holds no escape character (so no ANSI sequence).
pub open spec fn no_escape(s: Seq<char>) -> bool {
    forall|i: int| 0 <= i < s.len() ==> s[i] != '\x1b'
}

/// The sequence that ends every style.
pub open spec fn reset_code() -> Seq<char> {
    seq!['\x1b', '[', '0', 'm']
}

/// The SGR parameters of bold cyan text.
pub open spec fn bold_cyan_code() -> Seq<char> {
    seq!['1', ';', '3', '6']
}

/// The SGR parameters of bold text.
pub open spec fn bold_code() -> Seq<char> {
    seq!['1']
}

/// The SGR parameters of dimmed text.
pub open spec fn dimmed_code() -> Seq<char> {
    seq!['2']
}

/// Whether `out` is `text` as colored prints it with the SGR parameters `code`:
/// wrapped in the style sequence and the reset where colors are on, the bare
/// text where they are off (terminal, `NO_COLOR`, `CLICOLOR`, `CLICOLOR_FORCE`,
/// or an override), and the text with a lone reset where the override changes
/// between colored's two reads of it.
pub open spec fn styled(out: Seq<char>, text: Seq<char>, code: Seq<char>) -> bool {
    ||| out == text
    ||| out == seq!['\x1b', '['] + code + seq!['m'] + text + reset_code()
    ||| out == text + reset_code()
}

/// `text.bold().cyan().to_string()` (colored): the text in bold cyan, or bare
/// where colored decides against colors (see `styled`).
#[verifier::external_body]
fn paint_bold_cyan(text: &str) -> (out: String)
    requires
        no_escape(text@),
    ensures
        styled(out@, text@, bold_cyan_code()),
{
    text.bold().cyan().to_string()
}

/// `text.bold().to_string()` (colored): the text in bold, or bare where
/// colored decides against colors (see `styled`).
#[verifier::external_body]
fn paint_bold(text: &str) -> (out: String)
    requires
        no_escape(text@),
    ensures
        styled(out@, text@, bold_code()),
{
    text.bold().to_string()
}

/// `text.dimmed().to_string()` (colored): the text dimmed, or bare where
/// colored decides against colors (see `styled`).
#[verifier::external_body]
fn paint_dimmed(text: &str) -> (out: String)
    requires
        no_escape(text@),
    ensures
        styled(out@, text@, dimmed_code()),
{
    text.dimmed().to_string()
}

/// `n` copies of `c`.
pub open spec fn repeat(c: char, n: nat) -> Seq<char> {
    Seq::new(n, |i: int| c)
}

/// `s` right-aligned in `width` characters with `fill`, as `{:>width$}` does
/// (a longer text is left as it is).
pub open spec fn pad_left(s: Seq<char>, width: nat, fill: char) -> Seq<char> {
    if s.len() < width {
        repeat(fill, (width - s.len()) as nat) + s
    } else {
        s
    }
}

/// Two spaces, between columns and before every line.
pub open spec fn gap() -> Seq<char> {
    seq![' ', ' ']
}

/// The column titles.
pub open spec fn register_title() -> Seq<char> {
    seq!['R', 'e', 'g', 'i', 's', 't', 'e', 'r']
}

pub open spec fn dec_title() -> Seq<char> {
    seq!['V', 'a', 'l', 'u', 'e', ' ', '(', 'd', 'e', 'c', ')']
}

pub open spec fn hex_title() -> Seq<char> {
    seq!['V', 'a', 'l', 'u', 'e', ' ', '(', 'h', 'e', 'x', ')']
}

/// The program name shown above the table.
pub open spec fn app_title() -> Seq<char> {
    seq!['M', 'o', 'd', 'B', 'r', 'i', 'd', 'g', 'e']
}

/// The hexadecimal digit of `d` (0 to 15), upper case.
pub open spec fn hex_digit(d: int) -> char {
    if d < 10 {
        digit_char(d)
    } else {
        (d - 10 + 'A' as int) as char
    }
}

/// `v` as `format!("0x{v:04X}")` writes it: "0x" and four upper-case hex digits.
pub open spec fn hex4(v: u16) -> Seq<char> {
    let n = v as int;
    seq!['0', 'x', hex_digit(n / 4096), hex_digit((n / 256) % 16), hex_digit((n / 16) % 16), hex_digit(n % 16)]
}

/// The plain text of the separator line.
pub open spec fn separator_text() -> Seq<char> {
    repeat('-', COL_REG as nat) + gap() + repeat('-', COL_DEC as nat) + gap() + repeat('-', COL_HEX as nat)
}

/// Whether `line` is the header line: the three titles, right-aligned in their
/// columns and each in bold cyan, two spaces apart.
pub open spec fn is_header_line(line: Seq<char>) -> bool {
    exists|a: Seq<char>, b: Seq<char>, c: Seq<char>|
        #![trigger styled(a, pad_left(register_title(), COL_REG as nat, ' '), bold_cyan_code()), styled(b, pad_left(dec_title(), COL_DEC as nat, ' '), bold_cyan_code()), styled(c, pad_left(hex_title(), COL_HEX as nat, ' '), bold_cyan_code())]
        styled(a, pad_left(register_title(), COL_REG as nat, ' '), bold_cyan_code())
        && styled(b, pad_left(dec_title(), COL_DEC as nat, ' '), bold_cyan_code())
        && styled(c, pad_left(hex_title(), COL_HEX as nat, ' '), bold_cyan_code())
        && line == a + gap() + b + gap() + c
}

/// Whether `line` is the row of register `addr` holding `val`: the register in
/// bold, the value in decimal, and the value in hex dimmed, each right-aligned
/// in its column, after two spaces and two spaces apart.
pub open spec fn is_row_line(line: Seq<char>, addr: u16, val: u16) -> bool {
    exists|a: Seq<char>, c: Seq<char>|
        #![trigger styled(a, pad_left(decimal(addr as nat), COL_REG as nat, ' '), bold_code()), styled(c, pad_left(hex4(val), COL_HEX as nat, ' '), dimmed_code())]
        styled(a, pad_left(decimal(addr as nat), COL_REG as nat, ' '), bold_code())
        && styled(c, pad_left(hex4(val), COL_HEX as nat, ' '), dimmed_code())
        && line == gap() + a + gap() + pad_left(decimal(val as nat), COL_DEC as nat, ' ') + gap() + c
}

/// Whether `line` is the title line of a table rendered at `timestamp`: a line
/// break, two spaces, the program name in bold cyan, two spaces, and the
/// timestamp dimmed.
pub open spec fn is_title_line(line: Seq<char>, timestamp: Seq<char>) -> bool {
    exists|a: Seq<char>, b: Seq<char>|
        #![trigger styled(a, app_title(), bold_cyan_code()), styled(b, timestamp, dimmed_code())]
        styled(a, app_title(), bold_cyan_code()) && styled(b, timestamp, dimmed_code())
        && line == seq!['\n'] + gap() + a + gap() + b
}

/// The three cells of a line laid out in the table's columns, two spaces
/// apart.
pub open spec fn columns(a: Seq<char>, b: Seq<char>, c: Seq<char>) -> Seq<char> {
    a + gap() + b + gap() + c
}

/// The header line without its styles.
pub open spec fn plain_header() -> Seq<char> {
    columns(
        pad_left(register_title(), COL_REG as nat, ' '),
        pad_left(dec_title(), COL_DEC as nat, ' '),
        pad_left(hex_title(), COL_HEX as nat, ' '),
    )
}

/// The row of register `addr` holding `val`, without its indent and styles.
pub open spec fn plain_row(addr: u16, val: u16) -> Seq<char> {
    columns(
        pad_left(decimal(addr as nat), COL_REG as nat, ' '),
        pad_left(decimal(val as nat), COL_DEC as nat, ' '),
        pad_left(hex4(val), COL_HEX as nat, ' '),
    )
}

/// Whether `line` holds three cells exactly in the table's columns: 42
/// characters, cells at `[0, 12)`, `[14, 28)` and `[30, 42)` with these texts,
/// and two spaces at `[12, 14)` and `[28, 30)`.
pub open spec fn in_columns(line: Seq<char>, a: Seq<char>, b: Seq<char>, c: Seq<char>) -> bool {
    &&& line.len() == 42
    &&& line.subrange(0, 12) == a
    &&& line.subrange(12, 14) == gap()
    &&& line.subrange(14, 28) == b
    &&& line.subrange(28, 30) == gap()
    &&& line.subrange(30, 42) == c
}

proof fn lemma_pad_exact(s: Seq<char>, width: nat, fill: char)
    requires
        s.len() <= width,
    ensures
        pad_left(s, width, fill).len() == width,
{
}

proof fn lemma_columns(a: Seq<char>, b: Seq<char>, c: Seq<char>)
    requires
        a.len() == COL_REG,
        b.len() == COL_DEC,
        c.len() == COL_HEX,
    ensures
        in_columns(columns(a, b, c), a, b, c),
{
    let l = columns(a, b, c);
    assert(l.subrange(0, 12) =~= a);
    assert(l.subrange(12, 14) =~= gap());
    assert(l.subrange(14, 28) =~= b);
    assert(l.subrange(28, 30) =~= gap());
    assert(l.subrange(30, 42) =~= c);
}

/// The header, the separator and every row line up: each, without its styles
/// (and a row without its indent), is 42 characters of three right-aligned
/// cells in the columns `[0, 12)`, `[14, 28)` and `[30, 42)`, two spaces apart.
pub proof fn law_columns_align(addr: u16, val: u16)
    ensures
        in_columns(
            plain_header(),
            pad_left(register_title(), COL_REG as nat, ' '),
            pad_left(dec_title(), COL_DEC as nat, ' '),
            pad_left(hex_title(), COL_HEX as nat, ' '),
        ),
        in_columns(
            separator_text(),
            repeat('-', COL_REG as nat),
            repeat('-', COL_DEC as nat),
            repeat('-', COL_HEX as nat),
        ),
        in_columns(
            plain_row(addr, val),
            pad_left(decimal(addr as nat), COL_REG as nat, ' '),
            pad_left(decimal(val as nat), COL_DEC as nat, ' '),
            pad_left(hex4(val), COL_HEX as nat, ' '),
        ),
{
    lemma_decimal_len(addr as nat);
    lemma_decimal_len(val as nat);
    lemma_pad_exact(register_title(), COL_REG as nat, ' ');
    lemma_pad_exact(dec_title(), COL_DEC as nat, ' ');
    lemma_pad_exact(hex_title(), COL_HEX as nat, ' ');
    lemma_pad_exact(decimal(addr as nat), COL_REG as nat, ' ');
    lemma_pad_exact(decimal(val as nat), COL_DEC as nat, ' ');
    lemma_pad_exact(hex4(val), COL_HEX as nat, ' ');
    lemma_columns(
        pad_left(register_title(), COL_REG as nat, ' '),
        pad_left(dec_title(), COL_DEC as nat, ' '),
        pad_left(hex_title(), COL_HEX as nat, ' '),
    );
    lemma_columns(repeat('-', COL_REG as nat), repeat('-', COL_DEC as nat), repeat('-', COL_HEX as nat));
    lemma_columns(
        pad_left(decimal(addr as nat), COL_REG as nat, ' '),
        pad_left(decimal(val as nat), COL_DEC as nat, ' '),
        pad_left(hex4(val), COL_HEX as nat, ' '),
    );
}

/// `s` with its ANSI sequences taken out, read from the state `in_escape`:
/// an escape character starts a sequence, which runs up to and including the
/// next `m`; every other character is kept.
pub open spec fn strip_from(s: Seq<char>, in_escape: bool) -> Seq<char>
    decreases s.len(),
{
    if s.len() == 0 {
        Seq::empty()
    } else if in_escape {
        strip_from(s.drop_first(), s[0] != 'm')
    } else if s[0] == '\x1b' {
        strip_from(s.drop_first(), true)
    } else {
        seq![s[0]] + strip_from(s.drop_first(), false)
    }
}

/// Whether a sequence is still open after reading `s` from the state
/// `in_escape`.
pub open spec fn open_after(s: Seq<char>, in_escape: bool) -> bool
    decreases s.len(),
{
    if s.len() == 0 {
        in_escape
    } else if in_escape {
        open_after(s.drop_first(), s[0] != 'm')
    } else {
        open_after(s.drop_first(), s[0] == '\x1b')
    }
}

/// `s` with its ANSI sequences taken out.
pub open spec fn strip_ansi(s: Seq<char>) -> Seq<char> {
    strip_from(s, false)
}

proof fn lemma_strip_concat(a: Seq<char>, b: Seq<char>, e: bool)
    ensures
        strip_from(a + b, e) == strip_from(a, e) + strip_from(b, open_after(a, e)),
        open_after(a + b, e) == open_after(b, open_after(a, e)),
    decreases a.len(),
{
    if a.len() == 0 {
        assert(a + b =~= b);
    } else {
        assert((a + b).drop_first() =~= a.drop_first() + b);
        assert((a + b)[0] == a[0]);
        if e {
            lemma_strip_concat(a.drop_first(), b, a[0] != 'm');
        } else if a[0] == '\x1b' {
            lemma_strip_concat(a.drop_first(), b, true);
        } else {
            lemma_strip_concat(a.drop_first(), b, false);
            assert(seq![a[0]] + strip_from(a.drop_first(), false) + strip_from(b, open_after(a.drop_first(), false))
                =~= seq![a[0]] + (strip_from(a.drop_first(), false) + strip_from(b, open_after(a.drop_first(), false))));
        }
    }
}

proof fn lemma_strip_plain(t: Seq<char>)
    requires
        no_escape(t),
    ensures
        strip_from(t, false) == t,
        !open_after(t, false),
    decreases t.len(),
{
    if t.len() > 0 {
        assert(no_escape(t.drop_first()));
        lemma_strip_plain(t.drop_first());
        assert(seq![t[0]] + t.drop_first() =~= t);
    }
}

proof fn lemma_strip_inside(t: Seq<char>)
    requires
        forall|i: int| 0 <= i < t.len() ==> t[i] != 'm',
    ensures
        strip_from(t, true) == Seq::<char>::empty(),
        open_after(t, true),
    decreases t.len(),
{
    if t.len() > 0 {
        lemma_strip_inside(t.drop_first());
    }
}

/// An SGR sequence `ESC [ code m` whose code holds no `m` strips to nothing and
/// closes.
proof fn lemma_strip_sequence(code: Seq<char>)
    requires
        forall|i: int| 0 <= i < code.len() ==> code[i] != 'm',
    ensures
        strip_from(seq!['\x1b', '['] + code + seq!['m'], false) == Seq::<char>::empty(),
        !open_after(seq!['\x1b', '['] + code + seq!['m'], false),
{
    let inner = seq!['['] + code;
    assert forall|i: int| 0 <= i < inner.len() implies inner[i] != 'm' by {
        if i > 0 {
            assert(inner[i] == code[i - 1]);
        }
    }
    lemma_strip_inside(inner);
    let tail = seq!['m'];
    assert(strip_from(tail, true) == Seq::<char>::empty()) by {
        assert(tail.drop_first() =~= Seq::<char>::empty());
        assert(tail[0] == 'm');
        reveal_with_fuel(strip_from, 2);
    }
    assert(!open_after(tail, true)) by {
        assert(tail.drop_first() =~= Seq::<char>::empty());
        assert(tail[0] == 'm');
        reveal_with_fuel(open_after, 2);
    }
    lemma_strip_concat(inner, tail, true);
    let whole = seq!['\x1b', '['] + code + seq!['m'];
    assert(whole.drop_first() =~= inner + tail);
    assert(whole[0] == '\x1b');
}

/// A styled text strips back to the text, whichever form colored wrote.
pub proof fn lemma_strip_styled(out: Seq<char>, text: Seq<char>, code: Seq<char>)
    requires
        styled(out, text, code),
        no_escape(text),
        forall|i: int| 0 <= i < code.len() ==> code[i] != 'm',
    ensures
        strip_ansi(out) == text,
        !open_after(out, false),
{
    lemma_strip_plain(text);
    lemma_strip_sequence(code);
    let zero = seq!['0'];
    lemma_strip_sequence(zero);
    assert(reset_code() =~= seq!['\x1b', '['] + zero + seq!['m']);
    lemma_strip_concat(text, reset_code(), false);
    let open = seq!['\x1b', '['] + code + seq!['m'];
    lemma_strip_concat(open, text, false);
    lemma_strip_concat(open + text, reset_code(), false);
    if out == open + text + reset_code() {
        assert(strip_from(open + text, false) =~= text);
        assert(strip_ansi(out) =~= text);
    } else if out == text + reset_code() {
        assert(strip_ansi(out) =~= text);
    }
}

proof fn lemma_strip_join(x: Seq<char>, y: Seq<char>)
    requires
        !open_after(x, false),
    ensures
        strip_ansi(x + y) == strip_ansi(x) + strip_ansi(y),
        open_after(x + y, false) == open_after(y, false),
{
    lemma_strip_concat(x, y, false);
}

proof fn lemma_codes_have_no_m()
    ensures
        forall|i: int| 0 <= i < bold_cyan_code().len() ==> bold_cyan_code()[i] != 'm',
        forall|i: int| 0 <= i < bold_code().len() ==> bold_code()[i] != 'm',
        forall|i: int| 0 <= i < dimmed_code().len() ==> dimmed_code()[i] != 'm',
{
}

proof fn lemma_gap_plain()
    ensures
        strip_ansi(gap()) == gap(),
        !open_after(gap(), false),
{
    lemma_strip_plain(gap());
}

/// A header line, taken out of its styles, is the plain header.
#[verifier::rlimit(40)]
#[verifier::spinoff_prover]
pub proof fn lemma_header_strips(header: Seq<char>)
    requires
        is_header_line(header),
    ensures
        strip_ansi(header) == plain_header(),
{
    lemma_codes_have_no_m();
    lemma_gap_plain();
    let pr = pad_left(register_title(), COL_REG as nat, ' ');
    let pd = pad_left(dec_title(), COL_DEC as nat, ' ');
    let ph = pad_left(hex_title(), COL_HEX as nat, ' ');
    assert(no_escape(register_title()));
    assert(no_escape(dec_title()));
    assert(no_escape(hex_title()));
    lemma_pad_no_escape(register_title(), COL_REG as nat, ' ');
    lemma_pad_no_escape(dec_title(), COL_DEC as nat, ' ');
    lemma_pad_no_escape(hex_title(), COL_HEX as nat, ' ');
    let (a, b, c) = choose|a: Seq<char>, b: Seq<char>, c: Seq<char>|
        #![trigger styled(a, pr, bold_cyan_code()), styled(b, pd, bold_cyan_code()), styled(c, ph, bold_cyan_code())]
        styled(a, pr, bold_cyan_code()) && styled(b, pd, bold_cyan_code()) && styled(c, ph, bold_cyan_code())
            && header == a + gap() + b + gap() + c;
    lemma_strip_styled(a, pr, bold_cyan_code());
    lemma_strip_styled(b, pd, bold_cyan_code());
    lemma_strip_styled(c, ph, bold_cyan_code());
    lemma_strip_join(a, gap());
    lemma_strip_join(a + gap(), b);
    lemma_strip_join(a + gap() + b, gap());
    lemma_strip_join(a + gap() + b + gap(), c);
    assert(strip_ansi(header) =~= plain_header());
}

/// A separator line, taken out of its style, is the dashes of the columns.
pub proof fn lemma_separator_strips(sep: Seq<char>)
    requires
        styled(sep, separator_text(), dimmed_code()),
    ensures
        strip_ansi(sep) == separator_text(),
{
    lemma_codes_have_no_m();
    assert(no_escape(separator_text()));
    lemma_strip_styled(sep, separator_text(), dimmed_code());
}

/// A row line, taken out of its styles, is two spaces and the plain row.
#[verifier::rlimit(40)]
#[verifier::spinoff_prover]
pub proof fn lemma_row_strips(row: Seq<char>, addr: u16, val: u16)
    requires
        is_row_line(row, addr, val),
    ensures
        strip_ansi(row) == gap() + plain_row(addr, val),
{
    lemma_codes_have_no_m();
    lemma_gap_plain();
    let cr = pad_left(decimal(addr as nat), COL_REG as nat, ' ');
    let cd = pad_left(decimal(val as nat), COL_DEC as nat, ' ');
    let ch = pad_left(hex4(val), COL_HEX as nat, ' ');
    lemma_decimal_no_escape(addr as nat);
    lemma_decimal_no_escape(val as nat);
    lemma_hex4_no_escape(val);
    lemma_pad_no_escape(decimal(addr as nat), COL_REG as nat, ' ');
    lemma_pad_no_escape(decimal(val as nat), COL_DEC as nat, ' ');
    lemma_pad_no_escape(hex4(val), COL_HEX as nat, ' ');
    let (x, z) = choose|x: Seq<char>, z: Seq<char>|
        #![trigger styled(x, cr, bold_code()), styled(z, ch, dimmed_code())]
        styled(x, cr, bold_code()) && styled(z, ch, dimmed_code())
            && row == gap() + x + gap() + cd + gap() + z;
    lemma_strip_styled(x, cr, bold_code());
    lemma_strip_styled(z, ch, dimmed_code());
    lemma_strip_plain(cd);
    lemma_strip_join(gap(), x);
    lemma_strip_join(gap() + x, gap());
    lemma_strip_join(gap() + x + gap(), cd);
    lemma_strip_join(gap() + x + gap() + cd, gap());
    lemma_strip_join(gap() + x + gap() + cd + gap(), z);
    assert(strip_ansi(row) =~= gap() + plain_row(addr, val));
}

/// Taken out of their styles, the lines of the table line up: the header is
/// the plain header, the separator its dashes, and a row, after its two-space
/// indent, the plain row; each is 42 characters in the columns `[0, 12)`,
/// `[14, 28)` and `[30, 42)` with two spaces between.
pub proof fn law_stripped_lines_align(header: Seq<char>, sep: Seq<char>, row: Seq<char>, addr: u16, val: u16)
    requires
        is_header_line(header),
        styled(sep, separator_text(), dimmed_code()),
        is_row_line(row, addr, val),
    ensures
        strip_ansi(header) == plain_header(),
        strip_ansi(sep) == separator_text(),
        strip_ansi(row) == gap() + plain_row(addr, val),
        in_columns(
            strip_ansi(header),
            pad_left(register_title(), COL_REG as nat, ' '),
            pad_left(dec_title(), COL_DEC as nat, ' '),
            pad_left(hex_title(), COL_HEX as nat, ' '),
        ),
        in_columns(
            strip_ansi(sep),
            repeat('-', COL_REG as nat),
            repeat('-', COL_DEC as nat),
            repeat('-', COL_HEX as nat),
        ),
        in_columns(
            strip_ansi(row).skip(2),
            pad_left(decimal(addr as nat), COL_REG as nat, ' '),
            pad_left(decimal(val as nat), COL_DEC as nat, ' '),
            pad_left(hex4(val), COL_HEX as nat, ' '),
        ),
{
    law_columns_align(addr, val);
    lemma_header_strips(header);
    lemma_separator_strips(sep);
    lemma_row_strips(row, addr, val);
    assert(strip_ansi(row).skip(2) =~= plain_row(addr, val));
}

/// `text` right-aligned in `width` characters with `fill`.
fn padded(text: &str, width: usize, fill: char) -> (out: String)
    ensures
        out@ == pad_left(text@, width as nat, fill),
{
    let n = text.unicode_len();
    let mut out = String::new();
    let mut i: usize = n;
    while i < width
        invariant
            n == text@.len(),
            n <= i <= width || (n > width && i == n),
            out@ == repeat(fill, (i - n) as nat),
        decreases width - i,
    {
        crate::text::push_char(&mut out, fill);
        proof {
            assert(out@ =~= repeat(fill, (i + 1 - n) as nat));
        }
        i = i + 1;
    }
    push_str(&mut out, text);
    proof {
        if n >= width {
            assert(out@ =~= text@);
        } else {
            assert(out@ =~= pad_left(text@, width as nat, fill));
        }
    }
    out
}

proof fn lemma_pad_no_escape(s: Seq<char>, width: nat, fill: char)
    requires
        no_escape(s),
        fill != '\x1b',
    ensures
        no_escape(pad_left(s, width, fill)),
{
    let p = pad_left(s, width, fill);
    if s.len() < width {
        assert forall|i: int| 0 <= i < p.len() implies p[i] != '\x1b' by {
            if i < width - s.len() {
            } else {
                assert(p[i] == s[i - (width - s.len())]);
            }
        }
    }
}

proof fn lemma_decimal_no_escape(n: nat)
    ensures
        no_escape(decimal(n)),
{
    crate::text::lemma_decimal_digits(n);
}

/// The header line of the table.
pub fn header_line() -> (line: String)
    ensures
        is_header_line(line@),
        strip_ansi(line@) == plain_header(),
{
    proof {
        reveal_strlit("Register");
        reveal_strlit("Value (dec)");
        reveal_strlit("Value (hex)");
    }
    assert("Register"@ =~= register_title());
    assert("Value (dec)"@ =~= dec_title());
    assert("Value (hex)"@ =~= hex_title());
    let reg = padded("Register", COL_REG, ' ');
    let dec = padded("Value (dec)", COL_DEC, ' ');
    let hex = padded("Value (hex)", COL_HEX, ' ');
    proof {
        lemma_pad_no_escape(register_title(), COL_REG as nat, ' ');
        lemma_pad_no_escape(dec_title(), COL_DEC as nat, ' ');
        lemma_pad_no_escape(hex_title(), COL_HEX as nat, ' ');
    }
    let a = paint_bold_cyan(reg.as_str());
    let b = paint_bold_cyan(dec.as_str());
    let c = paint_bold_cyan(hex.as_str());
    let mut line = String::new();
    push_str(&mut line, a.as_str());
    push_str(&mut line, "  ");
    push_str(&mut line, b.as_str());
    push_str(&mut line, "  ");
    push_str(&mut line, c.as_str());
    proof {
        reveal_strlit("  ");
        assert(line@ =~= a@ + gap() + b@ + gap() + c@);
        lemma_header_strips(line@);
    }
    line
}

/// The separator line of the table: dashes across the three columns, dimmed.
pub fn separator() -> (line: String)
    ensures
        styled(line@, separator_text(), dimmed_code()),
        strip_ansi(line@) == separator_text(),
{
    let d1 = padded("", COL_REG, '-');
    let d2 = padded("", COL_DEC, '-');
    let d3 = padded("", COL_HEX, '-');
    let mut text = String::new();
    push_str(&mut text, d1.as_str());
    push_str(&mut text, "  ");
    push_str(&mut text, d2.as_str());
    push_str(&mut text, "  ");
    push_str(&mut text, d3.as_str());
    proof {
        reveal_strlit("");
        reveal_strlit("  ");
        assert(d1@ =~= repeat('-', COL_REG as nat));
        assert(d2@ =~= repeat('-', COL_DEC as nat));
        assert(d3@ =~= repeat('-', COL_HEX as nat));
        assert(text@ =~= separator_text());
    }
    let line = paint_dimmed(text.as_str());
    proof {
        lemma_separator_strips(line@);
    }
    line
}

fn hex_digit_char(d: u16) -> (c: char)
    requires
        d < 16,
    ensures
        c == hex_digit(d as int),
{
    let b: u8 = if d < 10 { 48u8 + (d as u8) } else { 55u8 + (d as u8) };
    b as char
}

/// `v` as "0x" and four upper-case hex digits, as `format!("0x{v:04X}")` gives it.
pub fn hex_string(v: u16) -> (s: String)
    ensures
        s@ == hex4(v),
{
    let mut s = String::new();
    crate::text::push_char(&mut s, '0');
    crate::text::push_char(&mut s, 'x');
    crate::text::push_char(&mut s, hex_digit_char(v / 4096));
    crate::text::push_char(&mut s, hex_digit_char((v / 256) % 16));
    crate::text::push_char(&mut s, hex_digit_char((v / 16) % 16));
    crate::text::push_char(&mut s, hex_digit_char(v % 16));
    assert(s@ =~= hex4(v));
    s
}

proof fn lemma_hex4_no_escape(v: u16)
    ensures
        no_escape(hex4(v)),
{
    let h = hex4(v);
    assert forall|i: int| 0 <= i < h.len() implies h[i] != '\x1b' by {}
}

/// The table row of register `addr` holding `val`.
pub fn table_row(addr: u16, val: u16) -> (line: String)
    ensures
        is_row_line(line@, addr, val),
        strip_ansi(line@) == gap() + plain_row(addr, val),
{
    let reg_text = crate::text::decimal_string(addr);
    let dec_text = crate::text::decimal_string(val);
    let hex_text = hex_string(val);
    let reg = padded(reg_text.as_str(), COL_REG, ' ');
    let dec = padded(dec_text.as_str(), COL_DEC, ' ');
    let hex = padded(hex_text.as_str(), COL_HEX, ' ');
    proof {
        lemma_decimal_no_escape(addr as nat);
        lemma_hex4_no_escape(val);
        lemma_pad_no_escape(decimal(addr as nat), COL_REG as nat, ' ');
        lemma_pad_no_escape(hex4(val), COL_HEX as nat, ' ');
    }
    let a = paint_bold(reg.as_str());
    let c = paint_dimmed(hex.as_str());
    let mut line = String::new();
    push_str(&mut line, "  ");
    push_str(&mut line, a.as_str());
    push_str(&mut line, "  ");
    push_str(&mut line, dec.as_str());
    push_str(&mut line, "  ");
    push_str(&mut line, c.as_str());
    proof {
        reveal_strlit("  ");
        assert(line@ =~= gap() + a@ + gap() + dec@ + gap() + c@);
        lemma_row_strips(line@, addr, val);
    }
    line
}

/// Two spaces and then `text`, as every table line but the first is printed.
fn indented(text: &String) -> (line: String)
    ensures
        line@ == gap() + text@,
{
    let mut line = String::new();
    push_str(&mut line, "  ");
    push_str(&mut line, text.as_str());
    proof {
        reveal_strlit("  ");
    }
    line
}

/// The text of each line.
pub open spec fn line_texts(lines: Seq<String>) -> Seq<Seq<char>> {
    lines.map_values(|l: String| l@)
}

/// Whether `lines` are the lines of the table of `values` rendered at
/// `timestamp`: the title line, a separator, the header, a separator, one row
/// per value in order, and a closing separator; every line but the title is
/// indented by two spaces.
pub open spec fn is_table(lines: Seq<Seq<char>>, timestamp: Seq<char>, values: Seq<(u16, u16)>) -> bool {
    let n = values.len() as int;
    &&& lines.len() == n + 5
    &&& is_title_line(lines[0], timestamp)
    &&& lines[1].len() >= 2 && lines[1].subrange(0, 2) == gap()
        && styled(lines[1].subrange(2, lines[1].len() as int), separator_text(), dimmed_code())
    &&& lines[2].len() >= 2 && lines[2].subrange(0, 2) == gap()
        && is_header_line(lines[2].subrange(2, lines[2].len() as int))
    &&& lines[3] == lines[1]
    &&& forall|i: int| 0 <= i < n ==> is_row_line(#[trigger] lines[4 + i], values[i].0, values[i].1)
    &&& lines[n + 4] == lines[1]
}

/// The lines of the table of `values` rendered at `timestamp`, as the poll
/// command prints them (one `println!` each).
pub fn table_lines_at(timestamp: &str, values: &[(u16, u16)]) -> (lines: Vec<String>)
    requires
        no_escape(timestamp@),
    ensures
        is_table(line_texts(lines@), timestamp@, values@),
{
    let mut lines: Vec<String> = Vec::new();
    proof {
        reveal_strlit("ModBridge");
    }
    assert("ModBridge"@ =~= app_title());
    let title = paint_bold_cyan("ModBridge");
    let stamp = paint_dimmed(timestamp);
    let mut first = String::new();
    push_str(&mut first, "\n  ");
    push_str(&mut first, title.as_str());
    push_str(&mut first, "  ");
    push_str(&mut first, stamp.as_str());
    proof {
        reveal_strlit("\n  ");
        reveal_strlit("  ");
        assert(first@ =~= seq!['\n'] + gap() + title@ + gap() + stamp@);
    }
    lines.push(first);
    let sep = separator();
    let sep_line = indented(&sep);
    let header = header_line();
    let header_text = indented(&header);
    lines.push(sep_line.clone());
    lines.push(header_text);
    lines.push(sep_line.clone());
    let ghost prefix = lines@;
    let mut i: usize = 0;
    while i < values.len()
        invariant
            i <= values@.len(),
            lines@.len() == 4 + i,
            lines@.subrange(0, 4) == prefix,
            forall|k: int| 0 <= k < i ==> is_row_line(#[trigger] lines@[4 + k]@, values@[k].0, values@[k].1),
        decreases values@.len() - i,
    {
        let (addr, val) = values[i];
        let row = table_row(addr, val);
        lines.push(row);
        proof {
            assert(lines@.subrange(0, 4) =~= prefix);
        }
        i = i + 1;
    }
    lines.push(sep_line);
    proof {
        let views = line_texts(lines@);
        let n = values@.len() as int;
        assert(lines@[0] == prefix[0]);
        assert(lines@[1] == prefix[1]);
        assert(lines@[2] == prefix[2]);
        assert(lines@[3] == prefix[3]);
        assert(views[1].subrange(0, 2) =~= gap());
        assert(views[1].subrange(2, views[1].len() as int) =~= sep@);
        assert(views[2].subrange(0, 2) =~= gap());
        assert(views[2].subrange(2, views[2].len() as int) =~= header@);
        assert forall|k: int| 0 <= k < n implies is_row_line(#[trigger] views[4 + k], values@[k].0, values@[k].1) by {
            assert(lines@[4 + k]@ == views[4 + k]);
        }
    }
    lines
}

/// The lines of the table of `values`, stamped with the current local time
/// ("YYYY-MM-DD  HH:MM:SS").
pub fn table_lines(values: &[(u16, u16)]) -> (lines: Vec<String>)
    ensures
        exists|timestamp: Seq<char>|
            crate::clock::is_clock_label(timestamp) && #[trigger] is_table(line_texts(lines@), timestamp, values@),
{
    let timestamp = local_time_label();
    proof {
        assert forall|i: int| 0 <= i < timestamp@.len() implies timestamp@[i] != '\x1b' by {
            assert(crate::clock::is_clock_char(timestamp@[i]));
        }
    }
    table_lines_at(timestamp.as_str(), values)
}

/// The value of the hexadecimal digit `c` (`0`-`9`, `A`-`F`), or -1 for any
/// other character.
pub open spec fn hex_digit_value(c: char) -> int {
    if '0' <= c && c <= '9' {
        c as int - '0' as int
    } else if 'A' <= c && c <= 'F' {
        c as int - 'A' as int + 10
    } else {
        -1
    }
}

/// The hex cell reads back as the value: `hex4(v)` is "0x" and four upper-case
/// hexadecimal digits whose base-16 value is `v`.
pub proof fn law_hex_reads_back(v: u16)
    ensures
        hex4(v).len() == 6,
        hex4(v)[0] == '0' && hex4(v)[1] == 'x',
        forall|k: int| 2 <= k < 6 ==> 0 <= #[trigger] hex_digit_value(hex4(v)[k]) < 16,
        hex_digit_value(hex4(v)[2]) * 4096 + hex_digit_value(hex4(v)[3]) * 256 + hex_digit_value(hex4(v)[4]) * 16
            + hex_digit_value(hex4(v)[5]) == v,
{
    let n = v as int;
    assert forall|d: int| 0 <= d < 16 implies #[trigger] hex_digit_value(hex_digit(d)) == d by {}
    assert(hex_digit_value(hex_digit(n / 4096)) == n / 4096);
    assert(hex_digit_value(hex_digit((n / 256) % 16)) == (n / 256) % 16);
    assert(hex_digit_value(hex_digit((n / 16) % 16)) == (n / 16) % 16);
    assert(hex_digit_value(hex_digit(n % 16)) == n % 16);
    assert((v / 4096) * 4096 + ((v / 256) % 16) * 256 + ((v / 16) % 16) * 16 + v % 16 == v) by (bit_vector);
}

} // verus!
