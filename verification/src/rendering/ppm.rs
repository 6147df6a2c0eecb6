//! The plain-text PPM ("P3") image format.
//!
//! A PPM file starts with the header `P3`, the image size and the maximum color value, each on a
//! line of its own. Then come the pixels, row by row, as decimal red/green/blue values separated
//! by spaces. Each image row starts on a line of its own, and lines are wrapped so that none is
//! longer than [`MAX_LINE_LEN`] characters.

use vstd::prelude::*;

verus! {

/// The longest a line of a PPM file may be.
pub const MAX_LINE_LEN: usize = 70;

/// An 8-bit-per-channel RGB pixel.
pub type Rgb888 = (u8, u8, u8);

/// The character of the decimal digit `d`.
pub open spec fn digit_char(d: nat) -> char
    recommends
        d < 10,
{
    (48 + d) as char
}

/// The decimal representation of `n`, without leading zeros.
pub open spec fn decimal(n: nat) -> Seq<char>
    decreases n,
{
    if n < 10 {
        seq![digit_char(n)]
    } else {
        decimal(n / 10).push(digit_char(n % 10))
    }
}

/// The `c`-th channel (red, green, blue) of a pixel.
pub open spec fn channel(p: Rgb888, c: int) -> u8 {
    if c == 0 {
        p.0
    } else if c == 1 {
        p.1
    } else {
        p.2
    }
}

/// The words of image row `y`: the decimal channel values of its pixels, left to right.
pub open spec fn row_words(pixels: Seq<Rgb888>, width: nat, y: nat) -> Seq<Seq<char>> {
    Seq::new(3 * width, |k: int| decimal(channel(pixels[y * width + k / 3], k % 3) as nat))
}

/// Places one more word after `line`, a row's text so far whose current line is `used`
/// characters long when counting one separator after each word.
///
/// The word goes on the current line, after a space, while that line stays within
/// [`MAX_LINE_LEN`] characters; otherwise it starts a new line.
pub open spec fn place_word(line: (Seq<char>, nat), word: Seq<char>) -> (Seq<char>, nat) {
    let (text, used) = line;
    if used == 0 {
        (text + word, word.len() + 1)
    } else if used + word.len() + 1 > MAX_LINE_LEN {
        (text.push('\n') + word, word.len() + 1)
    } else {
        (text.push(' ') + word, used + word.len() + 1)
    }
}

/// Greedy line wrapping of a row's words, and the length of its last line.
pub open spec fn wrap_words(words: Seq<Seq<char>>) -> (Seq<char>, nat)
    decreases words.len(),
{
    if words.len() == 0 {
        (Seq::empty(), 0)
    } else {
        place_word(wrap_words(words.drop_last()), words.last())
    }
}

/// The text of one image row: its wrapped words and a final newline (nothing for an empty row).
pub open spec fn row_text(words: Seq<Seq<char>>) -> Seq<char> {
    if words.len() == 0 {
        Seq::empty()
    } else {
        wrap_words(words).0.push('\n')
    }
}

/// The text of the first `rows` image rows.
pub open spec fn rows_text(pixels: Seq<Rgb888>, width: nat, rows: nat) -> Seq<char>
    decreases rows,
{
    if rows == 0 {
        Seq::empty()
    } else {
        rows_text(pixels, width, (rows - 1) as nat) + row_text(
            row_words(pixels, width, (rows - 1) as nat),
        )
    }
}

/// The PPM header: format, size and maximum channel value.
pub open spec fn ppm_header(width: nat, height: nat) -> Seq<char> {
    seq!['P', '3', '\n'] + decimal(width) + seq![' '] + decimal(height) + seq!['\n', '2', '5', '5', '\n']
}

/// The PPM text of an image of `width` x `height` pixels stored row by row.
pub open spec fn ppm_text(width: nat, height: nat, pixels: Seq<Rgb888>) -> Seq<char> {
    ppm_header(width, height) + rows_text(pixels, width, height)
}

/// The length of the last line of `text`: the characters after its last newline.
pub open spec fn last_line_len(text: Seq<char>) -> nat
    decreases text.len(),
{
    if text.len() == 0 || text.last() == '\n' {
        0
    } else {
        last_line_len(text.drop_last()) + 1
    }
}

/// Every line of `text` has at most `max` characters.
pub open spec fn lines_within(text: Seq<char>, max: nat) -> bool {
    forall|j: int| 0 <= j <= text.len() ==> #[trigger] last_line_len(text.take(j)) <= max
}

proof fn lemma_decimal_len(n: nat)
    requires
        n < 1000,
    ensures
        decimal(n).len() == (if n >= 100 {
            3nat
        } else if n >= 10 {
            2nat
        } else {
            1nat
        }),
{
    reveal_with_fuel(decimal, 3);
}

proof fn lemma_decimal_digits(n: nat)
    ensures
        decimal(n).len() >= 1,
        forall|k: int| 0 <= k < decimal(n).len() ==> decimal(n)[k] != '\n' && decimal(n)[k] != ' ',
    decreases n,
{
    if n >= 10 {
        lemma_decimal_digits(n / 10);
    }
}

/// Converts a digit to its character.
fn digit(d: u32) -> (c: char)
    requires
        d < 10,
    ensures
        c == digit_char(d as nat),
{
    let c = (48u8 + d as u8) as char;
    assert(c == digit_char(d as nat)) by {
        assert((48u8 + d as u8) as char == (48 + d) as char);
    }
    c
}

/// Appends the decimal representation of `n`.
fn push_decimal(out: &mut Vec<char>, n: u32)
    ensures
        final(out)@ == old(out)@ + decimal(n as nat),
    decreases n,
{
    if n >= 10 {
        push_decimal(out, n / 10);
    }
    out.push(digit(n % 10));
    proof {
        if n >= 10 {
            assert(decimal(n as nat) == decimal((n / 10) as nat).push(digit_char((n % 10) as nat)));
        }
    }
}

/// Appends one channel value of a row, wrapping the line first if it would grow too long.
fn push_word(out: &mut Vec<char>, used: &mut usize, value: u8)
    requires
        *old(used) <= MAX_LINE_LEN,
    ensures
        final(out)@ == old(out)@ + (place_word((Seq::empty(), *old(used) as nat), decimal(value as nat)).0),
        *final(used) as nat == place_word((Seq::empty(), *old(used) as nat), decimal(value as nat)).1,
        *final(used) <= MAX_LINE_LEN,
{
    proof {
        lemma_decimal_len(value as nat);
    }
    let len: usize = if value >= 100 {
        3
    } else if value >= 10 {
        2
    } else {
        1
    };
    let ghost before = out@;
    if *used == 0 {
        *used = len + 1;
    } else if *used + len + 1 > MAX_LINE_LEN {
        out.push('\n');
        *used = len + 1;
    } else {
        out.push(' ');
        *used = *used + len + 1;
    }
    push_decimal(out, value as u32);
    proof {
        let w = decimal(value as nat);
        let empty = Seq::<char>::empty();
        assert(empty.push('\n') + w =~= seq!['\n'] + w);
        assert(empty.push(' ') + w =~= seq![' '] + w);
        assert(empty + w =~= w);
        assert(before + (seq!['\n'] + w) =~= before.push('\n') + w);
        assert(before + (seq![' '] + w) =~= before.push(' ') + w);
    }
}

/// Writes an image of `width` x `height` pixels, stored row by row, as PPM text.
pub(crate) fn encode_ppm(width: u32, height: u32, pixels: &Vec<Rgb888>) -> (ppm: Vec<char>)
    requires
        pixels@.len() == width * height,
        width * height <= u32::MAX,
    ensures
        ppm@ == ppm_text(width as nat, height as nat, pixels@),
{
    let mut out: Vec<char> = Vec::new();
    out.push('P');
    out.push('3');
    out.push('\n');
    push_decimal(&mut out, width);
    out.push(' ');
    push_decimal(&mut out, height);
    out.push('\n');
    out.push('2');
    out.push('5');
    out.push('5');
    out.push('\n');
    let ghost header = out@;
    assert(header =~= ppm_header(width as nat, height as nat));

    let mut y: u32 = 0;
    while y < height
        invariant
            y <= height,
            pixels@.len() == width * height,
            width * height <= u32::MAX,
            header == ppm_header(width as nat, height as nat),
            out@ == header + rows_text(pixels@, width as nat, y as nat),
        decreases height - y,
    {
        let ghost words = row_words(pixels@, width as nat, y as nat);
        let ghost row_start = out@;
        let mut used: usize = 0;
        let mut x: u32 = 0;
        while x < width
            invariant
                x <= width,
                y < height,
                pixels@.len() == width * height,
                width * height <= u32::MAX,
                words == row_words(pixels@, width as nat, y as nat),
                used <= MAX_LINE_LEN,
                out@ == row_start + wrap_words(words.take(3 * x)).0,
                used as nat == wrap_words(words.take(3 * x)).1,
            decreases width - x,
        {
            proof {
                assert(y * width + x < width * height) by (nonlinear_arith)
                    requires
                        x < width,
                        y < height,
                ;
            }
            let idx: u32 = y * width + x;
            let p = pixels[idx as usize];
            let ghost k = 3 * x as int;
            let mut c: u32 = 0;
            while c < 3
                invariant
                    c <= 3,
                    k == 3 * x,
                    x < width,
                    idx == y * width + x,
                    idx < pixels@.len(),
                    p == pixels@[idx as int],
                    words == row_words(pixels@, width as nat, y as nat),
                    used <= MAX_LINE_LEN,
                    out@ == row_start + wrap_words(words.take(k + c)).0,
                    used as nat == wrap_words(words.take(k + c)).1,
                decreases 3 - c,
            {
                let v = if c == 0 {
                    p.0
                } else if c == 1 {
                    p.1
                } else {
                    p.2
                };
                let ghost prev = wrap_words(words.take(k + c));
                let ghost before = out@;
                push_word(&mut out, &mut used, v);
                proof {
                    let i = k + c;
                    assert(words.take(i + 1).drop_last() =~= words.take(i));
                    assert((i) / 3 == x as int);
                    assert((i) % 3 == c as int);
                    assert(words.take(i + 1).last() == words[i]);
                    assert(words[i] == decimal(v as nat));
                    let w = decimal(v as nat);
                    let e = Seq::<char>::empty();
                    assert(prev.0 + place_word((e, prev.1), w).0 =~= place_word(prev, w).0);
                }
                c = c + 1;
            }
            x = x + 1;
        }
        proof {
            assert(words.take(3 * width as int) =~= words);
            assert(row_words(pixels@, width as nat, y as nat) == words);
            assert(rows_text(pixels@, width as nat, (y + 1) as nat) == rows_text(
                pixels@,
                width as nat,
                y as nat,
            ) + row_text(words));
        }
        if width > 0 {
            out.push('\n');
        }
        proof {
            if width == 0 {
                assert(row_text(words) =~= Seq::<char>::empty());
                assert(out@ =~= header + rows_text(pixels@, width as nat, (y + 1) as nat));
            } else {
                assert(out@ =~= header + rows_text(pixels@, width as nat, (y + 1) as nat));
            }
        }
        y = y + 1;
    }
    out
}

} // verus!

verus! {

/// Characters of a text without line breaks all stand on its last line.
proof fn lemma_last_line_len_no_newline(s: Seq<char>, u: Seq<char>)
    requires
        forall|k: int| 0 <= k < u.len() ==> u[k] != '\n',
    ensures
        last_line_len(s + u) == last_line_len(s) + u.len(),
    decreases u.len(),
{
    if u.len() > 0 {
        assert((s + u).drop_last() =~= s + u.drop_last());
        lemma_last_line_len_no_newline(s, u.drop_last());
    } else {
        assert(s + u =~= s);
    }
}

/// After a line break, what came before does not count towards the last line.
proof fn lemma_last_line_len_after_break(s: Seq<char>, u: Seq<char>)
    requires
        s.len() == 0 || s.last() == '\n',
    ensures
        last_line_len(s + u) == last_line_len(u),
    decreases u.len(),
{
    if u.len() > 0 {
        assert((s + u).drop_last() =~= s + u.drop_last());
        lemma_last_line_len_after_break(s, u.drop_last());
    } else {
        assert(s + u =~= s);
    }
}

proof fn lemma_last_line_len_bound(s: Seq<char>)
    ensures
        last_line_len(s) <= s.len(),
    decreases s.len(),
{
    if s.len() > 0 {
        lemma_last_line_len_bound(s.drop_last());
    }
}

/// A text no longer than `max` has no line longer than `max`.
proof fn lemma_short_lines_within(s: Seq<char>, max: nat)
    requires
        s.len() <= max,
    ensures
        lines_within(s, max),
{
    assert forall|j: int| 0 <= j <= s.len() implies #[trigger] last_line_len(s.take(j)) <= max by {
        lemma_last_line_len_bound(s.take(j));
    }
}

/// Joining a text that ends its last line with another keeps lines within the bound.
proof fn lemma_lines_within_concat(s: Seq<char>, u: Seq<char>, max: nat)
    requires
        lines_within(s, max),
        lines_within(u, max),
        s.len() == 0 || s.last() == '\n',
    ensures
        lines_within(s + u, max),
{
    assert forall|j: int| 0 <= j <= (s + u).len() implies #[trigger] last_line_len((s + u).take(j))
        <= max by {
        if j <= s.len() {
            assert((s + u).take(j) =~= s.take(j));
        } else {
            assert((s + u).take(j) =~= s + u.take(j - s.len()));
            lemma_last_line_len_after_break(s, u.take(j - s.len()));
            assert(last_line_len(u.take(j - s.len())) <= max);
        }
    }
}

/// Ending a text with a line break keeps its lines within the bound.
proof fn lemma_lines_within_push_newline(s: Seq<char>, max: nat)
    requires
        lines_within(s, max),
    ensures
        lines_within(s.push('\n'), max),
{
    assert forall|j: int| 0 <= j <= s.push('\n').len() implies #[trigger] last_line_len(
        s.push('\n').take(j),
    ) <= max by {
        if j <= s.len() {
            assert(s.push('\n').take(j) =~= s.take(j));
        } else {
            assert(s.push('\n').take(j) =~= s.push('\n'));
        }
    }
}

/// A word placed on the current line extends it without breaking earlier lines.
proof fn lemma_lines_within_extend(s: Seq<char>, u: Seq<char>, max: nat)
    requires
        lines_within(s, max),
        forall|k: int| 0 <= k < u.len() ==> u[k] != '\n',
        last_line_len(s) + u.len() <= max,
    ensures
        lines_within(s + u, max),
        last_line_len(s + u) == last_line_len(s) + u.len(),
{
    lemma_last_line_len_no_newline(s, u);
    assert forall|j: int| 0 <= j <= (s + u).len() implies #[trigger] last_line_len((s + u).take(j))
        <= max by {
        if j <= s.len() {
            assert((s + u).take(j) =~= s.take(j));
        } else {
            assert((s + u).take(j) =~= s + u.take(j - s.len()));
            lemma_last_line_len_no_newline(s, u.take(j - s.len()));
        }
    }
}

/// Words of at most `MAX_LINE_LEN - 1` characters without line breaks or spaces.
pub open spec fn short_words(words: Seq<Seq<char>>) -> bool {
    forall|i: int|
        0 <= i < words.len() ==> {
            &&& 1 <= #[trigger] words[i].len() < MAX_LINE_LEN
            &&& forall|k: int| 0 <= k < words[i].len() ==> words[i][k] != '\n'
        }
}

/// Wrapping keeps every line within [`MAX_LINE_LEN`] characters and tracks the current line.
proof fn lemma_wrap_words_lines(words: Seq<Seq<char>>)
    requires
        short_words(words),
    ensures
        lines_within(wrap_words(words).0, MAX_LINE_LEN as nat),
        wrap_words(words).1 <= MAX_LINE_LEN,
        wrap_words(words).1 == 0 ==> wrap_words(words).0.len() == 0,
        wrap_words(words).1 > 0 ==> last_line_len(wrap_words(words).0) + 1 == wrap_words(words).1,
        words.len() > 0 ==> wrap_words(words).1 > 0,
    decreases words.len(),
{
    let max = MAX_LINE_LEN as nat;
    if words.len() == 0 {
        lemma_short_lines_within(Seq::empty(), max);
    } else {
        let rest = words.drop_last();
        assert(short_words(rest)) by {
            assert forall|i: int| 0 <= i < rest.len() implies {
                &&& 1 <= #[trigger] rest[i].len() < MAX_LINE_LEN
                &&& forall|k: int| 0 <= k < rest[i].len() ==> rest[i][k] != '\n'
            } by {
                assert(rest[i] == words[i]);
            }
        }
        lemma_wrap_words_lines(rest);
        let (text, used) = wrap_words(rest);
        let w = words.last();
        assert(w == words[words.len() - 1]);
        if used == 0 {
            assert(text + w =~= w);
            lemma_short_lines_within(w, max);
            lemma_last_line_len_no_newline(Seq::empty(), w);
            assert(Seq::<char>::empty() + w =~= w);
        } else if used + w.len() + 1 > MAX_LINE_LEN {
            lemma_lines_within_push_newline(text, max);
            lemma_short_lines_within(w, max);
            lemma_lines_within_concat(text.push('\n'), w, max);
            lemma_last_line_len_after_break(text.push('\n'), w);
            lemma_last_line_len_no_newline(Seq::empty(), w);
            assert(Seq::<char>::empty() + w =~= w);
        } else {
            let u = seq![' '] + w;
            assert forall|k: int| 0 <= k < u.len() implies u[k] != '\n' by {
                if k > 0 {
                    assert(u[k] == w[k - 1]);
                }
            }
            lemma_lines_within_extend(text, u, max);
            assert(text + u =~= text.push(' ') + w);
        }
    }
}

proof fn lemma_decimal_len_bound(n: nat, bound: nat, digits: nat)
    requires
        n < bound,
        digits >= 1,
        bound == vstd::arithmetic::power::pow(10, digits),
    ensures
        decimal(n).len() <= digits,
    decreases digits,
{
    vstd::arithmetic::power::lemma_pow_positive(10, digits);
    if n >= 10 {
        vstd::arithmetic::power::lemma_pow_adds(10, 1, (digits - 1) as nat);
        vstd::arithmetic::power::lemma_pow1(10);
        if digits == 1 {
            assert(false);
        }
        let smaller = vstd::arithmetic::power::pow(10, (digits - 1) as nat) as nat;
        assert(n / 10 < smaller) by {
            vstd::arithmetic::div_mod::lemma_div_by_multiple_is_strongly_ordered(
                n as int,
                (smaller * 10) as int,
                smaller as int,
                10,
            );
        }
        lemma_decimal_len_bound(n / 10, smaller, (digits - 1) as nat);
    }
}

/// The words of a row are decimal channel values: one to three digits, no line breaks.
proof fn lemma_row_words_short(pixels: Seq<Rgb888>, width: nat, y: nat)
    ensures
        short_words(row_words(pixels, width, y)),
{
    let words = row_words(pixels, width, y);
    assert forall|i: int| 0 <= i < words.len() implies {
        &&& 1 <= #[trigger] words[i].len() < MAX_LINE_LEN
        &&& forall|k: int| 0 <= k < words[i].len() ==> words[i][k] != '\n'
    } by {
        let v = channel(pixels[y * width + i / 3], i % 3) as nat;
        lemma_decimal_len(v);
        lemma_decimal_digits(v);
    }
}

proof fn lemma_rows_text_lines(pixels: Seq<Rgb888>, width: nat, rows: nat)
    ensures
        lines_within(rows_text(pixels, width, rows), MAX_LINE_LEN as nat),
        rows_text(pixels, width, rows).len() == 0 || rows_text(pixels, width, rows).last() == '\n',
    decreases rows,
{
    let max = MAX_LINE_LEN as nat;
    if rows == 0 {
        lemma_short_lines_within(Seq::empty(), max);
    } else {
        let prev = rows_text(pixels, width, (rows - 1) as nat);
        let words = row_words(pixels, width, (rows - 1) as nat);
        lemma_rows_text_lines(pixels, width, (rows - 1) as nat);
        lemma_row_words_short(pixels, width, (rows - 1) as nat);
        if words.len() == 0 {
            assert(prev + row_text(words) =~= prev);
        } else {
            lemma_wrap_words_lines(words);
            lemma_lines_within_push_newline(wrap_words(words).0, max);
            lemma_lines_within_concat(prev, row_text(words), max);
        }
    }
}

/// No line of a PPM image is longer than [`MAX_LINE_LEN`] characters, and the text ends with a
/// line break.
pub proof fn lemma_ppm_lines(width: u32, height: u32, pixels: Seq<Rgb888>)
    ensures
        lines_within(ppm_text(width as nat, height as nat, pixels), MAX_LINE_LEN as nat),
        ppm_text(width as nat, height as nat, pixels).last() == '\n',
{
    let max = MAX_LINE_LEN as nat;
    vstd::arithmetic::power::lemma_pow_positive(10, 10);
    let bound = vstd::arithmetic::power::pow(10, 10) as nat;
    assert(bound == 10000000000) by {
        reveal_with_fuel(vstd::arithmetic::power::pow, 11);
    }
    lemma_decimal_len_bound(width as nat, bound, 10);
    lemma_decimal_len_bound(height as nat, bound, 10);
    let first = seq!['P', '3', '\n'];
    let size = decimal(width as nat) + seq![' '] + decimal(height as nat) + seq!['\n'];
    let last = seq!['2', '5', '5', '\n'];
    assert(ppm_header(width as nat, height as nat) =~= first + size + last);
    lemma_short_lines_within(first, max);
    lemma_short_lines_within(size, max);
    lemma_short_lines_within(last, max);
    lemma_lines_within_concat(first, size, max);
    lemma_lines_within_concat(first + size, last, max);
    lemma_rows_text_lines(pixels, width as nat, height as nat);
    let header = ppm_header(width as nat, height as nat);
    let rows = rows_text(pixels, width as nat, height as nat);
    lemma_lines_within_concat(header, rows, max);
    if rows.len() == 0 {
        assert(header + rows =~= header);
    } else {
        assert((header + rows).last() == rows.last());
    }
}

/// Position `j` of `text` does not break a line right after a space.
pub open spec fn clean_break_at(text: Seq<char>, j: int) -> bool {
    text[j] == '\n' ==> text[j - 1] != ' '
}

/// No line of `text` ends with a space: no line break follows a space.
pub open spec fn no_space_before_break(text: Seq<char>) -> bool {
    forall|j: int| 0 < j < text.len() ==> #[trigger] clean_break_at(text, j)
}

/// A text without line breaks has no line ending with a space before a break.
proof fn lemma_no_break_clean(u: Seq<char>)
    requires
        forall|k: int| 0 <= k < u.len() ==> u[k] != '\n',
    ensures
        no_space_before_break(u),
{
    assert forall|j: int| 0 < j < u.len() implies #[trigger] clean_break_at(u, j) by {
        assert(u[j] != '\n');
    }
}

/// Joining two texts without spaces before breaks, the first not ending with a space, keeps
/// that property.
proof fn lemma_clean_concat(s: Seq<char>, u: Seq<char>)
    requires
        no_space_before_break(s),
        no_space_before_break(u),
        s.len() == 0 || s.last() != ' ',
    ensures
        no_space_before_break(s + u),
{
    let t = s + u;
    assert forall|j: int| 0 < j < t.len() implies #[trigger] clean_break_at(t, j) by {
        if j < s.len() {
            assert(clean_break_at(s, j));
            assert(t[j] == s[j] && t[j - 1] == s[j - 1]);
        } else if j == s.len() {
            assert(t[j - 1] == s.last());
        } else {
            assert(clean_break_at(u, j - s.len()));
            assert(t[j] == u[j - s.len()] && t[j - 1] == u[j - s.len() - 1]);
        }
    }
}

/// Words of at least one character, with neither spaces nor line breaks.
pub open spec fn plain_words(words: Seq<Seq<char>>) -> bool {
    forall|i: int|
        0 <= i < words.len() ==> {
            &&& 1 <= #[trigger] words[i].len()
            &&& forall|k: int| 0 <= k < words[i].len() ==> words[i][k] != '\n' && words[i][k] != ' '
        }
}

/// Wrapping plain words never ends a line with a space, and the text starts with the first word.
proof fn lemma_wrap_words_clean(words: Seq<Seq<char>>)
    requires
        plain_words(words),
    ensures
        no_space_before_break(wrap_words(words).0),
        words.len() == 0 <==> wrap_words(words).1 == 0,
        words.len() == 0 ==> wrap_words(words).0.len() == 0,
        words.len() > 0 ==> {
            &&& wrap_words(words).0.len() > 0
            &&& wrap_words(words).0.last() != ' '
            &&& wrap_words(words).0[0] == words[0][0]
        },
    decreases words.len(),
{
    if words.len() > 0 {
        let rest = words.drop_last();
        assert(plain_words(rest)) by {
            assert forall|i: int| 0 <= i < rest.len() implies {
                &&& 1 <= #[trigger] rest[i].len()
                &&& forall|k: int| 0 <= k < rest[i].len() ==> rest[i][k] != '\n' && rest[i][k] != ' '
            } by {
                assert(rest[i] == words[i]);
            }
        }
        lemma_wrap_words_clean(rest);
        let (text, used) = wrap_words(rest);
        let w = words.last();
        assert(w == words[words.len() - 1]);
        assert(w.len() >= 1);
        lemma_no_break_clean(w);
        if used == 0 {
            assert(text + w =~= w);
            assert(rest.len() == 0);
        } else {
            assert(rest[0] == words[0]);
            if used + w.len() + 1 > MAX_LINE_LEN {
                let nl = seq!['\n'];
                lemma_no_break_clean(Seq::<char>::empty());
                assert(no_space_before_break(nl)) by {
                    assert forall|j: int| 0 < j < nl.len() implies #[trigger] clean_break_at(nl, j) by {}
                }
                lemma_clean_concat(text, nl);
                assert(text + nl =~= text.push('\n'));
                lemma_clean_concat(text.push('\n'), w);
                assert((text.push('\n') + w)[0] == text[0]);
            } else {
                let u = seq![' '] + w;
                assert forall|k: int| 0 <= k < u.len() implies u[k] != '\n' by {
                    if k > 0 {
                        assert(u[k] == w[k - 1]);
                    }
                }
                lemma_no_break_clean(u);
                lemma_clean_concat(text, u);
                assert(text + u =~= text.push(' ') + w);
                assert((text.push(' ') + w)[0] == text[0]);
            }
        }
    }
}

/// The words of a row are plain: decimal channel values.
proof fn lemma_row_words_plain(pixels: Seq<Rgb888>, width: nat, y: nat)
    ensures
        plain_words(row_words(pixels, width, y)),
{
    let words = row_words(pixels, width, y);
    assert forall|i: int| 0 <= i < words.len() implies {
        &&& 1 <= #[trigger] words[i].len()
        &&& forall|k: int| 0 <= k < words[i].len() ==> words[i][k] != '\n' && words[i][k] != ' '
    } by {
        lemma_decimal_digits(channel(pixels[y * width + i / 3], i % 3) as nat);
    }
}

/// A row's text ends with a line break that no space precedes, and starts with its first word.
proof fn lemma_row_text_clean(pixels: Seq<Rgb888>, width: nat, y: nat)
    ensures
        no_space_before_break(row_text(row_words(pixels, width, y))),
        width > 0 ==> {
            let row = row_text(row_words(pixels, width, y));
            &&& row.len() > 0
            &&& row[0] == decimal(pixels[(y * width) as int].0 as nat)[0]
            &&& row.last() == '\n'
        },
{
    let words = row_words(pixels, width, y);
    lemma_row_words_plain(pixels, width, y);
    lemma_wrap_words_clean(words);
    if words.len() > 0 {
        let text = wrap_words(words).0;
        let nl = seq!['\n'];
        assert(no_space_before_break(nl)) by {
            assert forall|j: int| 0 < j < nl.len() implies #[trigger] clean_break_at(nl, j) by {}
        }
        lemma_clean_concat(text, nl);
        assert(text + nl =~= text.push('\n'));
        assert(words[0] == decimal(channel(pixels[y * width + 0int / 3], 0int % 3) as nat));
        assert(y * width + 0int / 3 == y * width);
    } else {
        lemma_no_break_clean(Seq::<char>::empty());
    }
}

/// The rows' text never ends a line with a space, and ends with a line break when not empty.
proof fn lemma_rows_text_clean(pixels: Seq<Rgb888>, width: nat, rows: nat)
    ensures
        no_space_before_break(rows_text(pixels, width, rows)),
        rows_text(pixels, width, rows).len() == 0 || rows_text(pixels, width, rows).last() == '\n',
    decreases rows,
{
    if rows == 0 {
        lemma_no_break_clean(Seq::<char>::empty());
    } else {
        let prev = rows_text(pixels, width, (rows - 1) as nat);
        let row = row_text(row_words(pixels, width, (rows - 1) as nat));
        lemma_rows_text_clean(pixels, width, (rows - 1) as nat);
        lemma_row_text_clean(pixels, width, (rows - 1) as nat);
        lemma_clean_concat(prev, row);
        if row.len() == 0 {
            assert(prev + row =~= prev);
        } else {
            assert(row_words(pixels, width, (rows - 1) as nat).len() > 0);
            assert((prev + row).last() == row.last());
        }
    }
}

/// The header's lines end with no space, and it ends with a line break.
proof fn lemma_header_clean(width: nat, height: nat)
    ensures
        no_space_before_break(ppm_header(width, height)),
        ppm_header(width, height).last() == '\n',
{
    let nl = seq!['\n'];
    assert(no_space_before_break(nl)) by {
        assert forall|j: int| 0 < j < nl.len() implies #[trigger] clean_break_at(nl, j) by {}
    }
    let a = seq!['P', '3'];
    lemma_no_break_clean(a);
    lemma_clean_concat(a, nl);
    lemma_decimal_digits(width);
    lemma_decimal_digits(height);
    let b = decimal(width) + seq![' '] + decimal(height);
    assert forall|k: int| 0 <= k < b.len() implies b[k] != '\n' by {
        if k < decimal(width).len() {
            assert(b[k] == decimal(width)[k]);
        } else if k > decimal(width).len() {
            assert(b[k] == decimal(height)[k - decimal(width).len() - 1]);
        }
    }
    lemma_no_break_clean(b);
    assert(b.last() == decimal(height).last());
    lemma_clean_concat(b, nl);
    let c = seq!['2', '5', '5'];
    lemma_no_break_clean(c);
    lemma_clean_concat(c, nl);
    lemma_clean_concat(a + nl, b + nl);
    assert((a + nl + (b + nl)).last() == '\n');
    lemma_clean_concat(a + nl + (b + nl), c + nl);
    assert(ppm_header(width, height) =~= a + nl + (b + nl) + (c + nl));
}

/// No line of a PPM image ends with a space.
pub proof fn lemma_ppm_no_trailing_space(width: u32, height: u32, pixels: Seq<Rgb888>)
    ensures
        no_space_before_break(ppm_text(width as nat, height as nat, pixels)),
        ppm_text(width as nat, height as nat, pixels).last() == '\n',
{
    lemma_header_clean(width as nat, height as nat);
    lemma_rows_text_clean(pixels, width as nat, height as nat);
    lemma_clean_concat(ppm_header(width as nat, height as nat), rows_text(pixels, width as nat, height as nat));
    lemma_ppm_lines(width, height, pixels);
}

/// The text of the first rows is a prefix of the text of more rows.
proof fn lemma_rows_text_prefix(pixels: Seq<Rgb888>, width: nat, a: nat, b: nat)
    requires
        a <= b,
    ensures
        rows_text(pixels, width, a).len() <= rows_text(pixels, width, b).len(),
        rows_text(pixels, width, b).subrange(0, rows_text(pixels, width, a).len() as int)
            == rows_text(pixels, width, a),
    decreases b,
{
    if a < b {
        lemma_rows_text_prefix(pixels, width, a, (b - 1) as nat);
        let prev = rows_text(pixels, width, (b - 1) as nat);
        let row = row_text(row_words(pixels, width, (b - 1) as nat));
        assert((prev + row).subrange(0, rows_text(pixels, width, a).len() as int) =~= prev.subrange(
            0,
            rows_text(pixels, width, a).len() as int,
        ));
    } else {
        assert(rows_text(pixels, width, b).subrange(0, rows_text(pixels, width, b).len() as int)
            =~= rows_text(pixels, width, b));
    }
}

/// Each image row starts on a line of its own: in the PPM text, the text of row `y` comes right
/// after a line break that ends the header and the rows before it, and starts with the red value
/// of the row's first pixel.
pub proof fn lemma_ppm_row_starts_line(width: u32, height: u32, pixels: Seq<Rgb888>, y: nat)
    requires
        y < height,
    ensures
        ({
            let before = ppm_header(width as nat, height as nat) + rows_text(pixels, width as nat, y);
            let row = row_text(row_words(pixels, width as nat, y));
            &&& before.last() == '\n'
            &&& before.len() + row.len() <= ppm_text(width as nat, height as nat, pixels).len()
            &&& ppm_text(width as nat, height as nat, pixels).subrange(
                0,
                before.len() + row.len() as int,
            ) == before + row
            &&& width > 0 ==> row.len() > 0 && row[0] == decimal(pixels[(y * width) as int].0 as nat)[0]
        }),
{
    let w = width as nat;
    let header = ppm_header(w, height as nat);
    let prev = rows_text(pixels, w, y);
    let row = row_text(row_words(pixels, w, y));
    lemma_header_clean(w, height as nat);
    lemma_rows_text_clean(pixels, w, y);
    lemma_row_text_clean(pixels, w, y);
    if prev.len() == 0 {
        assert(header + prev =~= header);
    } else {
        assert((header + prev).last() == prev.last());
    }
    lemma_rows_text_prefix(pixels, w, y + 1, height as nat);
    let upto = rows_text(pixels, w, y + 1);
    assert(upto == prev + row);
    let all = rows_text(pixels, w, height as nat);
    assert(ppm_text(w, height as nat, pixels).subrange(0, (header + prev).len() + row.len() as int)
        =~= header + all.subrange(0, upto.len() as int));
    assert(header + prev + row =~= header + upto);
}

/// `c` is one of the decimal digits `0` to `9`.
pub open spec fn is_digit(c: char) -> bool {
    '0' <= c && c <= '9'
}

/// The number that a string of decimal digits reads as, most significant digit first.
pub open spec fn digits_value(s: Seq<char>) -> nat
    decreases s.len(),
{
    if s.len() == 0 {
        0
    } else {
        digits_value(s.drop_last()) * 10 + ((s.last() as int - '0' as int) as nat)
    }
}

/// The decimal text written for a number reads back as that number, with as many digits as the
/// number has: digits only, `n < 10^len`, and no leading zero (`10^(len-1) <= n`) except for
/// zero itself, written `0`. This holds for every `n`, so a PPM header holds the exact width and
/// height of any canvas.
pub proof fn lemma_decimal_reads_back(n: nat)
    ensures
        decimal(n).len() >= 1,
        forall|k: int| 0 <= k < decimal(n).len() ==> is_digit(#[trigger] decimal(n)[k]),
        digits_value(decimal(n)) == n,
        n < vstd::arithmetic::power::pow(10, decimal(n).len()),
        decimal(n).len() > 1 ==> vstd::arithmetic::power::pow(10, (decimal(n).len() - 1) as nat) <= n,
        decimal(n).len() > 1 ==> decimal(n)[0] != '0',
        n == 0 ==> decimal(n) == seq!['0'],
    decreases n,
{
    reveal_with_fuel(vstd::arithmetic::power::pow, 2);
    if n < 10 {
        assert('0' as int == 48);
        assert(digit_char(n) as int == 48 + n);
        assert(decimal(n).drop_last() =~= Seq::<char>::empty());
        assert(digits_value(decimal(n)) == digits_value(Seq::<char>::empty()) * 10 + (
        (decimal(n).last() as int - '0' as int) as nat));
    } else {
        let q = n / 10;
        let r = n % 10;
        lemma_decimal_reads_back(q);
        let d = decimal(q);
        let len = d.len();
        assert(decimal(n) == d.push(digit_char(r)));
        assert(decimal(n).drop_last() =~= d);
        assert('0' as int == 48);
        assert(digit_char(r) as int == 48 + r);
        assert(digits_value(decimal(n)) == digits_value(d) * 10 + r);
        assert forall|k: int| 0 <= k < decimal(n).len() implies is_digit(#[trigger] decimal(n)[k]) by {
            if k < len {
                assert(decimal(n)[k] == d[k]);
            }
        }
        assert(n == q * 10 + r);
        vstd::arithmetic::power::lemma_pow_adds(10, len, 1);
        vstd::arithmetic::power::lemma_pow1(10);
        let p = vstd::arithmetic::power::pow(10, len);
        assert(n < p * 10) by (nonlinear_arith)
            requires
                q < p,
                n == q * 10 + r,
                r < 10,
        ;
        if len > 1 {
            vstd::arithmetic::power::lemma_pow_adds(10, (len - 1) as nat, 1);
            let p0 = vstd::arithmetic::power::pow(10, (len - 1) as nat);
            assert(p0 * 10 <= n) by (nonlinear_arith)
                requires
                    p0 <= q,
                    n == q * 10 + r,
                    r >= 0,
            ;
            assert(decimal(n)[0] == d[0]);
        } else {
            assert(q >= 1);
            assert(decimal(n)[0] == d[0]);
            assert(d[0] == digit_char(q));
        }
    }
}

} // verus!
