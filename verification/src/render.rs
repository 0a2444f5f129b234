//! Rendering elapsed seconds as a stylized, centered block of text: the
//! decimal formatting of a seconds count, the stylization of a string
//! through a FIGlet font, and the computation of one displayed frame.

use crate::layout::pad_to_position;
use crate::layout::spec_layout;
use vstd::prelude::*;
use vstd::string::StringExecFns;

verus! {

/// The character for a single decimal digit.
pub open spec fn digit_char(d: nat) -> char {
    if d == 0 {
        '0'
    } else if d == 1 {
        '1'
    } else if d == 2 {
        '2'
    } else if d == 3 {
        '3'
    } else if d == 4 {
        '4'
    } else if d == 5 {
        '5'
    } else if d == 6 {
        '6'
    } else if d == 7 {
        '7'
    } else if d == 8 {
        '8'
    } else {
        '9'
    }
}

/// The decimal representation of `n`: most significant digit first, no
/// leading zeros except for `n == 0` itself.
pub open spec fn spec_decimal(n: nat) -> Seq<char>
    decreases n,
{
    if n < 10 {
        seq![digit_char(n)]
    } else {
        spec_decimal(n / 10).push(digit_char(n % 10))
    }
}

/// A decimal representation is never empty: the stopwatch never hands the
/// stylizer an empty message, whatever the seconds count.
pub proof fn lemma_decimal_nonempty(n: nat)
    ensures
        spec_decimal(n).len() >= 1,
{
}

/// The one-character string for a decimal digit.
fn digit_str(d: u64) -> (s: &'static str)
    requires
        d < 10,
    ensures
        s@ == seq![digit_char(d as nat)],
{
    proof {
        reveal_strlit("0");
        reveal_strlit("1");
        reveal_strlit("2");
        reveal_strlit("3");
        reveal_strlit("4");
        reveal_strlit("5");
        reveal_strlit("6");
        reveal_strlit("7");
        reveal_strlit("8");
        reveal_strlit("9");
    }
    let res: &'static str = if d == 0 {
        "0"
    } else if d == 1 {
        "1"
    } else if d == 2 {
        "2"
    } else if d == 3 {
        "3"
    } else if d == 4 {
        "4"
    } else if d == 5 {
        "5"
    } else if d == 6 {
        "6"
    } else if d == 7 {
        "7"
    } else if d == 8 {
        "8"
    } else {
        "9"
    };
    proof {
        assert(res@ =~= seq![digit_char(d as nat)]);
    }
    res
}

/// Appends the decimal representation of `n` to `out`, most significant
/// digit first.
fn push_decimal(out: &mut String, n: u64)
    ensures
        final(out)@ == old(out)@ + spec_decimal(n as nat),
    decreases n,
{
    if n >= 10 {
        push_decimal(out, n / 10);
    }
    let piece: &str = digit_str(n % 10);
    out.append(piece);
    proof {
        if n < 10 {
            assert(out@ =~= old(out)@ + spec_decimal(n as nat));
        } else {
            assert((n / 10) as nat == n as nat / 10);
            assert((n % 10) as nat == n as nat % 10);
            assert(out@ =~= old(out)@ + spec_decimal(n as nat));
        }
    }
}

/// The elapsed seconds as decimal text: most significant digit first, no
/// leading zeros, and `"0"` for zero itself.
pub fn seconds_text(n: u64) -> (res: String)
    ensures
        res@ == spec_decimal(n as nat),
{
    let mut out = String::new();
    push_decimal(&mut out, n);
    out
}

/// A printable ASCII character, from `' '` to `'~'`: one of the characters
/// a FIGlet font must provide a glyph for.
pub open spec fn printable_ascii(c: char) -> bool {
    32 <= c as u32 <= 126
}

/// Decimal text is printable ASCII, so the standard font can stylize every
/// character of it.
pub proof fn lemma_decimal_printable(n: nat)
    ensures
        forall|i: int|
            0 <= i < spec_decimal(n).len() ==> printable_ascii(#[trigger] spec_decimal(n)[i]),
    decreases n,
{
    if n < 10 {
        assert(printable_ascii(digit_char(n)));
    } else {
        lemma_decimal_printable(n / 10);
        assert(printable_ascii(digit_char(n % 10)));
        assert forall|i: int|
            0 <= i < spec_decimal(n).len() implies printable_ascii(
            #[trigger] spec_decimal(n)[i],
        ) by {
            if i < spec_decimal(n / 10).len() {
                assert(spec_decimal(n)[i] == spec_decimal(n / 10)[i]);
            } else {
                assert(spec_decimal(n)[i] == digit_char(n % 10));
            }
        }
    }
}

/// How stylized rendering can fail: the bundled font resource does not
/// parse, or the message gives the font nothing to render (it is empty, or
/// none of its characters appear in the font).
#[derive(Clone, Copy, PartialEq, Eq, Structural, Debug)]
pub enum RenderError {
    FontUnavailable,
    EmptyInput,
}

/// The stylized multi-line block that the standard FIGlet font gives for a
/// string. The font is a fixed resource bundled with the figlet crate and
/// conversion walks the message character by character, so the block is a
/// function of the string alone.
pub uninterp spec fn figlet_of(s: Seq<char>) -> Seq<char>;

/// Relies on figlet_rs: `FIGfont::standard` parses the font resource
/// bundled with the crate, which parses cleanly and holds a glyph for every
/// required character code from 32 through 126; `FIGfont::convert` renders
/// the message with it, returning `None` exactly when no character of the
/// message has a glyph (so never for a nonempty printable-ASCII message,
/// and always for an empty one); and the `FIGure` display joins the
/// rendered rows with newlines. All three are deterministic, so the
/// outcome depends on `text` alone.
#[verifier::external_body]
fn render_block(text: &str) -> (res: Result<String, RenderError>)
    ensures
        res matches Ok(r) ==> r@ == figlet_of(text@),
        text@.len() == 0 ==> res is Err,
        text@.len() > 0 && (forall|i: int|
            0 <= i < text@.len() ==> printable_ascii(#[trigger] text@[i])) ==> res is Ok,
{
    let font = match figlet_rs::FIGfont::standard() {
        Ok(f) => f,
        Err(_) => return Err(RenderError::FontUnavailable),
    };
    match font.convert(text) {
        Some(figure) => Ok(figure.to_string()),
        None => Err(RenderError::EmptyInput),
    }
}

/// One displayed frame for a message: the message stylized through the
/// standard FIGlet font, then centered in an `x` by `y` viewport. An empty
/// message always fails; a nonempty printable-ASCII message always
/// succeeds.
pub fn centered_frame(text: &str, x: i32, y: i32) -> (res: Result<String, RenderError>)
    requires
        0 <= x,
        0 <= y,
    ensures
        res matches Ok(r) ==> r@ == spec_layout(figlet_of(text@), x as int, y as int),
        text@.len() == 0 ==> res is Err,
        text@.len() > 0 && (forall|i: int|
            0 <= i < text@.len() ==> printable_ascii(#[trigger] text@[i])) ==> res is Ok,
{
    match render_block(text) {
        Ok(block) => Ok(pad_to_position(block.as_str(), x, y)),
        Err(e) => Err(e),
    }
}

/// One displayed frame of the stopwatch: the elapsed seconds in decimal,
/// stylized and centered. The decimal text is never empty and holds only
/// digit characters, which the standard font stylizes, so the frame always
/// succeeds: its value is fixed for every input.
pub fn stopwatch_frame(seconds: u64, x: i32, y: i32) -> (res: Result<String, RenderError>)
    requires
        0 <= x,
        0 <= y,
    ensures
        res is Ok,
        res matches Ok(r) ==> r@ == spec_layout(
            figlet_of(spec_decimal(seconds as nat)),
            x as int,
            y as int,
        ),
{
    let text = seconds_text(seconds);
    proof {
        lemma_decimal_nonempty(seconds as nat);
        lemma_decimal_printable(seconds as nat);
    }
    centered_frame(text.as_str(), x, y)
}

} // verus!
