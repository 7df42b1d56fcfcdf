//! The codec: text to canvas and canvas to text.
//!
//! A file is split into lines at `\n`. Line 0 names the format and is not
//! looked at. Line 1 holds the width and the height, line 2 the largest
//! channel value of the file. The remaining lines, joined by single spaces
//! and with trailing whitespace removed, hold the channel values, separated
//! by single spaces, three to a pixel, row after row.

use crate::canvas::{lemma_cell_in_range, Canvas, CanvasView};
use crate::color::{Color, HUNDREDTH, UNIT};
use crate::text::{
    chars_of, decimal, join, joined, lemma_joined_push, line_views, parse_number, pieces,
    push_decimal, read_number, split, trim_end, trimmed_end, views,
};
use vstd::prelude::*;
use vstd::string::*;

verus! {

/// The scale at which canvases are written, whatever scale they were read at.
pub const OUTPUT_SCALE: u32 = 255;

/// Why a text is not a pixel map.
#[derive(Clone, Copy, Debug, PartialEq, Eq, Structural)]
pub enum DecodeError {
    /// The text has no line 1 or no line 2.
    MissingHeaderLine,
    /// A width, a height, a scale or a channel value is not a number in range.
    InvalidNumber,
    /// The number of channel values is not a multiple of three.
    BodyLengthMismatch,
    /// The scale is zero, so no channel value can be normalized.
    ZeroScale,
}

/// `value`, or the bound that it lies beyond.
pub open spec fn clamped(value: int, min: int, max: int) -> int {
    if value < min {
        min
    } else if value > max {
        max
    } else {
        value
    }
}

/// The fraction `value / scale_max` in hundredths, rounded to the nearest
/// whole number; a fraction halfway between two is rounded up.
pub open spec fn hundredths(value: nat, scale_max: nat) -> int {
    (200 * (value as int) + (scale_max as int)) / (2 * (scale_max as int))
}

/// The channel that the value `value` at the scale `0..=scale_max` stands
/// for: the fraction `value / scale_max`, rounded to two decimal places.
pub open spec fn normalized(value: nat, scale_max: nat) -> int {
    HUNDREDTH * hundredths(value, scale_max)
}

/// The channel `channel` on the scale `0..=scale_max`: multiplied by the
/// scale, clamped to it, and cut off to a whole number.
pub open spec fn level(channel: int, scale_max: nat) -> nat {
    (clamped(channel * scale_max, 0, UNIT * scale_max) / (UNIT as int)) as nat
}

/// The width and the height on a dimension line: its first two fields.
pub open spec fn dimensions_of(line: Seq<char>) -> Option<(usize, usize)> {
    let fields = pieces(line, ' ');
    if fields.len() < 2 {
        None
    } else {
        match (
            parse_number(fields[0], usize::MAX as nat),
            parse_number(fields[1], usize::MAX as nat),
        ) {
            (Some(width), Some(height)) => Some((width as usize, height as usize)),
            _ => None,
        }
    }
}

/// Width, height and scale of a text with the given lines, or the reason
/// why it has none. The dimension line is judged before line 2 is asked for.
pub open spec fn header_of(lines: Seq<Seq<char>>) -> Result<(usize, usize, u32), DecodeError> {
    if lines.len() < 2 {
        Err(DecodeError::MissingHeaderLine)
    } else {
        match dimensions_of(lines[1]) {
            None => Err(DecodeError::InvalidNumber),
            Some((width, height)) => if lines.len() < 3 {
                Err(DecodeError::MissingHeaderLine)
            } else {
                match parse_number(lines[2], u32::MAX as nat) {
                    None => Err(DecodeError::InvalidNumber),
                    Some(scale_max) => Ok((width, height, scale_max as u32)),
                }
            },
        }
    }
}

/// The channel tokens on the given lines.
pub open spec fn tokens_of(body_lines: Seq<Seq<char>>) -> Seq<Seq<char>> {
    pieces(trimmed_end(joined(body_lines, ' ')), ' ')
}

/// Whether every token is a channel value.
pub open spec fn all_numeric(tokens: Seq<Seq<char>>) -> bool {
    forall|i: int| 0 <= i < tokens.len() ==> (#[trigger] parse_number(
        tokens[i],
        u32::MAX as nat,
    )) is Some
}

/// The channel value that the token denotes.
pub open spec fn token_value(token: Seq<char>) -> nat {
    match parse_number(token, u32::MAX as nat) {
        Some(value) => value,
        None => 0,
    }
}

/// The `i`-th pixel of a token sequence: three tokens, each normalized.
pub open spec fn pixel_of(tokens: Seq<Seq<char>>, i: int, scale_max: nat) -> Color {
    Color {
        r: normalized(token_value(tokens[3 * i]), scale_max) as i64,
        g: normalized(token_value(tokens[3 * i + 1]), scale_max) as i64,
        b: normalized(token_value(tokens[3 * i + 2]), scale_max) as i64,
    }
}

/// The pixels that the given body lines hold at the given scale, or the
/// reason why they hold none.
pub open spec fn pixels_of(body_lines: Seq<Seq<char>>, scale_max: u32) -> Result<
    Seq<Color>,
    DecodeError,
> {
    let tokens = tokens_of(body_lines);
    if !all_numeric(tokens) {
        Err(DecodeError::InvalidNumber)
    } else if tokens.len() % 3 != 0 {
        Err(DecodeError::BodyLengthMismatch)
    } else if scale_max == 0 {
        Err(DecodeError::ZeroScale)
    } else {
        Ok(Seq::new(tokens.len() / 3, |i: int| pixel_of(tokens, i, scale_max as nat)))
    }
}

/// The pixels of a text with the given lines: those of the lines after the
/// three header lines.
pub open spec fn body_of(lines: Seq<Seq<char>>, scale_max: u32) -> Result<
    Seq<Color>,
    DecodeError,
> {
    pixels_of(lines.skip(3), scale_max)
}

/// The canvas that `content` denotes, or the reason why it denotes none.
/// Nothing relates the number of pixels to the width and the height.
pub open spec fn decoded(content: Seq<char>) -> Result<CanvasView, DecodeError> {
    let lines = pieces(content, '\n');
    match header_of(lines) {
        Err(e) => Err(e),
        Ok((width, height, scale_max)) => match body_of(lines, scale_max) {
            Err(e) => Err(e),
            Ok(pixels) => Ok(CanvasView { width: width as nat, height: height as nat, pixels }),
        },
    }
}

/// The header of a canvas of the given size, without a final newline.
pub open spec fn header_text(width: nat, height: nat) -> Seq<char> {
    seq!['P', '3', '\n'] + decimal(width) + seq![' '] + decimal(height) + seq!['\n'] + decimal(
        OUTPUT_SCALE as nat,
    )
}

/// The three levels of a color, separated by spaces.
pub open spec fn triplet_text(color: Color, scale_max: nat) -> Seq<char> {
    decimal(level(color.r as int, scale_max)) + seq![' '] + decimal(
        level(color.g as int, scale_max),
    ) + seq![' '] + decimal(level(color.b as int, scale_max))
}

/// The triplets of the cells of row `y`, in order.
pub open spec fn row_triplets(canvas: CanvasView, y: int, scale_max: nat) -> Seq<Seq<char>> {
    Seq::new(canvas.width, |x: int| triplet_text(canvas.pixels[canvas.index(x, y)], scale_max))
}

/// Row `y`: its triplets, separated by spaces.
pub open spec fn row_text(canvas: CanvasView, y: int, scale_max: nat) -> Seq<char> {
    joined(row_triplets(canvas, y, scale_max), ' ')
}

/// The rows of the canvas, top to bottom.
pub open spec fn rows(canvas: CanvasView, scale_max: nat) -> Seq<Seq<char>> {
    Seq::new(canvas.height, |y: int| row_text(canvas, y, scale_max))
}

/// The body: the rows, separated by newlines.
pub open spec fn body_text(canvas: CanvasView, scale_max: nat) -> Seq<char> {
    joined(rows(canvas, scale_max), '\n')
}

/// The text of a canvas: header and body, each followed by a newline.
pub open spec fn encoded(canvas: CanvasView) -> Seq<char> {
    header_text(canvas.width, canvas.height) + seq!['\n'] + body_text(canvas, OUTPUT_SCALE as nat)
        + seq!['\n']
}

/// `value`, held to the range from `min` to `max`.
pub fn clamp(value: i64, min: i64, max: i64) -> (held: i64)
    requires
        min <= max,
    ensures
        held == clamped(value as int, min as int, max as int),
{
    let mut x = value;
    if x < min {
        x = min;
    }
    if x > max {
        x = max;
    }
    x
}

/// The fraction `value / scale_max` as a channel, rounded to two decimal
/// places: a whole number `h` of hundredths, the nearest to
/// `100 * value / scale_max` and the larger of two that are equally near.
pub fn round_decimal(value: u32, scale_max: u32) -> (channel: i64)
    requires
        scale_max > 0,
    ensures
        channel == normalized(value as nat, scale_max as nat),
        0 <= channel,
        channel % HUNDREDTH == 0,
        2 * (channel / HUNDREDTH) * scale_max - scale_max <= 200 * value < 2 * (channel
            / HUNDREDTH) * scale_max + scale_max,
{
    let twice: u64 = 200 * (value as u64) + (scale_max as u64);
    let divisor: u64 = 2 * (scale_max as u64);
    let rounded: u64 = twice / divisor;
    proof {
        lemma_hundredths_nearest(value as nat, scale_max as nat);
        assert(rounded == hundredths(value as nat, scale_max as nat));
        assert(0 <= 255 * rounded <= 255 * (100 * value + 1));
        assert((255 * rounded) / 255 == rounded && (255 * rounded) % 255 == 0);
    }
    ((HUNDREDTH as u64) * rounded) as i64
}

/// What [`hundredths`] computes is the whole number nearest to
/// `100 * value / scale_max`, and the larger of two that are equally near:
/// times the scale, it differs from `100 * value` by at most half the
/// scale.
pub proof fn lemma_hundredths_nearest(value: nat, scale_max: nat)
    requires
        scale_max > 0,
    ensures
        0 <= hundredths(value, scale_max) <= 100 * value + 1,
        2 * hundredths(value, scale_max) * scale_max - scale_max <= 200 * value,
        200 * value < 2 * hundredths(value, scale_max) * scale_max + scale_max,
{
    let n: int = 200 * (value as int) + (scale_max as int);
    let d: int = 2 * (scale_max as int);
    let q = n / d;
    assert(q == hundredths(value, scale_max));
    assert(n == d * q + n % d && 0 <= n % d < d) by (nonlinear_arith)
        requires
            d > 0,
            q == n / d,
    ;
    assert(d * q == 2 * q * scale_max) by (nonlinear_arith)
        requires
            d == 2 * scale_max,
    ;
    assert(0 <= q <= 100 * value + 1) by (nonlinear_arith)
        requires
            n == d * q + n % d,
            0 <= n % d < d,
            d == 2 * scale_max,
            n == 200 * value + scale_max,
            scale_max >= 1,
            value >= 0,
    ;
}

/// The level of a channel on the scale `0..=scale_max`. A channel above
/// full intensity gives the top of the scale and one below zero gives zero;
/// the level never leaves the scale.
pub fn encode_channel(channel: i64, scale_max: u32) -> (l: u32)
    ensures
        l == level(channel as int, scale_max as nat),
        l <= scale_max,
        channel >= UNIT ==> l == scale_max,
        channel <= 0 ==> l == 0,
{
    let held = clamp(channel, 0, UNIT);
    proof {
        lemma_level(channel as int, scale_max as nat);
        assert(0 <= held * scale_max <= 25500 * scale_max) by (nonlinear_arith)
            requires
                0 <= held <= 25500,
                0 <= scale_max,
        ;
    }
    let scaled: u64 = (held as u64) * (scale_max as u64);
    (scaled / (UNIT as u64)) as u32
}

/// The level is the clamped channel times the scale, cut off to a whole
/// number, and stays on the scale.
pub proof fn lemma_level(channel: int, scale_max: nat)
    ensures
        level(channel, scale_max) == clamped(channel, 0, UNIT as int) * scale_max / (UNIT as int),
        level(channel, scale_max) <= scale_max,
        channel >= UNIT ==> level(channel, scale_max) == scale_max,
        channel <= 0 ==> level(channel, scale_max) == 0,
{
    let s = scale_max as int;
    let held = clamped(channel, 0, 25500);
    assert(clamped(channel * s, 0, 25500 * s) == held * s) by (nonlinear_arith)
        requires
            s >= 0,
            held == clamped(channel, 0, 25500),
    ;
    assert(0 <= held * s <= 25500 * s) by (nonlinear_arith)
        requires
            0 <= held <= 25500,
            s >= 0,
    ;
    if channel >= 25500 {
        assert(held * s == 25500 * s);
    }
    if channel <= 0 {
        assert(held * s == 0) by (nonlinear_arith)
            requires
                held == 0,
        ;
    }
}

/// The lines from `from` to `to`, each as its characters.
fn chars_of_lines(lines: &Vec<&str>, from: usize, to: usize) -> (owned: Vec<Vec<char>>)
    requires
        from <= to <= lines.len(),
    ensures
        views(owned@) == line_views(lines@).subrange(from as int, to as int),
{
    let mut owned: Vec<Vec<char>> = Vec::new();
    let mut i: usize = from;
    while i < to
        invariant
            from <= i <= to <= lines.len(),
            views(owned@) =~= line_views(lines@).subrange(from as int, i as int),
        decreases to - i,
    {
        let ghost before = owned@;
        owned.push(chars_of(lines[i]));
        proof {
            assert(line_views(lines@)[i as int] == lines@[i as int]@);
            assert(views(owned@) =~= views(before).push(lines@[i as int]@));
        }
        i += 1;
    }
    owned
}

/// Reads the width and the height from a dimension line.
fn dimensions_from(line: &Vec<char>) -> (dimensions: Option<(usize, usize)>)
    ensures
        dimensions == dimensions_of(line@),
{
    let fields = split(line, ' ');
    if fields.len() < 2 {
        return None;
    }
    assert(views(fields@)[0] == fields@[0]@);
    assert(views(fields@)[1] == fields@[1]@);
    match (read_number(&fields[0], usize::MAX as u64), read_number(&fields[1], usize::MAX as u64)) {
        (Some(width), Some(height)) => Some((width as usize, height as usize)),
        _ => None,
    }
}

/// Reads width, height and scale from the lines of a text.
fn header_from(lines: &Vec<Vec<char>>) -> (header: Result<(usize, usize, u32), DecodeError>)
    ensures
        header == header_of(views(lines@)),
{
    if lines.len() < 2 {
        return Err(DecodeError::MissingHeaderLine);
    }
    assert(views(lines@)[1] == lines@[1]@);
    let (width, height) = match dimensions_from(&lines[1]) {
        Some(dimensions) => dimensions,
        None => return Err(DecodeError::InvalidNumber),
    };
    if lines.len() < 3 {
        return Err(DecodeError::MissingHeaderLine);
    }
    assert(views(lines@)[2] == lines@[2]@);
    match read_number(&lines[2], u32::MAX as u64) {
        Some(scale_max) => Ok((width, height, scale_max as u32)),
        None => Err(DecodeError::InvalidNumber),
    }
}

/// Reads the pixels from the lines from `start` on.
fn pixels_from(lines: &Vec<Vec<char>>, start: usize, scale_max: u32) -> (pixels: Result<
    Vec<Color>,
    DecodeError,
>)
    requires
        start <= lines.len(),
    ensures
        match pixels {
            Ok(colors) => pixels_of(views(lines@).skip(start as int), scale_max) == Ok::<
                Seq<Color>,
                DecodeError,
            >(colors@),
            Err(e) => pixels_of(views(lines@).skip(start as int), scale_max) == Err::<
                Seq<Color>,
                DecodeError,
            >(e),
        },
{
    let mut text = join(lines, start, ' ');
    trim_end(&mut text);
    let tokens = split(&text, ' ');
    let ghost token_texts = tokens_of(views(lines@).skip(start as int));
    assert(views(tokens@) == token_texts);

    let mut values: Vec<u32> = Vec::new();
    let mut i: usize = 0;
    while i < tokens.len()
        invariant
            i <= tokens.len(),
            views(tokens@) == token_texts,
            token_texts == tokens_of(views(lines@).skip(start as int)),
            values.len() == i,
            forall|j: int|
                0 <= j < i ==> parse_number(#[trigger] token_texts[j], u32::MAX as nat) == Some(
                    values@[j] as nat,
                ),
        decreases tokens.len() - i,
    {
        assert(token_texts[i as int] == tokens@[i as int]@);
        match read_number(&tokens[i], u32::MAX as u64) {
            Some(value) => values.push(value as u32),
            None => {
                assert(parse_number(token_texts[i as int], u32::MAX as nat) is None);
                return Err(DecodeError::InvalidNumber);
            },
        }
        i += 1;
    }
    assert(all_numeric(token_texts));
    if values.len() % 3 != 0 {
        return Err(DecodeError::BodyLengthMismatch);
    }
    if scale_max == 0 {
        return Err(DecodeError::ZeroScale);
    }
    let mut colors: Vec<Color> = Vec::new();
    let mut k: usize = 0;
    while k < values.len()
        invariant
            k <= values.len(),
            k % 3 == 0,
            values.len() % 3 == 0,
            values.len() == token_texts.len(),
            scale_max > 0,
            colors.len() * 3 == k,
            forall|j: int|
                0 <= j < values.len() ==> parse_number(
                    #[trigger] token_texts[j],
                    u32::MAX as nat,
                ) == Some(values@[j] as nat),
            forall|j: int|
                0 <= j < colors.len() ==> colors@[j] == pixel_of(
                    token_texts,
                    j,
                    scale_max as nat,
                ),
        decreases values.len() - k,
    {
        let ghost j = colors.len() as int;
        proof {
            lemma_hundredths_nearest(values@[k as int] as nat, scale_max as nat);
            lemma_hundredths_nearest(values@[k + 1] as nat, scale_max as nat);
            lemma_hundredths_nearest(values@[k + 2] as nat, scale_max as nat);
            assert(token_value(token_texts[3 * j]) == values@[k as int]);
            assert(token_value(token_texts[3 * j + 1]) == values@[k + 1]);
            assert(token_value(token_texts[3 * j + 2]) == values@[k + 2]);
        }
        let r = round_decimal(values[k], scale_max);
        let g = round_decimal(values[k + 1], scale_max);
        let b = round_decimal(values[k + 2], scale_max);
        colors.push(Color::new(r, g, b));
        k += 3;
    }
    assert(colors@ =~= Seq::new(
        token_texts.len() / 3,
        |i: int| pixel_of(token_texts, i, scale_max as nat),
    ));
    Ok(colors)
}

/// Width, height and scale of a text, given its lines.
///
/// The result is an error exactly when the text has no line 1
/// (`MissingHeaderLine`), its line 1 does not start with two numbers that fit
/// `usize`, separated by one space (`InvalidNumber`), it has no line 2
/// (`MissingHeaderLine`), or its line 2 is not a number that fits `u32`
/// (`InvalidNumber`); the conditions are tested in this order.
pub fn parse_header(lines: &Vec<&str>) -> (header: Result<(usize, usize, u32), DecodeError>)
    ensures
        header == header_of(line_views(lines@)),
{
    let count: usize = if lines.len() < 3 {
        lines.len()
    } else {
        3
    };
    let head = chars_of_lines(lines, 0, count);
    let header = header_from(&head);
    proof {
        let all = line_views(lines@);
        let first = all.subrange(0, count as int);
        if count >= 2 {
            assert(first[1] == all[1]);
        }
        if count >= 3 {
            assert(first[2] == all[2]);
        }
    }
    header
}

/// The pixels of a text, given its lines and the scale of its header.
///
/// The lines after the first three are joined by single spaces, trailing
/// whitespace is removed, and the rest is split at single spaces. The
/// result is `InvalidNumber` if a token is not a number that fits `u32`,
/// else `BodyLengthMismatch` if the tokens do not come in threes, else
/// `ZeroScale` if `scale_max` is zero. Otherwise every three tokens give
/// one pixel, each channel being [`normalized`].
pub fn parse_body(lines: &Vec<&str>, scale_max: u32) -> (pixels: Result<Vec<Color>, DecodeError>)
    requires
        lines.len() >= 3,
    ensures
        match pixels {
            Ok(colors) => body_of(line_views(lines@), scale_max) == Ok::<Seq<Color>, DecodeError>(
                colors@,
            ),
            Err(e) => body_of(line_views(lines@), scale_max) == Err::<Seq<Color>, DecodeError>(e),
        },
{
    let body = chars_of_lines(lines, 3, lines.len());
    proof {
        assert(views(body@).skip(0) =~= line_views(lines@).skip(3));
    }
    pixels_from(&body, 0, scale_max)
}

/// Reads a canvas from the text of a pixel map.
///
/// The canvas has the width and height of the header and the pixels of the
/// body, however many there are.
pub fn decode(content: &str) -> (canvas: Result<Canvas, DecodeError>)
    ensures
        match canvas {
            Ok(c) => decoded(content@) == Ok::<CanvasView, DecodeError>(c@),
            Err(e) => decoded(content@) == Err::<CanvasView, DecodeError>(e),
        },
{
    let chars = chars_of(content);
    let lines = split(&chars, '\n');
    let (width, height, scale_max) = match header_from(&lines) {
        Ok(header) => header,
        Err(e) => return Err(e),
    };
    match pixels_from(&lines, 3, scale_max) {
        Ok(pixels) => Ok(Canvas { width, height, pixels }),
        Err(e) => Err(e),
    }
}

/// The header of the canvas's text: `P3`, the width and the height, and
/// the output scale, on three lines.
pub fn generate_header(canvas: &Canvas) -> (header: String)
    ensures
        header@ == header_text(canvas.width as nat, canvas.height as nat),
{
    let mut header = String::new();
    proof {
        reveal_strlit("P3\n");
        reveal_strlit(" ");
        reveal_strlit("\n");
    }
    header.append("P3\n");
    push_decimal(&mut header, canvas.width as u64);
    header.append(" ");
    push_decimal(&mut header, canvas.height as u64);
    header.append("\n");
    push_decimal(&mut header, OUTPUT_SCALE as u64);
    assert(header@ =~= header_text(canvas.width as nat, canvas.height as nat));
    header
}

/// Appends the triplet of `color` to `out`.
fn push_triplet(out: &mut String, color: &Color, scale_max: u32)
    ensures
        final(out)@ == old(out)@ + triplet_text(*color, scale_max as nat),
{
    proof {
        reveal_strlit(" ");
    }
    push_decimal(out, encode_channel(color.r, scale_max) as u64);
    out.append(" ");
    push_decimal(out, encode_channel(color.g, scale_max) as u64);
    out.append(" ");
    push_decimal(out, encode_channel(color.b, scale_max) as u64);
    assert(out@ =~= old(out)@ + triplet_text(*color, scale_max as nat));
}

/// Appends row `y` of the canvas to `out`.
fn push_row(out: &mut String, canvas: &Canvas, y: usize, scale_max: u32)
    requires
        canvas@.covers_grid(),
        y < canvas.height,
    ensures
        final(out)@ == old(out)@ + row_text(canvas@, y as int, scale_max as nat),
{
    let ghost triplets = row_triplets(canvas@, y as int, scale_max as nat);
    let mut x: usize = 0;
    proof {
        assert(triplets.take(0) =~= Seq::empty());
        assert(out@ =~= old(out)@ + joined(triplets.take(0), ' '));
    }
    while x < canvas.width
        invariant
            x <= canvas.width,
            y < canvas.height,
            canvas@.covers_grid(),
            triplets == row_triplets(canvas@, y as int, scale_max as nat),
            out@ == old(out)@ + joined(triplets.take(x as int), ' '),
        decreases canvas.width - x,
    {
        proof {
            reveal_strlit(" ");
            lemma_cell_in_range(canvas@, x as int, y as int);
            lemma_joined_push(triplets.take(x as int), triplets[x as int], ' ');
            assert(triplets.take(x + 1) =~= triplets.take(x as int).push(triplets[x as int]));
        }
        if x > 0 {
            out.append(" ");
        }
        let color = canvas.pixel_at(x, y).unwrap();
        push_triplet(out, color, scale_max);
        assert(out@ =~= old(out)@ + joined(triplets.take(x + 1), ' '));
        x += 1;
    }
    assert(triplets.take(x as int) =~= triplets);
}

/// The body of the canvas's text: for each row a line of `r g b` triplets,
/// each channel at its [`level`] on the scale `0..=scale_max`; rows are
/// separated by newlines and triplets by spaces.
pub fn generate_body(canvas: &Canvas, scale_max: u32) -> (body: String)
    requires
        canvas@.covers_grid(),
    ensures
        body@ == body_text(canvas@, scale_max as nat),
{
    let mut body = String::new();
    let ghost lines = rows(canvas@, scale_max as nat);
    let mut y: usize = 0;
    proof {
        assert(lines.take(0) =~= Seq::empty());
        assert(body@ =~= joined(lines.take(0), '\n'));
    }
    while y < canvas.height
        invariant
            y <= canvas.height,
            canvas@.covers_grid(),
            lines == rows(canvas@, scale_max as nat),
            body@ == joined(lines.take(y as int), '\n'),
        decreases canvas.height - y,
    {
        proof {
            reveal_strlit("\n");
            lemma_joined_push(lines.take(y as int), lines[y as int], '\n');
            assert(lines.take(y + 1) =~= lines.take(y as int).push(lines[y as int]));
        }
        if y > 0 {
            body.append("\n");
        }
        push_row(&mut body, canvas, y, scale_max);
        assert(body@ =~= joined(lines.take(y + 1), '\n'));
        y += 1;
    }
    assert(lines.take(y as int) =~= lines);
    body
}

/// The text of the canvas: its header and its body at the output scale,
/// each followed by a newline.
pub fn encode(canvas: &Canvas) -> (content: String)
    requires
        canvas@.covers_grid(),
    ensures
        content@ == encoded(canvas@),
{
    let mut content = generate_header(canvas);
    let body = generate_body(canvas, OUTPUT_SCALE);
    proof {
        reveal_strlit("\n");
    }
    content.append("\n");
    content.append(body.as_str());
    content.append("\n");
    assert(content@ =~= encoded(canvas@));
    content
}

} // verus!
