//! Writing a canvas and reading the text back gives the canvas again.
//!
//! The writer puts every channel on the scale `0..=255` and cuts it off;
//! the reader divides by 255 and rounds to hundredths. For a channel of
//! `h` hundredths, `h` between 0 and 100, the level written is less than
//! one below `2.55 * h`, and the nearest hundredth of that level over 255
//! is `h` again. A channel that is not a whole number of hundredths is
//! read back as one that is, and so not unchanged.

use crate::canvas::{lemma_cell_in_range, Canvas, CanvasView};
use crate::codec::{
    all_numeric, decoded, dimensions_of, encoded, header_of, header_text, hundredths,
    lemma_level, level, normalized, pixel_of, pixels_of, row_triplets, rows, tokens_of,
    triplet_text, DecodeError, OUTPUT_SCALE,
};
use crate::color::{Color, HUNDREDTH, UNIT};
use crate::text::{
    all_digits, all_free_of, decimal, free_of, is_whitespace, joined, lemma_decimal,
    lemma_digits_are_plain, lemma_joined_concat, lemma_joined_free_of, lemma_joined_last,
    lemma_joined_push, lemma_parse_decimal, lemma_pieces_of_joined, lemma_trimmed_end_push,
    parse_number, pieces, trimmed_end,
};
use vstd::prelude::*;

verus! {

/// Channel `k` of a color: 0 is red, 1 is green, anything else is blue.
pub open spec fn channel(color: Color, k: int) -> int {
    if k == 0 {
        color.r as int
    } else if k == 1 {
        color.g as int
    } else {
        color.b as int
    }
}

/// The channel values of a canvas as the writer emits them: pixel after
/// pixel in storage order, red, green, blue.
pub open spec fn channel_tokens(canvas: CanvasView, scale_max: nat) -> Seq<Seq<char>> {
    Seq::new(
        3 * (canvas.width * canvas.height),
        |k: int| decimal(level(channel(canvas.pixels[k / 3], k % 3), scale_max)),
    )
}

/// A channel of a whole number of hundredths between no and full
/// intensity survives being written at scale 255 and read back.
pub proof fn lemma_channel_round_trip(channel: int)
    requires
        0 <= channel <= UNIT,
        channel % (HUNDREDTH as int) == 0,
    ensures
        normalized(level(channel, 255), 255) == channel,
{
    lemma_level(channel, 255);
    let h = channel / 255;
    assert(channel == 255 * h);
    let written = level(channel, 255) as int;
    assert(written == (channel * 255) / 25500);
    assert(written == (h * 255) / 100);
    assert(100 * written <= 255 * h < 100 * written + 100);
    let twice = 200 * written + 255;
    assert(510 * h <= twice < 510 * h + 510);
    assert(twice / 510 == h);
    assert(hundredths(written as nat, 255) == twice / 510);
}

/// Every channel token is a number on the scale, written in digits.
proof fn lemma_channel_token(canvas: CanvasView, scale_max: nat, k: int)
    requires
        0 <= k < 3 * (canvas.width * canvas.height),
        scale_max <= u32::MAX,
    ensures
        channel_tokens(canvas, scale_max)[k].len() >= 1,
        all_digits(channel_tokens(canvas, scale_max)[k]),
        free_of(channel_tokens(canvas, scale_max)[k], ' '),
        free_of(channel_tokens(canvas, scale_max)[k], '\n'),
        !is_whitespace(channel_tokens(canvas, scale_max)[k].last()),
        parse_number(channel_tokens(canvas, scale_max)[k], u32::MAX as nat) == Some(
            level(channel(canvas.pixels[k / 3], k % 3), scale_max),
        ),
{
    let value = level(channel(canvas.pixels[k / 3], k % 3), scale_max);
    lemma_level(channel(canvas.pixels[k / 3], k % 3), scale_max);
    lemma_decimal(value);
    lemma_digits_are_plain(decimal(value));
    lemma_parse_decimal(value, u32::MAX as nat);
}

/// The triplet of pixel `p` is its three channel tokens, joined by spaces.
proof fn lemma_triplet_tokens(canvas: CanvasView, scale_max: nat, p: int)
    requires
        0 <= p < canvas.width * canvas.height,
    ensures
        triplet_text(canvas.pixels[p], scale_max) == joined(
            channel_tokens(canvas, scale_max).subrange(3 * p, 3 * p + 3),
            ' ',
        ),
{
    let tokens = channel_tokens(canvas, scale_max);
    let three = tokens.subrange(3 * p, 3 * p + 3);
    let red = tokens[3 * p];
    let green = tokens[3 * p + 1];
    let blue = tokens[3 * p + 2];
    assert(three =~= seq![red].push(green).push(blue));
    lemma_joined_push(seq![red], green, ' ');
    lemma_joined_push(seq![red].push(green), blue, ' ');
    assert(joined(seq![red], ' ') == red);
}

/// The first `x` triplets of row `y`, joined by spaces, are the channel
/// tokens of those cells, joined by spaces.
proof fn lemma_row_prefix(canvas: CanvasView, scale_max: nat, y: int, x: int)
    requires
        canvas.well_formed(),
        0 <= y < canvas.height,
        1 <= x <= canvas.width,
    ensures
        0 <= 3 * canvas.index(0, y) <= 3 * canvas.index(x, y) <= 3 * (canvas.width
            * canvas.height),
        joined(row_triplets(canvas, y, scale_max).take(x), ' ') == joined(
            channel_tokens(canvas, scale_max).subrange(
                3 * canvas.index(0, y),
                3 * canvas.index(x, y),
            ),
            ' ',
        ),
    decreases x,
{
    let tokens = channel_tokens(canvas, scale_max);
    let triplets = row_triplets(canvas, y, scale_max);
    let first = canvas.index(0, y);
    let p = canvas.index(x - 1, y);
    lemma_cell_in_range(canvas, x - 1, y);
    lemma_cell_in_range(canvas, 0, y);
    lemma_triplet_tokens(canvas, scale_max, p);
    assert(triplets[x - 1] == triplet_text(canvas.pixels[p], scale_max));
    if x == 1 {
        assert(triplets.take(1) =~= seq![triplets[0]]);
    } else {
        lemma_row_prefix(canvas, scale_max, y, x - 1);
        assert(triplets.take(x) =~= triplets.take(x - 1).push(triplets[x - 1]));
        lemma_joined_push(triplets.take(x - 1), triplets[x - 1], ' ');
        let done = tokens.subrange(3 * first, 3 * p);
        let next = tokens.subrange(3 * p, 3 * p + 3);
        lemma_joined_concat(done, next, ' ');
        assert(done + next =~= tokens.subrange(3 * first, 3 * p + 3));
    }
}

/// The first `n` rows, joined by spaces, are the channel tokens of their
/// cells, joined by spaces.
proof fn lemma_rows_prefix(canvas: CanvasView, scale_max: nat, n: int)
    requires
        canvas.well_formed(),
        canvas.width >= 1,
        1 <= n <= canvas.height,
    ensures
        0 < 3 * (canvas.width * n) <= 3 * (canvas.width * canvas.height),
        joined(rows(canvas, scale_max).take(n), ' ') == joined(
            channel_tokens(canvas, scale_max).subrange(0, 3 * (canvas.width * n)),
            ' ',
        ),
    decreases n,
{
    let w = canvas.width as int;
    let h = canvas.height as int;
    let tokens = channel_tokens(canvas, scale_max);
    let lines = rows(canvas, scale_max);
    let start = w * (n - 1);
    let end = w * n;
    assert(end == start + w && 0 <= start && end <= w * h) by (nonlinear_arith)
        requires
            start == w * (n - 1),
            end == w * n,
            1 <= n <= h,
            1 <= w,
    ;
    assert(canvas.index(0, n - 1) == start);
    assert(canvas.index(w, n - 1) == end);
    lemma_row_prefix(canvas, scale_max, n - 1, w);
    assert(row_triplets(canvas, n - 1, scale_max).take(w) =~= row_triplets(
        canvas,
        n - 1,
        scale_max,
    ));
    let next = tokens.subrange(3 * start, 3 * end);
    assert(lines[n - 1] == joined(next, ' '));
    if n == 1 {
        assert(lines.take(1) =~= seq![lines[0]]);
        assert(start == 0);
        assert(joined(lines.take(1), ' ') == lines[0]);
    } else {
        lemma_rows_prefix(canvas, scale_max, n - 1);
        let done = tokens.subrange(0, 3 * start);
        assert(joined(lines.take(n - 1), ' ') == joined(done, ' '));
        assert(lines.take(n) =~= lines.take(n - 1).push(lines[n - 1]));
        lemma_joined_push(lines.take(n - 1), lines[n - 1], ' ');
        lemma_joined_concat(done, next, ' ');
        assert(done + next =~= tokens.subrange(0, 3 * end));
    }
}

/// No row holds a newline.
proof fn lemma_rows_hold_no_newline(canvas: CanvasView, scale_max: nat)
    requires
        canvas.well_formed(),
        canvas.width >= 1,
        scale_max <= u32::MAX,
    ensures
        all_free_of(rows(canvas, scale_max), '\n'),
{
    let tokens = channel_tokens(canvas, scale_max);
    let w = canvas.width as int;
    assert forall|y: int| 0 <= y < rows(canvas, scale_max).len() implies free_of(
        #[trigger] rows(canvas, scale_max)[y],
        '\n',
    ) by {
        lemma_row_prefix(canvas, scale_max, y, w);
        assert(row_triplets(canvas, y, scale_max).take(w) =~= row_triplets(canvas, y, scale_max));
        let part = tokens.subrange(3 * canvas.index(0, y), 3 * canvas.index(w, y));
        assert forall|i: int| 0 <= i < part.len() implies free_of(#[trigger] part[i], '\n') by {
            lemma_channel_token(canvas, scale_max, 3 * canvas.index(0, y) + i);
        }
        lemma_joined_free_of(part, ' ', '\n');
    }
}

/// The lines of the text of a canvas: the three header lines, the rows,
/// and the empty line after the last newline.
pub open spec fn encoded_lines(canvas: CanvasView) -> Seq<Seq<char>> {
    (seq![
        seq!['P', '3'],
        decimal(canvas.width) + seq![' '] + decimal(canvas.height),
        decimal(OUTPUT_SCALE as nat),
    ] + rows(canvas, OUTPUT_SCALE as nat)).push(Seq::empty())
}

/// Splitting the text of a canvas at newlines gives [`encoded_lines`].
proof fn lemma_encoded_lines(canvas: CanvasView)
    requires
        canvas.well_formed(),
        canvas.width >= 1,
        canvas.height >= 1,
    ensures
        pieces(encoded(canvas), '\n') == encoded_lines(canvas),
{
    let scale = OUTPUT_SCALE as nat;
    let format = seq!['P', '3'];
    let dimensions = decimal(canvas.width) + seq![' '] + decimal(canvas.height);
    let top = seq![format, dimensions, decimal(scale)];
    let lines = encoded_lines(canvas);
    let empty = Seq::<char>::empty();

    lemma_joined_push(seq![format], dimensions, '\n');
    lemma_joined_push(seq![format].push(dimensions), decimal(scale), '\n');
    assert(top =~= seq![format].push(dimensions).push(decimal(scale)));
    assert(joined(seq![format], '\n') == format);
    assert(joined(top, '\n') =~= header_text(canvas.width, canvas.height));
    lemma_joined_concat(top, rows(canvas, scale), '\n');
    lemma_joined_push(top + rows(canvas, scale), empty, '\n');
    assert(joined(lines, '\n') =~= encoded(canvas));

    lemma_decimal(canvas.width);
    lemma_decimal(canvas.height);
    lemma_decimal(scale);
    lemma_digits_are_plain(decimal(canvas.width));
    lemma_digits_are_plain(decimal(canvas.height));
    lemma_digits_are_plain(decimal(scale));
    lemma_rows_hold_no_newline(canvas, scale);
    assert forall|i: int| 0 <= i < lines.len() implies free_of(#[trigger] lines[i], '\n') by {
        if i >= 3 && i < lines.len() - 1 {
            assert(lines[i] == rows(canvas, scale)[i - 3]);
        }
    }
    lemma_pieces_of_joined(lines, '\n');
}

/// The header of the text of a canvas names its width, its height and
/// the output scale.
proof fn lemma_header_of_encoded(canvas: CanvasView)
    requires
        canvas.width <= usize::MAX,
        canvas.height <= usize::MAX,
    ensures
        header_of(encoded_lines(canvas)) == Ok::<(usize, usize, u32), DecodeError>(
            (canvas.width as usize, canvas.height as usize, OUTPUT_SCALE),
        ),
{
    let width = decimal(canvas.width);
    let height = decimal(canvas.height);
    let fields = seq![width, height];
    let lines = encoded_lines(canvas);
    lemma_decimal(canvas.width);
    lemma_decimal(canvas.height);
    lemma_digits_are_plain(width);
    lemma_digits_are_plain(height);
    lemma_joined_push(seq![width], height, ' ');
    assert(fields =~= seq![width].push(height));
    assert(joined(seq![width], ' ') == width);
    assert(lines[1] == joined(fields, ' '));
    lemma_pieces_of_joined(fields, ' ');
    lemma_parse_decimal(canvas.width, usize::MAX as nat);
    lemma_parse_decimal(canvas.height, usize::MAX as nat);
    assert(dimensions_of(lines[1]) == Some((canvas.width as usize, canvas.height as usize)));
    lemma_parse_decimal(OUTPUT_SCALE as nat, u32::MAX as nat);
    assert(lines[2] == decimal(OUTPUT_SCALE as nat));
}

/// The body lines of the text of a canvas hold its channel tokens.
proof fn lemma_tokens_of_encoded(canvas: CanvasView)
    requires
        canvas.well_formed(),
        canvas.width >= 1,
        canvas.height >= 1,
    ensures
        tokens_of(encoded_lines(canvas).skip(3)) == channel_tokens(canvas, OUTPUT_SCALE as nat),
{
    let scale = OUTPUT_SCALE as nat;
    let tokens = channel_tokens(canvas, scale);
    let lines = rows(canvas, scale);
    let empty = Seq::<char>::empty();
    let w = canvas.width as int;
    let h = canvas.height as int;
    assert(encoded_lines(canvas).skip(3) =~= lines.push(empty));
    lemma_joined_push(lines, empty, ' ');
    lemma_rows_prefix(canvas, scale, h);
    assert(lines.take(h) =~= lines);
    assert(tokens.subrange(0, 3 * (w * h)) =~= tokens);
    let text = joined(tokens, ' ');
    assert(joined(lines.push(empty), ' ') =~= text.push(' '));
    lemma_trimmed_end_push(text, ' ');
    lemma_channel_token(canvas, scale, tokens.len() - 1);
    lemma_joined_last(tokens, ' ');
    assert(trimmed_end(text) == text);
    assert forall|k: int| 0 <= k < tokens.len() implies free_of(#[trigger] tokens[k], ' ') by {
        lemma_channel_token(canvas, scale, k);
    }
    lemma_pieces_of_joined(tokens, ' ');
}

/// A canvas with at least one cell, exactly one color for each cell and
/// every channel a whole number of hundredths between no and full
/// intensity is read back unchanged from the text that is written for it.
pub proof fn lemma_decode_encode(canvas: Canvas)
    requires
        canvas.well_formed(),
        canvas.width >= 1,
        canvas.height >= 1,
        forall|i: int|
            0 <= i < canvas.pixels.len() ==> (#[trigger] canvas.pixels[i]).in_unit_range()
                && canvas.pixels[i].in_hundredths(),
    ensures
        decoded(encoded(canvas@)) == Ok::<CanvasView, DecodeError>(canvas@),
{
    let view = canvas@;
    let scale = OUTPUT_SCALE as nat;
    let lines = encoded_lines(view);
    let tokens = channel_tokens(view, scale);
    lemma_encoded_lines(view);
    lemma_header_of_encoded(view);
    lemma_tokens_of_encoded(view);
    assert forall|k: int| 0 <= k < tokens.len() implies (#[trigger] parse_number(
        tokens[k],
        u32::MAX as nat,
    )) is Some by {
        lemma_channel_token(view, scale, k);
    }
    assert(all_numeric(tokens));
    let pixels = Seq::new(tokens.len() / 3, |i: int| pixel_of(tokens, i, scale));
    assert(pixels =~= view.pixels) by {
        assert forall|i: int| 0 <= i < view.pixels.len() implies pixel_of(tokens, i, scale)
            == view.pixels[i] by {
            let color = view.pixels[i];
            assert(color.in_unit_range() && color.in_hundredths());
            lemma_channel_token(view, scale, 3 * i);
            lemma_channel_token(view, scale, 3 * i + 1);
            lemma_channel_token(view, scale, 3 * i + 2);
            lemma_channel_round_trip(color.r as int);
            lemma_channel_round_trip(color.g as int);
            lemma_channel_round_trip(color.b as int);
        }
    }
    assert(pixels_of(lines.skip(3), OUTPUT_SCALE) == Ok::<Seq<Color>, DecodeError>(view.pixels));
}

} // verus!
