//! The textual PPM image encoder.
//!
//! The encoded image is a header — the tag `P3`, the dimensions, and the
//! channel maximum 255, each on its own line — followed by one fresh line
//! per canvas row holding that row's channel values as space-separated
//! decimal integers, wrapped so that no line exceeds 69 characters, and a
//! trailing line break.

use vstd::prelude::*;
use vstd::string::{StrSliceExecFns, StringExecFns};

use crate::decimal::{dec_digits, lemma_dec_digits_len, lemma_dec_digits_nonempty, pow10, to_decimal};

verus! {

/// Longest line the encoder will produce.
pub open spec fn max_line_len() -> int {
    69
}

/// A channel value scaled by 255 and rounded, clamped into 0..=255.
pub open spec fn srgb_clamp(value: int) -> int {
    if value <= 0 {
        0
    } else if value >= 255 {
        255
    } else {
        value
    }
}

/// Clamps a scaled, rounded channel value into the PPM range 0..=255.
/// The caller scales a channel intensity by 255 and rounds it to the
/// nearest integer; this function forces the result into range.
pub fn clamp_srgb(value: i64) -> (r: u8)
    ensures
        r as int == srgb_clamp(value as int),
{
    if value <= 0 {
        0
    } else if value >= 255 {
        255
    } else {
        value as u8
    }
}

/// The text appended for one channel value when the line under construction
/// already holds `ll` characters: the channel's decimal digits, preceded by
/// a separating space when the line has content and still fits under the
/// cap with them, or by a line break in place of that space when it would
/// not.
pub open spec fn channel_text(c: u8, ll: nat) -> Seq<char> {
    let d = dec_digits(c as nat);
    if ll == 0 {
        d
    } else if ll + 1 + d.len() > max_line_len() {
        seq!['\n'] + d
    } else {
        seq![' '] + d
    }
}

/// Length of the line under construction after appending
/// `channel_text(c, ll)`.
pub open spec fn next_line_len(c: u8, ll: nat) -> nat {
    let d = dec_digits(c as nat);
    if ll == 0 {
        d.len()
    } else if ll + 1 + d.len() > max_line_len() {
        d.len()
    } else {
        ll + 1 + d.len()
    }
}

/// The wrapped text of a run of channel values, entered with a line
/// already `ll` characters long.
pub open spec fn row_text(channels: Seq<u8>, ll: nat) -> Seq<char>
    decreases channels.len(),
{
    if channels.len() == 0 {
        Seq::empty()
    } else {
        channel_text(channels[0], ll)
            + row_text(channels.drop_first(), next_line_len(channels[0], ll))
    }
}

/// The PPM body: each canvas row starts on a fresh line and holds its
/// `row_len` channel values, wrapped at the cap.
pub open spec fn body_text(channels: Seq<u8>, row_len: nat) -> Seq<char>
    decreases channels.len(),
{
    if channels.len() == 0 || row_len == 0 {
        Seq::empty()
    } else if channels.len() <= row_len {
        seq!['\n'] + row_text(channels, 0)
    } else {
        seq!['\n'] + row_text(channels.take(row_len as int), 0)
            + body_text(channels.skip(row_len as int), row_len)
    }
}

/// The whole encoded image: header, body, and a trailing line break.
pub open spec fn ppm_text(width: nat, height: nat, channels: Seq<u8>) -> Seq<char> {
    seq!['P', '3', '\n'] + dec_digits(width) + seq![' '] + dec_digits(height)
        + seq!['\n', '2', '5', '5'] + body_text(channels, 3 * width) + seq!['\n']
}

/// Renders one channel value for the body, given the length of the line
/// under construction; returns the text to append and the new line length.
pub fn convert_srgb_channel_to_ppm_string(color_channel: u8, line_length: usize) -> (r: (
    String,
    usize,
))
    ensures
        r.0@ == channel_text(color_channel, line_length as nat),
        r.1 == next_line_len(color_channel, line_length as nat),
{
    proof {
        reveal_strlit("\n");
        reveal_strlit(" ");
        assert(pow10(3) == 1000) by {
            reveal_with_fuel(pow10, 4);
        }
        lemma_dec_digits_len(color_channel as nat, 3);
        lemma_dec_digits_nonempty(color_channel as nat);
    }
    let digits = to_decimal(color_channel as usize);
    let digits_len: usize = digits.as_str().unicode_len();
    let mut result = String::new();
    let new_length: usize;
    if line_length == 0 {
        new_length = digits_len;
    } else if line_length >= 69 - digits_len {
        result.append("\n");
        new_length = digits_len;
    } else {
        result.append(" ");
        new_length = line_length + 1 + digits_len;
    }
    result.append(digits.as_str());
    proof {
        assert(result@ =~= channel_text(color_channel, line_length as nat));
    }
    (result, new_length)
}

/// Builds the PPM body for `height` rows of `width` pixels whose scaled
/// channel values are `channels`, row-major, red then green then blue.
#[verifier::loop_isolation(false)]
pub fn build_ppm_body(channels: &Vec<u8>, width: usize, height: usize) -> (body: String)
    requires
        3 * width <= usize::MAX,
        channels@.len() == 3 * width * height,
    ensures
        body@ == body_text(channels@, (3 * width) as nat),
{
    proof {
        reveal_strlit("\n");
    }
    let n: usize = channels.len();
    let mut body = String::new();
    if n == 0 {
        return body;
    }
    let row_len: usize = 3 * width;
    proof {
        assert(row_len > 0 && height > 0) by (nonlinear_arith)
            requires
                channels@.len() == (3 * width) * height,
                channels@.len() > 0,
                row_len == 3 * width,
        ;
    }
    let mut r: usize = 0;
    let mut pos: usize = 0;
    proof {
        assert(channels@.skip(0) =~= channels@);
    }
    while r < height
        invariant
            r <= height,
            pos == r * row_len,
            pos <= channels@.len(),
            channels@.len() <= usize::MAX,
            row_len == 3 * width,
            row_len > 0,
            channels@.len() == row_len * height,
            body@ + body_text(channels@.skip(pos as int), row_len as nat)
                == body_text(channels@, row_len as nat),
        decreases height - r,
    {
        let ghost body_at_row = body@;
        let ghost rest = channels@.skip(pos as int);
        proof {
            assert(channels@.len() - pos == (height - r) * row_len
                && (height - r) * row_len >= row_len) by (nonlinear_arith)
                requires
                    channels@.len() == row_len * height,
                    pos == r * row_len,
                    r < height,
                    row_len > 0,
            ;
        }
        body.append("\n");
        let row_start: usize = pos;
        let ghost row = channels@.subrange(row_start as int, row_start as int + row_len as int);
        proof {
            assert(row.skip(0) =~= row);
        }
        let mut line_length: usize = 0;
        let mut j: usize = 0;
        while j < row_len
            invariant
                j <= row_len,
                pos == row_start + j,
                row_start + row_len <= channels@.len(),
                channels@.len() <= usize::MAX,
                row == channels@.subrange(row_start as int, row_start as int + row_len as int),
                body@ + row_text(row.skip(j as int), line_length as nat)
                    == body_at_row + seq!['\n'] + row_text(row, 0),
            decreases row_len - j,
        {
            let c: u8 = channels[pos];
            let piece = convert_srgb_channel_to_ppm_string(c, line_length);
            proof {
                assert(row.skip(j as int)[0] == c);
                assert(row.skip(j as int).drop_first() =~= row.skip(j as int + 1));
            }
            body.append(piece.0.as_str());
            line_length = piece.1;
            pos = pos + 1;
            j = j + 1;
        }
        proof {
            assert(row.skip(row_len as int) =~= Seq::<u8>::empty());
            assert(rest.take(row_len as int) =~= row);
            assert(rest.skip(row_len as int) =~= channels@.skip(row_start + row_len));
            if rest.len() == row_len {
                assert(rest =~= row);
                assert(channels@.skip(row_start + row_len) =~= Seq::<u8>::empty());
            }
            assert(body_text(rest, row_len as nat) == seq!['\n'] + row_text(row, 0)
                + body_text(channels@.skip(row_start + row_len), row_len as nat));
            assert((r + 1) * row_len == r * row_len + row_len) by (nonlinear_arith);
        }
        r = r + 1;
    }
    proof {
        assert(pos == channels@.len()) by (nonlinear_arith)
            requires
                pos == height * row_len,
                channels@.len() == row_len * height,
        ;
        assert(channels@.skip(pos as int) =~= Seq::<u8>::empty());
        assert(body@ =~= body_text(channels@, row_len as nat));
    }
    body
}

/// Encodes a `width` by `height` raster whose scaled channel values are
/// `channels` as a complete PPM file: header, wrapped body, and the
/// mandatory trailing line break.
pub fn encode_ppm(width: usize, height: usize, channels: &Vec<u8>) -> (s: String)
    requires
        3 * width <= usize::MAX,
        channels@.len() == 3 * width * height,
    ensures
        s@ == ppm_text(width as nat, height as nat, channels@),
{
    proof {
        reveal_strlit("P3");
        reveal_strlit("\n");
        reveal_strlit(" ");
        reveal_strlit("255");
    }
    let mut s = String::from_str("P3");
    s.append("\n");
    let w = to_decimal(width);
    s.append(w.as_str());
    s.append(" ");
    let h = to_decimal(height);
    s.append(h.as_str());
    s.append("\n");
    s.append("255");
    let body = build_ppm_body(channels, width, height);
    s.append(body.as_str());
    s.append("\n");
    proof {
        assert(s@ =~= ppm_text(width as nat, height as nat, channels@));
    }
    s
}

/// The lines of one wrapped run of channel values, entered with `cur` as
/// the line under construction; the line still open at the end is emitted
/// as the last element.
pub open spec fn wrap_lines(channels: Seq<u8>, cur: Seq<char>) -> Seq<Seq<char>>
    decreases channels.len(),
{
    if channels.len() == 0 {
        seq![cur]
    } else {
        let d = dec_digits(channels[0] as nat);
        if cur.len() == 0 {
            wrap_lines(channels.drop_first(), d)
        } else if cur.len() + 1 + d.len() > max_line_len() {
            seq![cur] + wrap_lines(channels.drop_first(), d)
        } else {
            wrap_lines(channels.drop_first(), cur + seq![' '] + d)
        }
    }
}

/// The body's lines: each canvas row contributes the lines of its own
/// wrapped text.
pub open spec fn body_lines(channels: Seq<u8>, row_len: nat) -> Seq<Seq<char>>
    decreases channels.len(),
{
    if channels.len() == 0 || row_len == 0 {
        Seq::empty()
    } else if channels.len() <= row_len {
        wrap_lines(channels, Seq::empty())
    } else {
        wrap_lines(channels.take(row_len as int), Seq::empty())
            + body_lines(channels.skip(row_len as int), row_len)
    }
}

/// All lines of the encoded image, in order. The final empty line stands
/// for the mandatory trailing line break.
pub open spec fn ppm_lines(width: nat, height: nat, channels: Seq<u8>) -> Seq<Seq<char>> {
    seq![seq!['P', '3'], dec_digits(width) + seq![' '] + dec_digits(height), seq!['2', '5', '5']]
        + body_lines(channels, 3 * width) + seq![Seq::<char>::empty()]
}

/// Joins lines with single line breaks and nothing else.
pub open spec fn join_lines(lines: Seq<Seq<char>>) -> Seq<char>
    decreases lines.len(),
{
    if lines.len() == 0 {
        Seq::empty()
    } else if lines.len() == 1 {
        lines[0]
    } else {
        lines[0] + seq!['\n'] + join_lines(lines.drop_first())
    }
}

/// Wrapping always yields at least the line under construction.
proof fn lemma_wrap_lines_nonempty(channels: Seq<u8>, cur: Seq<char>)
    ensures
        wrap_lines(channels, cur).len() >= 1,
    decreases channels.len(),
{
    if channels.len() > 0 {
        let d = dec_digits(channels[0] as nat);
        if cur.len() == 0 {
            lemma_wrap_lines_nonempty(channels.drop_first(), d);
        } else if cur.len() + 1 + d.len() > max_line_len() {
            lemma_wrap_lines_nonempty(channels.drop_first(), d);
        } else {
            lemma_wrap_lines_nonempty(channels.drop_first(), cur + seq![' '] + d);
        }
    }
}

/// Joining a concatenation of two non-empty line lists joins each part
/// and puts one line break between them.
proof fn lemma_join_lines_concat(a: Seq<Seq<char>>, b: Seq<Seq<char>>)
    requires
        a.len() >= 1,
        b.len() >= 1,
    ensures
        join_lines(a + b) == join_lines(a) + seq!['\n'] + join_lines(b),
    decreases a.len(),
{
    if a.len() == 1 {
        assert((a + b).drop_first() =~= b);
        assert((a + b)[0] == a[0]);
        assert(join_lines(a + b) =~= join_lines(a) + seq!['\n'] + join_lines(b));
    } else {
        assert((a + b).drop_first() =~= a.drop_first() + b);
        lemma_join_lines_concat(a.drop_first(), b);
        assert(join_lines(a + b) =~= join_lines(a) + seq!['\n'] + join_lines(b));
    }
}

/// The joined lines of a wrapped run are its flat wrapped text, entered
/// at line length `cur.len()`.
proof fn lemma_wrap_lines_flat(channels: Seq<u8>, cur: Seq<char>)
    ensures
        join_lines(wrap_lines(channels, cur)) == cur + row_text(channels, cur.len()),
    decreases channels.len(),
{
    if channels.len() == 0 {
        assert(join_lines(wrap_lines(channels, cur)) =~= cur + row_text(channels, cur.len()));
    } else {
        let c = channels[0];
        let rest = channels.drop_first();
        let d = dec_digits(c as nat);
        if cur.len() == 0 {
            lemma_wrap_lines_flat(rest, d);
            assert(join_lines(wrap_lines(channels, cur)) =~= cur + row_text(channels, cur.len()));
        } else if cur.len() + 1 + d.len() > max_line_len() {
            lemma_wrap_lines_nonempty(rest, d);
            lemma_join_lines_concat(seq![cur], wrap_lines(rest, d));
            lemma_wrap_lines_flat(rest, d);
            assert(join_lines(wrap_lines(channels, cur)) =~= cur + row_text(channels, cur.len()));
        } else {
            lemma_wrap_lines_flat(rest, cur + seq![' '] + d);
            assert(join_lines(wrap_lines(channels, cur)) =~= cur + row_text(channels, cur.len()));
        }
    }
}

/// The joined body lines are the flat body text, after its leading line
/// break; both are empty exactly when there is nothing to emit.
proof fn lemma_body_lines_flat(channels: Seq<u8>, row_len: nat)
    ensures
        channels.len() > 0 && row_len > 0 ==> body_lines(channels, row_len).len() >= 1
            && body_text(channels, row_len) == seq!['\n'] + join_lines(
            body_lines(channels, row_len),
        ),
        channels.len() == 0 || row_len == 0 ==> body_lines(channels, row_len)
            == Seq::<Seq<char>>::empty() && body_text(channels, row_len) == Seq::<char>::empty(),
    decreases channels.len(),
{
    if channels.len() == 0 || row_len == 0 {
    } else if channels.len() <= row_len {
        lemma_wrap_lines_nonempty(channels, Seq::empty());
        lemma_wrap_lines_flat(channels, Seq::empty());
        assert(body_text(channels, row_len) =~= seq!['\n'] + join_lines(
            body_lines(channels, row_len),
        ));
    } else {
        let head = channels.take(row_len as int);
        let tail = channels.skip(row_len as int);
        lemma_wrap_lines_nonempty(head, Seq::empty());
        lemma_wrap_lines_flat(head, Seq::empty());
        lemma_body_lines_flat(tail, row_len);
        lemma_join_lines_concat(wrap_lines(head, Seq::empty()), body_lines(tail, row_len));
        assert(body_text(channels, row_len) =~= seq!['\n'] + join_lines(
            body_lines(channels, row_len),
        ));
    }
}

/// The joined lines of the whole image are exactly its flat text.
pub proof fn lemma_ppm_lines_flat(width: nat, height: nat, channels: Seq<u8>)
    ensures
        join_lines(ppm_lines(width, height, channels)) == ppm_text(width, height, channels),
{
    let dims = dec_digits(width) + seq![' '] + dec_digits(height);
    let tag = seq!['P', '3'];
    let maxval = seq!['2', '5', '5'];
    let header = seq![tag, dims, maxval];
    let body = body_lines(channels, 3 * width);
    lemma_body_lines_flat(channels, 3 * width);
    assert(header.drop_first() =~= seq![dims, maxval]);
    assert(seq![dims, maxval].drop_first() =~= seq![maxval]);
    assert(join_lines(seq![maxval]) == maxval);
    assert(join_lines(seq![dims, maxval]) == dims + seq!['\n'] + maxval);
    assert(join_lines(header) == tag + seq!['\n'] + (dims + seq!['\n'] + maxval));
    if body.len() == 0 {
        assert(header + body + seq![Seq::<char>::empty()] =~= header + seq![
            Seq::<char>::empty(),
        ]);
        lemma_join_lines_concat(header, seq![Seq::<char>::empty()]);
        assert(join_lines(ppm_lines(width, height, channels)) =~= ppm_text(
            width,
            height,
            channels,
        ));
    } else {
        lemma_join_lines_concat(body, seq![Seq::<char>::empty()]);
        lemma_join_lines_concat(header, body + seq![Seq::<char>::empty()]);
        assert(header + body + seq![Seq::<char>::empty()] =~= header + (body + seq![
            Seq::<char>::empty(),
        ]));
        assert(join_lines(ppm_lines(width, height, channels)) =~= ppm_text(
            width,
            height,
            channels,
        ));
    }
}

/// A channel value has one to three decimal digits.
proof fn lemma_channel_digits_len(c: u8)
    ensures
        1 <= dec_digits(c as nat).len() <= 3,
{
    assert(pow10(3) == 1000) by {
        reveal_with_fuel(pow10, 4);
    }
    lemma_dec_digits_len(c as nat, 3);
    lemma_dec_digits_nonempty(c as nat);
}

/// Every line that wrapping yields stays within the cap, provided the
/// line it entered with does.
proof fn lemma_wrap_lines_bounded(channels: Seq<u8>, cur: Seq<char>)
    requires
        cur.len() <= max_line_len(),
    ensures
        forall|i: int|
            0 <= i < wrap_lines(channels, cur).len() ==> #[trigger] wrap_lines(channels, cur)[i].len()
                <= max_line_len(),
    decreases channels.len(),
{
    if channels.len() == 0 {
        assert(wrap_lines(channels, cur)[0] == cur);
    } else {
        let c = channels[0];
        let rest = channels.drop_first();
        let d = dec_digits(c as nat);
        lemma_channel_digits_len(c);
        if cur.len() == 0 {
            lemma_wrap_lines_bounded(rest, d);
            assert forall|i: int| 0 <= i < wrap_lines(channels, cur).len() implies #[trigger] wrap_lines(
                channels,
                cur,
            )[i].len() <= max_line_len() by {
                assert(wrap_lines(channels, cur)[i] == wrap_lines(rest, d)[i]);
            }
        } else if cur.len() + 1 + d.len() > max_line_len() {
            lemma_wrap_lines_bounded(rest, d);
            assert forall|i: int| 0 <= i < wrap_lines(channels, cur).len() implies #[trigger] wrap_lines(
                channels,
                cur,
            )[i].len() <= max_line_len() by {
                if i >= 1 {
                    assert(wrap_lines(channels, cur)[i] == wrap_lines(rest, d)[i - 1]);
                }
            }
        } else {
            lemma_wrap_lines_bounded(rest, cur + seq![' '] + d);
            assert forall|i: int| 0 <= i < wrap_lines(channels, cur).len() implies #[trigger] wrap_lines(
                channels,
                cur,
            )[i].len() <= max_line_len() by {
                assert(wrap_lines(channels, cur)[i] == wrap_lines(rest, cur + seq![' '] + d)[i]);
            }
        }
    }
}

/// Every line of the body stays within the cap.
proof fn lemma_body_lines_bounded(channels: Seq<u8>, row_len: nat)
    ensures
        forall|i: int|
            0 <= i < body_lines(channels, row_len).len() ==> #[trigger] body_lines(
                channels,
                row_len,
            )[i].len() <= max_line_len(),
    decreases channels.len(),
{
    if channels.len() == 0 || row_len == 0 {
    } else if channels.len() <= row_len {
        lemma_wrap_lines_bounded(channels, Seq::empty());
    } else {
        let head = channels.take(row_len as int);
        let tail = channels.skip(row_len as int);
        let head_lines = wrap_lines(head, Seq::empty());
        lemma_wrap_lines_bounded(head, Seq::empty());
        lemma_body_lines_bounded(tail, row_len);
        assert forall|i: int| 0 <= i < body_lines(channels, row_len).len() implies #[trigger] body_lines(
            channels,
            row_len,
        )[i].len() <= max_line_len() by {
            if i >= head_lines.len() {
                assert(body_lines(channels, row_len)[i] == body_lines(tail, row_len)[i
                    - head_lines.len()]);
            } else {
                assert(body_lines(channels, row_len)[i] == head_lines[i]);
            }
        }
    }
}

/// There is a line break strictly inside the index range `i..j` of `s`.
pub open spec fn contains_newline(s: Seq<char>, i: int, j: int) -> bool {
    exists|k: int| i <= k < j && s[k] == '\n'
}

/// No line of `s` exceeds `max` characters: every stretch of more than
/// `max` consecutive characters contains a line break.
pub open spec fn no_line_exceeds(s: Seq<char>, max: int) -> bool {
    forall|i: int, j: int|
        0 <= i <= j <= s.len() && j - i > max ==> #[trigger] contains_newline(s, i, j)
}

/// Joining lines that each stay within `max` yields a text with no line
/// over `max`.
proof fn lemma_join_lines_bounded(lines: Seq<Seq<char>>, max: int)
    requires
        max >= 0,
        forall|i: int| 0 <= i < lines.len() ==> #[trigger] lines[i].len() <= max,
    ensures
        no_line_exceeds(join_lines(lines), max),
    decreases lines.len(),
{
    if lines.len() == 0 {
    } else if lines.len() == 1 {
        assert(lines[0].len() <= max);
    } else {
        let l0 = lines[0];
        let rest = join_lines(lines.drop_first());
        let s = join_lines(lines);
        assert forall|i: int|
            0 <= i < lines.drop_first().len() implies #[trigger] lines.drop_first()[i].len()
            <= max by {
            assert(lines.drop_first()[i] == lines[i + 1]);
        }
        lemma_join_lines_bounded(lines.drop_first(), max);
        let nl = l0.len() as int;
        assert(l0.len() <= max);
        assert(s[nl] == '\n');
        assert forall|i: int, j: int|
            0 <= i <= j <= s.len() && j - i > max implies #[trigger] contains_newline(s, i, j) by {
            if j <= nl {
                assert(j - i <= max);
            } else if i <= nl {
                assert(i <= nl < j && s[nl] == '\n');
                assert(contains_newline(s, i, j));
            } else {
                assert(0 <= i - nl - 1 <= j - nl - 1 <= rest.len());
                assert(contains_newline(rest, i - nl - 1, j - nl - 1));
                let k0 = choose|k: int| i - nl - 1 <= k < j - nl - 1 && rest[k] == '\n';
                assert(s[k0 + nl + 1] == '\n');
                assert(i <= k0 + nl + 1 < j);
                assert(contains_newline(s, i, j));
            }
        }
    }
}

/// Every line of the encoded image stays within the cap.
proof fn lemma_ppm_lines_bounded(width: usize, height: usize, channels: Seq<u8>)
    ensures
        forall|i: int|
            0 <= i < ppm_lines(width as nat, height as nat, channels).len()
                ==> #[trigger] ppm_lines(width as nat, height as nat, channels)[i].len()
                <= max_line_len(),
{
    let dims = dec_digits(width as nat) + seq![' '] + dec_digits(height as nat);
    let header = seq![seq!['P', '3'], dims, seq!['2', '5', '5']];
    let body = body_lines(channels, 3 * (width as nat));
    assert(pow10(20) == 0x56bc75e2d63100000) by {
        reveal_with_fuel(pow10, 21);
    }
    assert(width < pow10(20) && height < pow10(20));
    lemma_dec_digits_len(width as nat, 20);
    lemma_dec_digits_len(height as nat, 20);
    lemma_body_lines_bounded(channels, 3 * (width as nat));
    assert forall|i: int|
        0 <= i < ppm_lines(width as nat, height as nat, channels).len() implies #[trigger] ppm_lines(
        width as nat,
        height as nat,
        channels,
    )[i].len() <= max_line_len() by {
        let all = ppm_lines(width as nat, height as nat, channels);
        if i < 3 {
            assert(all[i] == header[i]);
        } else if i < 3 + body.len() {
            assert(all[i] == body[i - 3]);
        } else {
            assert(all[i] == Seq::<char>::empty());
        }
    }
}

/// Law: an encoded image always ends with a line break, wherever
/// wrapping left the cursor.
pub proof fn lemma_ppm_trailing_newline(width: nat, height: nat, channels: Seq<u8>)
    ensures
        ppm_text(width, height, channels).len() >= 1,
        ppm_text(width, height, channels).last() == '\n',
{
    let s = ppm_text(width, height, channels);
    assert(s[s.len() - 1] == '\n');
}

/// The direct reading of [`no_line_exceeds`]: a stretch of `s` with no
/// line break inside it is at most `max` characters long.
pub proof fn lemma_line_bounded(s: Seq<char>, max: int, i: int, j: int)
    requires
        no_line_exceeds(s, max),
        0 <= i <= j <= s.len(),
        forall|k: int| i <= k < j ==> s[k] != '\n',
    ensures
        j - i <= max,
{
    if j - i > max {
        assert(contains_newline(s, i, j));
        let k = choose|k: int| i <= k < j && s[k] == '\n';
        assert(s[k] != '\n');
    }
}

/// Law: no line of an encoded image exceeds 69 characters — neither a
/// header line, nor any wrapped body line, for any canvas dimensions and
/// any channel values.
pub proof fn lemma_ppm_no_long_line(width: usize, height: usize, channels: Seq<u8>)
    ensures
        no_line_exceeds(ppm_text(width as nat, height as nat, channels), max_line_len()),
{
    lemma_ppm_lines_flat(width as nat, height as nat, channels);
    lemma_ppm_lines_bounded(width, height, channels);
    lemma_join_lines_bounded(
        ppm_lines(width as nat, height as nat, channels),
        max_line_len(),
    );
}

} // verus!

