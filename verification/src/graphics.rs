//! Putting a frame of video where a picture goes.
//!
//! One image id and one placement id, retransmitted: a transmission under the
//! same pair replaces the picture inside one parse, so there is nothing to
//! leak and no moment with no picture.
//!
//! A frame goes to a local terminal by name: it is written into `/dev/shm`
//! and the terminal reads and unlinks it, so every frame needs a name of its
//! own. A terminal that leaves the names unread does not speak that way, and
//! after a few of them [`Painter`] sends the bytes inline instead.
//!
//! tmux passes a graphics command on only inside a DCS, `ESC P tmux;`, the
//! command with every `ESC` doubled, `ESC \\`. [`wrap_for_tmux`] makes that
//! form. A placement at the cursor is no good there, so the image is a virtual
//! placement and the picture is text: a pane of placeholder cells, each
//! carrying its row and column as two combining marks ([`DIACRITICS`]).
use vstd::prelude::*;
use vstd::slice::slice_subrange;
use vstd::utf8::is_ascii_chars_encode_utf8;

use crate::base64::{
    decoded, encode, encoded, is_base64, law_base64_is_plain, law_decoding_undoes_encoding,
};
use crate::bytes::{lemma_utf8_concat, number_bytes, push_bytes, push_number, push_text, utf8};
use crate::fit::Cells;
use crate::glass::{blank, lemma_inked, lemma_moved, lemma_placed, Glass, Tile};
use crate::orders::{bodies, is_clean, lemma_clean_joined, lemma_one_order, orders, Order};
use crate::route::{local_route, Payload, Placement, Route, Transport, Wrap};
use crate::strings::{decimal, is_digit, lemma_decimal};

verus! {

/// Base64 goes out in chunks, as the protocol asks.
pub const CHUNK: usize = 4096;

/// The image this program owns in the terminal's store.
pub const IMAGE_ID: u32 = 1;

/// The placement this program owns in the terminal's store.
pub const PLACEMENT_ID: u32 = 1;

/// Where POSIX shared memory objects live, as files.
pub const SHM_DIR: &'static str = "/dev/shm";

/// The largest DCS [`wrap_for_tmux`] makes.
pub const DCS_LIMIT: usize = 1_000_000;

/// The image id under placeholders: the first number that reaches the terminal
/// through tmux exactly as written, as an indexed colour.
pub const PLACEHOLDER_IMAGE_ID: u32 = 16;

/// The placeholder character: a cell that shows the part of a virtual
/// placement its marks name.
pub const PLACEHOLDER: char = '\u{10EEEE}';

/// kitty's `rowcolumn-diacritics.txt`, in order: index n is the combining mark
/// for row or column n, zero-based.
pub const DIACRITICS: [u32; 297] = [
    0x0305, 0x030D, 0x030E, 0x0310, 0x0312, 0x033D, 0x033E, 0x033F, 0x0346, 0x034A,
    0x034B, 0x034C, 0x0350, 0x0351, 0x0352, 0x0357, 0x035B, 0x0363, 0x0364, 0x0365,
    0x0366, 0x0367, 0x0368, 0x0369, 0x036A, 0x036B, 0x036C, 0x036D, 0x036E, 0x036F,
    0x0483, 0x0484, 0x0485, 0x0486, 0x0487, 0x0592, 0x0593, 0x0594, 0x0595, 0x0597,
    0x0598, 0x0599, 0x059C, 0x059D, 0x059E, 0x059F, 0x05A0, 0x05A1, 0x05A8, 0x05A9,
    0x05AB, 0x05AC, 0x05AF, 0x05C4, 0x0610, 0x0611, 0x0612, 0x0613, 0x0614, 0x0615,
    0x0616, 0x0617, 0x0657, 0x0658, 0x0659, 0x065A, 0x065B, 0x065D, 0x065E, 0x06D6,
    0x06D7, 0x06D8, 0x06D9, 0x06DA, 0x06DB, 0x06DC, 0x06DF, 0x06E0, 0x06E1, 0x06E2,
    0x06E4, 0x06E7, 0x06E8, 0x06EB, 0x06EC, 0x0730, 0x0732, 0x0733, 0x0735, 0x0736,
    0x073A, 0x073D, 0x073F, 0x0740, 0x0741, 0x0743, 0x0745, 0x0747, 0x0749, 0x074A,
    0x07EB, 0x07EC, 0x07ED, 0x07EE, 0x07EF, 0x07F0, 0x07F1, 0x07F3, 0x0816, 0x0817,
    0x0818, 0x0819, 0x081B, 0x081C, 0x081D, 0x081E, 0x081F, 0x0820, 0x0821, 0x0822,
    0x0823, 0x0825, 0x0826, 0x0827, 0x0829, 0x082A, 0x082B, 0x082C, 0x082D, 0x0951,
    0x0953, 0x0954, 0x0F82, 0x0F83, 0x0F86, 0x0F87, 0x135D, 0x135E, 0x135F, 0x17DD,
    0x193A, 0x1A17, 0x1A75, 0x1A76, 0x1A77, 0x1A78, 0x1A79, 0x1A7A, 0x1A7B, 0x1A7C,
    0x1B6B, 0x1B6D, 0x1B6E, 0x1B6F, 0x1B70, 0x1B71, 0x1B72, 0x1B73, 0x1CD0, 0x1CD1,
    0x1CD2, 0x1CDA, 0x1CDB, 0x1CE0, 0x1DC0, 0x1DC1, 0x1DC3, 0x1DC4, 0x1DC5, 0x1DC6,
    0x1DC7, 0x1DC8, 0x1DC9, 0x1DCB, 0x1DCC, 0x1DD1, 0x1DD2, 0x1DD3, 0x1DD4, 0x1DD5,
    0x1DD6, 0x1DD7, 0x1DD8, 0x1DD9, 0x1DDA, 0x1DDB, 0x1DDC, 0x1DDD, 0x1DDE, 0x1DDF,
    0x1DE0, 0x1DE1, 0x1DE2, 0x1DE3, 0x1DE4, 0x1DE5, 0x1DE6, 0x1DFE, 0x20D0, 0x20D1,
    0x20D4, 0x20D5, 0x20D6, 0x20D7, 0x20DB, 0x20DC, 0x20E1, 0x20E7, 0x20E9, 0x20F0,
    0x2CEF, 0x2CF0, 0x2CF1, 0x2DE0, 0x2DE1, 0x2DE2, 0x2DE3, 0x2DE4, 0x2DE5, 0x2DE6,
    0x2DE7, 0x2DE8, 0x2DE9, 0x2DEA, 0x2DEB, 0x2DEC, 0x2DED, 0x2DEE, 0x2DEF, 0x2DF0,
    0x2DF1, 0x2DF2, 0x2DF3, 0x2DF4, 0x2DF5, 0x2DF6, 0x2DF7, 0x2DF8, 0x2DF9, 0x2DFA,
    0x2DFB, 0x2DFC, 0x2DFD, 0x2DFE, 0x2DFF, 0xA66F, 0xA67C, 0xA67D, 0xA6F0, 0xA6F1,
    0xA8E0, 0xA8E1, 0xA8E2, 0xA8E3, 0xA8E4, 0xA8E5, 0xA8E6, 0xA8E7, 0xA8E8, 0xA8E9,
    0xA8EA, 0xA8EB, 0xA8EC, 0xA8ED, 0xA8EE, 0xA8EF, 0xA8F0, 0xA8F1, 0xAAB0, 0xAAB2,
    0xAAB3, 0xAAB7, 0xAAB8, 0xAABE, 0xAABF, 0xAAC1, 0xFE20, 0xFE21, 0xFE22, 0xFE23,
    0xFE24, 0xFE25, 0xFE26, 0x10A0F, 0x10A38, 0x1D185, 0x1D186, 0x1D187, 0x1D188, 0x1D189,
    0x1D1AA, 0x1D1AB, 0x1D1AC, 0x1D1AD, 0x1D242, 0x1D243, 0x1D244,
];

/// The most rows or columns a placeholder pane can address: one mark each.
pub const PLACEHOLDER_MAX: u32 = 297;

/// How many frames may be in flight before an unconsumed name means the
/// terminal is not reading them.
pub const IN_FLIGHT: usize = 16;

// ---- one frame ----

/// One decoded frame, in the layout its decoder produced.
#[derive(Debug, Clone, Copy)]
pub struct Raw<'a> {
    pub pixels: &'a [u8],
    pub width: u32,
    pub height: u32,
    /// Bytes a pixel: three for `f=24`, four for `f=32`.
    pub channels: u32,
}

impl<'a> Raw<'a> {
    /// Three bytes a pixel, which is what a decoded JPEG is.
    pub fn rgb(pixels: &'a [u8], width: u32, height: u32) -> (r: Raw<'a>)
        ensures
            r == (Raw { pixels, width, height, channels: 3 }),
    {
        Raw { pixels, width, height, channels: 3 }
    }

    /// Four, which is what a decoded PNG is.
    pub fn rgba(pixels: &'a [u8], width: u32, height: u32) -> (r: Raw<'a>)
        ensures
            r == (Raw { pixels, width, height, channels: 4 }),
    {
        Raw { pixels, width, height, channels: 4 }
    }

    /// The protocol's `f=` for this layout.
    pub open spec fn layout(self) -> u32 {
        if self.channels == 3 {
            24
        } else {
            32
        }
    }

    /// The protocol's `f=` for this layout.
    pub fn format(&self) -> (r: u32)
        ensures
            r == self.layout(),
    {
        if self.channels == 3 {
            24
        } else {
            32
        }
    }
}

/// At least one.
pub open spec fn one_at_least(n: u32) -> u32 {
    if n == 0 {
        1
    } else {
        n
    }
}

/// At least one.
fn at_least_one(n: u32) -> (r: u32)
    ensures
        r == one_at_least(n),
{
    if n == 0 {
        1
    } else {
        n
    }
}

// ---- chunks ----

/// The start of a graphics command.
pub open spec fn apc() -> Seq<u8> {
    seq![0x1bu8, 0x5f, 0x47]
}

/// The end of an escape string.
pub open spec fn st() -> Seq<u8> {
    seq![0x1bu8, 0x5c]
}

/// A payload cut every [`CHUNK`] bytes.
pub open spec fn pieces(encoded: Seq<u8>) -> Seq<Seq<u8>>
    decreases encoded.len(),
{
    if encoded.len() <= CHUNK {
        seq![encoded]
    } else {
        seq![encoded.take(CHUNK as int)] + pieces(encoded.skip(CHUNK as int))
    }
}

/// Runs of bytes joined.
pub open spec fn joined(parts: Seq<Seq<u8>>) -> Seq<u8>
    decreases parts.len(),
{
    if parts.len() == 0 {
        Seq::empty()
    } else {
        parts[0] + joined(parts.drop_first())
    }
}

/// The keys of the `i`th of `n` commands: the first carries the control keys,
/// and every one says whether more follow.
pub open spec fn chunk_keys(control: Seq<u8>, i: int, n: int) -> Seq<u8> {
    let more = if i + 1 < n {
        utf8("m=1"@)
    } else {
        utf8("m=0"@)
    };
    if i == 0 {
        control + utf8(","@) + more
    } else {
        more
    }
}

/// The `i`th of the commands that carry some pieces.
pub open spec fn chunk_command(control: Seq<u8>, parts: Seq<Seq<u8>>, i: int) -> Seq<u8> {
    apc() + chunk_keys(control, i, parts.len() as int) + utf8(";"@) + parts[i] + st()
}

/// The first `k` of the commands that carry some pieces.
pub open spec fn chunk_commands(control: Seq<u8>, parts: Seq<Seq<u8>>, k: int) -> Seq<u8>
    decreases k,
{
    if k <= 0 {
        Seq::empty()
    } else {
        chunk_commands(control, parts, k - 1) + chunk_command(control, parts, k - 1)
    }
}

/// A payload as base64 in [`CHUNK`]-sized commands.
pub open spec fn chunked_bytes(control: Seq<u8>, payload: Seq<u8>) -> Seq<u8> {
    let body = encoded(payload);
    if body.len() == 0 {
        apc() + control + utf8(";"@) + st()
    } else {
        chunk_commands(control, pieces(body), pieces(body).len() as int)
    }
}

/// The pieces of a payload join to the payload, and none is over [`CHUNK`].
pub proof fn lemma_pieces(body: Seq<u8>)
    ensures
        joined(pieces(body)) == body,
        forall|i: int| 0 <= i < pieces(body).len() ==> (#[trigger] pieces(body)[i]).len() <= CHUNK,
        forall|i: int|
            0 <= i < pieces(body).len() ==> #[trigger] pieces(body)[i] == body.subrange(
                i * CHUNK,
                if (i + 1) * CHUNK < body.len() {
                    (i + 1) * CHUNK
                } else {
                    body.len() as int
                },
            ),
        pieces(body).len() == (if body.len() <= CHUNK {
            1
        } else {
            (body.len() + CHUNK - 1) / CHUNK as int
        }),
    decreases body.len(),
{
    if body.len() <= CHUNK {
        let parts = seq![body];
        assert(parts.drop_first() =~= Seq::empty());
        assert(joined(parts.drop_first()) =~= Seq::empty());
        assert(body + Seq::<u8>::empty() =~= body);
        assert(body.subrange(0, body.len() as int) =~= body);
    } else {
        let rest = body.skip(CHUNK as int);
        lemma_pieces(rest);
        let parts = pieces(body);
        assert(parts.drop_first() =~= pieces(rest));
        assert(body.take(CHUNK as int) + rest =~= body);
        assert forall|i: int| 0 <= i < parts.len() implies (#[trigger] parts[i]).len() <= CHUNK
            && parts[i] == body.subrange(
            i * CHUNK,
            if (i + 1) * CHUNK < body.len() {
                (i + 1) * CHUNK
            } else {
                body.len() as int
            },
        ) by {
            if i == 0 {
                assert(parts[0] =~= body.subrange(0, CHUNK as int));
            } else {
                assert(parts[i] == pieces(rest)[i - 1]);
                assert(parts[i] =~= body.subrange(
                    i * CHUNK,
                    if (i + 1) * CHUNK < body.len() {
                        (i + 1) * CHUNK
                    } else {
                        body.len() as int
                    },
                ));
            }
        }
    }
}

/// The chunks of a frame reassemble: what they carry, joined, is the base64 of
/// the payload, and no chunk is over [`CHUNK`].
pub proof fn law_chunks_reassemble(payload: Seq<u8>)
    ensures
        decoded(joined(pieces(encoded(payload)))) == Some(payload),
        forall|i: int|
            0 <= i < pieces(encoded(payload)).len() ==> (#[trigger] pieces(encoded(payload))[i]).len()
                <= CHUNK,
{
    lemma_pieces(encoded(payload));
    law_decoding_undoes_encoding(payload);
}

/// A payload as base64 in [`CHUNK`]-sized commands, the first carrying the
/// control keys and every one saying whether more follow.
fn chunked(control: &[u8], payload: &[u8]) -> (r: Vec<u8>)
    ensures
        r@ == chunked_bytes(control@, payload@),
{
    let body = encode(payload);
    let mut out: Vec<u8> = Vec::new();
    if body.len() == 0 {
        push_apc(&mut out);
        push_bytes(&mut out, control);
        push_text(&mut out, ";");
        push_st(&mut out);
        proof {
            assert(out@ =~= chunked_bytes(control@, payload@));
        }
        return out;
    }
    let ghost parts = pieces(body@);
    proof {
        lemma_pieces(body@);
    }
    let mut at: usize = 0;
    let ghost mut k: int = 0;
    while at < body.len()
        invariant
            body@ == encoded(payload@),
            0 < body@.len(),
            parts == pieces(body@),
            0 <= k <= parts.len(),
            at <= body@.len(),
            at < body@.len() ==> at == k * CHUNK,
            at == body@.len() ==> k == parts.len(),
            out@ == chunk_commands(control@, parts, k),
        decreases body@.len() - at,
    {
        proof {
            lemma_pieces(body@);
        }
        let left: usize = body.len() - at;
        let more = left > CHUNK;
        let end: usize = if more {
            at + CHUNK
        } else {
            body.len()
        };
        let ghost before = out@;
        proof {
            assert(k < parts.len());
            assert(parts[k] == body@.subrange(at as int, end as int));
            assert(more == (k + 1 < parts.len()));
        }
        push_apc(&mut out);
        if at == 0 {
            push_bytes(&mut out, control);
            push_text(&mut out, ",");
        }
        if more {
            push_text(&mut out, "m=1");
        } else {
            push_text(&mut out, "m=0");
        }
        push_text(&mut out, ";");
        push_bytes(&mut out, slice_subrange(body.as_slice(), at, end));
        push_st(&mut out);
        proof {
            assert((at == 0) == (k == 0));
            assert(out@ =~= before + chunk_command(control@, parts, k));
            k = k + 1;
        }
        at = end;
    }
    out
}

/// Start a graphics command.
fn push_apc(out: &mut Vec<u8>)
    ensures
        final(out)@ == old(out)@ + apc(),
{
    let ghost before = out@;
    out.push(0x1b);
    out.push(0x5f);
    out.push(0x47);
    proof {
        assert(out@ =~= before + apc());
    }
}

/// End an escape string.
fn push_st(out: &mut Vec<u8>)
    ensures
        final(out)@ == old(out)@ + st(),
{
    let ghost before = out@;
    out.push(0x1b);
    out.push(0x5c);
    proof {
        assert(out@ =~= before + st());
    }
}


// ---- commands ----

/// The control keys of a placement: the frame's own at the cursor, or a
/// virtual one under [`PLACEHOLDER_IMAGE_ID`]. `size` is `None` for a PNG,
/// which carries its own.
pub open spec fn placed_keys(
    format: u32,
    size: Option<(u32, u32)>,
    cells: Cells,
    placement: Placement,
) -> Seq<u8> {
    let start = utf8("a=T,f="@) + number_bytes(format as nat);
    let sized = match size {
        Some((width, height)) => start + utf8(",s="@) + number_bytes(one_at_least(width) as nat)
            + utf8(",v="@) + number_bytes(one_at_least(height) as nat),
        None => start,
    };
    let shape = number_bytes(one_at_least(cells.cols) as nat) + utf8(",r="@) + number_bytes(
        one_at_least(cells.rows) as nat,
    );
    match placement {
        Placement::Direct => sized + utf8(",i=1,p=1,c="@) + shape + utf8(",C=1,q=2"@),
        Placement::Unicode => sized + utf8(",i=16,U=1,c="@) + shape + utf8(",q=2"@),
    }
}

/// The control keys of a placement of either kind.
fn placed_control(
    format: u32,
    size: Option<(u32, u32)>,
    cells: Cells,
    placement: Placement,
) -> (r: Vec<u8>)
    ensures
        r@ == placed_keys(format, size, cells, placement),
{
    let mut out: Vec<u8> = Vec::new();
    push_text(&mut out, "a=T,f=");
    push_number(&mut out, format as u64);
    match size {
        Some((width, height)) => {
            push_text(&mut out, ",s=");
            push_number(&mut out, at_least_one(width) as u64);
            push_text(&mut out, ",v=");
            push_number(&mut out, at_least_one(height) as u64);
        },
        None => {},
    }
    match placement {
        Placement::Direct => push_text(&mut out, ",i=1,p=1,c="),
        Placement::Unicode => push_text(&mut out, ",i=16,U=1,c="),
    }
    push_number(&mut out, at_least_one(cells.cols) as u64);
    push_text(&mut out, ",r=");
    push_number(&mut out, at_least_one(cells.rows) as u64);
    match placement {
        Placement::Direct => push_text(&mut out, ",C=1,q=2"),
        Placement::Unicode => push_text(&mut out, ",q=2"),
    }
    proof {
        assert(out@ =~= placed_keys(format, size, cells, placement));
    }
    out
}

/// The control keys every frame of pixels at the cursor carries.
pub open spec fn control_keys(raw: Raw, cells: Cells) -> Seq<u8> {
    placed_keys(raw.layout(), Some((raw.width, raw.height)), cells, Placement::Direct)
}

/// The control keys every frame of pixels at the cursor carries.
fn control(raw: &Raw<'_>, cells: Cells) -> (r: Vec<u8>)
    ensures
        r@ == control_keys(*raw, cells),
{
    placed_control(raw.format(), Some((raw.width, raw.height)), cells, Placement::Direct)
}

/// The command that names an object for the terminal to read.
pub open spec fn named_command(name: Seq<char>, raw: Raw, cells: Cells) -> Seq<u8> {
    apc() + control_keys(raw, cells) + utf8(",t=s;"@) + encoded(utf8(name)) + st()
}

/// `t=s`: the payload is the name of the object, not the image.
pub fn shared_memory_command(name: &str, raw: &Raw<'_>, cells: Cells) -> (r: Vec<u8>)
    ensures
        r@ == named_command(name@, *raw, cells),
{
    let mut out: Vec<u8> = Vec::new();
    push_apc(&mut out);
    let keys = control(raw, cells);
    push_bytes(&mut out, keys.as_slice());
    push_text(&mut out, ",t=s;");
    let body = encode(name.as_bytes());
    push_bytes(&mut out, body.as_slice());
    push_st(&mut out);
    proof {
        assert(out@ =~= named_command(name@, *raw, cells));
    }
    out
}

/// The command that takes the picture off the screen and the frame out of the
/// store: `d=I`, whose upper case frees the image as well as the placement.
pub open spec fn clear_bytes() -> Seq<u8> {
    utf8("\x1b_Ga=d,d=I,i=1,p=1,q=2\x1b\\"@)
}

/// Take the picture off the screen and the frame out of the store.
pub fn clear_command() -> (r: Vec<u8>)
    ensures
        r@ == clear_bytes(),
{
    let mut out: Vec<u8> = Vec::new();
    push_text(&mut out, "\x1b_Ga=d,d=I,i=1,p=1,q=2\x1b\\");
    proof {
        assert(out@ =~= clear_bytes());
    }
    out
}

/// `t=d`: the pixels themselves, base64, in as many escape sequences as it
/// takes.
pub fn inline_command(raw: &Raw<'_>, cells: Cells) -> (r: Vec<u8>)
    ensures
        r@ == chunked_bytes(control_keys(*raw, cells), raw.pixels@),
{
    let keys = control(raw, cells);
    chunked(keys.as_slice(), raw.pixels)
}

/// Raw pixels, inline, placed either way.
pub open spec fn placed_raw(raw: Raw, cells: Cells, placement: Placement) -> Seq<u8> {
    chunked_bytes(
        placed_keys(raw.layout(), Some((raw.width, raw.height)), cells, placement),
        raw.pixels@,
    )
}

/// Raw pixels, inline, placed either way.
fn placed_inline_command(raw: &Raw<'_>, cells: Cells, placement: Placement) -> (r: Vec<u8>)
    ensures
        r@ == placed_raw(*raw, cells, placement),
{
    let keys = placed_control(raw.format(), Some((raw.width, raw.height)), cells, placement);
    chunked(keys.as_slice(), raw.pixels)
}

/// A PNG, inline, placed either way.
pub open spec fn placed_png(png: Seq<u8>, cells: Cells, placement: Placement) -> Seq<u8> {
    chunked_bytes(placed_keys(100, None, cells, placement), png)
}

/// `f=100`: a PNG, inline, placed either way. No size: the file says.
pub fn png_command(png: &[u8], cells: Cells, placement: Placement) -> (r: Vec<u8>)
    ensures
        r@ == placed_png(png@, cells, placement),
{
    let keys = placed_control(100, None, cells, placement);
    chunked(keys.as_slice(), png)
}

// ---- through tmux ----

/// An escape, as a byte.
pub open spec fn esc() -> u8 {
    0x1b
}

/// Where the first whole escape string of some bytes ends: after its `ESC \\`,
/// or at the end when there is none.
pub open spec fn unit_end(b: Seq<u8>) -> int
    decreases b.len(),
{
    if b.len() < 2 {
        b.len() as int
    } else if b[0] == esc() && b[1] == 0x5c {
        2
    } else {
        1 + unit_end(b.drop_first())
    }
}

/// A unit ends after it starts, and inside the bytes.
pub proof fn lemma_unit_end(b: Seq<u8>)
    ensures
        b.len() > 0 ==> 1 <= unit_end(b) <= b.len(),
        b.len() == 0 ==> unit_end(b) == 0,
        unit_end(b) < b.len() ==> unit_end(b) >= 2 && b[unit_end(b) - 2] == esc() && b[unit_end(b)
            - 1] == 0x5c,
    decreases b.len(),
{
    if b.len() >= 2 && !(b[0] == esc() && b[1] == 0x5c) {
        lemma_unit_end(b.drop_first());
    }
}

/// Bytes cut after every `ESC \\`: whole escape strings, and whatever is
/// between them with the one that follows.
pub open spec fn units(b: Seq<u8>) -> Seq<Seq<u8>>
    decreases b.len(),
{
    if b.len() == 0 {
        Seq::empty()
    } else {
        proof {
            lemma_unit_end(b);
        }
        seq![b.take(unit_end(b))] + units(b.skip(unit_end(b)))
    }
}

/// Bytes with every escape doubled.
pub open spec fn doubled(b: Seq<u8>) -> Seq<u8>
    decreases b.len(),
{
    if b.len() == 0 {
        Seq::empty()
    } else if b[0] == esc() {
        seq![esc(), esc()] + doubled(b.drop_first())
    } else {
        seq![b[0]] + doubled(b.drop_first())
    }
}

/// `ESC P tmux;`.
pub open spec fn opening() -> Seq<u8> {
    seq![0x1bu8, 0x50, 0x74, 0x6d, 0x75, 0x78, 0x3b]
}

/// Some bytes in a wrapper of tmux's.
pub open spec fn wrapper(b: Seq<u8>) -> Seq<u8> {
    opening() + doubled(b) + st()
}

/// Whether a unit still goes in the wrapper that holds `open`.
pub open spec fn still_fits(open: Seq<u8>, unit: Seq<u8>) -> bool {
    opening().len() + doubled(open).len() + doubled(unit).len() + st().len() <= DCS_LIMIT
}

/// What each wrapper holds: as many whole units as the limit allows, `open`
/// being what the one that is open holds already.
pub open spec fn packed(us: Seq<Seq<u8>>, open: Seq<u8>) -> Seq<Seq<u8>>
    decreases us.len(),
{
    if us.len() == 0 {
        if open.len() > 0 {
            seq![open]
        } else {
            Seq::empty()
        }
    } else if open.len() > 0 && !still_fits(open, us[0]) {
        seq![open] + packed(us.drop_first(), us[0])
    } else {
        packed(us.drop_first(), open + us[0])
    }
}

/// Wrappers of what each holds, one after the other.
pub open spec fn wrappers(parts: Seq<Seq<u8>>) -> Seq<u8>
    decreases parts.len(),
{
    if parts.len() == 0 {
        Seq::empty()
    } else {
        wrappers(parts.drop_last()) + wrapper(parts.last())
    }
}

/// Graphics commands wrapped for tmux's passthrough.
pub open spec fn wrapped_bytes(b: Seq<u8>) -> Seq<u8> {
    wrappers(packed(units(b), Seq::empty()))
}

/// Doubling goes byte by byte.
proof fn lemma_doubled_concat(a: Seq<u8>, b: Seq<u8>)
    ensures
        doubled(a + b) == doubled(a) + doubled(b),
    decreases a.len(),
{
    if a.len() == 0 {
        assert(a + b =~= b);
        assert(doubled(a) + doubled(b) =~= doubled(b));
    } else {
        lemma_doubled_concat(a.drop_first(), b);
        assert((a + b).drop_first() =~= a.drop_first() + b);
        assert((a + b)[0] == a[0]);
        assert(doubled(a + b) =~= doubled(a) + doubled(b));
    }
}

/// Doubling takes nothing away.
proof fn lemma_doubled_len(b: Seq<u8>)
    ensures
        doubled(b).len() >= b.len(),
    decreases b.len(),
{
    if b.len() > 0 {
        lemma_doubled_len(b.drop_first());
    }
}

/// Where the first whole escape string of some bytes ends.
fn unit_end_of(b: &[u8]) -> (r: usize)
    ensures
        r == unit_end(b@),
        r <= b@.len(),
        b@.len() > 0 ==> r > 0,
{
    let mut i: usize = 0;
    proof {
        assert(b@.skip(0) =~= b@);
        lemma_unit_end(b@);
    }
    while b.len() - i >= 2
        invariant
            i <= b@.len(),
            unit_end(b@) == i + unit_end(b@.skip(i as int)),
            b@.len() > 0 ==> 1 <= unit_end(b@) <= b@.len(),
        decreases b@.len() - i,
    {
        proof {
            assert(b@.skip(i as int)[0] == b@[i as int]);
            assert(b@.skip(i as int)[1] == b@[i + 1]);
            assert(b@.skip(i as int).drop_first() =~= b@.skip(i + 1));
        }
        if b[i] == 0x1b && b[i + 1] == 0x5c {
            return i + 2;
        }
        i += 1;
    }
    b.len()
}

/// Bytes with every escape doubled.
fn doubled_of(b: &[u8]) -> (r: Vec<u8>)
    ensures
        r@ == doubled(b@),
{
    let mut out: Vec<u8> = Vec::new();
    let mut i: usize = 0;
    proof {
        assert(b@.skip(0) =~= b@);
        assert(out@ + doubled(b@) =~= doubled(b@));
    }
    while i < b.len()
        invariant
            i <= b@.len(),
            doubled(b@) == out@ + doubled(b@.skip(i as int)),
        decreases b@.len() - i,
    {
        let ghost rest = b@.skip(i as int);
        let ghost before = out@;
        if b[i] == 0x1b {
            out.push(0x1b);
        }
        out.push(b[i]);
        proof {
            assert(rest[0] == b@[i as int]);
            assert(rest.drop_first() =~= b@.skip(i + 1));
            assert(before + doubled(rest) =~= out@ + doubled(rest.drop_first()));
        }
        i += 1;
    }
    proof {
        assert(out@ + Seq::<u8>::empty() =~= out@);
    }
    out
}

/// Open a wrapper.
fn push_opening(out: &mut Vec<u8>)
    ensures
        final(out)@ == old(out)@ + opening(),
{
    let ghost before = out@;
    out.push(0x1b);
    out.push(0x50);
    out.push(0x74);
    out.push(0x6d);
    out.push(0x75);
    out.push(0x78);
    out.push(0x3b);
    proof {
        assert(out@ =~= before + opening());
    }
}

/// Graphics commands wrapped for tmux's passthrough: `ESC P tmux;`, the bytes
/// with every `ESC` doubled, `ESC \\`, as many wrappers as it takes to keep
/// each under [`DCS_LIMIT`].
///
/// A wrapper is cut only after a command's `ESC \\`, never inside one, so each
/// carries whole commands. As few wrappers as the limit allows, because tmux
/// follows each with resets of its own.
pub fn wrap_for_tmux(bytes: &[u8]) -> (r: Vec<u8>)
    ensures
        r@ == wrapped_bytes(bytes@),
{
    let mut out: Vec<u8> = Vec::new();
    let mut at: usize = 0;
    // Where the wrapper that is open starts, when one is.
    let mut start: Option<usize> = None;
    let ghost mut done: Seq<Seq<u8>> = Seq::empty();
    let ghost mut open: Seq<u8> = Seq::empty();
    let ghost all = packed(units(bytes@), Seq::empty());
    proof {
        assert(bytes@.skip(0) =~= bytes@);
        assert(done + all =~= all);
    }
    while at < bytes.len()
        invariant
            at <= bytes@.len(),
            all == done + packed(units(bytes@.skip(at as int)), open),
            start is Some <==> open.len() > 0,
            start is None ==> out@ == wrappers(done),
            start matches Some(s) ==> s == wrappers(done).len() && out@ == wrappers(done)
                + opening() + doubled(open),
        decreases bytes@.len() - at,
    {
        let ghost rest = bytes@.skip(at as int);
        let rest_slice = slice_subrange(bytes, at, bytes.len());
        proof {
            assert(rest_slice@ =~= rest);
        }
        let end = unit_end_of(rest_slice);
        let unit = slice_subrange(rest_slice, 0, end);
        let twice = doubled_of(unit);
        proof {
            assert(unit@ =~= rest.take(unit_end(rest)));
            assert(rest.skip(end as int) =~= bytes@.skip(at + end));
            assert(units(rest)[0] == unit@);
            assert(units(rest).drop_first() =~= units(bytes@.skip(at + end)));
        }
        let full = match start {
            Some(s) => {
                let held: usize = out.len() - s;
                held > DCS_LIMIT || twice.len() > DCS_LIMIT || held + twice.len() + 2 > DCS_LIMIT
            },
            None => false,
        };
        proof {
            if open.len() > 0 {
                assert(full == !still_fits(open, unit@));
            }
        }
        if full {
            push_st(&mut out);
            start = None;
            proof {
                assert(done.push(open).drop_last() =~= done);
                assert(out@ =~= wrappers(done.push(open)));
                let more = packed(units(bytes@.skip(at + end)), unit@);
                assert(done + (seq![open] + more) =~= done.push(open) + more);
                done = done.push(open);
                open = Seq::empty();
                assert(open + unit@ =~= unit@);
            }
        }
        let ghost was_open = start is Some;
        if start.is_none() {
            start = Some(out.len());
            push_opening(&mut out);
            proof {
                assert(doubled(open) =~= Seq::empty());
                assert(out@ =~= wrappers(done) + opening() + doubled(open));
            }
        }
        push_bytes(&mut out, twice.as_slice());
        proof {
            lemma_doubled_concat(open, unit@);
            assert(out@ =~= wrappers(done) + opening() + doubled(open + unit@));
            open = open + unit@;
        }
        at = at + end;
    }
    proof {
        assert(bytes@.skip(at as int) =~= Seq::empty());
        assert(units(bytes@.skip(at as int)) =~= Seq::empty());
    }
    if start.is_some() {
        push_st(&mut out);
        proof {
            assert(done.push(open).drop_last() =~= done);
            assert(done + seq![open] =~= done.push(open));
            assert(out@ =~= wrappers(done.push(open)));
        }
    } else {
        proof {
            assert(done + Seq::<Seq<u8>>::empty() =~= done);
        }
    }
    out
}


/// What tmux passes on of bytes that stand outside a wrapper: a wrapper's
/// contents, and anything else as it is.
pub open spec fn passed_on(b: Seq<u8>) -> Seq<u8>
    decreases b.len(),
{
    if b.len() == 0 {
        Seq::empty()
    } else if b.len() >= opening().len() && b.take(opening().len() as int) == opening() {
        passed_on_inside(b.skip(opening().len() as int))
    } else {
        seq![b[0]] + passed_on(b.drop_first())
    }
}

/// What tmux passes on of bytes that stand inside a wrapper: doubled escapes
/// halved, up to the `ESC \\` that ends it.
pub open spec fn passed_on_inside(b: Seq<u8>) -> Seq<u8>
    decreases b.len(),
{
    if b.len() == 0 {
        Seq::empty()
    } else if b.len() >= 2 && b[0] == esc() && b[1] == esc() {
        seq![esc()] + passed_on_inside(b.skip(2))
    } else if b.len() >= 2 && b[0] == esc() && b[1] == 0x5c {
        passed_on(b.skip(2))
    } else {
        seq![b[0]] + passed_on_inside(b.drop_first())
    }
}

/// Inside a wrapper, tmux passes on what was doubled.
proof fn lemma_inside(b: Seq<u8>, rest: Seq<u8>)
    ensures
        passed_on_inside(doubled(b) + st() + rest) == b + passed_on(rest),
    decreases b.len(),
{
    let s = doubled(b) + st() + rest;
    if b.len() == 0 {
        assert(s =~= st() + rest);
        assert(s.skip(2) =~= rest);
        assert(b + passed_on(rest) =~= passed_on(rest));
    } else {
        let more = b.drop_first();
        lemma_inside(more, rest);
        assert(seq![b[0]] + (more + passed_on(rest)) =~= b + passed_on(rest));
        if b[0] == esc() {
            assert(s[0] == esc() && s[1] == esc());
            assert(s.skip(2) =~= doubled(more) + st() + rest);
        } else {
            assert(s[0] == b[0]);
            assert(s.drop_first() =~= doubled(more) + st() + rest);
        }
    }
}

/// The last of some parts joins at the end.
proof fn lemma_joined_last(parts: Seq<Seq<u8>>)
    requires
        parts.len() > 0,
    ensures
        joined(parts) == joined(parts.drop_last()) + parts.last(),
    decreases parts.len(),
{
    if parts.len() == 1 {
        assert(parts.drop_first() =~= Seq::empty());
        assert(parts.drop_last() =~= Seq::empty());
        assert(joined(parts) =~= joined(parts.drop_last()) + parts.last());
    } else {
        lemma_joined_last(parts.drop_first());
        assert(parts.drop_first().drop_last() =~= parts.drop_last().drop_first());
        assert(joined(parts) =~= joined(parts.drop_last()) + parts.last());
    }
}

/// Joining is associative.
proof fn lemma_concat3(a: Seq<u8>, b: Seq<u8>, c: Seq<u8>)
    ensures
        a + b + c == a + (b + c),
{
    assert(a + b + c =~= a + (b + c));
}

/// tmux passes on what a wrapper holds.
proof fn lemma_wrapper_passes_on(held: Seq<u8>, rest: Seq<u8>)
    ensures
        passed_on(wrapper(held) + rest) == held + passed_on(rest),
{
    let after = wrapper(held) + rest;
    assert(after.len() >= opening().len());
    assert(after.take(opening().len() as int) =~= opening());
    assert(after.skip(opening().len() as int) =~= doubled(held) + st() + rest);
    lemma_inside(held, rest);
}

/// tmux passes on what each wrapper holds, one after the other.
proof fn lemma_wrappers_pass_on(parts: Seq<Seq<u8>>, rest: Seq<u8>)
    ensures
        passed_on(wrappers(parts) + rest) == joined(parts) + passed_on(rest),
    decreases parts.len(),
{
    if parts.len() == 0 {
        assert(wrappers(parts) + rest =~= rest);
        assert(joined(parts) + passed_on(rest) =~= passed_on(rest));
    } else {
        let before = parts.drop_last();
        let held = parts.last();
        let after = wrapper(held) + rest;
        lemma_wrappers_pass_on(before, after);
        lemma_wrapper_passes_on(held, rest);
        lemma_joined_last(parts);
        assert(wrappers(parts) == wrappers(before) + wrapper(held));
        lemma_concat3(wrappers(before), wrapper(held), rest);
        assert(joined(before) + (held + passed_on(rest)) =~= joined(parts) + passed_on(rest));
    }
}

/// Units join to the bytes they were cut from.
proof fn lemma_units_join(b: Seq<u8>)
    ensures
        joined(units(b)) == b,
    decreases b.len(),
{
    if b.len() == 0 {
        assert(joined(units(b)) =~= b);
    } else {
        lemma_unit_end(b);
        let rest = b.skip(unit_end(b));
        lemma_units_join(rest);
        assert(units(b).drop_first() =~= units(rest));
        assert(b.take(unit_end(b)) + rest =~= b);
    }
}

/// What the wrappers hold joins to the units that went into them.
proof fn lemma_packed_joins(us: Seq<Seq<u8>>, open: Seq<u8>)
    ensures
        joined(packed(us, open)) == open + joined(us),
    decreases us.len(),
{
    if us.len() == 0 {
        let one = seq![open];
        assert(one.drop_first() =~= Seq::empty());
        assert(joined(one.drop_first()) =~= Seq::empty());
        assert(joined(one) =~= open);
        assert(joined(packed(us, open)) =~= open);
        assert(open + joined(us) =~= open);
    } else {
        let rest = us.drop_first();
        if open.len() > 0 && !still_fits(open, us[0]) {
            lemma_packed_joins(rest, us[0]);
            let all = packed(us, open);
            assert(all.drop_first() =~= packed(rest, us[0]));
            assert(open + (us[0] + joined(rest)) =~= open + joined(us));
        } else {
            lemma_packed_joins(rest, open + us[0]);
            assert((open + us[0]) + joined(rest) =~= open + joined(us));
        }
    }
}

/// What was wrapped for tmux, tmux passes on as it was.
pub proof fn law_unwrapping_gives_the_bytes_back(b: Seq<u8>)
    ensures
        passed_on(wrapped_bytes(b)) == b,
{
    let parts = packed(units(b), Seq::empty());
    lemma_wrappers_pass_on(parts, Seq::empty());
    lemma_packed_joins(units(b), Seq::empty());
    lemma_units_join(b);
    assert(wrappers(parts) + Seq::<u8>::empty() =~= wrappers(parts));
    assert(joined(parts) + Seq::<u8>::empty() =~= b);
}

/// Each wrapper of some that fit on their own is under the limit.
proof fn lemma_packed_under(us: Seq<Seq<u8>>, open: Seq<u8>)
    requires
        forall|i: int| 0 <= i < us.len() ==> wrapper(#[trigger] us[i]).len() <= DCS_LIMIT,
        open.len() > 0 ==> wrapper(open).len() <= DCS_LIMIT,
    ensures
        forall|i: int|
            0 <= i < packed(us, open).len() ==> wrapper(#[trigger] packed(us, open)[i]).len()
                <= DCS_LIMIT,
    decreases us.len(),
{
    if us.len() > 0 {
        let rest = us.drop_first();
        assert forall|i: int| 0 <= i < rest.len() implies wrapper(#[trigger] rest[i]).len()
            <= DCS_LIMIT by {
            assert(rest[i] == us[i + 1]);
        }
        assert(wrapper(us[0]).len() <= DCS_LIMIT);
        if open.len() > 0 && !still_fits(open, us[0]) {
            lemma_packed_under(rest, us[0]);
            let all = packed(us, open);
            assert(all == seq![open] + packed(rest, us[0]));
            assert forall|i: int| 0 <= i < all.len() implies wrapper(#[trigger] all[i]).len()
                <= DCS_LIMIT by {
                if i > 0 {
                    assert(all[i] == packed(rest, us[0])[i - 1]);
                }
            }
        } else {
            lemma_doubled_concat(open, us[0]);
            if open.len() == 0 {
                assert(open + us[0] =~= us[0]);
            }
            lemma_packed_under(rest, open + us[0]);
            assert(packed(us, open) == packed(rest, open + us[0]));
        }
    }
}

/// No wrapper is over the limit, when each command fits in one of its own.
pub proof fn law_no_wrapper_is_over_the_limit(b: Seq<u8>)
    requires
        forall|i: int| 0 <= i < units(b).len() ==> wrapper(#[trigger] units(b)[i]).len()
            <= DCS_LIMIT,
    ensures
        forall|i: int|
            0 <= i < packed(units(b), Seq::empty()).len() ==> wrapper(
                #[trigger] packed(units(b), Seq::empty())[i],
            ).len() <= DCS_LIMIT,
{
    lemma_packed_under(units(b), Seq::empty());
}

/// Bytes that end in `ESC \\`.
pub open spec fn ends_whole(b: Seq<u8>) -> bool {
    b.len() >= 2 && b[b.len() - 2] == esc() && b[b.len() - 1] == 0x5c
}

/// Every unit but the last is a whole escape string.
proof fn lemma_units_are_whole(b: Seq<u8>)
    ensures
        forall|i: int| 0 <= i < units(b).len() - 1 ==> ends_whole(#[trigger] units(b)[i]),
    decreases b.len(),
{
    if b.len() > 0 {
        lemma_unit_end(b);
        let rest = b.skip(unit_end(b));
        lemma_units_are_whole(rest);
        let us = units(b);
        assert forall|i: int| 0 <= i < us.len() - 1 implies ends_whole(#[trigger] us[i]) by {
            if i == 0 {
                if rest.len() == 0 {
                    assert(units(rest).len() == 0);
                }
                assert(unit_end(b) < b.len());
                assert(us[0] == b.take(unit_end(b)));
            } else {
                assert(us[i] == units(rest)[i - 1]);
            }
        }
    }
}

/// Every wrapper but the last holds what ends whole, when every unit but the
/// last does.
proof fn lemma_packed_whole(us: Seq<Seq<u8>>, open: Seq<u8>)
    requires
        forall|i: int| 0 <= i < us.len() - 1 ==> ends_whole(#[trigger] us[i]),
        us.len() > 0 && open.len() > 0 ==> ends_whole(open),
    ensures
        forall|i: int|
            0 <= i < packed(us, open).len() - 1 ==> ends_whole(#[trigger] packed(us, open)[i]),
    decreases us.len(),
{
    if us.len() > 0 {
        let rest = us.drop_first();
        assert forall|i: int| 0 <= i < rest.len() - 1 implies ends_whole(#[trigger] rest[i]) by {
            assert(rest[i] == us[i + 1]);
        }
        if rest.len() > 0 {
            assert(ends_whole(us[0]));
        }
        if open.len() > 0 && !still_fits(open, us[0]) {
            lemma_packed_whole(rest, us[0]);
            let all = packed(us, open);
            assert(all == seq![open] + packed(rest, us[0]));
            assert forall|i: int| 0 <= i < all.len() - 1 implies ends_whole(#[trigger] all[i]) by {
                if i > 0 {
                    assert(all[i] == packed(rest, us[0])[i - 1]);
                }
            }
        } else {
            if rest.len() > 0 {
                let joint = open + us[0];
                assert(joint[joint.len() - 1] == us[0][us[0].len() - 1]);
                assert(joint[joint.len() - 2] == us[0][us[0].len() - 2]);
            }
            lemma_packed_whole(rest, open + us[0]);
            assert(packed(us, open) == packed(rest, open + us[0]));
        }
    }
}

/// A wrapper is cut only after a command's `ESC \\`, never inside one.
pub proof fn law_wrappers_are_cut_between_commands(b: Seq<u8>)
    ensures
        forall|i: int|
            0 <= i < packed(units(b), Seq::empty()).len() - 1 ==> ends_whole(
                #[trigger] packed(units(b), Seq::empty())[i],
            ),
{
    lemma_units_are_whole(b);
    lemma_packed_whole(units(b), Seq::empty());
}

// ---- placeholders ----

/// The combining mark for row or column `n`: the first mark past the last.
pub open spec fn mark(n: int) -> char {
    if 0 <= n < PLACEHOLDER_MAX {
        let code = DIACRITICS@[n];
        if code <= 0xd7ff || 0xe000 <= code <= 0x10ffff {
            code as char
        } else {
            '\u{305}'
        }
    } else {
        '\u{305}'
    }
}

/// The combining mark for row or column `n`.
fn diacritic(n: u32) -> (r: char)
    ensures
        r == mark(n as int),
{
    if n >= PLACEHOLDER_MAX {
        return '\u{305}';
    }
    match std::char::from_u32(DIACRITICS[n as usize]) {
        Some(c) => c,
        None => '\u{305}',
    }
}

/// The smaller of two numbers.
pub open spec fn smaller(a: u32, b: u32) -> u32 {
    if a <= b {
        a
    } else {
        b
    }
}

/// The first `n` placeholder cells of row `r`: both marks on every cell.
pub open spec fn row_cells(r: int, n: int) -> Seq<char>
    decreases n,
{
    if n <= 0 {
        Seq::empty()
    } else {
        row_cells(r, n - 1) + seq![PLACEHOLDER, mark(r), mark(n - 1)]
    }
}

/// One row of placeholder cells, as text: the image id is the foreground
/// colour.
pub open spec fn row_text(id: u32, r: u32, cols: u32, screen_row: u32) -> Seq<char> {
    "\x1b["@ + decimal(screen_row as nat) + ";1H\x1b[38;5;"@ + decimal(id as nat) + "m"@
        + row_cells(r as int, smaller(cols, PLACEHOLDER_MAX) as int) + "\x1b[39m"@
}

/// One row of placeholder cells: row `r` of the image, zero-based, `cols` wide,
/// written at screen row `screen_row` from the first column.
pub fn placeholder_row(id: u32, r: u32, cols: u32, screen_row: u32) -> (out: Vec<u8>)
    ensures
        out@ == utf8(row_text(id, r, cols, screen_row)),
{
    let mut text = String::new();
    text.append("\x1b[");
    text.append(crate::strings::decimal_string(screen_row as u64).as_str());
    text.append(";1H\x1b[38;5;");
    text.append(crate::strings::decimal_string(id as u64).as_str());
    text.append("m");
    let ghost head = text@;
    let row_mark = diacritic(r);
    let width: u32 = if cols <= PLACEHOLDER_MAX {
        cols
    } else {
        PLACEHOLDER_MAX
    };
    let mut c: u32 = 0;
    proof {
        assert(head + row_cells(r as int, 0) =~= head);
    }
    while c < width
        invariant
            c <= width,
            row_mark == mark(r as int),
            text@ == head + row_cells(r as int, c as int),
        decreases width - c,
    {
        text.push(PLACEHOLDER);
        text.push(row_mark);
        text.push(diacritic(c));
        c += 1;
        proof {
            assert(text@ =~= head + row_cells(r as int, c as int));
        }
    }
    text.append("\x1b[39m");
    proof {
        assert(text@ =~= row_text(id, r, cols, screen_row));
    }
    let mut out: Vec<u8> = Vec::new();
    push_text(&mut out, text.as_str());
    proof {
        assert(out@ =~= utf8(text@));
    }
    out
}

/// The first `n` rows of placeholder cells, at screen rows `row` onwards.
pub open spec fn pane_rows(id: u32, cols: u32, row: u32, n: int) -> Seq<u8>
    decreases n,
{
    if n <= 0 {
        Seq::empty()
    } else {
        pane_rows(id, cols, row, n - 1) + utf8(
            row_text(id, (n - 1) as u32, cols, (row + n - 1) as u32),
        )
    }
}

/// The whole pane of placeholder cells.
pub open spec fn pane_bytes(id: u32, cells: Cells, row: u32) -> Seq<u8> {
    pane_rows(id, cells.cols, row, smaller(cells.rows, PLACEHOLDER_MAX) as int)
}

/// The whole pane of placeholder cells: image rows from zero at screen rows
/// `row` onwards, cut at [`PLACEHOLDER_MAX`] either way.
pub fn placeholder_pane(id: u32, cells: Cells, row: u32) -> (out: Vec<u8>)
    requires
        row + smaller(cells.rows, PLACEHOLDER_MAX) <= u32::MAX + 1,
    ensures
        out@ == pane_bytes(id, cells, row),
{
    let mut out: Vec<u8> = Vec::new();
    let rows: u32 = if cells.rows <= PLACEHOLDER_MAX {
        cells.rows
    } else {
        PLACEHOLDER_MAX
    };
    let mut r: u32 = 0;
    while r < rows
        invariant
            r <= rows,
            row + rows <= u32::MAX + 1,
            out@ == pane_rows(id, cells.cols, row, r as int),
        decreases rows - r,
    {
        let more = placeholder_row(id, r, cells.cols, row + r);
        push_bytes(&mut out, more.as_slice());
        r += 1;
    }
    out
}

/// Each mark is below the next.
proof fn lemma_next_mark(i: int)
    requires
        0 <= i < 296,
    ensures
        DIACRITICS@[i] < DIACRITICS@[i + 1],
{
}

/// Each mark is a character.
proof fn lemma_mark_is_a_character(i: int)
    requires
        0 <= i < 297,
    ensures
        DIACRITICS@[i] <= 0xd7ff || 0xe000 <= DIACRITICS@[i] <= 0x10ffff,
{
}

/// The marks go up.
proof fn lemma_marks_go_up(i: int, j: int)
    requires
        0 <= i < j < 297,
    ensures
        DIACRITICS@[i] < DIACRITICS@[j],
    decreases j - i,
{
    lemma_next_mark(j - 1);
    if i + 1 < j {
        lemma_marks_go_up(i, j - 1);
    }
}

/// No two marks are the same, and each is a character.
proof fn lemma_marks(i: int, j: int)
    requires
        0 <= i <= j < 297,
    ensures
        i < j ==> DIACRITICS@[i] < DIACRITICS@[j],
        mark(i) as u32 == DIACRITICS@[i],
{
    lemma_mark_is_a_character(i);
    if i < j {
        lemma_marks_go_up(i, j);
    }
}

/// A screen after the first `n` cells of row `r` of a picture.
spec fn after_cells(glass: Glass, r: int, n: int) -> Glass
    decreases n,
{
    if n <= 0 {
        glass
    } else {
        after_cells(glass, r, n - 1).put(PLACEHOLDER, Some((mark(r), mark(n - 1))))
    }
}

/// The cells of a row are read as cells.
proof fn lemma_cells_read(glass: Glass, r: int, n: int, rest: Seq<char>)
    ensures
        glass.read(row_cells(r, n) + rest) == after_cells(glass, r, n).read(rest),
    decreases n,
{
    if n <= 0 {
        assert(row_cells(r, n) + rest =~= rest);
    } else {
        let cell = seq![PLACEHOLDER, mark(r), mark(n - 1)];
        assert(row_cells(r, n) + rest =~= row_cells(r, n - 1) + (cell + rest));
        lemma_cells_read(glass, r, n - 1, cell + rest);
        lemma_placed(after_cells(glass, r, n - 1), mark(r), mark(n - 1), rest);
    }
}

/// What the cells of a row leave on a screen.
proof fn lemma_after_cells(glass: Glass, r: int, n: int)
    requires
        0 <= n,
    ensures
        ({
            let after = after_cells(glass, r, n);
            &&& after.row == glass.row
            &&& after.col == glass.col + n
            &&& after.ink == glass.ink
            &&& forall|y: int, x: int| #[trigger]
                after.cells.contains_key((y, x)) <==> glass.cells.contains_key((y, x)) || (y
                    == glass.row && glass.col <= x < glass.col + n)
            &&& forall|y: int, x: int|
                after.cells.contains_key((y, x)) ==> #[trigger] after.cells[(y, x)] == (if y
                    == glass.row && glass.col <= x < glass.col + n {
                    Tile {
                        glyph: PLACEHOLDER,
                        ink: glass.ink,
                        marks: Some((mark(r), mark(x - glass.col))),
                    }
                } else {
                    glass.cells[(y, x)]
                })
        }),
    decreases n,
{
    if n > 0 {
        lemma_after_cells(glass, r, n - 1);
    }
}

/// The first `n` rows of placeholder cells, as text.
spec fn pane_text(id: u32, cols: u32, row: u32, n: int) -> Seq<char>
    decreases n,
{
    if n <= 0 {
        Seq::empty()
    } else {
        pane_text(id, cols, row, n - 1) + row_text(id, (n - 1) as u32, cols, (row + n - 1) as u32)
    }
}

/// A pane is its text.
proof fn lemma_pane_text(id: u32, cols: u32, row: u32, n: int)
    ensures
        pane_rows(id, cols, row, n) == utf8(pane_text(id, cols, row, n)),
    decreases n,
{
    if n > 0 {
        lemma_pane_text(id, cols, row, n - 1);
        let last = row_text(id, (n - 1) as u32, cols, (row + n - 1) as u32);
        lemma_utf8_concat(pane_text(id, cols, row, n - 1), last);
    }
}

/// A row of placeholder cells is read as one: the cursor goes to the screen row,
/// the ink is the image, the cells follow, and the ink is put down.
proof fn lemma_row_read(
    glass: Glass,
    id: u32,
    r: u32,
    cols: u32,
    screen_row: u32,
    rest: Seq<char>,
)
    ensures
        glass.read(row_text(id, r, cols, screen_row) + rest) == (Glass {
            ink: None,
            ..after_cells(
                Glass { row: screen_row as int, col: 1, ink: Some(id as nat), ..glass },
                r as int,
                smaller(cols, PLACEHOLDER_MAX) as int,
            )
        }).read(rest),
{
    let n = smaller(cols, PLACEHOLDER_MAX) as int;
    let tail = "\x1b[39m"@ + rest;
    let cells = row_cells(r as int, n) + tail;
    let inked = "\x1b[38;5;"@ + decimal(id as nat) + "m"@ + cells;
    reveal_strlit("\x1b[");
    reveal_strlit(";");
    reveal_strlit("H");
    reveal_strlit(";1H\x1b[38;5;");
    reveal_strlit("\x1b[38;5;");
    assert(decimal(1) =~= seq!['1']);
    assert(";1H\x1b[38;5;"@ =~= ";"@ + decimal(1) + "H"@ + "\x1b[38;5;"@);
    assert(row_text(id, r, cols, screen_row) + rest =~= "\x1b["@ + decimal(screen_row as nat)
        + ";"@ + decimal(1) + "H"@ + inked);
    lemma_moved(glass, screen_row as nat, 1, inked);
    let there = Glass { row: screen_row as int, col: 1, ..glass };
    lemma_inked(there, id as nat, cells);
    let ready = Glass { ink: Some(id as nat), ..there };
    lemma_cells_read(ready, r as int, n, tail);
    lemma_inked(after_cells(ready, r as int, n), id as nat, rest);
}

/// A screen after the first `n` rows of a pane.
spec fn after_rows(glass: Glass, id: u32, cols: u32, row: u32, n: int) -> Glass
    decreases n,
{
    if n <= 0 {
        glass
    } else {
        let before = after_rows(glass, id, cols, row, n - 1);
        Glass {
            ink: None,
            ..after_cells(
                Glass { row: row + n - 1, col: 1, ink: Some(id as nat), ..before },
                n - 1,
                smaller(cols, PLACEHOLDER_MAX) as int,
            )
        }
    }
}

/// A pane is read row by row.
proof fn lemma_pane_read(glass: Glass, id: u32, cols: u32, row: u32, n: int, rest: Seq<char>)
    requires
        n <= PLACEHOLDER_MAX,
        row + n <= u32::MAX + 1,
    ensures
        glass.read(pane_text(id, cols, row, n) + rest) == after_rows(glass, id, cols, row, n).read(
            rest,
        ),
    decreases n,
{
    if n <= 0 {
        assert(pane_text(id, cols, row, n) + rest =~= rest);
    } else {
        let last = row_text(id, (n - 1) as u32, cols, (row + n - 1) as u32);
        assert(pane_text(id, cols, row, n) + rest =~= pane_text(id, cols, row, n - 1) + (last
            + rest));
        lemma_pane_read(glass, id, cols, row, n - 1, last + rest);
        lemma_row_read(
            after_rows(glass, id, cols, row, n - 1),
            id,
            (n - 1) as u32,
            cols,
            (row + n - 1) as u32,
            rest,
        );
    }
}

/// What a pane leaves on a screen that had nothing on it.
proof fn lemma_after_rows(id: u32, cols: u32, row: u32, n: int)
    requires
        0 <= n <= PLACEHOLDER_MAX,
    ensures
        ({
            let after = after_rows(blank(), id, cols, row, n);
            let width = smaller(cols, PLACEHOLDER_MAX);
            &&& forall|y: int, x: int| #[trigger]
                after.cells.contains_key((y, x)) <==> row <= y < row + n && 1 <= x <= width
            &&& forall|y: int, x: int|
                row <= y < row + n && 1 <= x <= width ==> #[trigger] after.cells[(y, x)] == (Tile {
                    glyph: PLACEHOLDER,
                    ink: Some(id as nat),
                    marks: Some((mark(y - row), mark(x - 1))),
                })
        }),
    decreases n,
{
    if n > 0 {
        lemma_after_rows(id, cols, row, n - 1);
        let before = after_rows(blank(), id, cols, row, n - 1);
        let ready = Glass { row: row + n - 1, col: 1, ink: Some(id as nat), ..before };
        lemma_after_cells(ready, n - 1, smaller(cols, PLACEHOLDER_MAX) as int);
    }
}

/// A terminal that reads a pane shows, in the row of the screen `r` below the
/// pane's first and in each of its columns, the placeholder in the image's ink
/// with the marks of row `r` and of that column, and shows nothing elsewhere.
pub proof fn law_a_pane_shows_the_picture(id: u32, cells: Cells, row: u32)
    requires
        row + cells.rows <= u32::MAX,
    ensures
        ({
            let shown = blank().read(vstd::utf8::decode_utf8(pane_bytes(id, cells, row))).cells;
            &&& forall|r: int, c: int|
                0 <= r < cells.rows && r < 297 && 0 <= c < cells.cols && c < 297 ==> {
                    &&& shown.contains_key((row + r, c + 1))
                    &&& (#[trigger] shown[(row + r, c + 1)]).glyph == '\u{10EEEE}'
                    &&& shown[(row + r, c + 1)].ink == Some(id as nat)
                    &&& shown[(row + r, c + 1)].marks matches Some((a, b)) && a as u32
                        == DIACRITICS@[r] && b as u32 == DIACRITICS@[c]
                }
            &&& forall|y: int, x: int| #[trigger]
                shown.contains_key((y, x)) ==> row <= y < row + cells.rows && y < row + 297 && 1
                    <= x <= cells.cols && x <= 297
        }),
{
    let n = smaller(cells.rows, PLACEHOLDER_MAX) as int;
    let text = pane_text(id, cells.cols, row, n);
    lemma_pane_text(id, cells.cols, row, n);
    vstd::utf8::encode_utf8_decode_utf8(text);
    lemma_pane_read(blank(), id, cells.cols, row, n, Seq::empty());
    assert(text + Seq::<char>::empty() =~= text);
    lemma_after_rows(id, cells.cols, row, n);
    let shown = blank().read(vstd::utf8::decode_utf8(pane_bytes(id, cells, row))).cells;
    assert forall|r: int, c: int|
        0 <= r < cells.rows && r < 297 && 0 <= c < cells.cols && c < 297 implies {
        &&& shown.contains_key((row + r, c + 1))
        &&& (#[trigger] shown[(row + r, c + 1)]).glyph == '\u{10EEEE}'
        &&& shown[(row + r, c + 1)].ink == Some(id as nat)
        &&& shown[(row + r, c + 1)].marks matches Some((a, b)) && a as u32 == DIACRITICS@[r] && b
            as u32 == DIACRITICS@[c]
    } by {
        lemma_marks(r, r);
        lemma_marks(c, c);
        let y = row + r;
        let x = c + 1;
        assert(shown.contains_key((y, x)));
        assert(y - row == r && x - 1 == c);
    }
}

/// No two cells of a pane carry the same marks: each shows a part of the picture
/// that no other does.
pub proof fn law_no_two_cells_show_the_same_part(
    id: u32,
    cells: Cells,
    row: u32,
    r: int,
    c: int,
    s: int,
    d: int,
)
    requires
        row + cells.rows <= u32::MAX,
        0 <= r < cells.rows && r < 297 && 0 <= c < cells.cols && c < 297,
        0 <= s < cells.rows && s < 297 && 0 <= d < cells.cols && d < 297,
        r != s || c != d,
    ensures
        ({
            let shown = blank().read(vstd::utf8::decode_utf8(pane_bytes(id, cells, row))).cells;
            shown[(row + r, c + 1)].marks != shown[(row + s, d + 1)].marks
        }),
{
    law_a_pane_shows_the_picture(id, cells, row);
    let shown = blank().read(vstd::utf8::decode_utf8(pane_bytes(id, cells, row))).cells;
    let a = shown[(row + r, c + 1)];
    let b = shown[(row + s, d + 1)];
    if r < s {
        lemma_marks(r, s);
    } else if s < r {
        lemma_marks(s, r);
    }
    if c < d {
        lemma_marks(c, d);
    } else if d < c {
        lemma_marks(d, c);
    }
}

// ---- the painter ----

/// The state a sequence of frames needs: which names are outstanding, and
/// whether the terminal is reading them.
#[derive(Debug)]
pub struct Painter {
    pub transport: Transport,
    pub route: Route,
    /// The cells the placeholders on screen were written for; `None` when they
    /// have to be written again.
    pub placed: Option<Cells>,
    /// What the names of this run start with.
    pub prefix: String,
    pub counter: u64,
    /// Names written and not yet collected, oldest first.
    pub outstanding: Vec<String>,
    /// How many names in a row the terminal left unread.
    pub unconsumed: u32,
}

/// The `n`th name.
pub open spec fn object(prefix: Seq<char>, n: nat) -> Seq<char> {
    prefix + "-"@ + decimal(n)
}

/// Every frame has a name of its own.
pub proof fn law_names_are_fresh(prefix: Seq<char>, a: nat, b: nat)
    requires
        a != b,
    ensures
        object(prefix, a) != object(prefix, b),
{
    let x = object(prefix, a);
    let y = object(prefix, b);
    if x == y {
        let n = (prefix + "-"@).len() as int;
        assert(x.skip(n) =~= decimal(a));
        assert(y.skip(n) =~= decimal(b));
        crate::strings::lemma_decimal(a);
        crate::strings::lemma_decimal(b);
    }
}

/// The cells a frame is placed in: the pane's, cut to what placeholders can
/// address where they are used.
pub open spec fn fitted(placement: Placement, cells: Cells) -> Cells {
    match placement {
        Placement::Direct => cells,
        Placement::Unicode => Cells {
            cols: smaller(one_at_least(cells.cols), PLACEHOLDER_MAX),
            rows: smaller(one_at_least(cells.rows), PLACEHOLDER_MAX),
        },
    }
}

/// The cursor move that a placement at the cursor needs first; nothing for a
/// virtual placement, which has no cursor.
pub open spec fn cursor_to(placement: Placement, row: u32, col: u32) -> Seq<u8> {
    match placement {
        Placement::Direct => utf8("\x1b["@) + number_bytes(row as nat) + utf8(";"@) + number_bytes(
            col as nat,
        ) + utf8("H"@),
        Placement::Unicode => Seq::empty(),
    }
}

/// Graphics commands as a route sends them: bare, or wrapped for tmux.
pub open spec fn sent(wrap: Wrap, commands: Seq<u8>) -> Seq<u8> {
    match wrap {
        Wrap::Bare => commands,
        Wrap::Tmux => wrapped_bytes(commands),
    }
}

/// Frames on this route never go by name.
pub open spec fn always_inline(route: Route) -> bool {
    route.transport == Transport::Inline || route.payload == Payload::Png || route.placement
        == Placement::Unicode
}

impl Painter {
    /// A painter for a local terminal, by name where shared memory is
    /// `usable`.
    pub fn at(usable: bool, prefix: String) -> (r: Painter)
        ensures
            r.route == local_route(usable),
            r.transport == r.route.transport,
            r.placed is None,
            r.prefix == prefix,
            r.counter == 0,
            r.outstanding@.len() == 0,
            r.unconsumed == 0,
    {
        let route = Route::local(usable);
        Painter {
            transport: route.transport,
            route,
            placed: None,
            prefix,
            counter: 0,
            outstanding: Vec::new(),
            unconsumed: 0,
        }
    }

    /// A painter for a route. The route may only take shared memory away,
    /// never give it: what is not `usable` is not used, and a route that says
    /// inline, or a PNG, or placeholders, is inline whatever is usable.
    pub fn at_with(usable: bool, prefix: String, route: Route) -> (r: Painter)
        ensures
            r.transport == (if always_inline(route) || !usable {
                Transport::Inline
            } else {
                Transport::SharedMemory
            }),
            r.route == (Route { transport: r.transport, ..route }),
            r.placed is None,
            r.prefix == prefix,
            r.counter == 0,
            r.outstanding@.len() == 0,
            r.unconsumed == 0,
    {
        let mut painter = Painter::at(usable, prefix);
        if route.transport == Transport::Inline || route.payload == Payload::Png || route.placement
            == Placement::Unicode {
            painter.transport = Transport::Inline;
        }
        painter.route = Route {
            transport: painter.transport,
            payload: route.payload,
            placement: route.placement,
            wrap: route.wrap,
            every_nth: route.every_nth,
        };
        painter
    }

    /// How frames go.
    pub fn transport(&self) -> (r: Transport)
        ensures
            r == self.transport,
    {
        self.transport
    }

    /// The route frames take.
    pub fn route(&self) -> (r: Route)
        ensures
            r == self.route,
    {
        self.route
    }

    /// The cells a frame is placed in.
    fn fit(&self, cells: Cells) -> (r: Cells)
        ensures
            r == fitted(self.route.placement, cells),
    {
        match self.route.placement {
            Placement::Direct => cells,
            Placement::Unicode => {
                let cols = at_least_one(cells.cols);
                let rows = at_least_one(cells.rows);
                Cells {
                    cols: if cols <= PLACEHOLDER_MAX {
                        cols
                    } else {
                        PLACEHOLDER_MAX
                    },
                    rows: if rows <= PLACEHOLDER_MAX {
                        rows
                    } else {
                        PLACEHOLDER_MAX
                    },
                }
            },
        }
    }

    /// The cursor move that a placement at the cursor needs first.
    fn cursor(&self, row: u32, col: u32) -> (r: Vec<u8>)
        ensures
            r@ == cursor_to(self.route.placement, row, col),
    {
        let mut out: Vec<u8> = Vec::new();
        match self.route.placement {
            Placement::Direct => {
                push_text(&mut out, "\x1b[");
                push_number(&mut out, row as u64);
                push_text(&mut out, ";");
                push_number(&mut out, col as u64);
                push_text(&mut out, "H");
            },
            Placement::Unicode => {},
        }
        proof {
            assert(out@ =~= cursor_to(self.route.placement, row, col));
        }
        out
    }

    /// Graphics commands as the route sends them.
    fn wrapped(&self, commands: Vec<u8>) -> (r: Vec<u8>)
        ensures
            r@ == sent(self.route.wrap, commands@),
    {
        match self.route.wrap {
            Wrap::Bare => commands,
            Wrap::Tmux => wrap_for_tmux(commands.as_slice()),
        }
    }

    /// A PNG from the engine, put on screen as it came: `f=100`, inline, sized
    /// to `cells`.
    pub fn png_frame(&self, png: &[u8], cells: Cells, row: u32, col: u32) -> (r: Vec<u8>)
        ensures
            r@ == cursor_to(self.route.placement, row, col) + sent(
                self.route.wrap,
                placed_png(
                    png@,
                    fitted(self.route.placement, cells),
                    self.route.placement,
                ),
            ),
    {
        let cells = self.fit(cells);
        let mut out = self.cursor(row, col);
        let command = self.wrapped(png_command(png, cells, self.route.placement));
        push_bytes(&mut out, command.as_slice());
        out
    }

    /// Take the picture off the screen and the frame out of the store, the way
    /// this route put it there. The placeholder cells are the caller's to
    /// clear; the next paint writes them again.
    pub fn clear(&mut self) -> (r: Vec<u8>)
        ensures
            *final(self) == (Painter { placed: None, ..*old(self) }),
            r@ == sent(
                old(self).route.wrap,
                match old(self).route.placement {
                    Placement::Direct => clear_bytes(),
                    Placement::Unicode => utf8("\x1b_Ga=d,d=I,i=16,q=2\x1b\\"@),
                },
            ),
    {
        self.placed = None;
        let command = match self.route.placement {
            Placement::Direct => clear_command(),
            Placement::Unicode => {
                let mut out: Vec<u8> = Vec::new();
                push_text(&mut out, "\x1b_Ga=d,d=I,i=16,q=2\x1b\\");
                proof {
                    assert(out@ =~= utf8("\x1b_Ga=d,d=I,i=16,q=2\x1b\\"@));
                }
                out
            },
        };
        self.wrapped(command)
    }

    /// The placeholder cells for a picture in `cells` at screen row `row`, when
    /// they are not on screen already; empty otherwise, and always on a route
    /// that places at the cursor.
    pub fn placeholders(&mut self, cells: Cells, row: u32) -> (r: Vec<u8>)
        requires
            row + PLACEHOLDER_MAX <= u32::MAX + 1,
        ensures
            ({
                let fit = fitted(old(self).route.placement, cells);
                if old(self).route.placement == Placement::Direct || old(self).placed == Some(fit) {
                    r@.len() == 0 && *final(self) == *old(self)
                } else {
                    r@ == pane_bytes(PLACEHOLDER_IMAGE_ID, fit, row) && *final(self) == (Painter {
                        placed: Some(fit),
                        ..*old(self)
                    })
                }
            }),
    {
        if self.route.placement != Placement::Unicode {
            return Vec::new();
        }
        let cells = self.fit(cells);
        match self.placed {
            Some(there) => {
                if there == cells {
                    return Vec::new();
                }
            },
            None => {},
        }
        self.placed = Some(cells);
        placeholder_pane(PLACEHOLDER_IMAGE_ID, cells, row)
    }

    /// Something wrote over the rows, so the next paint writes the
    /// placeholders again.
    pub fn invalidate_placeholders(&mut self)
        ensures
            *final(self) == (Painter { placed: None, ..*old(self) }),
    {
        self.placed = None;
    }

    /// Frames go by name on this route.
    pub open spec fn by_name(&self) -> bool {
        self.route.placement == Placement::Direct && self.route.wrap == Wrap::Bare && self.transport
            == Transport::SharedMemory
    }

    /// The name to write the next frame's pixels under, on a route whose frames
    /// go by name; a fresh one each time, since the terminal unlinks what it
    /// reads.
    pub fn object_name(&mut self) -> (r: Option<String>)
        requires
            old(self).counter < u64::MAX,
        ensures
            match r {
                Some(name) => old(self).by_name() && name@ == object(
                    old(self).prefix@,
                    old(self).counter as nat + 1,
                ) && *final(self) == (Painter {
                    counter: (old(self).counter + 1) as u64,
                    ..*old(self)
                }),
                None => !old(self).by_name() && *final(self) == *old(self),
            },
    {
        if self.route.placement == Placement::Unicode || self.route.wrap == Wrap::Tmux
            || self.transport == Transport::Inline {
            return None;
        }
        self.counter = self.counter + 1;
        let mut name = self.prefix.clone();
        name.append("-");
        name.append(crate::strings::decimal_string(self.counter).as_str());
        Some(name)
    }

    /// The bytes that put `raw` on screen at `row`, `col`, sized to `cells`.
    ///
    /// `name` is the object that the pixels were written to, on a route whose
    /// frames go by name; `None` there means that writing failed, so the
    /// directory that worked at startup does not any more, and from here on the
    /// bytes go inline. The cursor is moved to the placement's corner first,
    /// and `C=1` keeps it there. Through tmux the command is wrapped, the
    /// placement is virtual and nothing moves the cursor.
    pub fn frame(
        &mut self,
        raw: Raw<'_>,
        cells: Cells,
        row: u32,
        col: u32,
        name: Option<String>,
    ) -> (r: Vec<u8>)
        ensures
            r@ == frame_bytes(
                old(self).route,
                old(self).transport,
                raw,
                cells,
                (row, col),
                match name {
                    Some(name) => Some(name@),
                    None => None,
                },
            ),
            ({
                let placement = old(self).route.placement;
                let cursor = cursor_to(placement, row, col);
                if placement == Placement::Unicode || old(self).route.wrap == Wrap::Tmux {
                    r@ == cursor + sent(
                        old(self).route.wrap,
                        placed_raw(raw, fitted(placement, cells), placement),
                    ) && *final(self) == *old(self)
                } else if old(self).transport == Transport::SharedMemory && name is Some {
                    r@ == cursor + named_command("/"@ + name->0@, raw, cells) && final(self).outstanding@ == old(self).outstanding@.push(name->0) && *final(self)
                        == (Painter { outstanding: final(self).outstanding, ..*old(self) })
                } else {
                    r@ == cursor + chunked_bytes(control_keys(raw, cells), raw.pixels@) && *final(self) == (Painter { transport: Transport::Inline, ..*old(self) })
                }
            }),
    {
        let mut out = self.cursor(row, col);
        if self.route.placement == Placement::Unicode || self.route.wrap == Wrap::Tmux {
            let cells = self.fit(cells);
            let command = self.wrapped(
                placed_inline_command(&raw, cells, self.route.placement),
            );
            push_bytes(&mut out, command.as_slice());
            return out;
        }
        match (self.transport, name) {
            (Transport::SharedMemory, Some(name)) => {
                let mut path = String::new();
                path.append("/");
                path.append(name.as_str());
                proof {
                    assert(path@ =~= "/"@ + name@);
                }
                let command = shared_memory_command(path.as_str(), &raw, cells);
                push_bytes(&mut out, command.as_slice());
                self.outstanding.push(name);
            },
            _ => {
                self.transport = Transport::Inline;
                let command = inline_command(&raw, cells);
                push_bytes(&mut out, command.as_slice());
            },
        }
        out
    }

    /// The oldest name outstanding, when there are more than may be in flight:
    /// it is to be removed, and [`Painter::collected`] told whether it was
    /// still there.
    pub fn overdue(&mut self) -> (r: Option<String>)
        ensures
            r is Some <==> is_crowded(old(self).outstanding@.len()),
            match r {
                Some(name) => old(self).outstanding@.len() > IN_FLIGHT && name
                    == old(self).outstanding@[0] && final(self).outstanding@
                    == old(self).outstanding@.drop_first() && *final(self) == (Painter {
                    outstanding: final(self).outstanding,
                    ..*old(self)
                }),
                None => old(self).outstanding@.len() <= IN_FLIGHT && *final(self) == *old(self),
            },
    {
        if self.outstanding.len() > IN_FLIGHT {
            let name = self.outstanding.remove(0);
            proof {
                assert(self.outstanding@ =~= old(self).outstanding@.drop_first());
            }
            return Some(name);
        }
        None
    }

    /// What became of a name that was overdue. One still there was never read;
    /// a few of those in a row and this is not a terminal that reads names.
    pub fn collected(&mut self, still_there: bool)
        ensures
            final(self).unconsumed == unread_after(old(self).unconsumed, still_there),
            final(self).transport == (if gives_up(final(self).unconsumed) {
                Transport::Inline
            } else {
                old(self).transport
            }),
            ({
                let unread: u32 = if !still_there {
                    0
                } else if old(self).unconsumed < u32::MAX {
                    (old(self).unconsumed + 1) as u32
                } else {
                    u32::MAX
                };
                *final(self) == (Painter {
                    unconsumed: unread,
                    transport: if still_there && unread >= 8 {
                        Transport::Inline
                    } else {
                        old(self).transport
                    },
                    ..*old(self)
                })
            }),
    {
        if still_there {
            self.unconsumed = self.unconsumed.saturating_add(1);
            if self.unconsumed >= 8 {
                self.transport = Transport::Inline;
            }
        } else {
            self.unconsumed = 0;
        }
    }

    /// The names to remove on the way out: everything written and not
    /// collected.
    pub fn clean_up(&mut self) -> (r: Vec<String>)
        ensures
            r@ == old(self).outstanding@,
            final(self).outstanding@.len() == 0,
            *final(self) == (Painter { outstanding: final(self).outstanding, ..*old(self) }),
    {
        let mut names: Vec<String> = Vec::new();
        std::mem::swap(&mut names, &mut self.outstanding);
        names
    }
}

// ---- laws of what the terminal is sent ----

/// How many names in a row were left unread, after one more.
pub open spec fn unread_after(unread: u32, still_there: bool) -> u32 {
    if !still_there {
        0
    } else if unread < u32::MAX {
        (unread + 1) as u32
    } else {
        u32::MAX
    }
}

/// Whether so many unread names say that the terminal reads none.
pub open spec fn gives_up(unread: u32) -> bool {
    unread >= 8
}

/// Whether so many names are out that the oldest is to be looked at.
pub open spec fn is_crowded(out: nat) -> bool {
    out > IN_FLIGHT
}

/// The bytes of a frame.
pub open spec fn frame_bytes(
    route: Route,
    transport: Transport,
    raw: Raw,
    cells: Cells,
    corner: (u32, u32),
    name: Option<Seq<char>>,
) -> Seq<u8> {
    cursor_to(route.placement, corner.0, corner.1) + if route.placement == Placement::Unicode
        || route.wrap == Wrap::Tmux {
        sent(route.wrap, placed_raw(raw, fitted(route.placement, cells), route.placement))
    } else if transport == Transport::SharedMemory && name is Some {
        named_command("/"@ + name->0, raw, cells)
    } else {
        chunked_bytes(control_keys(raw, cells), raw.pixels@)
    }
}

/// A terminal that leaves eight names in a row unread is sent no more of them, one
/// that reads one starts the count again, and a name is looked at once sixteen more
/// are out.
pub proof fn law_a_terminal_that_reads_no_names_is_sent_none(unread: u32, out: nat)
    ensures
        unread_after(unread, false) == 0,
        unread < u32::MAX ==> unread_after(unread, true) == unread + 1,
        gives_up(unread) <==> unread >= 8,
        !gives_up(unread_after(unread, false)),
        is_crowded(out) <==> out > 16,
{
}

proof fn lemma_clean_digits(n: nat)
    ensures
        is_clean(number_bytes(n)),
{
    let s = decimal(n);
    lemma_decimal(n);
    assert forall|i: int| 0 <= i < s.len() implies '\0' <= #[trigger] s[i] <= '\u{7f}' by {
        assert(is_digit(s[i]));
    }
    is_ascii_chars_encode_utf8(s);
    assert forall|i: int| 0 <= i < number_bytes(n).len() implies #[trigger] number_bytes(n)[i]
        != 0x1b && number_bytes(n)[i] != 0x3b by {
        assert(is_digit(s[i]));
        assert(number_bytes(n)[i] == s[i] as u8);
    }
}

/// A word of keys: neither of the two bytes that end something is in it.
proof fn lemma_clean_word(word: Seq<char>)
    requires
        forall|i: int|
            0 <= i < word.len() ==> '\u{20}' <= #[trigger] word[i] <= '\u{7e}' && word[i] != ';',
    ensures
        is_clean(utf8(word)),
{
    assert forall|i: int| 0 <= i < word.len() implies '\0' <= #[trigger] word[i] <= '\u{7f}' by {}
    is_ascii_chars_encode_utf8(word);
    assert forall|i: int| 0 <= i < utf8(word).len() implies #[trigger] utf8(word)[i] != 0x1b
        && utf8(word)[i] != 0x3b by {
        assert(utf8(word)[i] == word[i] as u8);
    }
}

proof fn lemma_clean_body(payload: Seq<u8>)
    ensures
        is_clean(encoded(payload)),
{
    law_base64_is_plain(payload);
    assert forall|i: int| 0 <= i < encoded(payload).len() implies #[trigger] encoded(payload)[i]
        != 0x1b && encoded(payload)[i] != 0x3b by {
        assert(is_base64(encoded(payload)[i]));
    }
}

/// The keys of a picture neither end the command nor themselves.
#[verifier::rlimit(40)]
proof fn lemma_clean_keys(
    format: u32,
    size: Option<(u32, u32)>,
    cells: Cells,
    placement: Placement,
)
    ensures
        is_clean(placed_keys(format, size, cells, placement)),
{
    reveal_strlit("a=T,f=");
    reveal_strlit(",s=");
    reveal_strlit(",v=");
    reveal_strlit(",r=");
    reveal_strlit(",i=1,p=1,c=");
    reveal_strlit(",C=1,q=2");
    reveal_strlit(",i=16,U=1,c=");
    reveal_strlit(",q=2");
    lemma_clean_word("a=T,f="@);
    lemma_clean_word(",s="@);
    lemma_clean_word(",v="@);
    lemma_clean_word(",r="@);
    lemma_clean_word(",i=1,p=1,c="@);
    lemma_clean_word(",C=1,q=2"@);
    lemma_clean_word(",i=16,U=1,c="@);
    lemma_clean_word(",q=2"@);
    lemma_clean_digits(format as nat);
    lemma_clean_digits(one_at_least(cells.cols) as nat);
    lemma_clean_digits(one_at_least(cells.rows) as nat);
    let start = utf8("a=T,f="@) + number_bytes(format as nat);
    lemma_clean_joined(utf8("a=T,f="@), number_bytes(format as nat));
    let sized = match size {
        Some((width, height)) => start + utf8(",s="@) + number_bytes(one_at_least(width) as nat)
            + utf8(",v="@) + number_bytes(one_at_least(height) as nat),
        None => start,
    };
    if size is Some {
        let (width, height) = size->Some_0;
        let (w, h) = (
            number_bytes(one_at_least(width) as nat),
            number_bytes(one_at_least(height) as nat),
        );
        lemma_clean_digits(one_at_least(width) as nat);
        lemma_clean_digits(one_at_least(height) as nat);
        lemma_clean_joined(start, utf8(",s="@));
        lemma_clean_joined(start + utf8(",s="@), w);
        lemma_clean_joined(start + utf8(",s="@) + w, utf8(",v="@));
        lemma_clean_joined(start + utf8(",s="@) + w + utf8(",v="@), h);
    }
    let (c, r) = (
        number_bytes(one_at_least(cells.cols) as nat),
        number_bytes(one_at_least(cells.rows) as nat),
    );
    lemma_clean_joined(c, utf8(",r="@));
    lemma_clean_joined(c + utf8(",r="@), r);
    let shape = c + utf8(",r="@) + r;
    lemma_clean_joined(sized, utf8(",i=1,p=1,c="@));
    lemma_clean_joined(sized + utf8(",i=1,p=1,c="@), shape);
    lemma_clean_joined(sized + utf8(",i=1,p=1,c="@) + shape, utf8(",C=1,q=2"@));
    lemma_clean_joined(sized, utf8(",i=16,U=1,c="@));
    lemma_clean_joined(sized + utf8(",i=16,U=1,c="@), shape);
    lemma_clean_joined(sized + utf8(",i=16,U=1,c="@) + shape, utf8(",q=2"@));
}

/// The command that a chunk is read as.
spec fn chunk_order(control: Seq<u8>, parts: Seq<Seq<u8>>, i: int) -> Order {
    Order { keys: chunk_keys(control, i, parts.len() as int), body: parts[i] }
}

proof fn lemma_clean_chunk(control: Seq<u8>, i: int, n: int)
    requires
        is_clean(control),
    ensures
        is_clean(chunk_keys(control, i, n)),
{
    reveal_strlit("m=1");
    reveal_strlit("m=0");
    reveal_strlit(",");
    lemma_clean_word("m=1"@);
    lemma_clean_word("m=0"@);
    lemma_clean_word(","@);
    lemma_clean_joined(control, utf8(","@));
    lemma_clean_joined(control + utf8(","@), utf8("m=1"@));
    lemma_clean_joined(control + utf8(","@), utf8("m=0"@));
}

proof fn lemma_semicolon_byte()
    ensures
        utf8(";"@) == seq![0x3bu8],
{
    reveal_strlit(";");
    is_ascii_chars_encode_utf8(";"@);
    assert(utf8(";"@) =~= seq![0x3bu8]);
}

proof fn lemma_chunks_read(control: Seq<u8>, parts: Seq<Seq<u8>>, k: int, rest: Seq<u8>)
    requires
        is_clean(control),
        0 <= k <= parts.len(),
        forall|i: int| 0 <= i < parts.len() ==> is_clean(#[trigger] parts[i]),
    ensures
        orders(chunk_commands(control, parts, k) + rest) == Seq::new(
            k as nat,
            |i: int| chunk_order(control, parts, i),
        ) + orders(rest),
    decreases k,
{
    if k == 0 {
        assert(chunk_commands(control, parts, 0) + rest =~= rest);
        assert(Seq::new(0, |i: int| chunk_order(control, parts, i)) + orders(rest) =~= orders(rest));
    } else {
        let before = chunk_commands(control, parts, k - 1);
        let keys = chunk_keys(control, k - 1, parts.len() as int);
        let body = parts[k - 1];
        let more = chunk_command(control, parts, k - 1) + rest;
        lemma_chunks_read(control, parts, k - 1, more);
        lemma_clean_chunk(control, k - 1, parts.len() as int);
        lemma_semicolon_byte();
        assert(is_clean(body));
        lemma_one_order(keys, body, rest);
        assert(more =~= seq![0x1bu8, 0x5f, 0x47] + keys + seq![0x3bu8] + body + seq![0x1bu8, 0x5c]
            + rest);
        assert(chunk_commands(control, parts, k) + rest =~= before + more);
        let all = Seq::new(k as nat, |i: int| chunk_order(control, parts, i));
        let some = Seq::new((k - 1) as nat, |i: int| chunk_order(control, parts, i));
        assert(all =~= some + seq![Order { keys, body }]);
        assert(all + orders(rest) =~= some + (seq![Order { keys, body }] + orders(rest)));
    }
}

proof fn lemma_bodies(os: Seq<Order>, parts: Seq<Seq<u8>>)
    requires
        os.len() == parts.len(),
        forall|i: int| 0 <= i < os.len() ==> (#[trigger] os[i]).body == parts[i],
    ensures
        bodies(os) == joined(parts),
    decreases os.len(),
{
    if os.len() > 0 {
        assert forall|i: int| 0 <= i < os.drop_first().len() implies (
        #[trigger] os.drop_first()[i]).body == parts.drop_first()[i] by {
            assert(os.drop_first()[i] == os[i + 1]);
        }
        lemma_bodies(os.drop_first(), parts.drop_first());
        assert(os[0].body == parts[0]);
    }
}

/// A picture comes out of its commands as it went in: the first says what it is
/// and every one but the last that more is coming, none carries more than a
/// terminal must take, and what they carry, joined, is the picture in base64.
#[verifier::rlimit(40)]
pub proof fn law_a_picture_comes_out_as_it_went_in(control: Seq<u8>, payload: Seq<u8>)
    requires
        is_clean(control),
    ensures
        ({
            let os = orders(chunked_bytes(control, payload));
            let n = os.len() as int;
            &&& n >= 1
            &&& decoded(bodies(os)) == Some(payload)
            &&& forall|i: int| 0 <= i < n ==> (#[trigger] os[i]).body.len() <= 4096
            &&& payload.len() == 0 ==> n == 1 && os[0].keys == control
            &&& payload.len() > 0 && n == 1 ==> os[0].keys == control + utf8(",m=0"@)
            &&& n > 1 ==> os[0].keys == control + utf8(",m=1"@) && os[n - 1].keys == utf8("m=0"@)
            &&& forall|i: int| 0 < i < n - 1 ==> (#[trigger] os[i]).keys == utf8("m=1"@)
        }),
{
    let body = encoded(payload);
    lemma_clean_body(payload);
    law_decoding_undoes_encoding(payload);
    lemma_semicolon_byte();
    let none = Seq::<u8>::empty();
    reveal_strlit(",m=0");
    reveal_strlit(",m=1");
    reveal_strlit("m=0");
    reveal_strlit("m=1");
    reveal_strlit(",");
    assert(",m=0"@ =~= ","@ + "m=0"@);
    assert(",m=1"@ =~= ","@ + "m=1"@);
    lemma_utf8_concat(","@, "m=0"@);
    lemma_utf8_concat(","@, "m=1"@);
    assert(control + utf8(","@) + utf8("m=0"@) =~= control + utf8(",m=0"@));
    assert(control + utf8(","@) + utf8("m=1"@) =~= control + utf8(",m=1"@));
    if payload.len() == 0 {
        assert(payload =~= Seq::<u8>::empty());
        assert(body =~= none);
        lemma_one_order(control, none, none);
        assert(chunked_bytes(control, payload) =~= seq![0x1bu8, 0x5f, 0x47] + control + seq![0x3bu8]
            + none + seq![0x1bu8, 0x5c] + none);
        let os = seq![Order { keys: control, body: none }];
        assert(orders(none) =~= Seq::<Order>::empty());
        assert(orders(chunked_bytes(control, payload)) =~= os);
        assert(os.drop_first() =~= Seq::<Order>::empty());
        assert(bodies(os.drop_first()) =~= none);
        assert(bodies(os) =~= none);
    } else {
        let parts = pieces(body);
        lemma_pieces(body);
        assert(body.len() > 0) by {
            if body.len() == 0 {
                assert(body =~= Seq::<u8>::empty());
                assert(decoded(body) == Some(Seq::<u8>::empty()));
            }
        }
        assert forall|i: int| 0 <= i < parts.len() implies is_clean(#[trigger] parts[i]) by {
            let from = i * CHUNK;
            let part = parts[i];
            assert forall|k: int| 0 <= k < part.len() implies #[trigger] part[k] != 0x1b && part[k]
                != 0x3b by {
                assert(part[k] == body[from + k]);
            }
        }
        lemma_chunks_read(control, parts, parts.len() as int, none);
        let os = Seq::new(parts.len(), |i: int| chunk_order(control, parts, i));
        assert(chunked_bytes(control, payload) + none =~= chunked_bytes(control, payload));
        assert(orders(none) =~= Seq::<Order>::empty());
        assert(os + orders(none) =~= os);
        assert(orders(chunked_bytes(control, payload)) == os);
        lemma_bodies(os, parts);
    }
}

/// A picture that is left by name is one command, which says so, and what it
/// carries is the name.
#[verifier::rlimit(40)]
pub proof fn law_a_name_comes_out_as_it_went_in(name: Seq<char>, raw: Raw, cells: Cells)
    ensures
        ({
            let os = orders(named_command(name, raw, cells));
            &&& os.len() == 1
            &&& os[0].keys == control_keys(raw, cells) + utf8(",t=s"@)
            &&& decoded(os[0].body) == Some(utf8(name))
        }),
{
    let keys = control_keys(raw, cells);
    let body = encoded(utf8(name));
    lemma_clean_keys(raw.layout(), Some((raw.width, raw.height)), cells, Placement::Direct);
    lemma_clean_body(utf8(name));
    law_decoding_undoes_encoding(utf8(name));
    lemma_named_order(keys, body);
}

/// A command that carries a name is one command.
proof fn lemma_named_order(keys: Seq<u8>, body: Seq<u8>)
    requires
        is_clean(keys),
        is_clean(body),
    ensures
        orders(apc() + keys + utf8(",t=s;"@) + body + st()) == seq![
            Order { keys: keys + utf8(",t=s"@), body },
        ],
{
    let none = Seq::<u8>::empty();
    reveal_strlit(",t=s");
    reveal_strlit(",t=s;");
    reveal_strlit(";");
    lemma_clean_word(",t=s"@);
    lemma_clean_joined(keys, utf8(",t=s"@));
    assert(",t=s;"@ =~= ",t=s"@ + ";"@);
    lemma_utf8_concat(",t=s"@, ";"@);
    lemma_semicolon_byte();
    let named = keys + utf8(",t=s"@);
    lemma_one_order(named, body, none);
    assert(apc() + keys + utf8(",t=s;"@) + body + st() =~= seq![0x1bu8, 0x5f, 0x47] + named + seq![
        0x3bu8,
    ] + body + seq![0x1bu8, 0x5c] + none);
    assert(orders(none) =~= Seq::<Order>::empty());
    assert(orders(apc() + keys + utf8(",t=s;"@) + body + st()) =~= seq![
        Order { keys: named, body },
    ]);
}

/// Words with commas between them.
pub open spec fn with_commas(words: Seq<Seq<char>>) -> Seq<char>
    decreases words.len(),
{
    if words.len() == 0 {
        Seq::empty()
    } else if words.len() == 1 {
        words[0]
    } else {
        with_commas(words.drop_last()) + seq![','] + words.last()
    }
}

proof fn lemma_one_more_word(words: Seq<Seq<char>>, word: Seq<char>)
    requires
        words.len() > 0,
    ensures
        with_commas(words.push(word)) == with_commas(words) + seq![','] + word,
{
    assert(words.push(word).drop_last() =~= words);
}

/// The first words of the keys.
proof fn lemma_first_words(f: Seq<char>)
    ensures
        with_commas(seq!["a=T"@].push("f="@ + f)) == "a=T,f="@ + f,
        utf8("a=T,f="@ + f) == utf8("a=T,f="@) + utf8(f),
{
    reveal_strlit("a=T,f=");
    reveal_strlit("a=T");
    reveal_strlit("f=");
    lemma_one_more_word(seq!["a=T"@], "f="@ + f);
    assert(with_commas(seq!["a=T"@]) == "a=T"@);
    assert("a=T"@ + seq![','] + ("f="@ + f) =~= "a=T,f="@ + f);
    lemma_utf8_concat("a=T,f="@, f);
}

/// One more word of the keys, which is a letter and a number.
proof fn lemma_numbered_word(
    words: Seq<Seq<char>>,
    key: Seq<char>,
    tail: Seq<char>,
    n: Seq<char>,
)
    requires
        words.len() > 0,
        tail == seq![','] + key,
    ensures
        with_commas(words.push(key + n)) == with_commas(words) + tail + n,
        utf8(with_commas(words.push(key + n))) == utf8(with_commas(words)) + utf8(tail) + utf8(n),
{
    let w = with_commas(words);
    lemma_one_more_word(words, key + n);
    assert(w + seq![','] + (key + n) =~= w + tail + n);
    lemma_utf8_concat(w, tail);
    lemma_utf8_concat(w + tail, n);
}

/// What the keys of a picture say: that it is sent and shown, what its bytes are,
/// how large it is, which picture it is, over how many cells it is shown, that the
/// cursor stays, and that nothing is answered.
#[verifier::rlimit(40)]
pub proof fn law_the_keys_say_what_the_picture_is(
    format: u32,
    width: u32,
    height: u32,
    cells: Cells,
)
    requires
        width > 0 && height > 0 && cells.cols > 0 && cells.rows > 0,
    ensures
        placed_keys(format, Some((width, height)), cells, Placement::Direct) == utf8(
            with_commas(
                seq![
                    "a=T"@,
                    "f="@ + decimal(format as nat),
                    "s="@ + decimal(width as nat),
                    "v="@ + decimal(height as nat),
                    "i=1"@,
                    "p=1"@,
                    "c="@ + decimal(cells.cols as nat),
                    "r="@ + decimal(cells.rows as nat),
                    "C=1"@,
                    "q=2"@,
                ],
            ),
        ),
{
    let (f, w, h, c, r) = (
        decimal(format as nat),
        decimal(width as nat),
        decimal(height as nat),
        decimal(cells.cols as nat),
        decimal(cells.rows as nat),
    );
    let a2 = seq!["a=T"@].push("f="@ + f);
    let a3 = a2.push("s="@ + w);
    let a4 = a3.push("v="@ + h);
    let a5 = a4.push("i=1"@);
    let a6 = a5.push("p=1"@);
    let a7 = a6.push("c="@ + c);
    let a8 = a7.push("r="@ + r);
    let a9 = a8.push("C=1"@);
    let a10 = a9.push("q=2"@);
    lemma_first_words(f);
    assert(",s="@ =~= seq![','] + "s="@ && ",v="@ =~= seq![','] + "v="@ && ",r="@ =~= seq![',']
        + "r="@) by {
        reveal_strlit(",s=");
        reveal_strlit("s=");
        reveal_strlit(",v=");
        reveal_strlit("v=");
        reveal_strlit(",r=");
        reveal_strlit("r=");
    }
    lemma_numbered_word(a2, "s="@, ",s="@, w);
    lemma_numbered_word(a3, "v="@, ",v="@, h);
    let so_far = with_commas(a4);
    assert(with_commas(a7) == so_far + ",i=1,p=1,c="@ + c) by {
        lemma_one_more_word(a4, "i=1"@);
        lemma_one_more_word(a5, "p=1"@);
        lemma_one_more_word(a6, "c="@ + c);
        reveal_strlit("i=1");
        reveal_strlit("p=1");
        reveal_strlit("c=");
        reveal_strlit(",i=1,p=1,c=");
        assert(so_far + seq![','] + "i=1"@ + seq![','] + "p=1"@ + seq![','] + ("c="@ + c) =~= so_far
            + ",i=1,p=1,c="@ + c);
    }
    lemma_utf8_concat(so_far, ",i=1,p=1,c="@);
    lemma_utf8_concat(so_far + ",i=1,p=1,c="@, c);
    lemma_numbered_word(a7, "r="@, ",r="@, r);
    let nearly = with_commas(a8);
    assert(with_commas(a10) == nearly + ",C=1,q=2"@) by {
        lemma_one_more_word(a8, "C=1"@);
        lemma_one_more_word(a9, "q=2"@);
        reveal_strlit("C=1");
        reveal_strlit("q=2");
        reveal_strlit(",C=1,q=2");
        assert(nearly + seq![','] + "C=1"@ + seq![','] + "q=2"@ =~= nearly + ",C=1,q=2"@);
    }
    lemma_utf8_concat(nearly, ",C=1,q=2"@);
    let start = utf8(so_far) + utf8(",i=1,p=1,c="@);
    assert(start + utf8(c) + utf8(",r="@) + utf8(r) =~= start + (utf8(c) + utf8(",r="@) + utf8(r)));
    assert(a10 =~= seq![
        "a=T"@,
        "f="@ + f,
        "s="@ + w,
        "v="@ + h,
        "i=1"@,
        "p=1"@,
        "c="@ + c,
        "r="@ + r,
        "C=1"@,
        "q=2"@,
    ]);
}

/// What the keys of a picture say that is shown through placeholders: which picture
/// the placeholders mean, and that they place it.
#[verifier::rlimit(40)]
pub proof fn law_the_keys_say_what_the_placeholders_mean(format: u32, cells: Cells)
    requires
        cells.cols > 0 && cells.rows > 0,
    ensures
        placed_keys(format, None, cells, Placement::Unicode) == utf8(
            with_commas(
                seq![
                    "a=T"@,
                    "f="@ + decimal(format as nat),
                    "i=16"@,
                    "U=1"@,
                    "c="@ + decimal(cells.cols as nat),
                    "r="@ + decimal(cells.rows as nat),
                    "q=2"@,
                ],
            ),
        ),
{
    let (f, c, r) = (
        decimal(format as nat),
        decimal(cells.cols as nat),
        decimal(cells.rows as nat),
    );
    let a2 = seq!["a=T"@].push("f="@ + f);
    let a3 = a2.push("i=16"@);
    let a4 = a3.push("U=1"@);
    let a5 = a4.push("c="@ + c);
    let a6 = a5.push("r="@ + r);
    let a7 = a6.push("q=2"@);
    lemma_first_words(f);
    assert(",r="@ =~= seq![','] + "r="@) by {
        reveal_strlit(",r=");
        reveal_strlit("r=");
    }
    let so_far = with_commas(a2);
    assert(with_commas(a5) == so_far + ",i=16,U=1,c="@ + c) by {
        lemma_one_more_word(a2, "i=16"@);
        lemma_one_more_word(a3, "U=1"@);
        lemma_one_more_word(a4, "c="@ + c);
        reveal_strlit("i=16");
        reveal_strlit("U=1");
        reveal_strlit("c=");
        reveal_strlit(",i=16,U=1,c=");
        assert(so_far + seq![','] + "i=16"@ + seq![','] + "U=1"@ + seq![','] + ("c="@ + c)
            =~= so_far + ",i=16,U=1,c="@ + c);
    }
    lemma_utf8_concat(so_far, ",i=16,U=1,c="@);
    lemma_utf8_concat(so_far + ",i=16,U=1,c="@, c);
    lemma_numbered_word(a5, "r="@, ",r="@, r);
    let nearly = with_commas(a6);
    assert(with_commas(a7) == nearly + ",q=2"@) by {
        lemma_one_more_word(a6, "q=2"@);
        reveal_strlit("q=2");
        reveal_strlit(",q=2");
        assert(nearly + seq![','] + "q=2"@ =~= nearly + ",q=2"@);
    }
    lemma_utf8_concat(nearly, ",q=2"@);
    let start = utf8(so_far) + utf8(",i=16,U=1,c="@);
    assert(start + utf8(c) + utf8(",r="@) + utf8(r) =~= start + (utf8(c) + utf8(",r="@) + utf8(r)));
    assert(a7 =~= seq![
        "a=T"@,
        "f="@ + f,
        "i=16"@,
        "U=1"@,
        "c="@ + c,
        "r="@ + r,
        "q=2"@,
    ]);
}

/// A frame is put at its corner, and there it is: by name while names are read,
/// and in the bytes themselves otherwise. Three bytes a pixel and four are told
/// apart.
#[verifier::rlimit(40)]
pub proof fn law_a_frame_is_the_picture_at_its_corner(
    raw: Raw,
    cells: Cells,
    row: u32,
    col: u32,
    name: Seq<char>,
    nth: u32,
)
    ensures
        ({
            let route = |transport: Transport|
                Route {
                    transport,
                    payload: Payload::Raw,
                    placement: Placement::Direct,
                    wrap: Wrap::Bare,
                    every_nth: nth,
                };
            let corner = utf8("\x1b["@) + number_bytes(row as nat) + utf8(";"@) + number_bytes(
                col as nat,
            ) + utf8("H"@);
            let n = corner.len() as int;
            let shared = frame_bytes(
                route(Transport::SharedMemory),
                Transport::SharedMemory,
                raw,
                cells,
                (row, col),
                Some(name),
            );
            let inline = frame_bytes(
                route(Transport::Inline),
                Transport::Inline,
                raw,
                cells,
                (row, col),
                None,
            );
            &&& shared.len() >= n && shared.take(n) == corner
            &&& decoded(bodies(orders(shared.skip(n)))) == Some(utf8("/"@ + name))
            &&& inline.len() >= n && inline.take(n) == corner
            &&& decoded(bodies(orders(inline.skip(n)))) == Some(raw.pixels@)
        }),
        raw.channels == 3 ==> raw.layout() == 24,
        raw.channels == 4 ==> raw.layout() == 32,
{
    let corner = utf8("\x1b["@) + number_bytes(row as nat) + utf8(";"@) + number_bytes(col as nat)
        + utf8("H"@);
    let n = corner.len() as int;
    lemma_clean_keys(raw.layout(), Some((raw.width, raw.height)), cells, Placement::Direct);
    law_a_picture_comes_out_as_it_went_in(control_keys(raw, cells), raw.pixels@);
    law_a_name_comes_out_as_it_went_in("/"@ + name, raw, cells);
    let named = named_command("/"@ + name, raw, cells);
    let os = orders(named);
    assert(os.drop_first() =~= Seq::<Order>::empty());
    assert(bodies(os.drop_first()) =~= Seq::<u8>::empty());
    assert(bodies(os) =~= os[0].body);
    assert((corner + named).skip(n) =~= named);
    assert((corner + named).take(n) =~= corner);
    let bytes = chunked_bytes(control_keys(raw, cells), raw.pixels@);
    assert((corner + bytes).skip(n) =~= bytes);
    assert((corner + bytes).take(n) =~= corner);
}

/// A picture that is given up is deleted, with all that was kept of it, and the
/// terminal answers nothing.
#[verifier::rlimit(40)]
pub proof fn law_a_picture_is_given_up_whole()
    ensures
        orders(clear_bytes()).len() == 1,
        orders(clear_bytes())[0].keys == utf8(
            with_commas(seq!["a=d"@, "d=I"@, "i=1"@, "p=1"@, "q=2"@]),
        ),
{
    let none = Seq::<u8>::empty();
    reveal_strlit("a=d");
    reveal_strlit("d=I");
    reveal_strlit("i=1");
    reveal_strlit("p=1");
    reveal_strlit("q=2");
    reveal_strlit("a=d,d=I,i=1,p=1,q=2");
    reveal_strlit("\x1b_Ga=d,d=I,i=1,p=1,q=2\x1b\\");
    let whole = "\x1b_Ga=d,d=I,i=1,p=1,q=2\x1b\\"@;
    let keys = "a=d,d=I,i=1,p=1,q=2"@;
    assert(keys =~= whole.subrange(3, whole.len() - 2));
    assert forall|i: int| 0 <= i < whole.len() implies '\0' <= #[trigger] whole[i] <= '\u{7f}' by {}
    is_ascii_chars_encode_utf8(whole);
    lemma_clean_word(keys);
    assert forall|i: int| 0 <= i < keys.len() implies '\0' <= #[trigger] keys[i] <= '\u{7f}' by {}
    is_ascii_chars_encode_utf8(keys);
    lemma_one_order(utf8(keys), none, none);
    assert(utf8(whole) =~= seq![0x1bu8, 0x5f, 0x47] + utf8(keys) + seq![0x1bu8, 0x5c] + none);
    assert(orders(none) =~= Seq::<Order>::empty());
    assert(orders(clear_bytes()) =~= seq![Order { keys: utf8(keys), body: none }]);
    let a1 = seq!["a=d"@];
    let a2 = a1.push("d=I"@);
    let a3 = a2.push("i=1"@);
    let a4 = a3.push("p=1"@);
    lemma_one_more_word(a1, "d=I"@);
    lemma_one_more_word(a2, "i=1"@);
    lemma_one_more_word(a3, "p=1"@);
    lemma_one_more_word(a4, "q=2"@);
    assert(with_commas(a1) == "a=d"@);
    assert(a4.push("q=2"@) =~= seq!["a=d"@, "d=I"@, "i=1"@, "p=1"@, "q=2"@]);
    assert(with_commas(a4.push("q=2"@)) =~= keys);
}

/// A picture in its own format comes out as it went in, wherever it is placed, and
/// says that it is one.
pub proof fn law_a_still_comes_out_as_it_went_in(png: Seq<u8>, cells: Cells, placement: Placement)
    ensures
        decoded(bodies(orders(placed_png(png, cells, placement)))) == Some(png),
        png.len() > 0 && orders(placed_png(png, cells, placement)).len() == 1 ==> orders(
            placed_png(png, cells, placement),
        )[0].keys == placed_keys(100, None, cells, placement) + utf8(",m=0"@),
{
    lemma_clean_keys(100, None, cells, placement);
    law_a_picture_comes_out_as_it_went_in(placed_keys(100, None, cells, placement), png);
}

/// Through tmux a picture is wrapped, and what tmux passes on is the picture; the
/// placeholders reach no further than they can count.
pub proof fn law_a_wrapped_picture_is_passed_on(raw: Raw, cells: Cells)
    ensures
        ({
            let fit = fitted(Placement::Unicode, cells);
            let bytes = sent(Wrap::Tmux, placed_raw(raw, fit, Placement::Unicode));
            &&& decoded(bodies(orders(passed_on(bytes)))) == Some(raw.pixels@)
            &&& 1 <= fit.cols <= 297 && 1 <= fit.rows <= 297
            &&& 1 <= cells.cols <= 297 ==> fit.cols == cells.cols
            &&& 1 <= cells.rows <= 297 ==> fit.rows == cells.rows
        }),
        fitted(Placement::Direct, cells) == cells,
        sent(Wrap::Bare, raw.pixels@) == raw.pixels@,
{
    let fit = fitted(Placement::Unicode, cells);
    let keys = placed_keys(
        raw.layout(),
        Some((raw.width, raw.height)),
        fit,
        Placement::Unicode,
    );
    lemma_clean_keys(raw.layout(), Some((raw.width, raw.height)), fit, Placement::Unicode);
    law_a_picture_comes_out_as_it_went_in(keys, raw.pixels@);
    law_unwrapping_gives_the_bytes_back(placed_raw(raw, fit, Placement::Unicode));
}

/// Names are for a terminal that is here and shows the picture itself: a picture
/// of its own format, one through placeholders, and one that goes inline all go in
/// the bytes.
pub proof fn law_names_are_for_a_terminal_that_is_here(route: Route)
    ensures
        always_inline(route) <==> route.transport == Transport::Inline || route.payload
            == Payload::Png || route.placement == Placement::Unicode,
        local_route(true).transport == Transport::SharedMemory,
        local_route(false).transport == Transport::Inline,
        local_route(true).placement == Placement::Direct && local_route(true).wrap == Wrap::Bare
            && local_route(true).payload == Payload::Raw && local_route(true).every_nth == 1,
        !always_inline(local_route(true)),
{
}

}
