//! The visual-log writer: a header with the canvas size, frame rate and
//! background, then, frame by frame, the drawing commands of each layer in
//! the order of the layers' indices; finishing fills in the frame and entry
//! counts that the header left open.
use vstd::prelude::*;
use vstd::string::StringSliceAdditionalSpecFns;
use crate::log_write::{
    all_empty, all_fit, be_u16, entries_bytes, entries_fit, flush_bytes, frames, le_u24, le_u32, lemma_entries_bytes_len, lemma_flush_prefix,
    lemma_flush_step, lemma_overwrite_concat, lemma_overwrite_end, overwrite, total_entries, BaseLayerWriter, BaseWriter, LayerEntry, LogError,
    LogLayerWriter, LogWriter,
};

verus! {

/// The drawing commands of the format.
#[derive(Clone, Copy, PartialEq, Eq, Structural, Debug)]
pub enum VilogCommandKind {
    LineTo,
    MoveTo,
    QuaraticCurveTo,
    BezierCurveTo,
    Arc,
    ArcTo,
    Fill,
    ClosePath,
    DrawCircle,
    DrawEllipse,
    DrawRectangle,
    DrawRoundRectagle,
    DrawRegularPolygon,
    DrawStar,
    DrawGrid,
    ArrowTo,
    CurveArrowTo,
    ArcArrowTo,
    MultiplyTranform,
    ResetTranform,
    MultiplyAlpha,
    ResetAlpha,
    SetLineAlpha,
    SetFillAlpha,
    SetLineColor,
    SetFillColor,
    SetLineThickness,
    SetBlendMode,
    SetLineAlignment,
    SetFonts,
    SetFontSize,
    SetFontStyle,
    SetTextHorizontalAlign,
    SetTextVerticalAlign,
    DrawText,
    SetImageHorizontalAlign,
    SetImageVerticalAlign,
    DrawImage,
    StartMaskingRegion,
    StartMaskedRegion,
    EndMaskRegion,
}

/// The byte of a command: its place in the list of commands.
pub open spec fn command_code(k: VilogCommandKind) -> u8 {
    match k {
        VilogCommandKind::LineTo => 0,
        VilogCommandKind::MoveTo => 1,
        VilogCommandKind::QuaraticCurveTo => 2,
        VilogCommandKind::BezierCurveTo => 3,
        VilogCommandKind::Arc => 4,
        VilogCommandKind::ArcTo => 5,
        VilogCommandKind::Fill => 6,
        VilogCommandKind::ClosePath => 7,
        VilogCommandKind::DrawCircle => 8,
        VilogCommandKind::DrawEllipse => 9,
        VilogCommandKind::DrawRectangle => 10,
        VilogCommandKind::DrawRoundRectagle => 11,
        VilogCommandKind::DrawRegularPolygon => 12,
        VilogCommandKind::DrawStar => 13,
        VilogCommandKind::DrawGrid => 14,
        VilogCommandKind::ArrowTo => 15,
        VilogCommandKind::CurveArrowTo => 16,
        VilogCommandKind::ArcArrowTo => 17,
        VilogCommandKind::MultiplyTranform => 18,
        VilogCommandKind::ResetTranform => 19,
        VilogCommandKind::MultiplyAlpha => 20,
        VilogCommandKind::ResetAlpha => 21,
        VilogCommandKind::SetLineAlpha => 22,
        VilogCommandKind::SetFillAlpha => 23,
        VilogCommandKind::SetLineColor => 24,
        VilogCommandKind::SetFillColor => 25,
        VilogCommandKind::SetLineThickness => 26,
        VilogCommandKind::SetBlendMode => 27,
        VilogCommandKind::SetLineAlignment => 28,
        VilogCommandKind::SetFonts => 29,
        VilogCommandKind::SetFontSize => 30,
        VilogCommandKind::SetFontStyle => 31,
        VilogCommandKind::SetTextHorizontalAlign => 32,
        VilogCommandKind::SetTextVerticalAlign => 33,
        VilogCommandKind::DrawText => 34,
        VilogCommandKind::SetImageHorizontalAlign => 35,
        VilogCommandKind::SetImageVerticalAlign => 36,
        VilogCommandKind::DrawImage => 37,
        VilogCommandKind::StartMaskingRegion => 38,
        VilogCommandKind::StartMaskedRegion => 39,
        VilogCommandKind::EndMaskRegion => 40,
    }
}

/// The commands of the format, in the order its list gives them: the
/// drawing commands from `LineTo` on, then the transforms, the styles, text,
/// images and masks.
pub open spec fn command_list() -> Seq<VilogCommandKind> {
    seq![
        VilogCommandKind::LineTo,
        VilogCommandKind::MoveTo,
        VilogCommandKind::QuaraticCurveTo,
        VilogCommandKind::BezierCurveTo,
        VilogCommandKind::Arc,
        VilogCommandKind::ArcTo,
        VilogCommandKind::Fill,
        VilogCommandKind::ClosePath,
        VilogCommandKind::DrawCircle,
        VilogCommandKind::DrawEllipse,
        VilogCommandKind::DrawRectangle,
        VilogCommandKind::DrawRoundRectagle,
        VilogCommandKind::DrawRegularPolygon,
        VilogCommandKind::DrawStar,
        VilogCommandKind::DrawGrid,
        VilogCommandKind::ArrowTo,
        VilogCommandKind::CurveArrowTo,
        VilogCommandKind::ArcArrowTo,
        VilogCommandKind::MultiplyTranform,
        VilogCommandKind::ResetTranform,
        VilogCommandKind::MultiplyAlpha,
        VilogCommandKind::ResetAlpha,
        VilogCommandKind::SetLineAlpha,
        VilogCommandKind::SetFillAlpha,
        VilogCommandKind::SetLineColor,
        VilogCommandKind::SetFillColor,
        VilogCommandKind::SetLineThickness,
        VilogCommandKind::SetBlendMode,
        VilogCommandKind::SetLineAlignment,
        VilogCommandKind::SetFonts,
        VilogCommandKind::SetFontSize,
        VilogCommandKind::SetFontStyle,
        VilogCommandKind::SetTextHorizontalAlign,
        VilogCommandKind::SetTextVerticalAlign,
        VilogCommandKind::DrawText,
        VilogCommandKind::SetImageHorizontalAlign,
        VilogCommandKind::SetImageVerticalAlign,
        VilogCommandKind::DrawImage,
        VilogCommandKind::StartMaskingRegion,
        VilogCommandKind::StartMaskedRegion,
        VilogCommandKind::EndMaskRegion,
    ]
}

/// A command's byte is its place in the format's list of commands, so that
/// each kind is written as its own byte (a circle as 8, an ellipse as 9) and
/// a reader of the log gets the kind back.
pub proof fn lemma_command_codes()
    ensures
        command_list().len() == 41,
        forall|i: int| 0 <= i < 41 ==> command_code(#[trigger] command_list()[i]) as int == i,
        forall|a: VilogCommandKind, b: VilogCommandKind| command_code(a) == command_code(b) ==> a == b,
{
    assert forall|i: int| 0 <= i < 41 implies command_code(#[trigger] command_list()[i]) as int == i by {
        if i == 0 { assert(command_list()[0] == VilogCommandKind::LineTo); }
        if i == 1 { assert(command_list()[1] == VilogCommandKind::MoveTo); }
        if i == 2 { assert(command_list()[2] == VilogCommandKind::QuaraticCurveTo); }
        if i == 3 { assert(command_list()[3] == VilogCommandKind::BezierCurveTo); }
        if i == 4 { assert(command_list()[4] == VilogCommandKind::Arc); }
        if i == 5 { assert(command_list()[5] == VilogCommandKind::ArcTo); }
        if i == 6 { assert(command_list()[6] == VilogCommandKind::Fill); }
        if i == 7 { assert(command_list()[7] == VilogCommandKind::ClosePath); }
        if i == 8 { assert(command_list()[8] == VilogCommandKind::DrawCircle); }
        if i == 9 { assert(command_list()[9] == VilogCommandKind::DrawEllipse); }
        if i == 10 { assert(command_list()[10] == VilogCommandKind::DrawRectangle); }
        if i == 11 { assert(command_list()[11] == VilogCommandKind::DrawRoundRectagle); }
        if i == 12 { assert(command_list()[12] == VilogCommandKind::DrawRegularPolygon); }
        if i == 13 { assert(command_list()[13] == VilogCommandKind::DrawStar); }
        if i == 14 { assert(command_list()[14] == VilogCommandKind::DrawGrid); }
        if i == 15 { assert(command_list()[15] == VilogCommandKind::ArrowTo); }
        if i == 16 { assert(command_list()[16] == VilogCommandKind::CurveArrowTo); }
        if i == 17 { assert(command_list()[17] == VilogCommandKind::ArcArrowTo); }
        if i == 18 { assert(command_list()[18] == VilogCommandKind::MultiplyTranform); }
        if i == 19 { assert(command_list()[19] == VilogCommandKind::ResetTranform); }
        if i == 20 { assert(command_list()[20] == VilogCommandKind::MultiplyAlpha); }
        if i == 21 { assert(command_list()[21] == VilogCommandKind::ResetAlpha); }
        if i == 22 { assert(command_list()[22] == VilogCommandKind::SetLineAlpha); }
        if i == 23 { assert(command_list()[23] == VilogCommandKind::SetFillAlpha); }
        if i == 24 { assert(command_list()[24] == VilogCommandKind::SetLineColor); }
        if i == 25 { assert(command_list()[25] == VilogCommandKind::SetFillColor); }
        if i == 26 { assert(command_list()[26] == VilogCommandKind::SetLineThickness); }
        if i == 27 { assert(command_list()[27] == VilogCommandKind::SetBlendMode); }
        if i == 28 { assert(command_list()[28] == VilogCommandKind::SetLineAlignment); }
        if i == 29 { assert(command_list()[29] == VilogCommandKind::SetFonts); }
        if i == 30 { assert(command_list()[30] == VilogCommandKind::SetFontSize); }
        if i == 31 { assert(command_list()[31] == VilogCommandKind::SetFontStyle); }
        if i == 32 { assert(command_list()[32] == VilogCommandKind::SetTextHorizontalAlign); }
        if i == 33 { assert(command_list()[33] == VilogCommandKind::SetTextVerticalAlign); }
        if i == 34 { assert(command_list()[34] == VilogCommandKind::DrawText); }
        if i == 35 { assert(command_list()[35] == VilogCommandKind::SetImageHorizontalAlign); }
        if i == 36 { assert(command_list()[36] == VilogCommandKind::SetImageVerticalAlign); }
        if i == 37 { assert(command_list()[37] == VilogCommandKind::DrawImage); }
        if i == 38 { assert(command_list()[38] == VilogCommandKind::StartMaskingRegion); }
        if i == 39 { assert(command_list()[39] == VilogCommandKind::StartMaskedRegion); }
        if i == 40 { assert(command_list()[40] == VilogCommandKind::EndMaskRegion); }
    }
}

impl VilogCommandKind {
    /// The byte of the command.
    pub fn code(&self) -> (r: u8)
        ensures
            r == command_code(*self),
    {
        match self {
            VilogCommandKind::LineTo => 0,
            VilogCommandKind::MoveTo => 1,
            VilogCommandKind::QuaraticCurveTo => 2,
            VilogCommandKind::BezierCurveTo => 3,
            VilogCommandKind::Arc => 4,
            VilogCommandKind::ArcTo => 5,
            VilogCommandKind::Fill => 6,
            VilogCommandKind::ClosePath => 7,
            VilogCommandKind::DrawCircle => 8,
            VilogCommandKind::DrawEllipse => 9,
            VilogCommandKind::DrawRectangle => 10,
            VilogCommandKind::DrawRoundRectagle => 11,
            VilogCommandKind::DrawRegularPolygon => 12,
            VilogCommandKind::DrawStar => 13,
            VilogCommandKind::DrawGrid => 14,
            VilogCommandKind::ArrowTo => 15,
            VilogCommandKind::CurveArrowTo => 16,
            VilogCommandKind::ArcArrowTo => 17,
            VilogCommandKind::MultiplyTranform => 18,
            VilogCommandKind::ResetTranform => 19,
            VilogCommandKind::MultiplyAlpha => 20,
            VilogCommandKind::ResetAlpha => 21,
            VilogCommandKind::SetLineAlpha => 22,
            VilogCommandKind::SetFillAlpha => 23,
            VilogCommandKind::SetLineColor => 24,
            VilogCommandKind::SetFillColor => 25,
            VilogCommandKind::SetLineThickness => 26,
            VilogCommandKind::SetBlendMode => 27,
            VilogCommandKind::SetLineAlignment => 28,
            VilogCommandKind::SetFonts => 29,
            VilogCommandKind::SetFontSize => 30,
            VilogCommandKind::SetFontStyle => 31,
            VilogCommandKind::SetTextHorizontalAlign => 32,
            VilogCommandKind::SetTextVerticalAlign => 33,
            VilogCommandKind::DrawText => 34,
            VilogCommandKind::SetImageHorizontalAlign => 35,
            VilogCommandKind::SetImageVerticalAlign => 36,
            VilogCommandKind::DrawImage => 37,
            VilogCommandKind::StartMaskingRegion => 38,
            VilogCommandKind::StartMaskedRegion => 39,
            VilogCommandKind::EndMaskRegion => 40,
        }
    }
}

/// The canvas of a log: its size, background colour and frame rate, the
/// rate held as the bits of a 32-bit float.
pub struct VilogConfig {
    pub width: u32,
    pub height: u32,
    pub background: u32,
    pub fps_bits: u32,
}

impl VilogConfig {
    /// A canvas of the given size on an opaque white background, at four
    /// frames a second.
    pub fn new(width: u32, height: u32) -> (r: VilogConfig)
        ensures
            r.width == width,
            r.height == height,
            r.background == 0xFFFFFFFFu32,
            r.fps_bits == 0x40800000u32,
    {
        VilogConfig { width, height, background: 0xFFFFFFFF, fps_bits: 0x40800000 }
    }
}

/// The header of a log, its last thirteen bytes left for `finish`.
pub open spec fn vilog_header(c: VilogConfig) -> Seq<u8> {
    seq![118u8, 105u8, 108u8, 111u8] + le_u32(1) + le_u32(29) + le_u32(c.width) + le_u32(c.height) + le_u32(c.fps_bits)
        + le_u32(c.background) + seq![2u8] + le_u32(0xFFFFFFFF) + le_u32(0xFFFFFFFF) + le_u32(0xFFFFFFFF)
}

/// The entries of one layer that wait for the next frame.
pub open spec fn appended(p: Seq<(Seq<u8>, bool)>, bytes: Seq<u8>) -> Seq<(Seq<u8>, bool)> {
    if p.len() > 0 {
        p.drop_last().push((p.last().0 + bytes, p.last().1))
    } else {
        seq![(bytes, false)]
    }
}

/// One layer of a log: the commands it waits to frame.
pub struct VilogLayerWriter {
    writer: BaseLayerWriter,
    texture_required: bool,
}

impl VilogLayerWriter {
    /// The entries waiting for the next frame.
    pub closed spec fn pending(&self) -> Seq<(Seq<u8>, bool)> {
        self.writer.pending()
    }

    /// Whether the layer draws images.
    pub closed spec fn needs_texture(&self) -> bool {
        self.texture_required
    }

    pub fn new() -> (r: VilogLayerWriter)
        ensures
            r.pending() == Seq::<(Seq<u8>, bool)>::empty(),
            !r.needs_texture(),
    {
        VilogLayerWriter { writer: BaseLayerWriter::new(), texture_required: false }
    }

    /// The entry that takes the next command, for commands written byte by
    /// byte.
    pub fn entry(&mut self) -> (r: &mut LayerEntry)
        ensures
            old(self).pending().len() > 0 ==> (r.data(), r.clears()) == old(self).pending().last(),
            old(self).pending().len() == 0 ==> r.data() == Seq::<u8>::empty() && !r.clears(),
            final(self).pending() == (if old(self).pending().len() > 0 {
                old(self).pending().drop_last()
            } else {
                old(self).pending()
            }).push((final(r).data(), final(r).clears())),
            final(self).needs_texture() == old(self).needs_texture(),
    {
        self.writer.entry()
    }

    /// Appends a byte to the entry that takes the next command.
    fn push_u8(&mut self, value: u8)
        ensures
            final(self).pending() == appended(old(self).pending(), seq![value]),
            final(self).needs_texture() == old(self).needs_texture(),
    {
        let entry = self.writer.entry();
        entry.write_u8(value);
    }

    /// Appends a 16-bit value, most significant byte first.
    fn push_u16(&mut self, value: u16)
        ensures
            final(self).pending() == appended(old(self).pending(), be_u16(value)),
            final(self).needs_texture() == old(self).needs_texture(),
    {
        let entry = self.writer.entry();
        entry.write_u16(value);
    }

    /// Appends a value below 2^24; a larger one is refused and nothing is
    /// written.
    fn push_u24(&mut self, value: u32) -> (r: Result<(), LogError>)
        ensures
            value < 0x1000000 ==> r is Ok && final(self).pending() == appended(old(self).pending(), le_u24(value)),
            value >= 0x1000000 ==> r == Err::<(), LogError>(LogError::OverU24(value)) && final(self).pending() == appended(
                old(self).pending(),
                Seq::<u8>::empty(),
            ),
            final(self).needs_texture() == old(self).needs_texture(),
    {
        let entry = self.writer.entry();
        match entry.write_u24(value) {
            Ok(_) => Ok(()),
            Err(e) => {
                proof {
                    assert(entry.data() =~= entry.data() + Seq::<u8>::empty());
                }
                Err(e)
            },
        }
    }

    /// Appends a string with its length; one of more than 65535 bytes is
    /// refused and nothing is written.
    fn push_short_str(&mut self, string: &str) -> (r: Result<(), LogError>)
        ensures
            string.spec_bytes().len() <= u16::MAX ==> r is Ok && final(self).pending() == appended(
                old(self).pending(),
                be_u16(string.spec_bytes().len() as u16) + string.spec_bytes(),
            ),
            string.spec_bytes().len() > u16::MAX ==> r == Err::<(), LogError>(LogError::TooLong(string.spec_bytes().len() as usize))
                && final(self).pending() == appended(old(self).pending(), Seq::<u8>::empty()),
            final(self).needs_texture() == old(self).needs_texture(),
    {
        let entry = self.writer.entry();
        let r = entry.write_short_str(string);
        proof {
            assert(entry.data() =~= entry.data() + Seq::<u8>::empty());
            if string.spec_bytes().len() <= u16::MAX {
                assert(entry.data() =~= (if old(self).pending().len() > 0 {
                    old(self).pending().last().0
                } else {
                    Seq::<u8>::empty()
                }) + (be_u16(string.spec_bytes().len() as u16) + string.spec_bytes()));
            }
        }
        r
    }

    /// Appends a command that takes no argument.
    fn command(&mut self, kind: VilogCommandKind) -> (r: Result<(), LogError>)
        ensures
            r is Ok,
            final(self).pending() == appended(old(self).pending(), seq![command_code(kind)]),
            final(self).needs_texture() == old(self).needs_texture(),
    {
        let code = kind.code();
        self.push_u8(code);
        Ok(())
    }

    /// Fills the current path.
    pub fn fill(&mut self) -> (r: Result<(), LogError>)
        ensures
            r is Ok,
            final(self).pending() == appended(old(self).pending(), seq![command_code(VilogCommandKind::Fill)]),
            final(self).needs_texture() == old(self).needs_texture(),
    {
        self.command(VilogCommandKind::Fill)
    }

    /// Closes the current path.
    pub fn close_path(&mut self) -> (r: Result<(), LogError>)
        ensures
            r is Ok,
            final(self).pending() == appended(old(self).pending(), seq![command_code(VilogCommandKind::ClosePath)]),
            final(self).needs_texture() == old(self).needs_texture(),
    {
        self.command(VilogCommandKind::ClosePath)
    }

    /// Appends a colour command; a colour of more than 24 bits is refused
    /// after the command's byte.
    fn color_command(&mut self, kind: VilogCommandKind, rgb: u32) -> (r: Result<(), LogError>)
        ensures
            rgb < 0x1000000 ==> r is Ok && final(self).pending() == appended(old(self).pending(), seq![command_code(kind)] + le_u24(rgb)),
            rgb >= 0x1000000 ==> r == Err::<(), LogError>(LogError::OverU24(rgb)) && final(self).pending() == appended(
                old(self).pending(),
                seq![command_code(kind)],
            ),
            final(self).needs_texture() == old(self).needs_texture(),
    {
        let ghost p0 = self.pending();
        let code = kind.code();
        self.push_u8(code);
        let r = self.push_u24(rgb);
        proof {
            lemma_appended_concat(p0, seq![command_code(kind)], if rgb < 0x1000000 { le_u24(rgb) } else { Seq::<u8>::empty() });
            assert(seq![command_code(kind)] + Seq::<u8>::empty() =~= seq![command_code(kind)]);
        }
        r
    }

    /// Sets the colour of lines.
    pub fn set_line_color(&mut self, rgb: u32) -> (r: Result<(), LogError>)
        ensures
            rgb < 0x1000000 ==> r is Ok && final(self).pending() == appended(
                old(self).pending(),
                seq![command_code(VilogCommandKind::SetLineColor)] + le_u24(rgb),
            ),
            rgb >= 0x1000000 ==> r == Err::<(), LogError>(LogError::OverU24(rgb)) && final(self).pending() == appended(
                old(self).pending(),
                seq![command_code(VilogCommandKind::SetLineColor)],
            ),
            final(self).needs_texture() == old(self).needs_texture(),
    {
        self.color_command(VilogCommandKind::SetLineColor, rgb)
    }

    /// Sets the colour of fills.
    pub fn set_fill_color(&mut self, rgb: u32) -> (r: Result<(), LogError>)
        ensures
            rgb < 0x1000000 ==> r is Ok && final(self).pending() == appended(
                old(self).pending(),
                seq![command_code(VilogCommandKind::SetFillColor)] + le_u24(rgb),
            ),
            rgb >= 0x1000000 ==> r == Err::<(), LogError>(LogError::OverU24(rgb)) && final(self).pending() == appended(
                old(self).pending(),
                seq![command_code(VilogCommandKind::SetFillColor)],
            ),
            final(self).needs_texture() == old(self).needs_texture(),
    {
        self.color_command(VilogCommandKind::SetFillColor, rgb)
    }

    /// Sets the blend mode, given by its byte.
    pub fn set_blend_mode(&mut self, blend_mode: u8) -> (r: Result<(), LogError>)
        ensures
            r is Ok,
            final(self).pending() == appended(old(self).pending(), seq![command_code(VilogCommandKind::SetBlendMode), blend_mode]),
            final(self).needs_texture() == old(self).needs_texture(),
    {
        let ghost p0 = self.pending();
        let code = VilogCommandKind::SetBlendMode.code();
        self.push_u8(code);
        self.push_u8(blend_mode);
        proof {
            lemma_appended_concat(p0, seq![code], seq![blend_mode]);
            assert(seq![code] + seq![blend_mode] =~= seq![code, blend_mode]);
        }
        Ok(())
    }

    /// Sets the font style: bit 0 bold, bit 1 italic.
    pub fn set_font_style(&mut self, bold: bool, italic: bool) -> (r: Result<(), LogError>)
        ensures
            r is Ok,
            final(self).pending() == appended(
                old(self).pending(),
                seq![command_code(VilogCommandKind::SetFontStyle), style_flags(bold, italic)],
            ),
            final(self).needs_texture() == old(self).needs_texture(),
    {
        let ghost p0 = self.pending();
        let code = VilogCommandKind::SetFontStyle.code();
        let b: u8 = if bold { 1 } else { 0 };
        let i: u8 = if italic { 1 } else { 0 };
        let flags = b | (i << 1);
        assert(b == 0 && i == 0 ==> flags == 0) by (bit_vector)
            requires
                flags == b | (i << 1),
        ;
        assert(b == 1 && i == 0 ==> flags == 1) by (bit_vector)
            requires
                flags == b | (i << 1),
        ;
        assert(b == 0 && i == 1 ==> flags == 2) by (bit_vector)
            requires
                flags == b | (i << 1),
        ;
        assert(b == 1 && i == 1 ==> flags == 3) by (bit_vector)
            requires
                flags == b | (i << 1),
        ;
        self.push_u8(code);
        self.push_u8(flags);
        proof {
            lemma_appended_concat(p0, seq![code], seq![flags]);
            assert(seq![code] + seq![flags] =~= seq![code, style_flags(bold, italic)]);
        }
        Ok(())
    }

    /// Sets the fonts to try, in order: their number, then each name with
    /// its length. More than 65535 names are refused after the command's
    /// byte; a name of more than 65535 bytes is refused and ends the list
    /// there.
    pub fn set_fonts(&mut self, font_names: &[&str]) -> (r: Result<(), LogError>)
        ensures
            font_names@.len() > u16::MAX ==> r == Err::<(), LogError>(LogError::TooLong(font_names@.len() as usize))
                && final(self).pending() == appended(old(self).pending(), seq![command_code(VilogCommandKind::SetFonts)]),
            font_names@.len() <= u16::MAX ==> ({
                let k = short_prefix(font_names@);
                &&& final(self).pending() == appended(
                    old(self).pending(),
                    seq![command_code(VilogCommandKind::SetFonts)] + be_u16(font_names@.len() as u16) + names_bytes(font_names@.take(k)),
                )
                &&& k == font_names@.len() ==> r is Ok
                &&& k < font_names@.len() ==> r == Err::<(), LogError>(LogError::TooLong(font_names@[k].spec_bytes().len() as usize))
            }),
            final(self).needs_texture() == old(self).needs_texture(),
    {
        let ghost p0 = self.pending();
        let code = VilogCommandKind::SetFonts.code();
        self.push_u8(code);
        let len = font_names.len();
        if len > 65535 {
            return Err(LogError::TooLong(len));
        }
        self.push_u16(len as u16);
        let ghost head = seq![command_code(VilogCommandKind::SetFonts)] + be_u16(len as u16);
        proof {
            lemma_appended_concat(p0, seq![code], be_u16(len as u16));
            assert(font_names@.take(0) =~= Seq::<&str>::empty());
            assert(head + names_bytes(font_names@.take(0)) =~= head);
            lemma_short_prefix(font_names@, 0);
        }
        for k in 0..len
            invariant
                len == font_names@.len(),
                len <= u16::MAX,
                head == seq![command_code(VilogCommandKind::SetFonts)] + be_u16(len as u16),
                p0 == old(self).pending(),
                self.pending() == appended(p0, head + names_bytes(font_names@.take(k as int))),
                self.needs_texture() == old(self).needs_texture(),
                forall|i: int| 0 <= i < k ==> (#[trigger] font_names@[i]).spec_bytes().len() <= u16::MAX,
        {
            let name: &str = font_names[k];
            let ghost before = self.pending();
            let res = self.push_short_str(name);
            if res.is_err() {
                proof {
                    assert(font_names@[k as int] == name);
                    assert(name.spec_bytes().len() > u16::MAX);
                    lemma_short_prefix(font_names@, k as int);
                    lemma_appended_concat(p0, head + names_bytes(font_names@.take(k as int)), Seq::<u8>::empty());
                    assert(head + names_bytes(font_names@.take(k as int)) + Seq::<u8>::empty() =~= head + names_bytes(
                        font_names@.take(k as int),
                    ));
                }
                return res;
            }
            proof {
                lemma_appended_concat(
                    p0,
                    head + names_bytes(font_names@.take(k as int)),
                    be_u16(name.spec_bytes().len() as u16) + name.spec_bytes(),
                );
                assert(font_names@.take(k + 1).drop_last() =~= font_names@.take(k as int));
                assert(font_names@.take(k + 1).last() == name);
                assert(head + names_bytes(font_names@.take(k as int)) + (be_u16(name.spec_bytes().len() as u16)
                    + name.spec_bytes()) =~= head + names_bytes(font_names@.take(k + 1)));
            }
        }
        proof {
            lemma_short_prefix(font_names@, len as int);
        }
        Ok(())
    }

    /// Starts the region that draws a mask.
    pub fn start_masking_region(&mut self) -> (r: Result<(), LogError>)
        ensures
            r is Ok,
            final(self).pending() == appended(old(self).pending(), seq![command_code(VilogCommandKind::StartMaskingRegion)]),
            final(self).needs_texture() == old(self).needs_texture(),
    {
        self.command(VilogCommandKind::StartMaskingRegion)
    }

    /// Starts the region drawn under the mask `mask_index_from_last` masks
    /// back.
    pub fn start_masked_region(&mut self, mask_index_from_last: u16) -> (r: Result<(), LogError>)
        ensures
            r is Ok,
            final(self).pending() == appended(
                old(self).pending(),
                seq![command_code(VilogCommandKind::StartMaskedRegion)] + be_u16(mask_index_from_last),
            ),
            final(self).needs_texture() == old(self).needs_texture(),
    {
        let ghost p0 = self.pending();
        let code = VilogCommandKind::StartMaskedRegion.code();
        self.push_u8(code);
        self.push_u16(mask_index_from_last);
        proof {
            lemma_appended_concat(p0, seq![code], be_u16(mask_index_from_last));
        }
        Ok(())
    }

    /// Ends the mask regions.
    pub fn start_mask_region(&mut self) -> (r: Result<(), LogError>)
        ensures
            r is Ok,
            final(self).pending() == appended(old(self).pending(), seq![command_code(VilogCommandKind::EndMaskRegion)]),
            final(self).needs_texture() == old(self).needs_texture(),
    {
        self.command(VilogCommandKind::EndMaskRegion)
    }
}

/// The flags byte of a font style: bit 0 bold, bit 1 italic.
pub open spec fn style_flags(bold: bool, italic: bool) -> u8 {
    if bold && italic {
        3
    } else if italic {
        2
    } else if bold {
        1
    } else {
        0
    }
}

/// How many names of a list, from the first, are at most 65535 bytes long.
pub open spec fn short_prefix(names: Seq<&str>) -> int
    decreases names.len(),
{
    if names.len() == 0 {
        0
    } else if short_prefix(names.drop_last()) < names.len() - 1 {
        short_prefix(names.drop_last())
    } else if names.last().spec_bytes().len() <= u16::MAX {
        names.len() as int
    } else {
        names.len() - 1
    }
}

proof fn lemma_short_prefix(names: Seq<&str>, k: int)
    requires
        0 <= k <= names.len(),
        forall|i: int| 0 <= i < k ==> (#[trigger] names[i]).spec_bytes().len() <= u16::MAX,
    ensures
        k <= short_prefix(names),
        k < names.len() && names[k].spec_bytes().len() > u16::MAX ==> short_prefix(names) == k,
        k == names.len() ==> short_prefix(names) == names.len(),
        0 <= short_prefix(names) <= names.len(),
    decreases names.len(),
{
    if names.len() > 0 {
        let init = names.drop_last();
        if k < names.len() {
            lemma_short_prefix(init, k);
        } else {
            lemma_short_prefix(init, k - 1);
        }
    }
}

/// Appending in two runs appends their concatenation.
pub proof fn lemma_appended_concat(p: Seq<(Seq<u8>, bool)>, a: Seq<u8>, b: Seq<u8>)
    ensures
        appended(appended(p, a), b) == appended(p, a + b),
{
    if p.len() > 0 {
        assert(p.last().0 + a + b =~= p.last().0 + (a + b));
        assert(appended(appended(p, a), b) =~= appended(p, a + b));
    } else {
        assert(appended(appended(p, a), b) =~= appended(p, a + b));
    }
}

/// The names of a font list, each with its length.
pub open spec fn names_bytes(names: Seq<&str>) -> Seq<u8>
    decreases names.len(),
{
    if names.len() == 0 {
        seq![]
    } else {
        names_bytes(names.drop_last()) + be_u16(names.last().spec_bytes().len() as u16) + names.last().spec_bytes()
    }
}

impl LogLayerWriter for VilogLayerWriter {
    /// Starts a new entry that clears the layer.
    fn clear(&mut self)
        ensures
            final(self).pending() == old(self).pending().push((Seq::<u8>::empty(), true)),
            final(self).needs_texture() == old(self).needs_texture(),
    {
        self.writer.clear()
    }
}


/// The position of `v` among the sorted indices `s`: how many are below it.
pub open spec fn slot(s: Seq<i32>, v: i32) -> int
    decreases s.len(),
{
    if s.len() == 0 {
        0
    } else if s.last() < v {
        s.len() as int
    } else {
        slot(s.drop_last(), v)
    }
}

/// The indices rise strictly.
pub open spec fn rising(s: Seq<i32>) -> bool {
    forall|i: int, j: int| 0 <= i < j < s.len() ==> s[i] < s[j]
}

pub proof fn lemma_slot(s: Seq<i32>, v: i32, pos: int)
    requires
        rising(s),
        0 <= pos <= s.len(),
        forall|j: int| 0 <= j < pos ==> s[j] < v,
        pos == s.len() || s[pos] >= v,
    ensures
        slot(s, v) == pos,
    decreases s.len(),
{
    if s.len() > 0 && pos < s.len() {
        let init = s.drop_last();
        if pos < s.len() - 1 {
            assert(s[pos] < s[s.len() - 1]);
        }
        lemma_slot(init, v, pos);
    }
}

/// Where `v` goes in a rising list: after every smaller index, at the first
/// index that is not smaller.
proof fn lemma_slot_bounds(s: Seq<i32>, v: i32)
    requires
        rising(s),
    ensures
        0 <= slot(s, v) <= s.len(),
        forall|j: int| 0 <= j < slot(s, v) ==> s[j] < v,
        slot(s, v) == s.len() || s[slot(s, v)] >= v,
    decreases s.len(),
{
    if s.len() > 0 {
        if s.last() < v {
            assert forall|j: int| 0 <= j < s.len() implies s[j] < v by {
                if j < s.len() - 1 {
                    assert(s[j] < s[s.len() - 1]);
                }
            }
        } else {
            lemma_slot_bounds(s.drop_last(), v);
            assert forall|j: int| 0 <= j < slot(s, v) implies s[j] < v by {
                assert(s[j] == s.drop_last()[j]);
            }
        }
    }
}

/// An index present in a rising list is found at its slot.
pub proof fn lemma_slot_found(s: Seq<i32>, v: i32)
    requires
        rising(s),
        s.contains(v),
    ensures
        0 <= slot(s, v) < s.len(),
        s[slot(s, v)] == v,
{
    lemma_slot_bounds(s, v);
    let j = choose|j: int| 0 <= j < s.len() && s[j] == v;
    let pos = slot(s, v);
    if pos < j {
        assert(s[pos] < s[j]);
    }
}

/// The indices of the layers after `layer(index)`: as they were where
/// `index` is among them, else with `index` inserted at its place.
pub open spec fn with_layer(ix: Seq<i32>, index: i32) -> Seq<i32> {
    let pos = slot(ix, index);
    if pos < ix.len() && ix[pos] == index {
        ix
    } else {
        ix.insert(pos, index)
    }
}

/// Asking for a layer makes its index present, keeps the indices rising,
/// and asking for it again adds nothing.
pub proof fn lemma_layer_twice(ix: Seq<i32>, index: i32)
    requires
        rising(ix),
    ensures
        rising(with_layer(ix, index)),
        with_layer(ix, index).contains(index),
        with_layer(with_layer(ix, index), index) == with_layer(ix, index),
{
    lemma_slot_bounds(ix, index);
    let pos = slot(ix, index);
    if pos < ix.len() && ix[pos] == index {
        assert(ix[pos] == index);
    } else {
        let ix2 = ix.insert(pos, index);
        assert forall|i: int, j: int| 0 <= i < j < ix2.len() implies ix2[i] < ix2[j] by {
            if j < pos {
            } else if j == pos {
            } else if i < pos {
                assert(ix2[j] == ix[j - 1]);
                if j - 1 > pos {
                    assert(ix[pos] < ix[j - 1]);
                }
            } else if i == pos {
                assert(ix2[j] == ix[j - 1]);
                if j - 1 > pos {
                    assert(ix[pos] < ix[j - 1]);
                }
            } else {
                assert(ix2[i] == ix[i - 1] && ix2[j] == ix[j - 1]);
            }
        }
        assert(ix2[pos] == index);
        lemma_slot(ix2, index, pos);
    }
}

/// A log being written: the header, the frames so far, and the layers with
/// the commands that wait for the next frame.
pub struct VilogWriter {
    writer: BaseWriter,
    last_step: u32,
    step: u32,
    texture_required: bool,
    indices: Vec<i32>,
    layers: Vec<VilogLayerWriter>,
}

impl VilogWriter {
    /// The layers are kept in rising order of index, and the stream is
    /// written at its end.
    pub closed spec fn wf(&self) -> bool {
        &&& self.indices@.len() == self.layers@.len()
        &&& rising(self.indices@)
        &&& self.writer.position() == self.writer.content().len()
        &&& self.writer.offset == self.writer.content().len()
        &&& self.writer.content().len() >= 41
        &&& self.last_step <= self.step
    }

    /// The bytes written so far.
    pub closed spec fn content(&self) -> Seq<u8> {
        self.writer.content()
    }

    /// A well formed writer keeps its layer indices rising.
    pub proof fn lemma_indices_rise(&self)
        requires
            self.wf(),
        ensures
            rising(self.layer_indices()),
    {
    }

    /// The indices of the layers, rising.
    pub closed spec fn layer_indices(&self) -> Seq<i32> {
        self.indices@
    }

    /// The layers, in the order of their indices.
    pub closed spec fn layer_list(&self) -> Seq<VilogLayerWriter> {
        self.layers@
    }

    /// The frame being drawn.
    pub closed spec fn current_step(&self) -> u32 {
        self.step
    }

    /// The frame of the last entry written.
    pub closed spec fn framed_step(&self) -> u32 {
        self.last_step
    }

    /// The number of entries written.
    pub closed spec fn entry_count(&self) -> u32 {
        self.writer.entry_number
    }

    /// Whether the log asks for textures.
    pub closed spec fn texture(&self) -> bool {
        self.texture_required
    }

    /// Starts a log with the header of `config`.
    pub fn new(config: VilogConfig) -> (r: VilogWriter)
        ensures
            r.wf(),
            r.content() == vilog_header(config),
            r.layer_indices() == Seq::<i32>::empty(),
            r.layer_list() == Seq::<VilogLayerWriter>::empty(),
            r.current_step() == 0,
            r.framed_step() == 0,
            r.entry_count() == 0,
            !r.texture(),
    {
        let mut w = BaseWriter::new();
        let magic: [u8; 4] = [118, 105, 108, 111];
        w.write(&magic);
        proof {
            lemma_overwrite_end(Seq::<u8>::empty(), magic@);
            assert(magic@ =~= seq![118u8, 105u8, 108u8, 111u8]);
        }
        append_u32(&mut w, 1);
        append_u32(&mut w, 29);
        append_u32(&mut w, config.width);
        append_u32(&mut w, config.height);
        append_u32(&mut w, config.fps_bits);
        append_u32(&mut w, config.background);
        let ghost before = w.content();
        w.write_u8(2);
        proof {
            lemma_overwrite_end(before, seq![2u8]);
        }
        append_u32(&mut w, 0xFFFFFFFF);
        append_u32(&mut w, 0xFFFFFFFF);
        append_u32(&mut w, 0xFFFFFFFF);
        proof {
            assert(w.content() =~= vilog_header(config));
        }
        VilogWriter { writer: w, last_step: 0, step: 0, texture_required: false, indices: Vec::new(), layers: Vec::new() }
    }

    /// The bytes written so far, for the caller to store.
    pub fn as_bytes(&self) -> (r: &[u8])
        ensures
            r@ == self.content(),
    {
        self.writer.as_bytes()
    }

    /// The layer of index `index`, made empty where there is none yet.
    pub fn layer(&mut self, index: i32) -> (r: &mut VilogLayerWriter)
        requires
            old(self).wf(),
        ensures
            ({
                let pos = slot(old(self).layer_indices(), index);
                let present = pos < old(self).layer_indices().len() && old(self).layer_indices()[pos] == index;
                &&& present ==> *r == old(self).layer_list()[pos] && final(self).layer_indices() == old(self).layer_indices()
                    && final(self).layer_list() == old(self).layer_list().update(pos, *final(r))
                &&& !present ==> r.pending() == Seq::<(Seq<u8>, bool)>::empty() && !r.needs_texture()
                    && final(self).layer_indices() == old(self).layer_indices().insert(pos, index)
                    && final(self).layer_list() == old(self).layer_list().insert(pos, *final(r))
            }),
            final(self).layer_indices() == with_layer(old(self).layer_indices(), index),
            final(self).layer_indices().contains(index),
            old(self).layer_indices().contains(index) ==> final(self).layer_indices() == old(self).layer_indices()
                && final(self).layer_list().len() == old(self).layer_list().len() && *r == old(self).layer_list()[slot(
                old(self).layer_indices(),
                index,
            )],
            final(self).wf(),
            final(self).content() == old(self).content(),
            final(self).current_step() == old(self).current_step(),
            final(self).framed_step() == old(self).framed_step(),
            final(self).entry_count() == old(self).entry_count(),
            final(self).texture() == old(self).texture(),
    {
        proof {
            lemma_layer_twice(self.indices@, index);
            if self.indices@.contains(index) {
                lemma_slot_found(self.indices@, index);
            }
        }
        let n = self.indices.len();
        let mut pos: usize = 0;
        while pos < n && self.indices[pos] < index
            invariant
                n == self.indices@.len(),
                pos <= n,
                forall|j: int| 0 <= j < pos ==> self.indices@[j] < index,
            decreases n - pos,
        {
            pos = pos + 1;
        }
        proof {
            lemma_slot(self.indices@, index, pos as int);
        }
        if pos < n && self.indices[pos] == index {
            return &mut self.layers[pos];
        }
        let ghost old_idx = self.indices@;
        self.indices.insert(pos, index);
        self.layers.insert(pos, VilogLayerWriter::new());
        proof {
            assert forall|i: int, j: int| 0 <= i < j < self.indices@.len() implies self.indices@[i] < self.indices@[j] by {
                if i < pos && j == pos {
                } else if i == pos && j > pos {
                    assert(self.indices@[j] == old_idx[j - 1]);
                } else if j < pos {
                } else if i > pos {
                    assert(self.indices@[i] == old_idx[i - 1]);
                    assert(self.indices@[j] == old_idx[j - 1]);
                } else {
                    assert(self.indices@[j] == old_idx[j - 1]);
                }
            }
        }
        &mut self.layers[pos]
    }

    /// The frame being drawn.
    pub fn get_step(&self) -> (r: u32)
        ensures
            r == self.current_step(),
    {
        self.step
    }

    /// The waiting entries of every layer.
    pub closed spec fn pendings(&self) -> Seq<Seq<(Seq<u8>, bool)>> {
        self.layers@.map_values(|l: VilogLayerWriter| l.pending())
    }

    /// Whether framing the waiting entries keeps the byte count and the entry
    /// count within 32 bits, with room for `extra` more bytes.
    pub closed spec fn flush_fits(&self, extra: int) -> bool {
        &&& all_fit(self.pendings())
        &&& self.writer.offset + flush_bytes(self.indices@, self.pendings(), (self.step - self.last_step) as u32).len() + extra
            <= u32::MAX
        &&& self.writer.entry_number + total_entries(self.pendings()) <= u32::MAX
    }

    /// Frames the waiting entries of every layer, in the order of their
    /// indices, at the current frame.
    fn write_step(&mut self)
        requires
            old(self).wf(),
            old(self).flush_fits(0),
        ensures
            final(self).wf(),
            final(self).content() == old(self).content() + flush_bytes(
                old(self).indices@,
                old(self).pendings(),
                (old(self).step - old(self).last_step) as u32,
            ),
            final(self).writer.offset == old(self).writer.offset + flush_bytes(
                old(self).indices@,
                old(self).pendings(),
                (old(self).step - old(self).last_step) as u32,
            ).len(),
            final(self).indices@ == old(self).indices@,
            final(self).layers@.len() == old(self).layers@.len(),
            forall|j: int| 0 <= j < final(self).layers@.len() ==> (#[trigger] final(self).layers@[j]).pending() == Seq::<(Seq<u8>, bool)>::empty()
                && final(self).layers@[j].needs_texture() == old(self).layers@[j].needs_texture(),
            final(self).step == old(self).step,
            final(self).last_step == if all_empty(old(self).pendings()) {
                old(self).last_step
            } else {
                old(self).step
            },
            final(self).writer.entry_number == old(self).writer.entry_number + total_entries(old(self).pendings()),
            final(self).texture_required == if old(self).layers@.len() > 0 {
                old(self).layers@.last().needs_texture()
            } else {
                old(self).texture_required
            },
    {
        let ghost pend = self.pendings();
        let ghost idx = self.indices@;
        let ghost skip0 = (self.step - self.last_step) as u32;
        let ghost c0 = self.writer.content();
        let ghost o0 = self.writer.offset;
        let ghost e0 = self.writer.entry_number;
        let ghost l0 = self.last_step;
        let ghost layers0 = self.layers@;
        let n = self.layers.len();
        proof {
            assert(pend.take(0) =~= Seq::<Seq<(Seq<u8>, bool)>>::empty());
            assert(idx.take(0) =~= Seq::<i32>::empty());
        }
        for i in 0..n
            invariant
                n == self.layers@.len(),
                n == idx.len(),
                pend.len() == n,
                idx == self.indices@,
                rising(idx),
                self.step >= l0,
                skip0 == (self.step - l0) as u32,
                all_fit(pend),
                o0 + flush_bytes(idx, pend, skip0).len() <= u32::MAX,
                e0 + total_entries(pend) <= u32::MAX,
                self.writer.content() == c0 + flush_bytes(idx.take(i as int), pend.take(i as int), skip0),
                self.writer.position() == self.writer.content().len(),
                self.writer.offset == o0 + flush_bytes(idx.take(i as int), pend.take(i as int), skip0).len(),
                o0 == c0.len(),
                c0.len() >= 41,
                self.writer.entry_number == e0 + total_entries(pend.take(i as int)),
                self.last_step == if all_empty(pend.take(i as int)) { l0 } else { self.step },
                forall|j: int| 0 <= j < i ==> (#[trigger] self.layers@[j]).pending() == Seq::<(Seq<u8>, bool)>::empty()
                    && self.layers@[j].needs_texture() == layers0[j].needs_texture(),
                forall|j: int| i <= j < n ==> #[trigger] self.layers@[j] == layers0[j],
                forall|j: int| 0 <= j < n ==> #[trigger] pend[j] == layers0[j].pending(),
                self.texture_required == if i > 0 { layers0[i - 1].needs_texture() } else { old(self).texture_required },
        {
            proof {
                lemma_flush_step(idx, pend, skip0, i as int);
                lemma_flush_prefix(idx, pend, skip0, i + 1);
                lemma_entries_bytes_len(pend[i as int], if all_empty(pend.take(i as int)) { skip0 } else { 0 }, idx[i as int]);
                lemma_entries_bytes_len(pend[i as int], (self.step - self.last_step) as u32, idx[i as int]);
                assert(entries_fit(pend[i as int]));
            }
            let index = self.indices[i];
            let step = self.step;
            let ghost cb = self.writer.content();
            self.layers[i].writer.write_entries(&mut self.writer, &mut self.last_step, step, index);
            proof {
                lemma_overwrite_end(cb, entries_bytes(pend[i as int], (step - l0) as u32, index));
            }
            self.texture_required = self.layers[i].texture_required;
        }
        proof {
            assert(pend.take(n as int) =~= pend);
            assert(idx.take(n as int) =~= idx);
        }
    }
}

/// Appends a 32-bit value at the end of a stream.
pub(crate) fn append_u32(w: &mut BaseWriter, value: u32)
    requires
        old(w).position() == old(w).content().len(),
        old(w).offset == old(w).content().len(),
        old(w).offset + 4 <= u32::MAX,
    ensures
        final(w).content() == old(w).content() + le_u32(value),
        final(w).position() == final(w).content().len(),
        final(w).offset == final(w).content().len(),
        final(w).entry_number == old(w).entry_number,
{
    let ghost c = w.content();
    w.write_u32(value);
    proof {
        lemma_overwrite_end(c, le_u32(value));
    }
}


/// The bytes that `finish` writes over the end of the header: whether
/// textures are needed, the number of frames, of entries and of bytes
/// after the header.
pub open spec fn vilog_counts(texture: bool, steps: u32, entries: u32, size: u32) -> Seq<u8> {
    seq![if texture { 1u8 } else { 0u8 }] + le_u32(steps) + le_u32(entries) + le_u32(size)
}

/// The frame counter that `get_step` reads, after a run of `step` and
/// `skip` calls on a new writer, is the number of `step` calls plus the sum
/// of the `skip` offsets: `ws` are the writer's states, `offsets[i]` what
/// call `i` moved it on (1 for a `step`).
pub proof fn lemma_step_count(ws: Seq<VilogWriter>, offsets: Seq<u32>)
    requires
        ws.len() == offsets.len() + 1,
        ws[0].current_step() == 0,
        forall|i: int| 0 <= i < offsets.len() ==> ws[i + 1].current_step() == ws[i].current_step() + #[trigger] offsets[i],
    ensures
        ws.last().current_step() == frames(offsets),
    decreases offsets.len(),
{
    if offsets.len() > 0 {
        let n = offsets.len() - 1;
        lemma_step_count(ws.drop_last(), offsets.drop_last());
        assert(ws.drop_last().last() == ws[n]);
        assert(offsets[n] == offsets.last());
    }
}

impl LogWriter for VilogWriter {
    open spec fn can_skip(&self, offset: u32) -> bool {
        &&& self.wf()
        &&& self.flush_fits(0)
        &&& self.current_step() + offset <= u32::MAX
    }

    open spec fn can_finish(&self) -> bool {
        &&& self.wf()
        &&& self.flush_fits(13)
    }

    /// Frames what waits, then fills in the end of the header: the texture
    /// flag, the number of frames, of entries and of bytes after the header.
    fn finish(&mut self) -> (r: Result<(), LogError>)
        ensures
            r is Ok,
            ({
                let flushed = old(self).content() + flush_bytes(
                    old(self).layer_indices(),
                    old(self).pendings(),
                    (old(self).current_step() - old(self).framed_step()) as u32,
                );
                let texture = if old(self).layer_list().len() > 0 {
                    old(self).layer_list().last().needs_texture()
                } else {
                    old(self).texture()
                };
                final(self).content() == overwrite(
                    flushed,
                    28,
                    vilog_counts(
                        texture,
                        old(self).current_step(),
                        (old(self).entry_count() + total_entries(old(self).pendings())) as u32,
                        (flushed.len() - 41) as u32,
                    ),
                )
            }),
    {
        self.write_step();
        let ghost flushed = self.writer.content();
        let offset = self.writer.offset - 41;
        let back = -(offset as i64) - 13;
        let _ = self.writer.seek(back);
        let ghost c1 = self.writer.content();
        let t: u8 = if self.texture_required { 1 } else { 0 };
        self.writer.write_u8(t);
        let step = self.step;
        self.writer.write_u32(step);
        let entry_number = self.writer.entry_number;
        self.writer.write_u32(entry_number);
        self.writer.write_u32(offset);
        let _ = self.writer.seek(offset as i64);
        self.writer.finish();
        proof {
            let s1 = seq![t];
            let s2 = le_u32(step);
            let s3 = le_u32(entry_number);
            let s4 = le_u32(offset);
            lemma_overwrite_concat(flushed, 28, s1, s2);
            lemma_overwrite_concat(flushed, 28, s1 + s2, s3);
            lemma_overwrite_concat(flushed, 28, s1 + s2 + s3, s4);
            assert(s1 + s2 + s3 + s4 =~= vilog_counts(self.texture_required, step, entry_number, offset));
        }
        Ok(())
    }

    /// Frames what waits and moves to the next frame.
    fn step(&mut self) -> (r: Result<(), LogError>)
        ensures
            r is Ok,
            final(self).wf(),
            final(self).current_step() == old(self).current_step() + 1,
            final(self).content() == old(self).content() + flush_bytes(
                old(self).layer_indices(),
                old(self).pendings(),
                (old(self).current_step() - old(self).framed_step()) as u32,
            ),
    {
        self.skip(1)
    }

    /// Frames what waits and moves `offset` frames on.
    fn skip(&mut self, offset: u32) -> (r: Result<(), LogError>)
        ensures
            r is Ok,
            final(self).wf(),
            final(self).current_step() == old(self).current_step() + offset,
            final(self).content() == old(self).content() + flush_bytes(
                old(self).layer_indices(),
                old(self).pendings(),
                (old(self).current_step() - old(self).framed_step()) as u32,
            ),
            final(self).layer_indices() == old(self).layer_indices(),
            final(self).framed_step() == if all_empty(old(self).pendings()) {
                old(self).framed_step()
            } else {
                old(self).current_step()
            },
            final(self).entry_count() == old(self).entry_count() + total_entries(old(self).pendings()),
            forall|j: int| 0 <= j < final(self).pendings().len() ==> #[trigger] final(self).pendings()[j] == Seq::<(Seq<u8>, bool)>::empty(),
            final(self).pendings().len() == old(self).pendings().len(),
    {
        self.write_step();
        self.step = self.step + offset;
        Ok(())
    }
}

/// 32-bit values one after the other, each least significant byte first:
/// how the log stores the bits of its floats.
pub open spec fn words(vs: Seq<u32>) -> Seq<u8>
    decreases vs.len(),
{
    if vs.len() == 0 {
        Seq::empty()
    } else {
        words(vs.drop_last()) + le_u32(vs.last())
    }
}

/// The byte of an arrow's parts: bit 0 the tail, bit 1 the body, bit 2 the
/// head.
pub open spec fn arrow_flags(tail: bool, body: bool, head: bool) -> u8 {
    ((if tail { 1int } else { 0 }) + (if body { 2int } else { 0 }) + (if head { 4int } else { 0 })) as u8
}

/// The byte of an arc arrow: bit 0 anticlockwise, then the tail, the body
/// and the head.
pub open spec fn arc_arrow_flags(anticlockwise: bool, tail: bool, body: bool, head: bool) -> u8 {
    ((if anticlockwise { 1int } else { 0 }) + 2 * arrow_flags(tail, body, head)) as u8
}

/// Appends `vs` to `out` as `words` lays them out.
fn add_words(out: &mut Vec<u8>, vs: &[u32])
    ensures
        final(out)@ == old(out)@ + words(vs@),
{
    let n = vs.len();
    for i in 0..n
        invariant
            n == vs@.len(),
            out@ == old(out)@ + words(vs@.take(i as int)),
    {
        let v = vs[i];
        let b0 = (v & 0xff) as u8;
        let b1 = ((v >> 8) & 0xff) as u8;
        let b2 = ((v >> 16) & 0xff) as u8;
        let b3 = ((v >> 24) & 0xff) as u8;
        assert(b0 == (v % 256) as u8 && b1 == ((v / 256) % 256) as u8 && b2 == ((v / 65536) % 256) as u8 && b3 == (v / 16777216) as u8)
            by (bit_vector)
            requires
                b0 == (v & 0xff) as u8,
                b1 == ((v >> 8) & 0xff) as u8,
                b2 == ((v >> 16) & 0xff) as u8,
                b3 == ((v >> 24) & 0xff) as u8,
        ;
        out.push(b0);
        out.push(b1);
        out.push(b2);
        out.push(b3);
        proof {
            assert(vs@.take(i + 1).drop_last() =~= vs@.take(i as int));
            assert(out@ =~= old(out)@ + words(vs@.take(i + 1)));
        }
    }
    assert(vs@.take(n as int) =~= vs@);
}

/// Appends a 16-bit value, most significant byte first.
fn add_u16(out: &mut Vec<u8>, v: u16)
    ensures
        final(out)@ == old(out)@ + be_u16(v),
{
    let hi = ((v >> 8) & 0xff) as u8;
    let lo = (v & 0xff) as u8;
    assert(hi == (v / 256) as u8 && lo == (v % 256) as u8) by (bit_vector)
        requires
            hi == ((v >> 8) & 0xff) as u8,
            lo == (v & 0xff) as u8,
    ;
    out.push(hi);
    out.push(lo);
    assert(out@ =~= old(out)@ + be_u16(v));
}

/// Appends one byte.
fn add_u8(out: &mut Vec<u8>, v: u8)
    ensures
        final(out)@ == old(out)@ + seq![v],
{
    out.push(v);
    assert(out@ =~= old(out)@ + seq![v]);
}

fn flags3(tail: bool, body: bool, head: bool) -> (r: u8)
    ensures
        r == arrow_flags(tail, body, head),
{
    (if tail { 1u8 } else { 0 }) + (if body { 2u8 } else { 0 }) + (if head { 4u8 } else { 0 })
}

/// Commands whose numbers are 32-bit floats, each given by its bits; angles
/// and alphas come as the 16-bit codes the log stores.
impl VilogLayerWriter {
    /// Appends `bytes` to the entry that takes the next command.
    fn push_bytes(&mut self, bytes: &Vec<u8>)
        ensures
            final(self).pending() == appended(old(self).pending(), bytes@),
            final(self).needs_texture() == old(self).needs_texture(),
    {
        let entry = self.writer.entry();
        entry.write(bytes.as_slice());
    }

    /// Appends a command followed by 32-bit values.
    fn words_command(&mut self, kind: VilogCommandKind, vs: &[u32]) -> (r: Result<(), LogError>)
        ensures
            r is Ok,
            final(self).pending() == appended(old(self).pending(), seq![command_code(kind)] + words(vs@)),
            final(self).needs_texture() == old(self).needs_texture(),
    {
        let mut b: Vec<u8> = Vec::new();
        add_u8(&mut b, kind.code());
        add_words(&mut b, vs);
        assert(b@ =~= seq![command_code(kind)] + words(vs@));
        self.push_bytes(&b);
        Ok(())
    }

    /// Draws a line to `(to_x, to_y)`.
    pub fn line_to(&mut self, to_x: u32, to_y: u32) -> (r: Result<(), LogError>)
        ensures
            r is Ok,
            final(self).pending() == appended(old(self).pending(), seq![command_code(VilogCommandKind::LineTo)] + words(seq![to_x, to_y])),
            final(self).needs_texture() == old(self).needs_texture(),
    {
        let vs = [to_x, to_y];
        assert(vs@ =~= seq![to_x, to_y]);
        self.words_command(VilogCommandKind::LineTo, &vs)
    }

    /// Moves the pen to `(to_x, to_y)`.
    pub fn move_to(&mut self, to_x: u32, to_y: u32) -> (r: Result<(), LogError>)
        ensures
            r is Ok,
            final(self).pending() == appended(old(self).pending(), seq![command_code(VilogCommandKind::MoveTo)] + words(seq![to_x, to_y])),
            final(self).needs_texture() == old(self).needs_texture(),
    {
        let vs = [to_x, to_y];
        assert(vs@ =~= seq![to_x, to_y]);
        self.words_command(VilogCommandKind::MoveTo, &vs)
    }

    /// Draws a quadratic curve through a control point.
    pub fn quaratic_curve_to(&mut self, ctrl_x: u32, ctrl_y: u32, to_x: u32, to_y: u32) -> (r: Result<(), LogError>)
        ensures
            r is Ok,
            final(self).pending() == appended(
                old(self).pending(),
                seq![command_code(VilogCommandKind::QuaraticCurveTo)] + words(seq![ctrl_x, ctrl_y, to_x, to_y]),
            ),
            final(self).needs_texture() == old(self).needs_texture(),
    {
        let vs = [ctrl_x, ctrl_y, to_x, to_y];
        assert(vs@ =~= seq![ctrl_x, ctrl_y, to_x, to_y]);
        self.words_command(VilogCommandKind::QuaraticCurveTo, &vs)
    }

    /// Draws a cubic curve through two control points.
    pub fn bezier_curve_to(&mut self, ctrl_x: u32, ctrl_y: u32, ctrl2_x: u32, ctrl2_y: u32, to_x: u32, to_y: u32) -> (r: Result<
        (),
        LogError,
    >)
        ensures
            r is Ok,
            final(self).pending() == appended(
                old(self).pending(),
                seq![command_code(VilogCommandKind::BezierCurveTo)] + words(seq![ctrl_x, ctrl_y, ctrl2_x, ctrl2_y, to_x, to_y]),
            ),
            final(self).needs_texture() == old(self).needs_texture(),
    {
        let vs = [ctrl_x, ctrl_y, ctrl2_x, ctrl2_y, to_x, to_y];
        assert(vs@ =~= seq![ctrl_x, ctrl_y, ctrl2_x, ctrl2_y, to_x, to_y]);
        self.words_command(VilogCommandKind::BezierCurveTo, &vs)
    }

    /// Draws an arc around a centre, from one angle code to another.
    pub fn arc(&mut self, ctrl_x: u32, ctrl_y: u32, radius: u32, start_angle: u16, end_angle: u16, anticlockwise: bool) -> (r: Result<
        (),
        LogError,
    >)
        ensures
            r is Ok,
            final(self).pending() == appended(
                old(self).pending(),
                seq![command_code(VilogCommandKind::Arc)] + words(seq![ctrl_x, ctrl_y, radius]) + be_u16(start_angle) + be_u16(
                    end_angle,
                ) + seq![if anticlockwise { 1u8 } else { 0u8 }],
            ),
            final(self).needs_texture() == old(self).needs_texture(),
    {
        let mut b: Vec<u8> = Vec::new();
        add_u8(&mut b, VilogCommandKind::Arc.code());
        let vs = [ctrl_x, ctrl_y, radius];
        assert(vs@ =~= seq![ctrl_x, ctrl_y, radius]);
        add_words(&mut b, &vs);
        add_u16(&mut b, start_angle);
        add_u16(&mut b, end_angle);
        add_u8(&mut b, if anticlockwise { 1u8 } else { 0u8 });
        self.push_bytes(&b);
        Ok(())
    }

    /// Draws an arc from a control point to `(to_x, to_y)`.
    pub fn arc_to(&mut self, ctrl_x: u32, ctrl_y: u32, to_x: u32, to_y: u32, radius: u32) -> (r: Result<(), LogError>)
        ensures
            r is Ok,
            final(self).pending() == appended(
                old(self).pending(),
                seq![command_code(VilogCommandKind::ArcTo)] + words(seq![ctrl_x, ctrl_y, to_x, to_y, radius]),
            ),
            final(self).needs_texture() == old(self).needs_texture(),
    {
        let vs = [ctrl_x, ctrl_y, to_x, to_y, radius];
        assert(vs@ =~= seq![ctrl_x, ctrl_y, to_x, to_y, radius]);
        self.words_command(VilogCommandKind::ArcTo, &vs)
    }

    /// Draws a circle.
    pub fn draw_circle(&mut self, x: u32, y: u32, radius: u32) -> (r: Result<(), LogError>)
        ensures
            r is Ok,
            final(self).pending() == appended(old(self).pending(), seq![command_code(VilogCommandKind::DrawCircle)] + words(seq![x, y, radius])),
            final(self).needs_texture() == old(self).needs_texture(),
    {
        let vs = [x, y, radius];
        assert(vs@ =~= seq![x, y, radius]);
        self.words_command(VilogCommandKind::DrawCircle, &vs)
    }

    /// Draws an ellipse.
    pub fn draw_ellipse(&mut self, x: u32, y: u32, width: u32, height: u32) -> (r: Result<(), LogError>)
        ensures
            r is Ok,
            final(self).pending() == appended(
                old(self).pending(),
                seq![command_code(VilogCommandKind::DrawEllipse)] + words(seq![x, y, width, height]),
            ),
            final(self).needs_texture() == old(self).needs_texture(),
    {
        let vs = [x, y, width, height];
        assert(vs@ =~= seq![x, y, width, height]);
        self.words_command(VilogCommandKind::DrawEllipse, &vs)
    }

    /// Draws a rectangle.
    pub fn draw_rectangle(&mut self, x: u32, y: u32, width: u32, height: u32) -> (r: Result<(), LogError>)
        ensures
            r is Ok,
            final(self).pending() == appended(
                old(self).pending(),
                seq![command_code(VilogCommandKind::DrawRectangle)] + words(seq![x, y, width, height]),
            ),
            final(self).needs_texture() == old(self).needs_texture(),
    {
        let vs = [x, y, width, height];
        assert(vs@ =~= seq![x, y, width, height]);
        self.words_command(VilogCommandKind::DrawRectangle, &vs)
    }

    /// Draws a rectangle with rounded corners.
    pub fn draw_rounded_rectangle(&mut self, x: u32, y: u32, width: u32, height: u32, radius: u32) -> (r: Result<(), LogError>)
        ensures
            r is Ok,
            final(self).pending() == appended(
                old(self).pending(),
                seq![command_code(VilogCommandKind::DrawRoundRectagle)] + words(seq![x, y, width, height, radius]),
            ),
            final(self).needs_texture() == old(self).needs_texture(),
    {
        let vs = [x, y, width, height, radius];
        assert(vs@ =~= seq![x, y, width, height, radius]);
        self.words_command(VilogCommandKind::DrawRoundRectagle, &vs)
    }

    /// Draws a regular polygon of `points` corners, turned by a rotation
    /// code.
    pub fn draw_regular_polygon(&mut self, x: u32, y: u32, points: u16, radius: u32, rotation: u16) -> (r: Result<(), LogError>)
        ensures
            r is Ok,
            final(self).pending() == appended(
                old(self).pending(),
                seq![command_code(VilogCommandKind::DrawRegularPolygon)] + words(seq![x, y]) + be_u16(points) + words(seq![radius])
                    + be_u16(rotation),
            ),
            final(self).needs_texture() == old(self).needs_texture(),
    {
        let mut b: Vec<u8> = Vec::new();
        add_u8(&mut b, VilogCommandKind::DrawRegularPolygon.code());
        let xy = [x, y];
        assert(xy@ =~= seq![x, y]);
        add_words(&mut b, &xy);
        add_u16(&mut b, points);
        let rs = [radius];
        assert(rs@ =~= seq![radius]);
        add_words(&mut b, &rs);
        add_u16(&mut b, rotation);
        self.push_bytes(&b);
        Ok(())
    }

    /// Draws a star of `points` tips, turned by a rotation code.
    pub fn draw_star(&mut self, x: u32, y: u32, points: u16, radius: u32, inner_radius: u32, rotation: u16) -> (r: Result<
        (),
        LogError,
    >)
        ensures
            r is Ok,
            final(self).pending() == appended(
                old(self).pending(),
                seq![command_code(VilogCommandKind::DrawStar)] + words(seq![x, y]) + be_u16(points) + words(seq![radius, inner_radius])
                    + be_u16(rotation),
            ),
            final(self).needs_texture() == old(self).needs_texture(),
    {
        let mut b: Vec<u8> = Vec::new();
        add_u8(&mut b, VilogCommandKind::DrawStar.code());
        let xy = [x, y];
        assert(xy@ =~= seq![x, y]);
        add_words(&mut b, &xy);
        add_u16(&mut b, points);
        let rs = [radius, inner_radius];
        assert(rs@ =~= seq![radius, inner_radius]);
        add_words(&mut b, &rs);
        add_u16(&mut b, rotation);
        self.push_bytes(&b);
        Ok(())
    }

    /// Draws a grid of cells.
    pub fn draw_grid(&mut self, x: u32, y: u32, grid_width: u16, grid_height: u16, cell_width: u32, cell_height: u32) -> (r: Result<
        (),
        LogError,
    >)
        ensures
            r is Ok,
            final(self).pending() == appended(
                old(self).pending(),
                seq![command_code(VilogCommandKind::DrawGrid)] + words(seq![x, y]) + be_u16(grid_width) + be_u16(grid_height) + words(
                    seq![cell_width, cell_height],
                ),
            ),
            final(self).needs_texture() == old(self).needs_texture(),
    {
        let mut b: Vec<u8> = Vec::new();
        add_u8(&mut b, VilogCommandKind::DrawGrid.code());
        let xy = [x, y];
        assert(xy@ =~= seq![x, y]);
        add_words(&mut b, &xy);
        add_u16(&mut b, grid_width);
        add_u16(&mut b, grid_height);
        let cs = [cell_width, cell_height];
        assert(cs@ =~= seq![cell_width, cell_height]);
        add_words(&mut b, &cs);
        self.push_bytes(&b);
        Ok(())
    }

    /// Draws columns of the given heights, written under the rectangle
    /// command: the position, column width and margin, then the number of
    /// heights and the heights. More than 65535 heights are refused after
    /// the first four numbers.
    pub fn draw_columns(&mut self, x: u32, bottom: u32, column_width: u32, margin: u32, heights: &[u32]) -> (r: Result<
        (),
        LogError,
    >)
        ensures
            heights@.len() <= u16::MAX ==> r is Ok && final(self).pending() == appended(
                old(self).pending(),
                seq![command_code(VilogCommandKind::DrawRectangle)] + words(seq![x, bottom, column_width, margin]) + be_u16(
                    heights@.len() as u16,
                ) + words(heights@),
            ),
            heights@.len() > u16::MAX ==> r == Err::<(), LogError>(LogError::TooLong(heights@.len() as usize))
                && final(self).pending() == appended(
                old(self).pending(),
                seq![command_code(VilogCommandKind::DrawRectangle)] + words(seq![x, bottom, column_width, margin]),
            ),
            final(self).needs_texture() == old(self).needs_texture(),
    {
        let mut b: Vec<u8> = Vec::new();
        add_u8(&mut b, VilogCommandKind::DrawRectangle.code());
        let vs = [x, bottom, column_width, margin];
        assert(vs@ =~= seq![x, bottom, column_width, margin]);
        add_words(&mut b, &vs);
        let len = heights.len();
        if len > 65535 {
            self.push_bytes(&b);
            return Err(LogError::TooLong(len));
        }
        add_u16(&mut b, len as u16);
        add_words(&mut b, heights);
        self.push_bytes(&b);
        Ok(())
    }

    /// Draws an arrow to `(to_x, to_y)` with the parts asked for.
    pub fn arrow_to(
        &mut self,
        to_x: u32,
        to_y: u32,
        tail_visible: bool,
        body_visible: bool,
        head_visible: bool,
        arrow_width: u32,
        arrow_height: u32,
    ) -> (r: Result<(), LogError>)
        ensures
            r is Ok,
            final(self).pending() == appended(
                old(self).pending(),
                seq![command_code(VilogCommandKind::ArrowTo)] + words(seq![to_x, to_y]) + seq![
                    arrow_flags(tail_visible, body_visible, head_visible),
                ] + words(seq![arrow_width, arrow_height]),
            ),
            final(self).needs_texture() == old(self).needs_texture(),
    {
        let mut b: Vec<u8> = Vec::new();
        add_u8(&mut b, VilogCommandKind::ArrowTo.code());
        let vs = [to_x, to_y];
        assert(vs@ =~= seq![to_x, to_y]);
        add_words(&mut b, &vs);
        add_u8(&mut b, flags3(tail_visible, body_visible, head_visible));
        let ws = [arrow_width, arrow_height];
        assert(ws@ =~= seq![arrow_width, arrow_height]);
        add_words(&mut b, &ws);
        self.push_bytes(&b);
        Ok(())
    }

    /// Draws a curved arrow through a control point.
    pub fn curve_arrow_to(
        &mut self,
        ctrl_x: u32,
        ctrl_y: u32,
        to_x: u32,
        to_y: u32,
        tail_visible: bool,
        body_visible: bool,
        head_visible: bool,
        arrow_width: u32,
        arrow_height: u32,
    ) -> (r: Result<(), LogError>)
        ensures
            r is Ok,
            final(self).pending() == appended(
                old(self).pending(),
                seq![command_code(VilogCommandKind::CurveArrowTo)] + words(seq![ctrl_x, ctrl_y, to_x, to_y]) + seq![
                    arrow_flags(tail_visible, body_visible, head_visible),
                ] + words(seq![arrow_width, arrow_height]),
            ),
            final(self).needs_texture() == old(self).needs_texture(),
    {
        let mut b: Vec<u8> = Vec::new();
        add_u8(&mut b, VilogCommandKind::CurveArrowTo.code());
        let vs = [ctrl_x, ctrl_y, to_x, to_y];
        assert(vs@ =~= seq![ctrl_x, ctrl_y, to_x, to_y]);
        add_words(&mut b, &vs);
        add_u8(&mut b, flags3(tail_visible, body_visible, head_visible));
        let ws = [arrow_width, arrow_height];
        assert(ws@ =~= seq![arrow_width, arrow_height]);
        add_words(&mut b, &ws);
        self.push_bytes(&b);
        Ok(())
    }

    /// Draws an arrow along an arc, from one angle code to another.
    pub fn arc_arrow(
        &mut self,
        ctrl_x: u32,
        ctrl_y: u32,
        radius: u32,
        start_angle: u16,
        end_angle: u16,
        anticlockwise: bool,
        tail_visible: bool,
        body_visible: bool,
        head_visible: bool,
        arrow_width: u32,
        arrow_height: u32,
    ) -> (r: Result<(), LogError>)
        ensures
            r is Ok,
            final(self).pending() == appended(
                old(self).pending(),
                seq![command_code(VilogCommandKind::ArcArrowTo)] + words(seq![ctrl_x, ctrl_y, radius]) + be_u16(start_angle)
                    + be_u16(end_angle) + seq![arc_arrow_flags(anticlockwise, tail_visible, body_visible, head_visible)]
                    + words(seq![arrow_width, arrow_height]),
            ),
            final(self).needs_texture() == old(self).needs_texture(),
    {
        let mut b: Vec<u8> = Vec::new();
        add_u8(&mut b, VilogCommandKind::ArcArrowTo.code());
        let vs = [ctrl_x, ctrl_y, radius];
        assert(vs@ =~= seq![ctrl_x, ctrl_y, radius]);
        add_words(&mut b, &vs);
        add_u16(&mut b, start_angle);
        add_u16(&mut b, end_angle);
        let f = (if anticlockwise { 1u8 } else { 0 }) + 2 * flags3(tail_visible, body_visible, head_visible);
        add_u8(&mut b, f);
        let ws = [arrow_width, arrow_height];
        assert(ws@ =~= seq![arrow_width, arrow_height]);
        add_words(&mut b, &ws);
        self.push_bytes(&b);
        Ok(())
    }

    /// Multiplies the transform by the matrix `(a, b, c, d, tx, ty)`.
    pub fn multply_transform(&mut self, a: u32, b: u32, c: u32, d: u32, tx: u32, ty: u32) -> (r: Result<(), LogError>)
        ensures
            r is Ok,
            final(self).pending() == appended(
                old(self).pending(),
                seq![command_code(VilogCommandKind::MultiplyTranform)] + words(seq![a, b, c, d, tx, ty]),
            ),
            final(self).needs_texture() == old(self).needs_texture(),
    {
        let vs = [a, b, c, d, tx, ty];
        assert(vs@ =~= seq![a, b, c, d, tx, ty]);
        self.words_command(VilogCommandKind::MultiplyTranform, &vs)
    }

    /// Sets the transform to the matrix `(a, b, c, d, tx, ty)`.
    pub fn reset_transform(&mut self, a: u32, b: u32, c: u32, d: u32, tx: u32, ty: u32) -> (r: Result<(), LogError>)
        ensures
            r is Ok,
            final(self).pending() == appended(
                old(self).pending(),
                seq![command_code(VilogCommandKind::ResetTranform)] + words(seq![a, b, c, d, tx, ty]),
            ),
            final(self).needs_texture() == old(self).needs_texture(),
    {
        let vs = [a, b, c, d, tx, ty];
        assert(vs@ =~= seq![a, b, c, d, tx, ty]);
        self.words_command(VilogCommandKind::ResetTranform, &vs)
    }

    /// Appends a command with one 16-bit alpha code.
    fn alpha_command(&mut self, kind: VilogCommandKind, alpha: u16) -> (r: Result<(), LogError>)
        ensures
            r is Ok,
            final(self).pending() == appended(old(self).pending(), seq![command_code(kind)] + be_u16(alpha)),
            final(self).needs_texture() == old(self).needs_texture(),
    {
        let mut b: Vec<u8> = Vec::new();
        add_u8(&mut b, kind.code());
        add_u16(&mut b, alpha);
        self.push_bytes(&b);
        Ok(())
    }

    /// Multiplies the alpha by an alpha code.
    pub fn multply_alpha(&mut self, alpha: u16) -> (r: Result<(), LogError>)
        ensures
            r is Ok,
            final(self).pending() == appended(old(self).pending(), seq![command_code(VilogCommandKind::MultiplyAlpha)] + be_u16(alpha)),
            final(self).needs_texture() == old(self).needs_texture(),
    {
        self.alpha_command(VilogCommandKind::MultiplyAlpha, alpha)
    }

    /// Sets the alpha to an alpha code.
    pub fn reset_alpha(&mut self, alpha: u16) -> (r: Result<(), LogError>)
        ensures
            r is Ok,
            final(self).pending() == appended(old(self).pending(), seq![command_code(VilogCommandKind::ResetAlpha)] + be_u16(alpha)),
            final(self).needs_texture() == old(self).needs_texture(),
    {
        self.alpha_command(VilogCommandKind::ResetAlpha, alpha)
    }

    /// Sets the alpha of lines.
    pub fn set_line_alpha(&mut self, alpha: u16) -> (r: Result<(), LogError>)
        ensures
            r is Ok,
            final(self).pending() == appended(old(self).pending(), seq![command_code(VilogCommandKind::SetLineAlpha)] + be_u16(alpha)),
            final(self).needs_texture() == old(self).needs_texture(),
    {
        self.alpha_command(VilogCommandKind::SetLineAlpha, alpha)
    }

    /// Sets the alpha of fills.
    pub fn set_fill_alpha(&mut self, alpha: u16) -> (r: Result<(), LogError>)
        ensures
            r is Ok,
            final(self).pending() == appended(old(self).pending(), seq![command_code(VilogCommandKind::SetFillAlpha)] + be_u16(alpha)),
            final(self).needs_texture() == old(self).needs_texture(),
    {
        self.alpha_command(VilogCommandKind::SetFillAlpha, alpha)
    }

    /// Sets the thickness of lines.
    pub fn set_line_thickness(&mut self, thickness: u32) -> (r: Result<(), LogError>)
        ensures
            r is Ok,
            final(self).pending() == appended(old(self).pending(), seq![command_code(VilogCommandKind::SetLineThickness)] + words(seq![thickness])),
            final(self).needs_texture() == old(self).needs_texture(),
    {
        let vs = [thickness];
        assert(vs@ =~= seq![thickness]);
        self.words_command(VilogCommandKind::SetLineThickness, &vs)
    }

    /// Sets where lines lie on their path.
    pub fn set_line_alignment(&mut self, alignment: u32) -> (r: Result<(), LogError>)
        ensures
            r is Ok,
            final(self).pending() == appended(old(self).pending(), seq![command_code(VilogCommandKind::SetLineAlignment)] + words(seq![alignment])),
            final(self).needs_texture() == old(self).needs_texture(),
    {
        let vs = [alignment];
        assert(vs@ =~= seq![alignment]);
        self.words_command(VilogCommandKind::SetLineAlignment, &vs)
    }

    /// Sets the font size.
    pub fn set_font_size(&mut self, size: u32) -> (r: Result<(), LogError>)
        ensures
            r is Ok,
            final(self).pending() == appended(old(self).pending(), seq![command_code(VilogCommandKind::SetFontSize)] + words(seq![size])),
            final(self).needs_texture() == old(self).needs_texture(),
    {
        let vs = [size];
        assert(vs@ =~= seq![size]);
        self.words_command(VilogCommandKind::SetFontSize, &vs)
    }

    /// Sets the horizontal alignment of texts.
    pub fn set_text_horizontal_align(&mut self, align: u32) -> (r: Result<(), LogError>)
        ensures
            r is Ok,
            final(self).pending() == appended(old(self).pending(), seq![command_code(VilogCommandKind::SetTextHorizontalAlign)] + words(seq![align])),
            final(self).needs_texture() == old(self).needs_texture(),
    {
        let vs = [align];
        assert(vs@ =~= seq![align]);
        self.words_command(VilogCommandKind::SetTextHorizontalAlign, &vs)
    }

    /// Sets the vertical alignment of texts.
    pub fn set_text_vertical_align(&mut self, align: u32) -> (r: Result<(), LogError>)
        ensures
            r is Ok,
            final(self).pending() == appended(old(self).pending(), seq![command_code(VilogCommandKind::SetTextVerticalAlign)] + words(seq![align])),
            final(self).needs_texture() == old(self).needs_texture(),
    {
        let vs = [align];
        assert(vs@ =~= seq![align]);
        self.words_command(VilogCommandKind::SetTextVerticalAlign, &vs)
    }

    /// Sets the horizontal alignment of images.
    pub fn set_image_horizontal_align(&mut self, align: u32) -> (r: Result<(), LogError>)
        ensures
            r is Ok,
            final(self).pending() == appended(old(self).pending(), seq![command_code(VilogCommandKind::SetImageHorizontalAlign)] + words(seq![align])),
            final(self).needs_texture() == old(self).needs_texture(),
    {
        let vs = [align];
        assert(vs@ =~= seq![align]);
        self.words_command(VilogCommandKind::SetImageHorizontalAlign, &vs)
    }

    /// Sets the vertical alignment of images.
    pub fn set_image_vertical_align(&mut self, align: u32) -> (r: Result<(), LogError>)
        ensures
            r is Ok,
            final(self).pending() == appended(old(self).pending(), seq![command_code(VilogCommandKind::SetImageVerticalAlign)] + words(seq![align])),
            final(self).needs_texture() == old(self).needs_texture(),
    {
        let vs = [align];
        assert(vs@ =~= seq![align]);
        self.words_command(VilogCommandKind::SetImageVerticalAlign, &vs)
    }

    /// Draws `text` at `(x, y)`: the text with a three-byte length; one of
    /// more than 2^24 - 1 bytes is refused after the position.
    pub fn draw_text(&mut self, x: u32, y: u32, text: &str) -> (r: Result<(), LogError>)
        ensures
            text.spec_bytes().len() <= 0xFFFFFF ==> r is Ok && final(self).pending() == appended(
                old(self).pending(),
                seq![command_code(VilogCommandKind::DrawText)] + words(seq![x, y]) + le_u24(text.spec_bytes().len() as u32)
                    + text.spec_bytes(),
            ),
            text.spec_bytes().len() > 0xFFFFFF ==> r == Err::<(), LogError>(LogError::TooLong(text.spec_bytes().len() as usize))
                && final(self).pending() == appended(
                old(self).pending(),
                seq![command_code(VilogCommandKind::DrawText)] + words(seq![x, y]),
            ),
            final(self).needs_texture() == old(self).needs_texture(),
    {
        let ghost p0 = self.pending();
        let vs = [x, y];
        assert(vs@ =~= seq![x, y]);
        let _ = self.words_command(VilogCommandKind::DrawText, &vs);
        let ghost p1 = self.pending();
        let entry = self.writer.entry();
        let r = entry.write_long_str(text);
        proof {
            let head = seq![command_code(VilogCommandKind::DrawText)] + words(seq![x, y]);
            let tail = if text.spec_bytes().len() <= 0xFFFFFF {
                le_u24(text.spec_bytes().len() as u32) + text.spec_bytes()
            } else {
                Seq::<u8>::empty()
            };
            assert(entry.data() =~= p1.last().0 + tail);
            assert(self.pending() == appended(p1, tail));
            lemma_appended_concat(p0, head, tail);
            if text.spec_bytes().len() <= 0xFFFFFF {
                assert(head + tail =~= head + le_u24(text.spec_bytes().len() as u32) + text.spec_bytes());
            } else {
                assert(head + tail =~= head);
            }
        }
        r
    }

    /// Draws the image at `path` at `(x, y)`: the path with a two-byte
    /// length; one of more than 65535 bytes is refused after the position.
    pub fn draw_image(&mut self, x: u32, y: u32, path: &str) -> (r: Result<(), LogError>)
        ensures
            path.spec_bytes().len() <= u16::MAX ==> r is Ok && final(self).pending() == appended(
                old(self).pending(),
                seq![command_code(VilogCommandKind::DrawImage)] + words(seq![x, y]) + be_u16(path.spec_bytes().len() as u16)
                    + path.spec_bytes(),
            ),
            path.spec_bytes().len() > u16::MAX ==> r == Err::<(), LogError>(LogError::TooLong(path.spec_bytes().len() as usize))
                && final(self).pending() == appended(
                old(self).pending(),
                seq![command_code(VilogCommandKind::DrawImage)] + words(seq![x, y]),
            ),
            final(self).needs_texture() == old(self).needs_texture(),
    {
        let ghost p0 = self.pending();
        let vs = [x, y];
        assert(vs@ =~= seq![x, y]);
        let _ = self.words_command(VilogCommandKind::DrawImage, &vs);
        let r = self.push_short_str(path);
        proof {
            let head = seq![command_code(VilogCommandKind::DrawImage)] + words(seq![x, y]);
            let tail = if path.spec_bytes().len() <= u16::MAX {
                be_u16(path.spec_bytes().len() as u16) + path.spec_bytes()
            } else {
                Seq::<u8>::empty()
            };
            lemma_appended_concat(p0, head, tail);
            if path.spec_bytes().len() <= u16::MAX {
                assert(head + tail =~= head + be_u16(path.spec_bytes().len() as u16) + path.spec_bytes());
            } else {
                assert(head + tail =~= head);
            }
        }
        r
    }
}

} // verus!
