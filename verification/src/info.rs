//! The description of the input that heads the sheet.

use crate::chars::{decimal, digit_char, push_decimal, spec_digit, string_of};
use crate::cli::Args;
use crate::rational::Rational;
use crate::text::{Anchor, Label};
use crate::utils::{format_seconds, VideoDuration};
use vstd::prelude::*;
use vstd::string::StringExecFns;

verus! {

/// Size of the header's type in pixels.
pub const TEXT_SIZE: u32 = 36;

/// Height of one line of the header in pixels.
pub const LINE_HEIGHT: u32 = 42;

/// What is known of the input file and its video stream.
#[derive(Debug)]
pub struct Info {
    pub file_name: String,
    pub file_size: usize,
    pub video_width: u32,
    pub video_height: u32,
    pub video_duration: Rational,
    pub video_codec: String,
}

/// Height of the header band: the gap and three lines where the header is
/// wanted, nothing where it is not.
pub open spec fn spec_info_area_height(args: &Args) -> int {
    if args.header {
        args.space + 3 * LINE_HEIGHT
    } else {
        0
    }
}

/// Height of the band that the header takes above the grid.
pub fn info_area_height(args: &Args) -> (h: u32)
    requires
        spec_info_area_height(args) <= u32::MAX,
    ensures
        h == spec_info_area_height(args),
{
    if args.header {
        args.space + 3 * LINE_HEIGHT
    } else {
        0
    }
}

/// `s * 100 / unit`, rounded to the nearest whole number, a tie to the even
/// one.
pub open spec fn hundredths(s: nat, unit: nat) -> nat {
    let q = s * 100 / unit;
    let r = s * 100 % unit;
    if 2 * r > unit || (2 * r == unit && q % 2 == 1) {
        q + 1
    } else {
        q
    }
}

/// A number of hundredths in decimal, with two places behind the point.
pub open spec fn fixed2(h: nat) -> Seq<char> {
    decimal(h / 100) + seq!['.', spec_digit(h / 10 % 10), spec_digit(h % 10)]
}

/// A size in bytes for human eyes: in bytes up to 1024, then in the
/// largest binary unit that it does not exceed 1024 of, up to TiB, with two
/// decimal places.
pub open spec fn readable_size_text(s: nat) -> Seq<char> {
    if s <= 1024 {
        decimal(s) + seq![' ', 'B']
    } else if s <= 1024 * 1024 {
        fixed2(hundredths(s, 1024)) + seq![' ', 'K', 'i', 'B']
    } else if s <= 1024 * 1024 * 1024 {
        fixed2(hundredths(s, 1024 * 1024)) + seq![' ', 'M', 'i', 'B']
    } else if s <= 1024 * 1024 * 1024 * 1024 {
        fixed2(hundredths(s, 1024 * 1024 * 1024)) + seq![' ', 'G', 'i', 'B']
    } else {
        fixed2(hundredths(s, 1024 * 1024 * 1024 * 1024)) + seq![' ', 'T', 'i', 'B']
    }
}

fn push_scaled(out: &mut Vec<char>, s: u64, unit: u64, letter: char)
    requires
        unit > 0,
    ensures
        final(out)@ == old(out)@ + fixed2(hundredths(s as nat, unit as nat)) + seq![
            ' ',
            letter,
            'i',
            'B',
        ],
{
    let scaled: u128 = s as u128 * 100;
    let unit: u128 = unit as u128;
    let q: u128 = scaled / unit;
    let r: u128 = scaled % unit;
    let h: u128 = if 2 * r > unit || (2 * r == unit && q % 2 == 1) {
        q + 1
    } else {
        q
    };
    assert(h <= scaled + 1) by (nonlinear_arith)
        requires
            q == scaled / unit,
            unit > 0,
            h <= q + 1,
    ;
    let ghost before = out@;
    push_decimal(out, (h / 100) as u64);
    out.push('.');
    out.push(digit_char((h / 10 % 10) as u8));
    out.push(digit_char((h % 10) as u8));
    out.push(' ');
    out.push(letter);
    out.push('i');
    out.push('B');
    assert(out@ == before + fixed2(h as nat) + seq![' ', letter, 'i', 'B']);
}

/// A size in bytes for human eyes, such as `1.50 KiB`.
pub fn readable_size(s: usize) -> (text: String)
    ensures
        text@ == readable_size_text(s as nat),
{
    let mut out: Vec<char> = Vec::new();
    let n: u64 = s as u64;
    if n <= 1024 {
        push_decimal(&mut out, n);
        out.push(' ');
        out.push('B');
        assert(out@ == decimal(s as nat) + seq![' ', 'B']);
    } else if n <= 1024 * 1024 {
        push_scaled(&mut out, n, 1024, 'K');
    } else if n <= 1024 * 1024 * 1024 {
        push_scaled(&mut out, n, 1024 * 1024, 'M');
    } else if n <= 1024 * 1024 * 1024 * 1024 {
        push_scaled(&mut out, n, 1024 * 1024 * 1024, 'G');
    } else {
        push_scaled(&mut out, n, 1024 * 1024 * 1024 * 1024, 'T');
    }
    string_of(&out)
}

/// First line of the header: the file's name and size.
pub open spec fn file_line(info: &Info) -> Seq<char> {
    "文件："@ + info.file_name@ + " ("@ + readable_size_text(info.file_size as nat) + ")"@
}

/// Second line of the header: how long the video lasts and how large its
/// frames are.
pub open spec fn video_line(info: &Info) -> Seq<char> {
    "视频时长："@ + format_seconds(
        info.video_duration.num as int,
        info.video_duration.den as int,
    ) + "，分辨率: "@ + decimal(info.video_width as nat) + "×"@ + decimal(
        info.video_height as nat,
    )
}

/// Third line of the header: the name of the codec.
pub open spec fn codec_line(info: &Info) -> Seq<char> {
    "视频编码："@ + info.video_codec@
}

/// Whether `lines` is the header for `info` under the options `args`: no
/// line where no header is wanted, and otherwise the three lines, each
/// anchored at its top left, indented by the gap and one line's height
/// below the one before.
pub open spec fn is_header(lines: Seq<Label>, info: &Info, args: &Args) -> bool {
    if args.header {
        &&& lines.len() == 3
        &&& lines[0].text@ == file_line(info)
        &&& lines[1].text@ == video_line(info)
        &&& lines[2].text@ == codec_line(info)
        &&& forall|i: int|
            0 <= i < 3 ==> (#[trigger] lines[i]).x == args.space && lines[i].y == args.space + i
                * LINE_HEIGHT && lines[i].anchor == Anchor::TopLeft
    } else {
        lines.len() == 0
    }
}

fn decimal_string(n: u32) -> (s: String)
    ensures
        s@ == decimal(n as nat),
{
    let mut out: Vec<char> = Vec::new();
    push_decimal(&mut out, n as u64);
    string_of(&out)
}

/// The lines of the header: the file's name and size, the video's length
/// and frame size, and its codec, one below the other, each indented by the
/// gap.
pub fn plot_info(info: &Info, args: &Args) -> (lines: Vec<Label>)
    requires
        info.video_duration.wf(),
    ensures
        is_header(lines@, info, args),
{
    let mut lines: Vec<Label> = Vec::new();
    if !args.header {
        return lines;
    }
    let indent: u64 = args.space as u64;
    let step: u64 = LINE_HEIGHT as u64;

    let mut first = String::from_str("文件：");
    first.append(info.file_name.as_str());
    first.append(" (");
    first.append(readable_size(info.file_size).as_str());
    first.append(")");
    lines.push(Label { text: first, x: indent, y: indent, anchor: Anchor::TopLeft });

    let mut second = String::from_str("视频时长：");
    second.append(VideoDuration(info.video_duration).to_string().as_str());
    second.append("，分辨率: ");
    second.append(decimal_string(info.video_width).as_str());
    second.append("×");
    second.append(decimal_string(info.video_height).as_str());
    lines.push(Label { text: second, x: indent, y: indent + step, anchor: Anchor::TopLeft });

    let mut third = String::from_str("视频编码：");
    third.append(info.video_codec.as_str());
    lines.push(Label { text: third, x: indent, y: indent + 2 * step, anchor: Anchor::TopLeft });
    lines
}

} // verus!
