//! The options of one run and what follows from them.
//!
//! Paths are read as plain text by rules of this library's own, made for
//! paths that end in the name of a file: a component is what stands
//! between separators, `/` and `\` both count as separators on every
//! platform, and the last component is what follows the last separator,
//! whatever it is. These rules are not those of the platform's path
//! library. They part from it where a path ends in a separator (the last
//! component is then empty, not the directory before it) and where the last
//! component is empty, `.` or `..` (replacing the extension then still
//! appends one).

use crate::chars::{append_chars, chars_of, string_of};
use crate::error::SheetError;
use vstd::prelude::*;

verus! {

/// The options of one run.
#[derive(Clone, Debug)]
pub struct Args {
    /// Number of rows of the grid.
    pub rows: u32,
    /// Number of columns of the grid.
    pub cols: u32,
    /// Width of the whole sheet in pixels.
    pub width: u32,
    /// Gap between neighbouring frames, and between frames and the edge.
    pub space: u32,
    /// Extension of the output file, which selects its format.
    pub ext: String,
    /// Path of the font for the labels, if one was given.
    pub font: Option<String>,
    /// Replace the extension of the input's name instead of adding to it.
    pub remove_ext: bool,
    /// Show the finished sheet.
    pub show: bool,
    /// Do not write the sheet to disk.
    pub no_save: bool,
    /// Pass over the files of a batch that fail, instead of reporting them
    /// as the batch's failure.
    pub ignore_error: bool,
    /// Keep rows and columns as given, whatever the frames' orientation.
    pub no_auto_flip: bool,
    /// Leave an existing output file alone.
    pub no_overwrite: bool,
    /// Reserve a band above the grid for the file's description.
    pub header: bool,
    /// Path of the video, or of a directory of videos.
    pub input: String,
}

/// Whether `c` parts the components of a path.
pub open spec fn is_separator(c: char) -> bool {
    c == '/' || c == '\\'
}

/// Where the last component of the path `s` begins: behind its last
/// separator, or at 0. A path that ends in a separator has an empty last
/// component.
pub open spec fn name_start(s: Seq<char>) -> int
    decreases s.len(),
{
    if s.len() == 0 {
        0
    } else if is_separator(s.last()) {
        s.len() as int
    } else {
        name_start(s.drop_last())
    }
}

/// The last component of the path `s`.
pub open spec fn file_name(s: Seq<char>) -> Seq<char> {
    s.subrange(name_start(s), s.len() as int)
}

/// Whether the path `s` ends in the name of a file: its last component is
/// neither empty nor `.` nor `..`. So `dir/` names no file.
pub open spec fn has_file_name(s: Seq<char>) -> bool {
    let name = file_name(s);
    name.len() > 0 && name != seq!['.'] && name != seq!['.', '.']
}

/// Where the extension's dot stands in the name `name`: the position of
/// its last dot, unless that is its first character; the name's length
/// where it has no extension.
pub open spec fn extension_dot(name: Seq<char>) -> int
    decreases name.len(),
{
    if name.len() <= 1 {
        name.len() as int
    } else if name.last() == '.' {
        name.len() - 1
    } else {
        let inner = extension_dot(name.drop_last());
        if inner == name.len() - 1 {
            name.len() as int
        } else {
            inner
        }
    }
}

/// The path `s` with `ext` added behind a dot.
pub open spec fn appended_name(s: Seq<char>, ext: Seq<char>) -> Seq<char> {
    s + seq!['.'] + ext
}

/// The path `s` with the extension of its last component replaced by
/// `ext`; an empty `ext` only removes the extension. A last component
/// without extension, be it empty, `.` or `..`, gets `ext` appended behind
/// a dot: `dir/` becomes `dir/.jpg`.
pub open spec fn replaced_name(s: Seq<char>, ext: Seq<char>) -> Seq<char> {
    let stem_end = name_start(s) + extension_dot(file_name(s));
    if ext.len() == 0 {
        s.subrange(0, stem_end)
    } else {
        s.subrange(0, stem_end) + seq!['.'] + ext
    }
}

fn is_separator_char(c: char) -> (b: bool)
    ensures
        b == is_separator(c),
{
    c == '/' || c == '\\'
}

/// Finds where the last component of the path `v` begins.
pub fn find_name_start(v: &Vec<char>) -> (i: usize)
    ensures
        i == name_start(v@),
        i <= v@.len(),
{
    let mut i: usize = v.len();
    assert(v@.subrange(0, v@.len() as int) == v@);
    while i > 0 && !is_separator_char(v[i - 1])
        invariant
            i <= v@.len(),
            name_start(v@) == name_start(v@.subrange(0, i as int)),
        decreases i,
    {
        assert(v@.subrange(0, i as int).drop_last() == v@.subrange(0, i - 1));
        i -= 1;
    }
    i
}

/// Finds the extension's dot in the name that begins at `start`; the
/// path's length stands for a name without extension.
pub fn find_extension_dot(v: &Vec<char>, start: usize) -> (i: usize)
    requires
        start <= v@.len(),
    ensures
        i - start == extension_dot(v@.subrange(start as int, v@.len() as int)),
        start <= i <= v@.len(),
{
    let len = v.len();
    let ghost name = v@.subrange(start as int, len as int);
    // the last dot that is not the name's first character
    let mut j: usize = len;
    while j - start > 1 && v[j - 1] != '.'
        invariant
            start <= j <= len,
            len == v@.len(),
            forall|k: int| j <= k < len ==> v@[k] != '.',
        decreases j,
    {
        j -= 1;
    }
    let found: bool = j - start > 1;
    proof {
        lemma_extension_dot(name, if found {
            j - 1 - start
        } else {
            name.len() as int
        });
    }
    if found {
        j - 1
    } else {
        len
    }
}

/// The extension's dot is the last dot behind the first character.
proof fn lemma_extension_dot(name: Seq<char>, at: int)
    requires
        0 <= at <= name.len(),
        at < name.len() ==> at > 0 && name[at] == '.',
        forall|k: int| at < k < name.len() && k > 0 ==> name[k] != '.',
        at == name.len() ==> forall|k: int| 0 < k < name.len() ==> name[k] != '.',
    ensures
        extension_dot(name) == at,
    decreases name.len(),
{
    if name.len() <= 1 {
    } else if name.last() == '.' {
    } else {
        let inner = name.drop_last();
        if at == name.len() {
            lemma_extension_dot(inner, inner.len() as int);
        } else {
            lemma_extension_dot(inner, at);
        }
    }
}

impl Args {
    /// The options can be worked with: there is at least one column, the
    /// number of frames fits 32 bits, and the gaps leave room in the width.
    pub open spec fn valid(&self) -> bool {
        &&& self.cols > 0
        &&& self.rows * self.cols <= u32::MAX
        &&& (self.cols + 1) * self.space <= self.width
    }

    /// Tests whether the options can be worked with.
    pub fn is_valid(&self) -> (b: bool)
        ensures
            b == self.valid(),
    {
        let r: u64 = self.rows as u64;
        let c: u64 = self.cols as u64;
        let g: u64 = self.space as u64;
        assert(r * c <= 0xffff_ffff * 0xffff_ffff && (c + 1) * g <= 0x1_0000_0000 * 0xffff_ffff)
            by (nonlinear_arith)
            requires
                r <= 0xffff_ffff,
                c <= 0xffff_ffff,
                g <= 0xffff_ffff,
        ;
        let frames: u64 = r * c;
        let gaps: u64 = (c + 1) * g;
        self.cols > 0 && frames <= 0xffff_ffff && gaps <= self.width as u64
    }

    /// How many frames the sheet holds.
    pub fn num_of_frames(&self) -> (n: u32)
        requires
            self.rows * self.cols <= u32::MAX,
        ensures
            n == self.rows * self.cols,
    {
        self.rows * self.cols
    }

    /// Width of one frame: what the gaps leave of the sheet's width, shared
    /// out evenly among the columns.
    pub fn scaled_frame_width(&self) -> (w: u32)
        requires
            self.cols > 0,
            (self.cols + 1) * self.space <= self.width,
        ensures
            w == (self.width - (self.cols + 1) * self.space) / (self.cols as int),
    {
        let gaps: u64 = (self.cols as u64 + 1) * (self.space as u64);
        let room: u64 = self.width as u64 - gaps;
        let w: u64 = room / (self.cols as u64);
        assert(w <= room) by (nonlinear_arith)
            requires
                w == room / (self.cols as u64),
                self.cols > 0,
        ;
        w as u32
    }

    /// The name of the output file for the input `input`: the input's name
    /// with the output extension added, or put in the place of its own. The
    /// path is read by this library's own rules, as text; to add the
    /// extension it must end in the name of a file.
    pub fn output_name(&self, input: &str) -> (res: Result<String, SheetError>)
        ensures
            self.remove_ext ==> res is Ok && res->Ok_0@ == replaced_name(input@, self.ext@),
            !self.remove_ext && has_file_name(input@) ==> res is Ok && res->Ok_0@
                == appended_name(input@, self.ext@),
            !self.remove_ext && !has_file_name(input@) ==> res == Err::<String, SheetError>(
                SheetError::MissingFileName,
            ),
    {
        let v = chars_of(input);
        let ext = chars_of(self.ext.as_str());
        let start = find_name_start(&v);
        let mut out: Vec<char> = Vec::new();
        if self.remove_ext {
            let dot = find_extension_dot(&v, start);
            let mut i: usize = 0;
            while i < dot
                invariant
                    i <= dot <= v@.len(),
                    out@ == v@.subrange(0, i as int),
                decreases dot - i,
            {
                out.push(v[i]);
                i += 1;
                assert(v@.subrange(0, i as int) == v@.subrange(0, i - 1).push(v@[i - 1]));
            }
            if ext.len() > 0 {
                out.push('.');
                append_chars(&mut out, &ext);
            }
            assert(out@ == replaced_name(input@, self.ext@));
            Ok(string_of(&out))
        } else {
            let n = v.len() - start;
            let named = n > 0 && !(n == 1 && v[start] == '.') && !(n == 2 && v[start] == '.'
                && v[start + 1] == '.');
            proof {
                let name = file_name(v@);
                if n == 1 && name[0] == '.' {
                    assert(name =~= seq!['.']);
                }
                if n == 2 && name[0] == '.' && name[1] == '.' {
                    assert(name =~= seq!['.', '.']);
                }
                assert(seq!['.'].len() == 1 && seq!['.'][0] == '.');
                assert(seq!['.', '.'].len() == 2 && seq!['.', '.'][0] == '.' && seq!['.', '.'][1]
                    == '.');
            }
            if !named {
                return Err(SheetError::MissingFileName);
            }
            append_chars(&mut out, &v);
            out.push('.');
            append_chars(&mut out, &ext);
            assert(out@ == appended_name(input@, self.ext@));
            Ok(string_of(&out))
        }
    }
}

} // verus!
