//! Which files of a directory are taken for videos.
//!
//! Paths are read as text, by the rules of [`crate::cli`]: a path that ends
//! in a separator has an empty last component and so no extension.

use crate::chars::chars_of;
use crate::cli::{extension_dot, file_name, find_extension_dot, find_name_start};
use vstd::prelude::*;

verus! {

/// The extension of the last component of the path `s`: what follows the
/// extension's dot, and nothing where there is no such dot.
pub open spec fn extension(s: Seq<char>) -> Seq<char> {
    let name = file_name(s);
    let dot = extension_dot(name);
    if dot < name.len() {
        name.subrange(dot + 1, name.len() as int)
    } else {
        Seq::empty()
    }
}

/// Whether `ext` is one of the extensions that videos go by.
pub open spec fn is_video_extension(ext: Seq<char>) -> bool {
    ||| ext == seq!['m', 'p', '4']
    ||| ext == seq!['m', '4', 'v']
    ||| ext == seq!['m', 'k', 'v']
    ||| ext == seq!['a', 'v', 'i']
    ||| ext == seq!['w', 'e', 'b', 'm']
    ||| ext == seq!['m', 'o', 'v']
    ||| ext == seq!['f', 'l', 'v']
    ||| ext == seq!['t', 's']
}

fn is2(e: &Vec<char>, a: char, b: char) -> (r: bool)
    ensures
        r == (e@ == seq![a, b]),
{
    let r = e.len() == 2 && e[0] == a && e[1] == b;
    proof {
        if r {
            assert(e@ =~= seq![a, b]);
        } else {
            assert(seq![a, b].len() == 2 && seq![a, b][0] == a && seq![a, b][1] == b);
        }
    }
    r
}

fn is3(e: &Vec<char>, a: char, b: char, c: char) -> (r: bool)
    ensures
        r == (e@ == seq![a, b, c]),
{
    let r = e.len() == 3 && e[0] == a && e[1] == b && e[2] == c;
    proof {
        if r {
            assert(e@ =~= seq![a, b, c]);
        } else {
            assert(seq![a, b, c].len() == 3 && seq![a, b, c][0] == a && seq![a, b, c][1] == b
                && seq![a, b, c][2] == c);
        }
    }
    r
}

fn is4(e: &Vec<char>, a: char, b: char, c: char, d: char) -> (r: bool)
    ensures
        r == (e@ == seq![a, b, c, d]),
{
    let r = e.len() == 4 && e[0] == a && e[1] == b && e[2] == c && e[3] == d;
    proof {
        if r {
            assert(e@ =~= seq![a, b, c, d]);
        } else {
            assert(seq![a, b, c, d].len() == 4 && seq![a, b, c, d][0] == a && seq![a, b, c, d][1]
                == b && seq![a, b, c, d][2] == c && seq![a, b, c, d][3] == d);
        }
    }
    r
}

/// Whether the file at `path` is taken for a video: its last component
/// ends in `.mp4`, `.m4v`, `.mkv`, `.avi`, `.webm`, `.mov`, `.flv` or `.ts`.
/// So `clip.mp4/` is none.
pub fn is_video(path: &str) -> (b: bool)
    ensures
        b == is_video_extension(extension(path@)),
{
    let v = chars_of(path);
    let start = find_name_start(&v);
    let dot = find_extension_dot(&v, start);
    let mut ext: Vec<char> = Vec::new();
    if dot < v.len() {
        let mut i: usize = dot + 1;
        while i < v.len()
            invariant
                dot + 1 <= i <= v@.len(),
                ext@ == v@.subrange(dot + 1, i as int),
            decreases v@.len() - i,
        {
            ext.push(v[i]);
            i += 1;
            assert(v@.subrange(dot + 1, i as int) == v@.subrange(dot + 1, i - 1).push(v@[i - 1]));
        }
        assert(ext@ == file_name(v@).subrange(dot - start + 1, file_name(v@).len() as int));
    }
    assert(ext@ == extension(path@));
    is3(&ext, 'm', 'p', '4') || is3(&ext, 'm', '4', 'v') || is3(&ext, 'm', 'k', 'v') || is3(
        &ext,
        'a',
        'v',
        'i',
    ) || is4(&ext, 'w', 'e', 'b', 'm') || is3(&ext, 'm', 'o', 'v') || is3(&ext, 'f', 'l', 'v')
        || is2(&ext, 't', 's')
}

} // verus!
