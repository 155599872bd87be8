//! Splitting a filename into stem and extension, and classifying it as a
//! video or a subtitle file.
//!
//! A filename splits at its last dot, except that a dot in the first
//! position marks a hidden file and is never a separator: `"a.mkv"` has stem
//! `"a"` and extension `"mkv"`, while `".srt"` has stem `".srt"` and no
//! extension. Classification is by a fixed allow-list of extensions, in
//! their lowercase and uppercase spellings; a second, independent test
//! matches the same extensions as literal dotted suffixes of the name.

use vstd::prelude::*;
use vstd::string::StrSliceExecFns;

verus! {

/// The largest index `j` with `1 <= j <= i` such that `name[j]` is a dot,
/// if any. Index 0 is never a separator.
pub open spec fn last_dot_from(name: Seq<char>, i: int) -> Option<int>
    decreases i,
{
    if i < 1 {
        None
    } else if i < name.len() && name[i] == '.' {
        Some(i)
    } else {
        last_dot_from(name, i - 1)
    }
}

/// The index of the dot that separates the name's stem from its extension,
/// if the name has one.
pub open spec fn last_dot(name: Seq<char>) -> Option<int> {
    last_dot_from(name, name.len() - 1)
}

/// The part of the name before the separating dot; the whole name when
/// there is none.
pub open spec fn spec_stem(name: Seq<char>) -> Seq<char> {
    match last_dot(name) {
        Some(k) => name.subrange(0, k),
        None => name,
    }
}

/// The part of the name after the separating dot; `None` when there is none.
pub open spec fn spec_extension(name: Seq<char>) -> Option<Seq<char>> {
    match last_dot(name) {
        Some(k) => Some(name.subrange(k + 1, name.len() as int)),
        None => None,
    }
}

pub proof fn lemma_last_dot_bounds(name: Seq<char>, i: int)
    ensures
        match last_dot_from(name, i) {
            Some(k) => 1 <= k < name.len() && k <= i && name[k] == '.',
            None => true,
        },
    decreases i,
{
    if i >= 1 && !(i < name.len() && name[i] == '.') {
        lemma_last_dot_bounds(name, i - 1);
    }
}

/// Finds the separating dot of `name`, scanning from the end; index 0 is
/// never a separator.
pub fn find_last_dot(name: &str) -> (r: Option<usize>)
    ensures
        match r {
            Some(k) => last_dot(name@) == Some(k as int),
            None => last_dot(name@) is None,
        },
{
    let n = name.unicode_len();
    let mut i: usize = n;
    loop
        invariant
            i <= n,
            n == name@.len(),
            last_dot(name@) == last_dot_from(name@, i - 1),
        decreases i,
    {
        if i <= 1 {
            proof {
                assert(last_dot_from(name@, i - 1) is None);
            }
            return None;
        }
        i = i - 1;
        if name.get_char(i) == '.' {
            proof {
                assert(last_dot_from(name@, i as int) == Some(i as int));
            }
            return Some(i);
        }
        proof {
            assert(last_dot_from(name@, i as int) == last_dot_from(name@, i - 1));
        }
    }
}

/// The recognized video extensions: `mkv` and `mp4`, lowercase or uppercase.
pub open spec fn is_video_ext(e: Seq<char>) -> bool {
    ||| e == seq!['m', 'k', 'v']
    ||| e == seq!['m', 'p', '4']
    ||| e == seq!['M', 'K', 'V']
    ||| e == seq!['M', 'P', '4']
}

/// The recognized subtitle extensions: `ass`, `ssa`, `srt` and `sub`,
/// lowercase or uppercase.
pub open spec fn is_subtitle_ext(e: Seq<char>) -> bool {
    ||| e == seq!['a', 's', 's']
    ||| e == seq!['s', 's', 'a']
    ||| e == seq!['s', 'r', 't']
    ||| e == seq!['s', 'u', 'b']
    ||| e == seq!['A', 'S', 'S']
    ||| e == seq!['S', 'S', 'A']
    ||| e == seq!['S', 'R', 'T']
    ||| e == seq!['S', 'U', 'B']
}

/// The name's extension is a recognized video extension.
pub open spec fn spec_is_video_name(name: Seq<char>) -> bool {
    match spec_extension(name) {
        Some(e) => is_video_ext(e),
        None => false,
    }
}

/// The name's extension is a recognized subtitle extension.
pub open spec fn spec_is_subtitle_name(name: Seq<char>) -> bool {
    match spec_extension(name) {
        Some(e) => is_subtitle_ext(e),
        None => false,
    }
}

/// The last four characters of `name` are `a`, `b`, `c`, `d`.
pub open spec fn has_suffix4(name: Seq<char>, a: char, b: char, c: char, d: char) -> bool {
    &&& name.len() >= 4
    &&& name[name.len() - 4] == a
    &&& name[name.len() - 3] == b
    &&& name[name.len() - 2] == c
    &&& name[name.len() - 1] == d
}

/// The name ends with a dotted video extension, as a literal suffix.
pub open spec fn spec_has_video_suffix(name: Seq<char>) -> bool {
    ||| has_suffix4(name, '.', 'm', 'k', 'v')
    ||| has_suffix4(name, '.', 'm', 'p', '4')
    ||| has_suffix4(name, '.', 'M', 'K', 'V')
    ||| has_suffix4(name, '.', 'M', 'P', '4')
}

/// The name ends with a dotted subtitle extension, as a literal suffix.
pub open spec fn spec_has_subtitle_suffix(name: Seq<char>) -> bool {
    ||| has_suffix4(name, '.', 'a', 's', 's')
    ||| has_suffix4(name, '.', 's', 's', 'a')
    ||| has_suffix4(name, '.', 's', 'r', 't')
    ||| has_suffix4(name, '.', 's', 'u', 'b')
    ||| has_suffix4(name, '.', 'A', 'S', 'S')
    ||| has_suffix4(name, '.', 'S', 'S', 'A')
    ||| has_suffix4(name, '.', 'S', 'R', 'T')
    ||| has_suffix4(name, '.', 'S', 'U', 'B')
}

/// The extension of `name` consists exactly of the three characters
/// `a`, `b`, `c`. `k` is the separating dot's index.
fn ext_is(name: &str, n: usize, k: usize, a: char, b: char, c: char) -> (r: bool)
    requires
        n == name@.len(),
        last_dot(name@) == Some(k as int),
        k < n,
    ensures
        r == (spec_extension(name@) == Some(seq![a, b, c])),
{
    proof {
        lemma_last_dot_bounds(name@, name@.len() - 1);
    }
    let ghost e = spec_extension(name@)->Some_0;
    if n - k - 1 != 3 {
        proof {
            assert(e.len() != 3);
        }
        false
    } else {
        let c0 = name.get_char(k + 1);
        let c1 = name.get_char(k + 2);
        let c2 = name.get_char(k + 3);
        proof {
            assert(e.len() == 3 && e[0] == c0 && e[1] == c1 && e[2] == c2);
        }
        if c0 == a && c1 == b && c2 == c {
            proof {
                assert(e =~= seq![a, b, c]);
            }
            true
        } else {
            false
        }
    }
}

/// The name's extension component is a recognized video extension, in the
/// fixed lowercase or uppercase spelling.
pub fn has_video_extension(name: &str) -> (r: bool)
    ensures
        r == spec_is_video_name(name@),
{
    match find_last_dot(name) {
        None => false,
        Some(k) => {
            let n = name.unicode_len();
            proof {
                lemma_last_dot_bounds(name@, name@.len() - 1);
            }
            ext_is(name, n, k, 'm', 'k', 'v') || ext_is(name, n, k, 'm', 'p', '4') || ext_is(
                name,
                n,
                k,
                'M',
                'K',
                'V',
            ) || ext_is(name, n, k, 'M', 'P', '4')
        },
    }
}

/// The name's extension component is a recognized subtitle extension, in
/// the fixed lowercase or uppercase spelling.
pub fn has_subtitle_extension(name: &str) -> (r: bool)
    ensures
        r == spec_is_subtitle_name(name@),
{
    match find_last_dot(name) {
        None => false,
        Some(k) => {
            let n = name.unicode_len();
            proof {
                lemma_last_dot_bounds(name@, name@.len() - 1);
            }
            ext_is(name, n, k, 'a', 's', 's') || ext_is(name, n, k, 's', 's', 'a') || ext_is(
                name,
                n,
                k,
                's',
                'r',
                't',
            ) || ext_is(name, n, k, 's', 'u', 'b') || ext_is(name, n, k, 'A', 'S', 'S') || ext_is(
                name,
                n,
                k,
                'S',
                'S',
                'A',
            ) || ext_is(name, n, k, 'S', 'R', 'T') || ext_is(name, n, k, 'S', 'U', 'B')
        },
    }
}

/// The four characters ending at the name's last position are `a`,`b`,`c`,`d`.
fn suffix4_is(name: &str, n: usize, a: char, b: char, c: char, d: char) -> (r: bool)
    requires
        n == name@.len(),
        n >= 4,
    ensures
        r == has_suffix4(name@, a, b, c, d),
{
    name.get_char(n - 4) == a && name.get_char(n - 3) == b && name.get_char(n - 2) == c
        && name.get_char(n - 1) == d
}

/// The name ends with `.mkv` or `.mp4`, lowercase or uppercase, as a
/// literal suffix.
pub fn has_video_suffix(name: &str) -> (r: bool)
    ensures
        r == spec_has_video_suffix(name@),
{
    let n = name.unicode_len();
    if n < 4 {
        return false;
    }
    suffix4_is(name, n, '.', 'm', 'k', 'v') || suffix4_is(name, n, '.', 'm', 'p', '4')
        || suffix4_is(name, n, '.', 'M', 'K', 'V') || suffix4_is(name, n, '.', 'M', 'P', '4')
}

/// The name ends with a dotted subtitle extension, lowercase or uppercase,
/// as a literal suffix.
pub fn has_subtitle_suffix(name: &str) -> (r: bool)
    ensures
        r == spec_has_subtitle_suffix(name@),
{
    let n = name.unicode_len();
    if n < 4 {
        return false;
    }
    suffix4_is(name, n, '.', 'a', 's', 's') || suffix4_is(name, n, '.', 's', 's', 'a')
        || suffix4_is(name, n, '.', 's', 'r', 't') || suffix4_is(name, n, '.', 's', 'u', 'b')
        || suffix4_is(name, n, '.', 'A', 'S', 'S') || suffix4_is(name, n, '.', 'S', 'S', 'A')
        || suffix4_is(name, n, '.', 'S', 'R', 'T') || suffix4_is(name, n, '.', 'S', 'U', 'B')
}

/// The extension of `name`, as an owned string.
pub fn extension_of(name: &str) -> (r: Option<String>)
    ensures
        match r {
            Some(e) => spec_extension(name@) == Some(e@),
            None => spec_extension(name@) is None,
        },
{
    match find_last_dot(name) {
        None => None,
        Some(k) => {
            proof {
                lemma_last_dot_bounds(name@, name@.len() - 1);
            }
            let n = name.unicode_len();
            Some(String::from_str(name.substring_char(k + 1, n)))
        },
    }
}

/// A subtitle's new name: the video's stem, a dot, and the subtitle's own
/// extension.
pub open spec fn spec_new_name(video: Seq<char>, ext: Seq<char>) -> Seq<char> {
    spec_stem(video) + seq!['.'] + ext
}

/// Builds the new subtitle name from the paired video's name and the
/// subtitle's extension.
pub fn make_new_name(video: &str, sub_ext: &str) -> (r: String)
    ensures
        r@ == spec_new_name(video@, sub_ext@),
{
    let n = video.unicode_len();
    let stem_end: usize = match find_last_dot(video) {
        Some(k) => {
            proof {
                lemma_last_dot_bounds(video@, video@.len() - 1);
            }
            k
        },
        None => n,
    };
    let stem = video.substring_char(0, stem_end);
    let mut out = String::from_str(stem);
    out.append(".");
    out.append(sub_ext);
    proof {
        reveal_strlit(".");
        assert("."@ =~= seq!['.']);
        assert(out@ =~= spec_new_name(video@, sub_ext@));
    }
    out
}

} // verus!
