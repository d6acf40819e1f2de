//! Recognizing image files by name, as the batch sender does when it walks a
//! directory of images.

use vstd::prelude::*;
use vstd::string::StrSliceExecFns;

verus! {

/// The position of the last occurrence of the character with code `c`, or
/// -1.
pub open spec fn last_index_of(s: Seq<char>, c: u32) -> int
    decreases s.len(),
{
    if s.len() == 0 {
        -1
    } else if s.last() as u32 == c {
        s.len() - 1
    } else {
        last_index_of(s.drop_last(), c)
    }
}

proof fn lemma_last_index_of_at(s: Seq<char>, c: u32, p: int)
    requires
        0 <= p < s.len(),
        s[p] as u32 == c,
        forall|j: int| p < j < s.len() ==> (#[trigger] s[j] as u32) != c,
    ensures
        last_index_of(s, c) == p,
    decreases s.len(),
{
    if p < s.len() - 1 {
        assert(forall|j: int| 0 <= j < s.len() - 1 ==> s.drop_last()[j] == s[j]);
        lemma_last_index_of_at(s.drop_last(), c, p);
    }
}

proof fn lemma_last_index_of_none(s: Seq<char>, c: u32)
    requires
        forall|j: int| 0 <= j < s.len() ==> (#[trigger] s[j] as u32) != c,
    ensures
        last_index_of(s, c) == -1,
    decreases s.len(),
{
    if s.len() > 0 {
        assert(forall|j: int| 0 <= j < s.len() - 1 ==> s.drop_last()[j] == s[j]);
        lemma_last_index_of_none(s.drop_last(), c);
    }
}

/// The final path component: everything after the last slash.
pub open spec fn file_name_of(path: Seq<char>) -> Seq<char> {
    path.subrange(last_index_of(path, 47) + 1, path.len() as int)
}

/// The extension: what follows the last dot of the file name, unless the
/// dot begins the name (a hidden file) or there is none.
pub open spec fn extension_of(name: Seq<char>) -> Option<Seq<char>> {
    let d = last_index_of(name, 46);
    if d <= 0 {
        None
    } else {
        Some(name.subrange(d + 1, name.len() as int))
    }
}

/// A character's code with an ASCII capital folded to lower case.
pub open spec fn lower_code(c: char) -> u32 {
    if 65 <= c as u32 <= 90 {
        (c as u32 + 32) as u32
    } else {
        c as u32
    }
}

/// The extension equals the pattern's character codes, ASCII
/// case-insensitively.
pub open spec fn ext_matches(e: Seq<char>, pat: Seq<u32>) -> bool {
    e.len() == pat.len() && forall|i: int| 0 <= i < e.len() ==> lower_code(#[trigger] e[i]) == pat[i]
}

/// The extensions the sender treats as images: png, jpg, jpeg, gif, bmp.
pub open spec fn is_image_ext(e: Seq<char>) -> bool {
    ||| ext_matches(e, seq![112, 110, 103])
    ||| ext_matches(e, seq![106, 112, 103])
    ||| ext_matches(e, seq![106, 112, 101, 103])
    ||| ext_matches(e, seq![103, 105, 102])
    ||| ext_matches(e, seq![98, 109, 112])
}

/// The path names an image file: its extension is one of the image
/// extensions, ASCII case-insensitively.
pub open spec fn spec_is_image_file(path: Seq<char>) -> bool {
    extension_of(file_name_of(path)) matches Some(e) && is_image_ext(e)
}

/// Finds the last occurrence of the character with code `c`, scanning the
/// characters once.
fn find_last(s: &str, c: u32) -> (r: Option<usize>)
    ensures
        r matches Some(p) ==> p < s@.len() && last_index_of(s@, c) == p,
        r is None ==> last_index_of(s@, c) == -1,
{
    let n = s.unicode_len();
    let mut best: Option<usize> = None;
    let mut i: usize = 0;
    while i < n
        invariant
            i <= n,
            n == s@.len(),
            best matches Some(p) ==> p < i && s@[p as int] as u32 == c && forall|j: int|
                p < j < i ==> (#[trigger] s@[j] as u32) != c,
            best is None ==> forall|j: int| 0 <= j < i ==> (#[trigger] s@[j] as u32) != c,
        decreases n - i,
    {
        if s.get_char(i) as u32 == c {
            best = Some(i);
        }
        i += 1;
    }
    proof {
        match best {
            Some(p) => lemma_last_index_of_at(s@, c, p as int),
            None => lemma_last_index_of_none(s@, c),
        }
    }
    best
}

/// Whether a path names an image file, by its extension: one of png, jpg,
/// jpeg, gif or bmp, compared ASCII case-insensitively.
pub fn is_image_file(path: &str) -> (r: bool)
    ensures
        r == spec_is_image_file(path@),
{
    let n = path.unicode_len();
    let name_start: usize = match find_last(path, 47) {
        Some(p) => p + 1,
        None => 0,
    };
    let name = path.substring_char(name_start, n);
    proof {
        assert(name@ =~= file_name_of(path@));
    }
    let name_len = name.unicode_len();
    let dot: usize = match find_last(name, 46) {
        Some(p) => p,
        None => {
            return false;
        },
    };
    if dot == 0 {
        return false;
    }
    let ext = name.substring_char(dot + 1, name_len);
    proof {
        assert(ext@ =~= extension_of(name@).unwrap());
    }
    let elen = ext.unicode_len();
    if elen < 3 || elen > 4 {
        proof {
            assert(!is_image_ext(ext@));
        }
        return false;
    }
    let mut codes: [u32; 4] = [0, 0, 0, 0];
    let mut i: usize = 0;
    while i < elen
        invariant
            i <= elen,
            elen == ext@.len(),
            3 <= elen <= 4,
            forall|j: int| 0 <= j < i ==> codes[j] == lower_code(ext@[j]),
        decreases elen - i,
    {
        let c = ext.get_char(i) as u32;
        let lc = if 65 <= c && c <= 90 {
            c + 32
        } else {
            c
        };
        codes[i] = lc;
        i += 1;
    }
    let matched: bool = if elen == 3 {
        (codes[0] == 112 && codes[1] == 110 && codes[2] == 103) || (codes[0] == 106 && codes[1]
            == 112 && codes[2] == 103) || (codes[0] == 103 && codes[1] == 105 && codes[2] == 102)
            || (codes[0] == 98 && codes[1] == 109 && codes[2] == 112)
    } else {
        codes[0] == 106 && codes[1] == 112 && codes[2] == 101 && codes[3] == 103
    };
    proof {
        assert(matched == is_image_ext(ext@));
    }
    matched
}

} // verus!
