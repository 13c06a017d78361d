//! Which files of a folder become the items of a project: the images, by the
//! ending of their names.
use vstd::prelude::*;

use crate::random::shuffle_in_place;

verus! {

/// `c` with an ASCII capital letter turned into its small letter.
pub open spec fn ascii_lower(c: char) -> char {
    if 65 <= (c as u32) <= 90 {
        ((c as u32) + 32) as char
    } else {
        c
    }
}

/// Whether `s` ends with `suffix`, ASCII letters of `s` taken as small letters.
pub open spec fn ends_with_lower(s: Seq<char>, suffix: Seq<char>) -> bool {
    &&& suffix.len() <= s.len()
    &&& forall|i: int|
        0 <= i < suffix.len() ==> ascii_lower(#[trigger] s[s.len() - suffix.len() + i]) == suffix[i]
}

/// Whether a file name ends with `png`, `jpg`, `jpeg` or `webp`, in any case.
pub open spec fn is_image_name(s: Seq<char>) -> bool {
    ||| ends_with_lower(s, seq!['p', 'n', 'g'])
    ||| ends_with_lower(s, seq!['j', 'p', 'g'])
    ||| ends_with_lower(s, seq!['j', 'p', 'e', 'g'])
    ||| ends_with_lower(s, seq!['w', 'e', 'b', 'p'])
}

/// A name is taken as an image exactly when the name, its ASCII capitals
/// lowered, ends with one of the whole strings `png`, `jpg`, `jpeg`, `webp`:
/// its last characters are that string, character for character.
pub proof fn law_image_names(s: Seq<char>)
    ensures
        is_image_name(s) <==> ({
            let l = s.map_values(|c: char| ascii_lower(c));
            ||| (l.len() >= 3 && l.skip(l.len() - 3) == seq!['p', 'n', 'g'])
            ||| (l.len() >= 3 && l.skip(l.len() - 3) == seq!['j', 'p', 'g'])
            ||| (l.len() >= 4 && l.skip(l.len() - 4) == seq!['j', 'p', 'e', 'g'])
            ||| (l.len() >= 4 && l.skip(l.len() - 4) == seq!['w', 'e', 'b', 'p'])
        }),
{
    let l = s.map_values(|c: char| ascii_lower(c));
    lemma_suffix(s, seq!['p', 'n', 'g']);
    lemma_suffix(s, seq!['j', 'p', 'g']);
    lemma_suffix(s, seq!['j', 'p', 'e', 'g']);
    lemma_suffix(s, seq!['w', 'e', 'b', 'p']);
}

proof fn lemma_suffix(s: Seq<char>, e: Seq<char>)
    ensures
        ends_with_lower(s, e) <==> ({
            let l = s.map_values(|c: char| ascii_lower(c));
            l.len() >= e.len() && l.skip(l.len() - e.len()) == e
        }),
{
    let l = s.map_values(|c: char| ascii_lower(c));
    if ends_with_lower(s, e) {
        assert forall|i: int| 0 <= i < e.len() implies #[trigger] l.skip(l.len() - e.len())[i] == e[i] by {
            assert(ascii_lower(s[s.len() - e.len() + i]) == e[i]);
        }
        assert(l.skip(l.len() - e.len()) =~= e);
    }
    if l.len() >= e.len() && l.skip(l.len() - e.len()) == e {
        assert forall|i: int| 0 <= i < e.len() implies ascii_lower(#[trigger] s[s.len() - e.len() + i]) == e[i] by {
            assert(l.skip(l.len() - e.len())[i] == e[i]);
        }
    }
}

/// The small letter of an ASCII capital, any other character as it is.
fn lower_char(c: char) -> (l: char)
    ensures
        l == ascii_lower(c),
{
    if 'A' <= c && c <= 'Z' {
        let b = c as u8;
        (b + 32) as char
    } else {
        c
    }
}

/// Whether the `name` of `n` characters ends with `suffix`, compared as `ends_with_lower` does.
fn ends_with_ci(name: &str, n: usize, suffix: &str) -> (found: bool)
    requires
        n == name@.len(),
    ensures
        found == ends_with_lower(name@, suffix@),
{
    let m = suffix.unicode_len();
    if m > n {
        return false;
    }
    let mut i: usize = 0;
    while i < m
        invariant
            m == suffix@.len(),
            n == name@.len(),
            m <= n,
            i <= m,
            forall|j: int| 0 <= j < i ==> ascii_lower(#[trigger] name@[n - m + j]) == suffix@[j],
        decreases m - i,
    {
        let c = name.get_char(n - m + i);
        let s = suffix.get_char(i);
        if lower_char(c) != s {
            return false;
        }
        i = i + 1;
    }
    true
}

/// Whether a file of this name is taken as an image: its name ends with
/// `png`, `jpg`, `jpeg` or `webp`, in any case.
pub fn is_image_file(name: &str) -> (image: bool)
    ensures
        image == is_image_name(name@),
{
    let n = name.unicode_len();
    proof {
        reveal_strlit("png");
        reveal_strlit("jpg");
        reveal_strlit("jpeg");
        reveal_strlit("webp");
        assert("png"@ =~= seq!['p', 'n', 'g']);
        assert("jpg"@ =~= seq!['j', 'p', 'g']);
        assert("jpeg"@ =~= seq!['j', 'p', 'e', 'g']);
        assert("webp"@ =~= seq!['w', 'e', 'b', 'p']);
    }
    ends_with_ci(name, n, "png") || ends_with_ci(name, n, "jpg") || ends_with_ci(name, n, "jpeg")
        || ends_with_ci(name, n, "webp")
}

/// Whether a path names an image.
pub open spec fn names_image(s: String) -> bool {
    is_image_name(s@)
}

/// The paths of `paths` that name images, in a random order.
pub fn image_files(paths: Vec<String>) -> (images: Vec<String>)
    ensures
        images@.to_multiset() == paths@.filter(|s: String| names_image(s)).to_multiset(),
{
    let mut kept: Vec<String> = Vec::new();
    let mut i: usize = 0;
    while i < paths.len()
        invariant
            i <= paths@.len(),
            kept@ == paths@.take(i as int).filter(|s: String| names_image(s)),
        decreases paths@.len() - i,
    {
        let ghost before = paths@.take(i as int);
        let image = is_image_file(paths[i].as_str());
        proof {
            reveal(Seq::filter);
            assert(paths@.take(i + 1).drop_last() =~= before);
            assert(paths@.take(i + 1).last() == paths@[i as int]);
        }
        if image {
            kept.push(paths[i].clone());
        }
        i = i + 1;
    }
    assert(paths@.take(i as int) =~= paths@);
    shuffle_in_place(&mut kept);
    kept
}

} // verus!
