//! The classifier: decides whether a node is button-like (tag, role
//! attribute, class-name substrings) and whether its text matches a keyword
//! list, by case-insensitive substring containment.
use vstd::prelude::*;
use crate::node::TreeNode;

verus! {

use vstd::string::StrSliceExecFns;

/// ASCII lower-casing of one character; characters outside `A`..`Z` are
/// unchanged.
pub open spec fn lower_char(c: char) -> char {
    if c == 'A' {
        'a'
    } else if c == 'B' {
        'b'
    } else if c == 'C' {
        'c'
    } else if c == 'D' {
        'd'
    } else if c == 'E' {
        'e'
    } else if c == 'F' {
        'f'
    } else if c == 'G' {
        'g'
    } else if c == 'H' {
        'h'
    } else if c == 'I' {
        'i'
    } else if c == 'J' {
        'j'
    } else if c == 'K' {
        'k'
    } else if c == 'L' {
        'l'
    } else if c == 'M' {
        'm'
    } else if c == 'N' {
        'n'
    } else if c == 'O' {
        'o'
    } else if c == 'P' {
        'p'
    } else if c == 'Q' {
        'q'
    } else if c == 'R' {
        'r'
    } else if c == 'S' {
        's'
    } else if c == 'T' {
        't'
    } else if c == 'U' {
        'u'
    } else if c == 'V' {
        'v'
    } else if c == 'W' {
        'w'
    } else if c == 'X' {
        'x'
    } else if c == 'Y' {
        'y'
    } else if c == 'Z' {
        'z'
    } else {
        c
    }
}

/// ASCII lower-casing of a character sequence.
pub open spec fn lower(s: Seq<char>) -> Seq<char> {
    s.map_values(|c: char| lower_char(c))
}

/// Whether `needle` occurs in `hay` as a contiguous subsequence.
pub open spec fn contains_seq(hay: Seq<char>, needle: Seq<char>) -> bool {
    exists|i: int|
        0 <= i <= hay.len() - needle.len() && #[trigger] hay.subrange(i, i + needle.len() as int)
            == needle
}

/// Whether the lower-cased text contains some lower-cased term of the
/// wordlist as a substring.
pub open spec fn wordlist_match(text: Seq<char>, wordlist: Seq<Seq<char>>) -> bool {
    exists|i: int| 0 <= i < wordlist.len() && contains_seq(lower(text), lower(#[trigger] wordlist[i]))
}

/// The character sequences of a list of strings.
pub open spec fn words_view(wordlist: Seq<String>) -> Seq<Seq<char>> {
    wordlist.map_values(|s: String| s@)
}

/// Whether a node is button-like: its tag name lower-cased contains
/// `button`, or its `role` attribute equals `button`, or its class
/// attribute contains the `button` or the short `btn` marker.
pub open spec fn button_like(n: TreeNode) -> bool {
    ||| contains_seq(lower(n.tag@), "button"@)
    ||| n.role_attr@ == "button"@
    ||| contains_seq(n.class_attr@, "button"@)
    ||| contains_seq(n.class_attr@, "btn"@)
}

/// ASCII lower-casing of one character.
fn lower_char_exec(c: char) -> (r: char)
    ensures
        r == lower_char(c),
{
    match c {
        'A' => 'a',
        'B' => 'b',
        'C' => 'c',
        'D' => 'd',
        'E' => 'e',
        'F' => 'f',
        'G' => 'g',
        'H' => 'h',
        'I' => 'i',
        'J' => 'j',
        'K' => 'k',
        'L' => 'l',
        'M' => 'm',
        'N' => 'n',
        'O' => 'o',
        'P' => 'p',
        'Q' => 'q',
        'R' => 'r',
        'S' => 's',
        'T' => 't',
        'U' => 'u',
        'V' => 'v',
        'W' => 'w',
        'X' => 'x',
        'Y' => 'y',
        'Z' => 'z',
        _ => c,
    }
}

/// `s`, lower-cased or unchanged according to `fold_case`.
pub open spec fn folded(s: Seq<char>, fold_case: bool) -> Seq<char> {
    if fold_case {
        lower(s)
    } else {
        s
    }
}

/// Whether `needle` matches `hay` at offset `at`, folding case on demand.
fn match_at(hay: &str, needle: &str, at: usize, fold_case: bool) -> (b: bool)
    requires
        at + needle@.len() <= hay@.len() <= usize::MAX,
    ensures
        b == (folded(hay@, fold_case).subrange(at as int, at + needle@.len() as int) == folded(
            needle@,
            fold_case,
        )),
{
    let nn = needle.unicode_len();
    let mut j: usize = 0;
    while j < nn
        invariant
            0 <= j <= nn,
            nn == needle@.len(),
            at + nn <= hay@.len() <= usize::MAX,
            forall|k: int|
                0 <= k < j ==> folded(hay@, fold_case)[at + k] == folded(needle@, fold_case)[k],
        decreases nn - j,
    {
        let hc = hay.get_char(at + j);
        let nc = needle.get_char(j);
        let (hc, nc) = if fold_case {
            (lower_char_exec(hc), lower_char_exec(nc))
        } else {
            (hc, nc)
        };
        if hc != nc {
            assert(folded(hay@, fold_case)[at + j] != folded(needle@, fold_case)[j as int]);
            return false;
        }
        j = j + 1;
    }
    proof {
        assert(folded(hay@, fold_case).subrange(at as int, at + needle@.len() as int) =~= folded(
            needle@,
            fold_case,
        ));
    }
    true
}

/// Whether `needle` occurs in `hay` as a substring, folding case on demand.
fn contains_sub(hay: &str, needle: &str, fold_case: bool) -> (b: bool)
    ensures
        b == contains_seq(folded(hay@, fold_case), folded(needle@, fold_case)),
{
    let hn = hay.unicode_len();
    let nn = needle.unicode_len();
    proof {
        assert(folded(hay@, fold_case).len() == hay@.len());
        assert(folded(needle@, fold_case).len() == needle@.len());
    }
    if nn > hn {
        return false;
    }
    if nn == 0 {
        proof {
            let fh = folded(hay@, fold_case);
            let fd = folded(needle@, fold_case);
            assert(fh.subrange(0, 0 + fd.len() as int) =~= fd);
        }
        return true;
    }
    let mut i: usize = 0;
    while i <= hn - nn
        invariant
            0 <= i <= hn - nn + 1,
            0 < nn <= hn,
            hn == hay@.len(),
            nn == needle@.len(),
            forall|k: int|
                0 <= k < i ==> #[trigger] folded(hay@, fold_case).subrange(
                    k,
                    k + folded(needle@, fold_case).len() as int,
                ) != folded(needle@, fold_case),
        decreases hn + 1 - nn - i,
    {
        let hit = match_at(hay, needle, i, fold_case);
        proof {
            assert(folded(needle@, fold_case).len() == needle@.len());
            assert(folded(hay@, fold_case).subrange(
                i as int,
                i + folded(needle@, fold_case).len() as int,
            ) == folded(hay@, fold_case).subrange(i as int, i + needle@.len() as int));
        }
        if hit {
            return true;
        }
        i = i + 1;
    }
    false
}

/// Whether two string slices hold the same characters.
fn str_eq(a: &str, b: &str) -> (r: bool)
    ensures
        r == (a@ == b@),
{
    let an = a.unicode_len();
    let bn = b.unicode_len();
    if an != bn {
        return false;
    }
    let mut i: usize = 0;
    while i < an
        invariant
            0 <= i <= an,
            an == a@.len(),
            an == b@.len(),
            forall|k: int| 0 <= k < i ==> a@[k] == b@[k],
        decreases an - i,
    {
        if a.get_char(i) != b.get_char(i) {
            return false;
        }
        i = i + 1;
    }
    proof {
        assert(a@ =~= b@);
    }
    true
}

/// Lower-casing a sequence that holds no ASCII upper-case character leaves
/// it unchanged.
proof fn lemma_lower_of_lowercase(s: Seq<char>)
    requires
        forall|i: int| 0 <= i < s.len() ==> lower_char(#[trigger] s[i]) == s[i],
    ensures
        lower(s) == s,
{
    assert(lower(s) =~= s);
}

/// Decides whether a node is button-like, by its tag name, its `role`
/// attribute, or the markers in its class attribute.
pub fn is_button_like(node: &TreeNode) -> (b: bool)
    ensures
        b == button_like(*node),
{
    proof {
        reveal_strlit("button");
        reveal_strlit("btn");
        lemma_lower_of_lowercase("button"@);
        lemma_lower_of_lowercase("btn"@);
    }
    if contains_sub(node.tag.as_str(), "button", true) {
        return true;
    }
    if str_eq(node.role_attr.as_str(), "button") {
        return true;
    }
    if contains_sub(node.class_attr.as_str(), "button", false) {
        return true;
    }
    contains_sub(node.class_attr.as_str(), "btn", false)
}

/// Decides whether the text matches some term of the wordlist,
/// case-insensitively.
pub fn matches_wordlist(text: &str, wordlist: &Vec<String>) -> (b: bool)
    ensures
        b == wordlist_match(text@, words_view(wordlist@)),
{
    let n = wordlist.len();
    let mut i: usize = 0;
    while i < n
        invariant
            0 <= i <= n,
            n == wordlist@.len(),
            forall|k: int|
                0 <= k < i ==> !contains_seq(lower(text@), lower(words_view(wordlist@)[k])),
        decreases n - i,
    {
        let hit = contains_sub(text, wordlist[i].as_str(), true);
        proof {
            assert(words_view(wordlist@)[i as int] == wordlist@[i as int]@);
        }
        if hit {
            return true;
        }
        i = i + 1;
    }
    false
}

} // verus!
