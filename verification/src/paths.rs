//! File-name reasoning for the scanner: ASCII case folding and
//! case-insensitive matching of the `.cbr` file extension, along with a
//! small string-vector copying helper the other modules share.

use vstd::prelude::*;
use vstd::string::StrSliceExecFns;

verus! {

/// A copy of a string vector whose view is unchanged.
pub fn clone_strings(p: &Vec<String>) -> (r: Vec<String>)
    ensures
        r@ == p@,
{
    let mut r: Vec<String> = Vec::new();
    let mut i: usize = 0;
    while i < p.len()
        invariant
            i <= p.len(),
            r@ =~= p@.take(i as int),
        decreases p.len() - i,
    {
        r.push(p[i].clone());
        assert(r@ =~= p@.take(i + 1));
        i = i + 1;
    }
    assert(p@.take(p.len() as int) =~= p@);
    r
}

/// ASCII lower-casing of one character; anything but `A`..`Z` is unchanged.
pub open spec fn lower_char(c: char) -> char {
    if c == 'A' {
        'a'
    } else if c == 'B' {
        'b'
    } else if c == 'C' {
        'c'
    } else if c == 'D' {
        'd'
    } else if c == 'E' {
        'e'
    } else if c == 'F' {
        'f'
    } else if c == 'G' {
        'g'
    } else if c == 'H' {
        'h'
    } else if c == 'I' {
        'i'
    } else if c == 'J' {
        'j'
    } else if c == 'K' {
        'k'
    } else if c == 'L' {
        'l'
    } else if c == 'M' {
        'm'
    } else if c == 'N' {
        'n'
    } else if c == 'O' {
        'o'
    } else if c == 'P' {
        'p'
    } else if c == 'Q' {
        'q'
    } else if c == 'R' {
        'r'
    } else if c == 'S' {
        's'
    } else if c == 'T' {
        't'
    } else if c == 'U' {
        'u'
    } else if c == 'V' {
        'v'
    } else if c == 'W' {
        'w'
    } else if c == 'X' {
        'x'
    } else if c == 'Y' {
        'y'
    } else if c == 'Z' {
        'z'
    } else {
        c
    }
}

/// ASCII lower-casing of a whole character sequence.
pub open spec fn lower_seq(s: Seq<char>) -> Seq<char> {
    s.map_values(|c: char| lower_char(c))
}

/// The character at position `i` of `name` is the dot that begins the
/// extension: it is a dot, no dot follows it, and it is not the leading
/// character (a name that is nothing but a leading dot has no extension).
pub open spec fn dot_splits_at(name: Seq<char>, i: int) -> bool {
    &&& 0 < i < name.len()
    &&& name[i] == '.'
    &&& forall|j: int| i < j < name.len() ==> name[j] != '.'
}

/// The extension of a file name: what follows the last dot, where a dot
/// in the leading position does not begin an extension.
pub open spec fn extension_of(name: Seq<char>) -> Option<Seq<char>> {
    if exists|i: int| dot_splits_at(name, i) {
        let i = choose|i: int| dot_splits_at(name, i);
        Some(name.subrange(i + 1, name.len() as int))
    } else {
        None
    }
}

/// A file name matches when it has an extension and that extension,
/// lower-cased, is `cbr`.
pub open spec fn is_cbr_name(name: Seq<char>) -> bool {
    match extension_of(name) {
        Some(ext) => lower_seq(ext) == seq!['c', 'b', 'r'],
        None => false,
    }
}

/// At most one position of a name can begin its extension.
pub proof fn lemma_dot_split_unique(name: Seq<char>, i: int, j: int)
    requires
        dot_splits_at(name, i),
        dot_splits_at(name, j),
    ensures
        i == j,
{
    if i < j {
        assert(name[j] != '.');
    }
    if j < i {
        assert(name[i] != '.');
    }
}

/// Extension matching is case-insensitive: two names equal up to ASCII
/// case either both match `.cbr` or both do not.
pub proof fn lemma_cbr_case_insensitive(a: Seq<char>, b: Seq<char>)
    requires
        lower_seq(a) == lower_seq(b),
    ensures
        is_cbr_name(a) == is_cbr_name(b),
{
    assert(a.len() == b.len()) by {
        assert(lower_seq(a).len() == a.len());
        assert(lower_seq(b).len() == b.len());
    }
    assert forall|k: int| 0 <= k < a.len() implies (a[k] == '.') == (b[k] == '.') by {
        assert(lower_seq(a)[k] == lower_char(a[k]));
        assert(lower_seq(b)[k] == lower_char(b[k]));
    }
    assert forall|i: int| dot_splits_at(a, i) implies dot_splits_at(b, i) by {
        assert forall|j: int| i < j < b.len() implies b[j] != '.' by {
            assert(a[j] != '.');
        }
    }
    assert forall|i: int| dot_splits_at(b, i) implies dot_splits_at(a, i) by {
        assert forall|j: int| i < j < a.len() implies a[j] != '.' by {
            assert(b[j] != '.');
        }
    }
    if exists|i: int| dot_splits_at(a, i) {
        let ia = choose|i: int| dot_splits_at(a, i);
        let ib = choose|i: int| dot_splits_at(b, i);
        lemma_dot_split_unique(b, ia, ib);
        let ea = a.subrange(ia + 1, a.len() as int);
        let eb = b.subrange(ia + 1, b.len() as int);
        assert(lower_seq(ea) =~= lower_seq(a).subrange(ia + 1, a.len() as int));
        assert(lower_seq(eb) =~= lower_seq(b).subrange(ia + 1, b.len() as int));
        assert(lower_seq(ea) == lower_seq(eb));
        assert(extension_of(a) == Some(ea));
        assert(extension_of(b) == Some(eb));
    } else {
        assert(!is_cbr_name(a));
        assert(!is_cbr_name(b));
    }
}

/// Whether one path component names a `.cbr` file, comparing the
/// extension case-insensitively.
pub fn is_cbr_file_name(name: &str) -> (r: bool)
    ensures
        r == is_cbr_name(name@),
{
    let n = name.unicode_len();
    let mut j: usize = n;
    let mut dot: usize = 0;
    let mut found: bool = false;
    while j > 0 && !found
        invariant
            j <= n,
            n == name@.len(),
            !found ==> (forall|k: int| j <= k < n ==> name@[k] != '.'),
            found ==> {
                &&& j == dot + 1
                &&& dot < n
                &&& name@[dot as int] == '.'
                &&& forall|k: int| dot < k < n ==> name@[k] != '.'
            },
        decreases j + (if found { 0int } else { 1int }),
    {
        let c = name.get_char(j - 1);
        if c == '.' {
            dot = j - 1;
            found = true;
        } else {
            j = j - 1;
        }
    }
    if !found || dot == 0 {
        proof {
            assert forall|i: int| !dot_splits_at(name@, i) by {
                if 0 < i < name@.len() {
                    assert(name@[i] != '.');
                }
            }
            assert(extension_of(name@) is None);
        }
        return false;
    }
    proof {
        assert(dot_splits_at(name@, dot as int));
        let i = choose|i: int| dot_splits_at(name@, i);
        lemma_dot_split_unique(name@, i, dot as int);
        assert(extension_of(name@) == Some(name@.subrange(dot + 1, n as int)));
    }
    if n - dot != 4 {
        proof {
            let ext = name@.subrange(dot + 1, n as int);
            assert(lower_seq(ext).len() == ext.len());
            assert(lower_seq(ext) != seq!['c', 'b', 'r']);
        }
        return false;
    }
    let c1 = name.get_char(dot + 1);
    let c2 = name.get_char(dot + 2);
    let c3 = name.get_char(dot + 3);
    let r = (c1 == 'c' || c1 == 'C') && (c2 == 'b' || c2 == 'B') && (c3 == 'r' || c3 == 'R');
    proof {
        let ext = name@.subrange(dot + 1, n as int);
        assert(ext.len() == 3);
        assert(lower_seq(ext)[0] == lower_char(c1));
        assert(lower_seq(ext)[1] == lower_char(c2));
        assert(lower_seq(ext)[2] == lower_char(c3));
        if r {
            assert(lower_seq(ext) =~= seq!['c', 'b', 'r']);
        } else {
            assert(lower_seq(ext) != seq!['c', 'b', 'r']);
        }
    }
    r
}

} // verus!
