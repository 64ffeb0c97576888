//! Character scanning helpers: substring occurrence, leftmost search, and
//! whitespace tests, each with an executable form proved against its
//! specification.

use vstd::prelude::*;

verus! {

/// Whether `pat` occurs in `s` starting at position `i`.
pub open spec fn occurs_at(s: Seq<char>, pat: Seq<char>, i: int) -> bool {
    0 <= i && i + pat.len() <= s.len() && s.subrange(i, i + pat.len() as int) == pat
}

/// The position of the leftmost occurrence of `pat` in `s`, if any.
pub open spec fn find_pat(s: Seq<char>, pat: Seq<char>) -> Option<int>
    decreases s.len(),
{
    if pat.len() > s.len() {
        None
    } else if s.subrange(0, pat.len() as int) == pat {
        Some(0)
    } else if s.len() == 0 {
        None
    } else {
        match find_pat(s.drop_first(), pat) {
            Some(i) => Some(i + 1),
            None => None,
        }
    }
}

/// `find_pat` returns the leftmost occurrence: a `Some` is an occurrence
/// with none before it, and a `None` means no occurrence at all.
pub proof fn lemma_find_pat_props(s: Seq<char>, pat: Seq<char>)
    ensures
        match find_pat(s, pat) {
            Some(i) => occurs_at(s, pat, i) && forall|p: int| 0 <= p < i ==> !occurs_at(s, pat, p),
            None => forall|p: int| !occurs_at(s, pat, p),
        },
    decreases s.len(),
{
    if pat.len() > s.len() {
        assert forall|p: int| !occurs_at(s, pat, p) by {}
    } else if s.subrange(0, pat.len() as int) == pat {
        assert(occurs_at(s, pat, 0));
    } else if s.len() == 0 {
        assert forall|p: int| !occurs_at(s, pat, p) by {
            if occurs_at(s, pat, p) {
                assert(s.subrange(p, p + pat.len() as int) == pat);
                assert(pat.len() == 0);
                assert(s.subrange(0, pat.len() as int) =~= pat);
            }
        }
    } else {
        let t = s.drop_first();
        lemma_find_pat_props(t, pat);
        assert forall|p: int| 0 <= p implies (occurs_at(s, pat, p + 1) <==> occurs_at(
            t,
            pat,
            p,
        )) by {
            if p + 1 + pat.len() <= s.len() {
                assert(t.subrange(p, p + pat.len() as int) =~= s.subrange(
                    p + 1,
                    p + 1 + pat.len() as int,
                ));
            }
        }
        match find_pat(t, pat) {
            Some(i) => {
                assert(occurs_at(s, pat, i + 1));
                assert forall|p: int| 0 <= p < i + 1 implies !occurs_at(s, pat, p) by {
                    if p == 0 {
                        if occurs_at(s, pat, 0) {
                            assert(s.subrange(0, pat.len() as int) == pat);
                        }
                    } else {
                        assert(!occurs_at(t, pat, p - 1));
                    }
                }
            },
            None => {
                assert forall|p: int| !occurs_at(s, pat, p) by {
                    if occurs_at(s, pat, p) {
                        if p == 0 {
                            assert(s.subrange(0, pat.len() as int) == pat);
                        } else {
                            assert(!occurs_at(t, pat, p - 1));
                        }
                    }
                }
            },
        }
    }
}

/// A position that carries an occurrence, with none to its left, is what
/// `find_pat` returns.
pub proof fn lemma_find_pat_at(s: Seq<char>, pat: Seq<char>, q: int)
    requires
        occurs_at(s, pat, q),
        forall|p: int| 0 <= p < q ==> !occurs_at(s, pat, p),
    ensures
        find_pat(s, pat) == Some(q),
{
    lemma_find_pat_props(s, pat);
    match find_pat(s, pat) {
        Some(i) => {
            if i < q {
                assert(!occurs_at(s, pat, i));
            }
            if q < i {
                assert(!occurs_at(s, pat, q));
            }
        },
        None => {
            assert(!occurs_at(s, pat, q));
        },
    }
}

/// An occurrence of a one-character pattern is just that character.
pub proof fn lemma_occurs_single(s: Seq<char>, c: char, p: int)
    ensures
        occurs_at(s, seq![c], p) <==> (0 <= p < s.len() && s[p] == c),
{
    if 0 <= p < s.len() {
        assert(s.subrange(p, p + 1) =~= seq![s[p]]);
        if s[p] == c {
            assert(s.subrange(p, p + 1) =~= seq![c]);
        }
        if s.subrange(p, p + 1) == seq![c] {
            assert(s[p] == s.subrange(p, p + 1)[0]);
        }
    }
}

/// An occurrence of a four-character pattern is those four characters.
pub proof fn lemma_occurs_four(s: Seq<char>, c0: char, c1: char, c2: char, c3: char, p: int)
    ensures
        occurs_at(s, seq![c0, c1, c2, c3], p) <==> (0 <= p && p + 4 <= s.len() && s[p] == c0 && s[p
            + 1] == c1 && s[p + 2] == c2 && s[p + 3] == c3),
{
    if 0 <= p && p + 4 <= s.len() {
        if s[p] == c0 && s[p + 1] == c1 && s[p + 2] == c2 && s[p + 3] == c3 {
            assert(s.subrange(p, p + 4) =~= seq![c0, c1, c2, c3]);
        }
        if s.subrange(p, p + 4) == seq![c0, c1, c2, c3] {
            assert(s[p] == s.subrange(p, p + 4)[0]);
            assert(s[p + 1] == s.subrange(p, p + 4)[1]);
            assert(s[p + 2] == s.subrange(p, p + 4)[2]);
            assert(s[p + 3] == s.subrange(p, p + 4)[3]);
        }
    }
}

/// The leftmost position of `c` in `s`, if any.
pub fn find_char(s: &str, c: char) -> (r: Option<usize>)
    ensures
        match r {
            Some(i) => find_pat(s@, seq![c]) == Some(i as int),
            None => find_pat(s@, seq![c]) is None,
        },
{
    let n = s.unicode_len();
    let mut i: usize = 0;
    while i < n
        invariant
            0 <= i <= n,
            n == s@.len(),
            forall|p: int| 0 <= p < i ==> s@[p] != c,
        decreases n - i,
    {
        if s.get_char(i) == c {
            proof {
                assert forall|p: int| 0 <= p < i implies !occurs_at(s@, seq![c], p) by {
                    lemma_occurs_single(s@, c, p);
                }
                lemma_occurs_single(s@, c, i as int);
                lemma_find_pat_at(s@, seq![c], i as int);
            }
            return Some(i);
        }
        i = i + 1;
    }
    proof {
        lemma_find_pat_props(s@, seq![c]);
        if find_pat(s@, seq![c]) is Some {
            let j = find_pat(s@, seq![c]).unwrap();
            lemma_occurs_single(s@, c, j);
        }
    }
    None
}

/// The characters of the closing marker `</c>`.
pub open spec fn close_marker() -> Seq<char> {
    seq!['<', '/', 'c', '>']
}

/// The leftmost occurrence of `</c>` in `s`, if any.
pub fn find_close_marker(s: &str) -> (r: Option<usize>)
    ensures
        match r {
            Some(i) => find_pat(s@, close_marker()) == Some(i as int),
            None => find_pat(s@, close_marker()) is None,
        },
{
    let n = s.unicode_len();
    if n < 4 {
        proof {
            lemma_find_pat_props(s@, close_marker());
        }
        return None;
    }
    let mut i: usize = 0;
    while i <= n - 4
        invariant
            0 <= i <= n - 3,
            4 <= n == s@.len(),
            forall|p: int|
                0 <= p < i ==> !(#[trigger] s@[p] == '<' && s@[p + 1] == '/' && s@[p + 2] == 'c'
                    && s@[p + 3] == '>'),
        decreases n - i,
    {
        if s.get_char(i) == '<' && s.get_char(i + 1) == '/' && s.get_char(i + 2) == 'c'
            && s.get_char(i + 3) == '>' {
            proof {
                assert forall|p: int| 0 <= p < i implies !occurs_at(s@, close_marker(), p) by {
                    lemma_occurs_four(s@, '<', '/', 'c', '>', p);
                }
                lemma_occurs_four(s@, '<', '/', 'c', '>', i as int);
                lemma_find_pat_at(s@, close_marker(), i as int);
            }
            return Some(i);
        }
        i = i + 1;
    }
    proof {
        lemma_find_pat_props(s@, close_marker());
        if find_pat(s@, close_marker()) is Some {
            let j = find_pat(s@, close_marker()).unwrap();
            lemma_occurs_four(s@, '<', '/', 'c', '>', j);
        }
    }
    None
}

/// Whether `c` carries the Unicode `White_Space` property, the test the
/// literal-dropping rule applies.
pub open spec fn is_ws_char(c: char) -> bool {
    let u = c as int;
    (9 <= u && u <= 13) || u == 32 || u == 0x85 || u == 0xA0 || u == 0x1680 || (0x2000 <= u && u
        <= 0x200A) || u == 0x2028 || u == 0x2029 || u == 0x202F || u == 0x205F || u == 0x3000
}

/// Whether every character of `s` is whitespace (an empty `s` counts).
pub open spec fn all_ws(s: Seq<char>) -> bool {
    forall|i: int| 0 <= i < s.len() ==> is_ws_char(s[i])
}

/// Whether every character of `s` is whitespace.
pub fn is_all_ws(s: &str) -> (r: bool)
    ensures
        r == all_ws(s@),
{
    let n = s.unicode_len();
    let mut i: usize = 0;
    while i < n
        invariant
            0 <= i <= n,
            n == s@.len(),
            forall|p: int| 0 <= p < i ==> is_ws_char(s@[p]),
        decreases n - i,
    {
        let u: u32 = s.get_char(i) as u32;
        let ws: bool = (9 <= u && u <= 13) || u == 32 || u == 0x85 || u == 0xA0 || u == 0x1680 || (
        0x2000 <= u && u <= 0x200A) || u == 0x2028 || u == 0x2029 || u == 0x202F || u == 0x205F || u
            == 0x3000;
        if !ws {
            return false;
        }
        i = i + 1;
    }
    true
}

} // verus!
