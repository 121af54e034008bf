//! Substring search and splitting over character sequences.

use vstd::prelude::*;

verus! {

/// True when `p` occurs in `s` starting at position `i`.
pub open spec fn matches_at(s: Seq<char>, p: Seq<char>, i: int) -> bool {
    0 <= i && i + p.len() <= s.len() && s.subrange(i, i + p.len()) == p
}

/// First position at or after `from` where `p` occurs in `s`, or `-1`.
pub open spec fn find_from(s: Seq<char>, p: Seq<char>, from: int) -> int
    decreases s.len() - from,
{
    if from < 0 || from + p.len() > s.len() {
        -1
    } else if p.len() == 0 || matches_at(s, p, from) {
        from
    } else {
        find_from(s, p, from + 1)
    }
}

pub proof fn lemma_find_from_spec(s: Seq<char>, p: Seq<char>, from: int)
    requires
        0 <= from,
    ensures
        find_from(s, p, from) >= 0 ==> matches_at(s, p, find_from(s, p, from)) && find_from(
            s,
            p,
            from,
        ) >= from,
        find_from(s, p, from) == -1 ==> forall|k: int| from <= k ==> !matches_at(s, p, k),
    decreases s.len() - from,
{
    if from + p.len() > s.len() {
        assert forall|k: int| from <= k implies !matches_at(s, p, k) by {}
    } else if p.len() == 0 {
        assert(s.subrange(from, from) =~= p);
        assert(matches_at(s, p, from));
    } else if matches_at(s, p, from) {
    } else {
        lemma_find_from_spec(s, p, from + 1);
    }
}

/// Matching is unaffected by dropping a prefix of the searched text.
pub proof fn lemma_matches_at_skip(s: Seq<char>, p: Seq<char>, off: int, i: int)
    requires
        0 <= off <= s.len(),
        off <= i,
    ensures
        matches_at(s, p, i) == matches_at(s.skip(off), p, i - off),
{
    if 0 <= i && i + p.len() <= s.len() {
        assert(s.subrange(i, i + p.len()) =~= s.skip(off).subrange(i - off, i - off + p.len()));
    }
}

pub proof fn lemma_find_from_skip(s: Seq<char>, p: Seq<char>, off: int, from: int)
    requires
        0 <= off <= from,
        off <= s.len(),
    ensures
        find_from(s.skip(off), p, from - off) == if find_from(s, p, from) < 0 {
            -1
        } else {
            find_from(s, p, from) - off
        },
    decreases s.len() - from,
{
    if from + p.len() > s.len() {
    } else if p.len() == 0 {
        assert(s.subrange(from, from) =~= p);
        assert(matches_at(s, p, from));
        assert(s.skip(off).subrange(from - off, from - off) =~= p);
        assert(matches_at(s.skip(off), p, from - off));
    } else {
        lemma_matches_at_skip(s, p, off, from);
        if !matches_at(s, p, from) {
            lemma_find_from_skip(s, p, off, from + 1);
        }
    }
}

/// `s` split on every occurrence of the separator `p`, separators removed.
/// Splitting never yields an empty sequence: text without the separator is a
/// single piece.
pub open spec fn split_by(s: Seq<char>, p: Seq<char>) -> Seq<Seq<char>>
    decreases s.len(),
    via split_by_decreases
{
    let i = find_from(s, p, 0);
    if i < 0 || p.len() == 0 {
        seq![s]
    } else {
        seq![s.take(i)] + split_by(s.skip(i + p.len()), p)
    }
}

#[via_fn]
proof fn split_by_decreases(s: Seq<char>, p: Seq<char>) {
    lemma_find_from_spec(s, p, 0);
}

pub proof fn lemma_split_by_len(s: Seq<char>, p: Seq<char>)
    ensures
        split_by(s, p).len() >= 1,
{
}

/// Compares `p` against the characters of `s` starting at `i`.
fn matches_here(s: &str, i: usize, p: &str) -> (r: bool)
    requires
        i + p@.len() <= s@.len(),
        s@.len() <= usize::MAX,
    ensures
        r == matches_at(s@, p@, i as int),
{
    let pl = p.unicode_len();
    let mut j: usize = 0;
    while j < pl
        invariant
            0 <= j <= pl,
            pl == p@.len(),
            i + pl <= s@.len() <= usize::MAX,
            forall|k: int| 0 <= k < j ==> s@[i + k] == p@[k],
        decreases pl - j,
    {
        if s.get_char(i + j) != p.get_char(j) {
            proof {
                assert(s@.subrange(i as int, i + p@.len())[j as int] != p@[j as int]);
            }
            return false;
        }
        j = j + 1;
    }
    proof {
        assert(s@.subrange(i as int, i + p@.len()) =~= p@);
    }
    true
}

/// First occurrence of `p` in `s` at or after `from`, as [`find_from`]
/// describes it.
pub fn find_pat(s: &str, from: usize, p: &str) -> (r: Option<usize>)
    requires
        from <= s@.len(),
        p@.len() >= 1,
    ensures
        match r {
            Some(j) => find_from(s@, p@, from as int) == j,
            None => find_from(s@, p@, from as int) == -1,
        },
{
    let n = s.unicode_len();
    let pl = p.unicode_len();
    if pl > n || from > n - pl {
        return None;
    }
    let mut i = from;
    while i <= n - pl
        invariant
            from <= i <= n - pl + 1,
            pl <= n == s@.len(),
            pl == p@.len() >= 1,
            find_from(s@, p@, from as int) == find_from(s@, p@, i as int),
        decreases n - pl - i + 1,
    {
        if matches_here(s, i, p) {
            return Some(i);
        }
        i = i + 1;
    }
    None
}

/// `s` split on the separator `p`, each piece in order, as [`split_by`].
pub fn split_str(s: &str, p: &str) -> (r: Vec<String>)
    requires
        p@.len() >= 1,
    ensures
        r@.len() == split_by(s@, p@).len(),
        forall|i: int| 0 <= i < r@.len() ==> r@[i]@ == #[trigger] split_by(s@, p@)[i],
{
    let n = s.unicode_len();
    let pl = p.unicode_len();
    let mut r: Vec<String> = Vec::new();
    let mut pos: usize = 0;
    let mut done = false;
    let ghost full = split_by(s@, p@);
    proof {
        assert(s@.skip(0) =~= s@);
        assert(r@.map_values(|x: String| x@) =~= Seq::<Seq<char>>::empty());
    }
    while !done
        invariant
            0 <= pos <= n,
            !done ==> full =~= r@.map_values(|x: String| x@) + split_by(
                s@.skip(pos as int),
                p@,
            ),
            done ==> full =~= r@.map_values(|x: String| x@),
            n == s@.len(),
            pl == p@.len() >= 1,
        decreases n - pos + (if done { 0int } else { 1int }),
    {
        let ghost rest = s@.skip(pos as int);
        let ghost rv = r@;
        match find_pat(s, pos, p) {
            Some(j) => {
                proof {
                    lemma_find_from_skip(s@, p@, pos as int, pos as int);
                    lemma_find_from_spec(s@, p@, pos as int);
                    assert(find_from(rest, p@, 0) == j - pos);
                    assert(rest.take(j - pos) =~= s@.subrange(pos as int, j as int));
                    assert(rest.skip(j - pos + pl) =~= s@.skip(j + pl));
                }
                let piece = s.substring_char(pos, j);
                r.push(String::from_str(piece));
                proof {
                    assert(r@.map_values(|x: String| x@) =~= rv.map_values(|x: String| x@).push(
                        piece@,
                    ));
                }
                pos = j + pl;
            },
            None => {
                proof {
                    lemma_find_from_skip(s@, p@, pos as int, pos as int);
                    assert(find_from(rest, p@, 0) == -1);
                    assert(split_by(rest, p@) =~= seq![rest]);
                    assert(rest =~= s@.subrange(pos as int, n as int));
                }
                let piece = s.substring_char(pos, n);
                r.push(String::from_str(piece));
                proof {
                    assert(r@.map_values(|x: String| x@) =~= rv.map_values(|x: String| x@).push(
                        piece@,
                    ));
                }
                done = true;
            },
        }
    }
    r
}

/// One line with a trailing carriage return removed.
pub open spec fn strip_cr(l: Seq<char>) -> Seq<char> {
    if l.len() > 0 && l.last() == '\r' {
        l.drop_last()
    } else {
        l
    }
}

/// The lines of `s`: split on newlines, a final empty piece dropped (so a
/// trailing newline adds no line), and a trailing carriage return removed
/// from each line.
pub open spec fn split_lines(s: Seq<char>) -> Seq<Seq<char>> {
    let parts = split_by(s, seq!['\n']);
    let kept = if parts.len() > 0 && parts.last().len() == 0 {
        parts.drop_last()
    } else {
        parts
    };
    kept.map_values(|l: Seq<char>| strip_cr(l))
}

/// Splits `s` into lines, as [`split_lines`].
pub fn split_into_lines(s: &str) -> (r: Vec<String>)
    ensures
        r@.len() == split_lines(s@).len(),
        forall|i: int| 0 <= i < r@.len() ==> r@[i]@ == #[trigger] split_lines(s@)[i],
{
    proof {
        reveal_strlit("\n");
        assert("\n"@ =~= seq!['\n']);
    }
    let mut parts = split_str(s, "\n");
    let ghost raw = split_by(s@, seq!['\n']);
    if parts.len() > 0 && parts[parts.len() - 1].as_str().unicode_len() == 0 {
        proof {
            assert(parts@.last()@ == raw.last());
            assert(raw.last().len() == 0);
        }
        parts.pop();
        proof {
            assert(parts@.map_values(|x: String| x@) =~= raw.drop_last());
        }
    }
    let ghost kept = if raw.len() > 0 && raw.last().len() == 0 {
        raw.drop_last()
    } else {
        raw
    };
    let mut r: Vec<String> = Vec::new();
    let mut i: usize = 0;
    while i < parts.len()
        invariant
            0 <= i <= parts@.len(),
            parts@.len() == kept.len(),
            forall|k: int| 0 <= k < parts@.len() ==> parts@[k]@ == #[trigger] kept[k],
            r@.len() == i,
            forall|k: int| 0 <= k < i ==> r@[k]@ == strip_cr(#[trigger] kept[k]),
        decreases parts@.len() - i,
    {
        let l = &parts[i];
        let ll = l.as_str().unicode_len();
        if ll > 0 && l.as_str().get_char(ll - 1) == '\r' {
            let stripped = l.as_str().substring_char(0, ll - 1);
            proof {
                assert(stripped@ =~= strip_cr(l@));
            }
            r.push(String::from_str(stripped));
        } else {
            r.push(String::from_str(l.as_str()));
        }
        i = i + 1;
    }
    proof {
        assert(split_lines(s@) == kept.map_values(|l: Seq<char>| strip_cr(l)));
    }
    r
}

} // verus!
