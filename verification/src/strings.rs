//! Splitting dotted names into their components, and the character-level
//! helpers the rest of the engine builds on.

use vstd::prelude::*;

verus! {

/// The dot-separated parts of a character sequence. Splitting always yields
/// one part more than there are dots, so the result is never empty.
pub open spec fn split_dots(s: Seq<char>) -> Seq<Seq<char>>
    decreases s.len(),
{
    if s.len() == 0 {
        seq![Seq::<char>::empty()]
    } else {
        let r = split_dots(s.drop_last());
        if s.last() == '.' {
            r.push(Seq::<char>::empty())
        } else {
            r.update(r.len() - 1, r.last().push(s.last()))
        }
    }
}

/// Joining parts with a dot between each pair.
pub open spec fn join_dots(parts: Seq<Seq<char>>) -> Seq<char>
    decreases parts.len(),
{
    if parts.len() == 0 {
        Seq::<char>::empty()
    } else if parts.len() == 1 {
        parts[0]
    } else {
        join_dots(parts.drop_last()) + seq!['.'] + parts.last()
    }
}

pub proof fn lemma_split_dots_len(s: Seq<char>)
    ensures
        split_dots(s).len() >= 1,
    decreases s.len(),
{
    if s.len() > 0 {
        lemma_split_dots_len(s.drop_last());
    }
}

/// Splitting on dots and rejoining with dots reproduces the original text.
pub proof fn lemma_join_split_dots(s: Seq<char>)
    ensures
        join_dots(split_dots(s)) == s,
    decreases s.len(),
{
    if s.len() == 0 {
        assert(join_dots(split_dots(s)) =~= s);
    } else {
        lemma_join_split_dots(s.drop_last());
        lemma_split_dots_len(s.drop_last());
        let r = split_dots(s.drop_last());
        let c = s.last();
        if c == '.' {
            let rr = r.push(Seq::<char>::empty());
            assert(rr.drop_last() =~= r);
            assert(join_dots(rr) =~= s);
        } else {
            let rr = r.update(r.len() - 1, r.last().push(c));
            if r.len() == 1 {
                assert(join_dots(rr) =~= s);
            } else {
                assert(rr.drop_last() =~~= r.drop_last());
                assert(rr.last() == r.last().push(c));
                assert(join_dots(rr) == join_dots(r.drop_last()) + seq!['.'] + r.last().push(c));
                assert(s.drop_last() == join_dots(r.drop_last()) + seq!['.'] + r.last());
                assert(s =~= s.drop_last().push(c));
                assert(join_dots(rr) =~= s);
            }
        }
    }
}

/// The views of a list of owned strings.
pub open spec fn seq_views(parts: Seq<String>) -> Seq<Seq<char>> {
    parts.map_values(|p: String| p@)
}

/// Exact string equality, checked character by character.
pub fn str_eq(a: &str, b: &str) -> (r: bool)
    ensures
        r == (a@ == b@),
{
    let na = a.unicode_len();
    let nb = b.unicode_len();
    if na != nb {
        return false;
    }
    let mut i: usize = 0;
    while i < na
        invariant
            na == a@.len(),
            na == b@.len(),
            i <= na,
            forall|j: int| 0 <= j < i ==> a@[j] == b@[j],
        decreases na - i,
    {
        if a.get_char(i) != b.get_char(i) {
            return false;
        }
        i += 1;
    }
    proof {
        assert(a@ =~= b@);
    }
    true
}

/// Whether `s` contains the character `c` anywhere.
pub fn contains_char(s: &str, c: char) -> (r: bool)
    ensures
        r == s@.contains(c),
{
    let n = s.unicode_len();
    let mut i: usize = 0;
    while i < n
        invariant
            n == s@.len(),
            i <= n,
            forall|j: int| 0 <= j < i ==> s@[j] != c,
        decreases n - i,
    {
        if s.get_char(i) == c {
            return true;
        }
        i += 1;
    }
    false
}

/// Splits `s` on dots into owned parts, exactly as `split_dots` describes.
pub fn split_dotted(s: &str) -> (parts: Vec<String>)
    ensures
        seq_views(parts@) == split_dots(s@),
        parts@.len() >= 1,
{
    let n = s.unicode_len();
    let mut parts: Vec<String> = Vec::new();
    let mut start: usize = 0;
    let mut i: usize = 0;
    proof {
        assert(s@.take(0) =~= Seq::<char>::empty());
        assert(split_dots(s@.take(0)) =~~= seq_views(parts@).push(s@.subrange(0, 0)));
    }
    while i < n
        invariant
            n == s@.len(),
            start <= i <= n,
            split_dots(s@.take(i as int)) == seq_views(parts@).push(
                s@.subrange(start as int, i as int),
            ),
        decreases n - i,
    {
        let c = s.get_char(i);
        proof {
            assert(s@.take(i + 1 as int).drop_last() =~= s@.take(i as int));
            assert(s@.take(i + 1 as int).last() == s@[i as int]);
        }
        if c == '.' {
            let part = s.substring_char(start, i).to_owned();
            parts.push(part);
            proof {
                assert(seq_views(parts@) =~~= split_dots(s@.take(i as int)));
                assert(split_dots(s@.take(i + 1 as int)) =~~= seq_views(parts@).push(
                    s@.subrange(i + 1 as int, i + 1 as int),
                ));
            }
            start = i + 1;
        } else {
            proof {
                let pre = split_dots(s@.take(i as int));
                lemma_split_dots_len(s@.take(i as int));
                assert(split_dots(s@.take(i + 1 as int)) == pre.update(
                    pre.len() - 1,
                    pre.last().push(s@[i as int]),
                ));
                assert(pre.last() == s@.subrange(start as int, i as int));
                assert(s@.subrange(start as int, i as int).push(s@[i as int]) =~= s@.subrange(
                    start as int,
                    i + 1 as int,
                ));
                assert(pre.update(pre.len() - 1, pre.last().push(s@[i as int])) =~~= seq_views(
                    parts@,
                ).push(s@.subrange(start as int, i + 1 as int)));
            }
        }
        i += 1;
    }
    let last = s.substring_char(start, n).to_owned();
    parts.push(last);
    proof {
        assert(s@.take(n as int) =~= s@);
        assert(seq_views(parts@) =~~= split_dots(s@));
    }
    parts
}

} // verus!
