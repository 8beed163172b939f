//! Character-sequence helpers shared by the naming rules: splitting on a
//! separator, joining, searching, and moving between `str`, `Vec<char>` and
//! `String`.

use vstd::prelude::*;

verus! {

/// The pieces of `s` between occurrences of `sep`, in order, like
/// `str::split`: there is always at least one piece, and neighbouring
/// separators give empty pieces.
pub open spec fn split_on(s: Seq<char>, sep: char) -> Seq<Seq<char>>
    decreases s.len(),
{
    if s.len() == 0 {
        seq![Seq::<char>::empty()]
    } else {
        let init = split_on(s.drop_last(), sep);
        if s.last() == sep {
            init.push(Seq::<char>::empty())
        } else {
            init.update(init.len() - 1, init.last().push(s.last()))
        }
    }
}

pub proof fn lemma_split_on_nonempty(s: Seq<char>, sep: char)
    ensures
        split_on(s, sep).len() >= 1,
    decreases s.len(),
{
    if s.len() > 0 {
        lemma_split_on_nonempty(s.drop_last(), sep);
    }
}

/// Index of the last occurrence of `c` in `s`, if any.
pub open spec fn last_index_of(s: Seq<char>, c: char) -> Option<int>
    decreases s.len(),
{
    if s.len() == 0 {
        None
    } else if s.last() == c {
        Some(s.len() - 1)
    } else {
        last_index_of(s.drop_last(), c)
    }
}

pub proof fn lemma_last_index_of(s: Seq<char>, c: char)
    ensures
        match last_index_of(s, c) {
            Some(i) => 0 <= i < s.len() && s[i] == c && forall|j: int| i < j < s.len() ==> s[j] != c,
            None => forall|j: int| 0 <= j < s.len() ==> s[j] != c,
        },
    decreases s.len(),
{
    if s.len() > 0 {
        lemma_last_index_of(s.drop_last(), c);
        assert(forall|j: int| 0 <= j < s.len() - 1 ==> s.drop_last()[j] == s[j]);
    }
}

/// `true` when `needle` occurs in `hay` as a contiguous run.
pub open spec fn contains_run(hay: Seq<char>, needle: Seq<char>) -> bool {
    exists|i: int|
        0 <= i && i + needle.len() <= hay.len() && #[trigger] hay.subrange(i, i + needle.len())
            == needle
}

/// The pieces of `segs` joined with `sep` between neighbours.
pub open spec fn join_with(segs: Seq<Seq<char>>, sep: char) -> Seq<char>
    decreases segs.len(),
{
    if segs.len() == 0 {
        Seq::<char>::empty()
    } else if segs.len() == 1 {
        segs[0]
    } else {
        join_with(segs.drop_last(), sep).push(sep) + segs.last()
    }
}

/// The non-empty pieces of `segs`, in order.
pub open spec fn nonempty_pieces(segs: Seq<Seq<char>>) -> Seq<Seq<char>>
    decreases segs.len(),
{
    if segs.len() == 0 {
        Seq::<Seq<char>>::empty()
    } else {
        let r = nonempty_pieces(segs.drop_last());
        if segs.last().len() > 0 {
            r.push(segs.last())
        } else {
            r
        }
    }
}

/// The character sequences held by a list of character vectors.
pub open spec fn seqs_of(l: Seq<Vec<char>>) -> Seq<Seq<char>> {
    l.map_values(|v: Vec<char>| v@)
}

/// Every piece kept by [`nonempty_pieces`] is non-empty and is one of the
/// pieces it was given.
pub proof fn lemma_nonempty_pieces(segs: Seq<Seq<char>>)
    ensures
        forall|i: int|
            0 <= i < nonempty_pieces(segs).len() ==> (#[trigger] nonempty_pieces(segs)[i]).len() > 0
                && segs.contains(nonempty_pieces(segs)[i]),
        nonempty_pieces(segs).len() <= segs.len(),
        nonempty_pieces(segs).len() == 0 <==> forall|i: int| 0 <= i < segs.len() ==> (#[trigger] segs[i]).len() == 0,
    decreases segs.len(),
{
    if segs.len() > 0 {
        let init = segs.drop_last();
        lemma_nonempty_pieces(init);
        let r = nonempty_pieces(init);
        assert forall|i: int| 0 <= i < nonempty_pieces(segs).len() implies (
        #[trigger] nonempty_pieces(segs)[i]).len() > 0 && segs.contains(nonempty_pieces(segs)[i]) by {
            if i < r.len() {
                assert(nonempty_pieces(segs)[i] == r[i]);
                let k = choose|k: int| 0 <= k < init.len() && init[k] == r[i];
                assert(segs[k] == r[i]);
            } else {
                assert(segs[segs.len() - 1] == segs.last());
            }
        }
        if nonempty_pieces(segs).len() == 0 {
            assert forall|i: int| 0 <= i < segs.len() implies (#[trigger] segs[i]).len() == 0 by {
                if i < segs.len() - 1 {
                    assert(segs[i] == init[i]);
                }
            }
        }
        if forall|i: int| 0 <= i < segs.len() ==> (#[trigger] segs[i]).len() == 0 {
            assert(forall|i: int| 0 <= i < init.len() ==> init[i] == segs[i]);
            assert(segs[segs.len() - 1].len() == 0);
        }
    }
}

/// No piece of a split holds the separator.
pub proof fn lemma_split_pieces_lack_separator(s: Seq<char>, sep: char)
    ensures
        forall|k: int, j: int|
            0 <= k < split_on(s, sep).len() && 0 <= j < split_on(s, sep)[k].len() ==> #[trigger] split_on(
                s,
                sep,
            )[k][j] != sep,
    decreases s.len(),
{
    if s.len() > 0 {
        lemma_split_pieces_lack_separator(s.drop_last(), sep);
        lemma_split_on_nonempty(s.drop_last(), sep);
        let init = split_on(s.drop_last(), sep);
        assert forall|k: int, j: int|
            0 <= k < split_on(s, sep).len() && 0 <= j < split_on(s, sep)[k].len() implies #[trigger] split_on(
            s,
            sep,
        )[k][j] != sep by {
            if s.last() == sep {
                if k < init.len() {
                    assert(split_on(s, sep)[k] == init[k]);
                }
            } else {
                if k < init.len() - 1 {
                    assert(split_on(s, sep)[k] == init[k]);
                } else {
                    assert(split_on(s, sep)[k] == init.last().push(s.last()));
                    if j < init.last().len() {
                        assert(init[init.len() - 1][j] != sep);
                    }
                }
            }
        }
    }
}

/// A sequence without the separator splits into itself alone.
pub proof fn lemma_split_without_separator(s: Seq<char>, sep: char)
    requires
        forall|i: int| 0 <= i < s.len() ==> s[i] != sep,
    ensures
        split_on(s, sep) == seq![s],
    decreases s.len(),
{
    if s.len() > 0 {
        assert(forall|i: int| 0 <= i < s.len() - 1 ==> s.drop_last()[i] == s[i]);
        lemma_split_without_separator(s.drop_last(), sep);
        assert(s.drop_last().push(s.last()) =~= s);
        assert(split_on(s, sep) =~= seq![s]);
    } else {
        assert(s =~= Seq::<char>::empty());
    }
}

/// Splitting `a`, a separator, then `b` gives the pieces of `a` followed by
/// the pieces of `b`.
pub proof fn lemma_split_concat(a: Seq<char>, b: Seq<char>, sep: char)
    ensures
        split_on(a.push(sep) + b, sep) == split_on(a, sep) + split_on(b, sep),
    decreases b.len(),
{
    let s = a.push(sep) + b;
    if b.len() == 0 {
        assert(s =~= a.push(sep));
        assert(a.push(sep).drop_last() =~= a);
        assert(split_on(a, sep).push(Seq::<char>::empty()) =~= split_on(a, sep) + split_on(b, sep));
    } else {
        assert(s.drop_last() =~= a.push(sep) + b.drop_last());
        assert(s.last() == b.last());
        lemma_split_concat(a, b.drop_last(), sep);
        lemma_split_on_nonempty(b.drop_last(), sep);
        let x = split_on(a, sep);
        let y = split_on(b.drop_last(), sep);
        if b.last() == sep {
            assert((x + y).push(Seq::<char>::empty()) =~= x + y.push(Seq::<char>::empty()));
        } else {
            assert((x + y).last() == y.last());
            assert((x + y).update((x + y).len() - 1, y.last().push(b.last())) =~= x + y.update(
                y.len() - 1,
                y.last().push(b.last()),
            ));
        }
    }
}

/// Appends one character to a `String` by calling std's `String::push`.
/// The contract claims what std documents for it: the string's characters
/// become the old ones followed by `c`.
#[verifier::external_body]
pub(crate) fn string_push(s: &mut String, c: char)
    ensures
        final(s)@ == old(s)@.push(c),
{
    s.push(c);
}

/// The characters of `s`, in order.
pub fn chars_of(s: &str) -> (v: Vec<char>)
    ensures
        v@ == s@,
{
    let n = s.unicode_len();
    let mut v: Vec<char> = Vec::new();
    for i in 0..n
        invariant
            n == s@.len(),
            v@ == s@.take(i as int),
    {
        let c = s.get_char(i);
        v.push(c);
        assert(v@ =~= s@.take(i + 1));
    }
    assert(v@ =~= s@);
    v
}

/// Appends `v[lo..hi]` to `out`.
pub fn push_range(out: &mut String, v: &Vec<char>, lo: usize, hi: usize)
    requires
        lo <= hi <= v.len(),
    ensures
        final(out)@ == old(out)@ + v@.subrange(lo as int, hi as int),
{
    let ghost start = out@;
    let mut i = lo;
    while i < hi
        invariant
            lo <= i <= hi <= v.len(),
            out@ == start + v@.subrange(lo as int, i as int),
        decreases hi - i,
    {
        string_push(out, v[i]);
        i = i + 1;
        assert(out@ =~= start + v@.subrange(lo as int, i as int));
    }
}

/// Appends every character of `v` to `out`.
pub fn push_chars(out: &mut String, v: &Vec<char>)
    ensures
        final(out)@ == old(out)@ + v@,
{
    push_range(out, v, 0, v.len());
    assert(v@.subrange(0, v@.len() as int) =~= v@);
}

/// A new `String` holding `v[lo..hi]`.
pub fn string_of_range(v: &Vec<char>, lo: usize, hi: usize) -> (s: String)
    requires
        lo <= hi <= v.len(),
    ensures
        s@ == v@.subrange(lo as int, hi as int),
{
    let mut s = String::new();
    push_range(&mut s, v, lo, hi);
    assert(s@ =~= v@.subrange(lo as int, hi as int));
    s
}

/// `true` exactly when `v[lo..hi]` equals `w`.
pub fn range_eq(v: &Vec<char>, lo: usize, hi: usize, w: &Vec<char>) -> (b: bool)
    requires
        lo <= hi <= v.len(),
    ensures
        b == (v@.subrange(lo as int, hi as int) == w@),
{
    if hi - lo != w.len() {
        assert(v@.subrange(lo as int, hi as int).len() != w@.len());
        return false;
    }
    let mut i: usize = 0;
    while i < w.len()
        invariant
            lo <= hi <= v.len(),
            hi - lo == w.len(),
            i <= w.len(),
            forall|j: int| 0 <= j < i ==> v@[lo + j] == w@[j],
        decreases w.len() - i,
    {
        if v[lo + i] != w[i] {
            assert(v@.subrange(lo as int, hi as int)[i as int] != w@[i as int]);
            return false;
        }
        i = i + 1;
    }
    assert(v@.subrange(lo as int, hi as int) =~= w@);
    true
}

/// Boundaries of the pieces of `v` split on `sep`: piece `k` is
/// `v[b[k].0..b[k].1]`.
pub fn split_bounds(v: &Vec<char>, sep: char) -> (b: Vec<(usize, usize)>)
    ensures
        b.len() == split_on(v@, sep).len(),
        forall|k: int| #![trigger b[k]] 0 <= k < b.len() ==> b[k].0 <= b[k].1 <= v.len(),
        forall|k: int|
            0 <= k < b.len() ==> v@.subrange(b[k].0 as int, b[k].1 as int)
                == #[trigger] split_on(v@, sep)[k],
        forall|k: int| 0 < k < b.len() ==> b[k].0 == b[k - 1].1 + 1 && v@[b[k - 1].1 as int] == sep,
        b.len() >= 1,
        b[0].0 == 0,
        b[b.len() - 1].1 == v.len(),
{
    let mut b: Vec<(usize, usize)> = Vec::new();
    let mut start: usize = 0;
    let mut i: usize = 0;
    while i < v.len()
        invariant
            0 <= start <= i <= v.len(),
            b.len() + 1 == split_on(v@.take(i as int), sep).len(),
            forall|k: int| #![trigger b[k]] 0 <= k < b.len() ==> b[k].0 <= b[k].1 <= start,
            forall|k: int|
                0 <= k < b.len() ==> v@.subrange(b[k].0 as int, b[k].1 as int)
                    == #[trigger] split_on(v@.take(i as int), sep)[k],
            v@.subrange(start as int, i as int) == split_on(v@.take(i as int), sep)[b.len() as int],
            forall|k: int| 0 < k < b.len() ==> b[k].0 == b[k - 1].1 + 1 && v@[b[k - 1].1 as int] == sep,
            b.len() > 0 ==> start == b[b.len() - 1].1 + 1 && v@[b[b.len() - 1].1 as int] == sep,
            b.len() == 0 ==> start == 0,
            b.len() > 0 ==> b[0].0 == 0,
        decreases v.len() - i,
    {
        let ghost prev = split_on(v@.take(i as int), sep);
        let ghost old_b = b@;
        proof {
            lemma_split_on_nonempty(v@.take(i as int), sep);
        }
        assert(v@.take(i + 1).drop_last() =~= v@.take(i as int));
        assert(v@.take(i + 1).last() == v@[i as int]);
        if v[i] == sep {
            b.push((start, i));
            start = i + 1;
            assert(v@.subrange(start as int, (i + 1) as int) =~= Seq::<char>::empty());
            assert(split_on(v@.take(i + 1), sep) == prev.push(Seq::<char>::empty()));
            assert(forall|k: int|
                0 <= k < prev.len() ==> #[trigger] split_on(v@.take(i + 1), sep)[k] == prev[k]);
        } else {
            assert(v@.subrange(start as int, (i + 1) as int) =~= v@.subrange(
                start as int,
                i as int,
            ).push(v@[i as int]));
            assert(split_on(v@.take(i + 1), sep) == prev.update(
                prev.len() - 1,
                prev.last().push(v@[i as int]),
            ));
            assert(forall|k: int|
                0 <= k < prev.len() - 1 ==> #[trigger] split_on(v@.take(i + 1), sep)[k]
                    == prev[k]);
        }
        i = i + 1;
        assert forall|k: int| #![trigger b[k]] 0 <= k < b.len() implies b[k].0 <= b[k].1 <= start by {
            if k < old_b.len() {
                assert(b[k] == old_b[k]);
            }
        }
        assert forall|k: int|
            0 <= k < b.len() implies v@.subrange(b[k].0 as int, b[k].1 as int)
            == #[trigger] split_on(v@.take(i as int), sep)[k] by {
            if k < old_b.len() {
                assert(b[k] == old_b[k]);
                assert(split_on(v@.take(i as int), sep)[k] == prev[k]);
            }
        }
    }
    assert(v@.take(v.len() as int) =~= v@);
    assert(split_on(v@.take(v.len() as int), sep) == split_on(v@, sep));
    b.push((start, i));
    b
}

/// A new vector holding `v[lo..hi]`.
pub fn subvec(v: &Vec<char>, lo: usize, hi: usize) -> (r: Vec<char>)
    requires
        lo <= hi <= v.len(),
    ensures
        r@ == v@.subrange(lo as int, hi as int),
{
    let mut r: Vec<char> = Vec::new();
    let mut i = lo;
    while i < hi
        invariant
            lo <= i <= hi <= v.len(),
            r@ == v@.subrange(lo as int, i as int),
        decreases hi - i,
    {
        r.push(v[i]);
        i = i + 1;
        assert(r@ =~= v@.subrange(lo as int, i as int));
    }
    r
}

/// Boundaries of the non-empty pieces of `v` split on `sep`.
pub fn nonempty_bounds(v: &Vec<char>, sep: char) -> (nb: Vec<(usize, usize)>)
    ensures
        nb.len() == nonempty_pieces(split_on(v@, sep)).len(),
        forall|j: int| #![trigger nb[j]] 0 <= j < nb.len() ==> nb[j].0 < nb[j].1 <= v.len(),
        forall|j: int|
            0 <= j < nb.len() ==> v@.subrange(nb[j].0 as int, nb[j].1 as int)
                == #[trigger] nonempty_pieces(split_on(v@, sep))[j],
{
    let b = split_bounds(v, sep);
    let ghost pieces = split_on(v@, sep);
    let mut nb: Vec<(usize, usize)> = Vec::new();
    let mut k: usize = 0;
    while k < b.len()
        invariant
            k <= b.len() == pieces.len(),
            pieces == split_on(v@, sep),
            forall|i: int| #![trigger b[i]] 0 <= i < b.len() ==> b[i].0 <= b[i].1 <= v.len(),
            forall|i: int|
                0 <= i < b.len() ==> v@.subrange(b[i].0 as int, b[i].1 as int)
                    == #[trigger] pieces[i],
            nb.len() == nonempty_pieces(pieces.take(k as int)).len(),
            forall|j: int| #![trigger nb[j]] 0 <= j < nb.len() ==> nb[j].0 < nb[j].1 <= v.len(),
            forall|j: int|
                0 <= j < nb.len() ==> v@.subrange(nb[j].0 as int, nb[j].1 as int)
                    == #[trigger] nonempty_pieces(pieces.take(k as int))[j],
        decreases b.len() - k,
    {
        let ghost prev = nonempty_pieces(pieces.take(k as int));
        let ghost old_nb = nb@;
        assert(pieces.take(k + 1).drop_last() =~= pieces.take(k as int));
        assert(pieces.take(k + 1).last() == pieces[k as int]);
        let (lo, hi) = b[k];
        assert(v@.subrange(lo as int, hi as int) == pieces[k as int]);
        if lo < hi {
            nb.push((lo, hi));
        }
        k = k + 1;
        assert forall|j: int| #![trigger nb[j]] 0 <= j < nb.len() implies nb[j].0 < nb[j].1 <= v.len() by {
            if j < old_nb.len() {
                assert(nb[j] == old_nb[j]);
            }
        }
        assert forall|j: int|
            0 <= j < nb.len() implies v@.subrange(nb[j].0 as int, nb[j].1 as int)
            == #[trigger] nonempty_pieces(pieces.take(k as int))[j] by {
            if j < old_nb.len() {
                assert(nb[j] == old_nb[j]);
                assert(nonempty_pieces(pieces.take(k as int))[j] == prev[j]);
            }
        }
    }
    assert(pieces.take(b.len() as int) =~= pieces);
    nb
}

/// `v@` followed by the pieces of `segs` joined with `sep`.
pub fn push_joined(out: &mut String, segs: &Vec<Vec<char>>, sep: char)
    ensures
        final(out)@ == old(out)@ + join_with(seqs_of(segs@), sep),
{
    let ghost start = out@;
    let ghost all = seqs_of(segs@);
    let mut i: usize = 0;
    while i < segs.len()
        invariant
            i <= segs.len(),
            all == seqs_of(segs@),
            out@ == start + join_with(all.take(i as int), sep),
        decreases segs.len() - i,
    {
        assert(all.take(i + 1).drop_last() =~= all.take(i as int));
        assert(all.take(i + 1).last() == segs[i as int]@);
        if i > 0 {
            string_push(out, sep);
        } else {
            assert(all.take(i + 1) =~= seq![all[0]]);
        }
        push_chars(out, &segs[i]);
        i = i + 1;
        assert(out@ =~= start + join_with(all.take(i as int), sep));
    }
    assert(all.take(segs.len() as int) =~= all);
}

} // verus!
