//! Byte-level text machinery shared by the route-output parsers.
//!
//! Route and interface-configuration tools report as human-readable text, so
//! the parsers need exactly three operations: splitting on a separator byte
//! (newlines, dots), trimming ASCII whitespace from a line, and breaking a
//! line into whitespace-delimited tokens. Each executable operation is
//! proved equal to a recursive specification over byte sequences.

use vstd::prelude::*;

verus! {

/// ASCII whitespace: space, tab, line feed, carriage return.
pub open spec fn is_space(b: u8) -> bool {
    b == 32 || b == 9 || b == 10 || b == 13
}

fn byte_is_space(b: u8) -> (r: bool)
    ensures
        r == is_space(b),
{
    b == 32 || b == 9 || b == 10 || b == 13
}

/// Splitting a byte sequence on a separator, keeping empty pieces, so that a
/// text of `n` separators always falls into `n + 1` pieces in order.
pub open spec fn split_at_sep(s: Seq<u8>, sep: u8) -> Seq<Seq<u8>>
    decreases s.len(),
{
    if s.len() == 0 {
        seq![Seq::<u8>::empty()]
    } else {
        let pre = split_at_sep(s.drop_last(), sep);
        if s.last() == sep {
            pre.push(Seq::<u8>::empty())
        } else {
            pre.update(pre.len() - 1, pre.last().push(s.last()))
        }
    }
}

pub proof fn lemma_split_nonempty(s: Seq<u8>, sep: u8)
    ensures
        split_at_sep(s, sep).len() >= 1,
    decreases s.len(),
{
    if s.len() > 0 {
        lemma_split_nonempty(s.drop_last(), sep);
    }
}

pub fn split_bytes(s: &[u8], sep: u8) -> (r: Vec<Vec<u8>>)
    ensures
        r.deep_view() == split_at_sep(s@, sep),
{
    let mut r: Vec<Vec<u8>> = Vec::new();
    r.push(Vec::new());
    proof {
        assert(s@.subrange(0, 0) =~= Seq::<u8>::empty());
        assert(r.deep_view() =~~= split_at_sep(s@.subrange(0, 0), sep));
    }
    let mut i: usize = 0;
    while i < s.len()
        invariant
            i <= s@.len(),
            r@.len() >= 1,
            r.deep_view() == split_at_sep(s@.subrange(0, i as int), sep),
        decreases s@.len() - i,
    {
        let ghost pre = s@.subrange(0, i as int);
        let ghost cur = s@.subrange(0, i + 1);
        proof {
            assert(cur.drop_last() =~= pre);
            assert(cur.last() == s@[i as int]);
        }
        let b = s[i];
        if b == sep {
            r.push(Vec::new());
            proof {
                assert(r.deep_view() =~~= split_at_sep(pre, sep).push(Seq::<u8>::empty()));
            }
        } else {
            let mut last = r.pop().unwrap();
            last.push(b);
            r.push(last);
            proof {
                lemma_split_nonempty(pre, sep);
                let spre = split_at_sep(pre, sep);
                assert(r.deep_view() =~~= spre.update(spre.len() - 1, spre.last().push(b)));
            }
        }
        i += 1;
    }
    proof {
        assert(s@.subrange(0, i as int) =~= s@);
    }
    r
}

/// Appending separator-free text extends the final piece and nothing else.
pub proof fn lemma_split_append_no_sep(s: Seq<u8>, t: Seq<u8>, sep: u8)
    requires
        forall|i: int| 0 <= i < t.len() ==> t[i] != sep,
    ensures
        split_at_sep(s + t, sep) == split_at_sep(s, sep).update(
            split_at_sep(s, sep).len() - 1,
            split_at_sep(s, sep).last() + t,
        ),
    decreases t.len(),
{
    lemma_split_nonempty(s, sep);
    let sp = split_at_sep(s, sep);
    if t.len() == 0 {
        assert(s + t =~= s);
        assert(sp.update(sp.len() - 1, sp.last() + t) =~~= sp);
    } else {
        let t0 = t.drop_last();
        let c = t.last();
        assert forall|i: int| 0 <= i < t0.len() implies t0[i] != sep by {
            assert(t0[i] == t[i]);
        }
        lemma_split_append_no_sep(s, t0, sep);
        let u = s + t;
        assert(u.drop_last() =~= s + t0);
        assert(u.last() == c);
        let sp0 = split_at_sep(s + t0, sep);
        assert(sp0.update(sp0.len() - 1, sp0.last().push(c)) =~~= sp.update(
            sp.len() - 1,
            sp.last() + t,
        ));
    }
}

/// Appending one separator opens a new, empty final piece.
pub proof fn lemma_split_append_sep(s: Seq<u8>, sep: u8)
    ensures
        split_at_sep(s + seq![sep], sep) == split_at_sep(s, sep).push(Seq::<u8>::empty()),
{
    let u = s + seq![sep];
    assert(u.drop_last() =~= s);
    assert(u.last() == sep);
}

/// The pieces of a split, joined again by the separator.
pub open spec fn join_with(parts: Seq<Seq<u8>>, sep: u8) -> Seq<u8>
    decreases parts.len(),
{
    if parts.len() == 0 {
        Seq::<u8>::empty()
    } else if parts.len() == 1 {
        parts[0]
    } else {
        join_with(parts.drop_last(), sep) + seq![sep] + parts.last()
    }
}

/// Splitting loses nothing: joining the pieces restores the text, so two
/// texts with the same pieces are the same text.
pub proof fn lemma_split_join(s: Seq<u8>, sep: u8)
    ensures
        join_with(split_at_sep(s, sep), sep) == s,
    decreases s.len(),
{
    if s.len() == 0 {
        assert(join_with(split_at_sep(s, sep), sep) =~= s);
    } else {
        lemma_split_join(s.drop_last(), sep);
        lemma_split_nonempty(s.drop_last(), sep);
        let pre = split_at_sep(s.drop_last(), sep);
        if s.last() == sep {
            let sp = pre.push(Seq::<u8>::empty());
            assert(sp.drop_last() =~~= pre);
            assert(join_with(sp, sep) =~= s);
        } else {
            let sp = pre.update(pre.len() - 1, pre.last().push(s.last()));
            if pre.len() == 1 {
                assert(sp[0] == pre[0].push(s.last()));
                assert(join_with(sp, sep) =~= s);
            } else {
                assert(sp.drop_last() =~~= pre.drop_last());
                assert(join_with(sp, sep) =~= join_with(pre, sep).push(s.last()));
                assert(join_with(pre, sep).push(s.last()) =~= s);
            }
        }
    }
}

/// The whitespace-delimited tokens of a byte sequence, in order: maximal
/// runs of non-whitespace bytes, with no empty tokens.
pub open spec fn tokens_of(s: Seq<u8>) -> Seq<Seq<u8>>
    decreases s.len(),
{
    if s.len() == 0 {
        Seq::<Seq<u8>>::empty()
    } else {
        let pre = tokens_of(s.drop_last());
        let c = s.last();
        if is_space(c) {
            pre
        } else if s.len() >= 2 && !is_space(s[s.len() - 2]) {
            pre.update(pre.len() - 1, pre.last().push(c))
        } else {
            pre.push(seq![c])
        }
    }
}

pub proof fn lemma_tokens_nonempty(s: Seq<u8>)
    requires
        s.len() > 0,
        !is_space(s.last()),
    ensures
        tokens_of(s).len() >= 1,
    decreases s.len(),
{
    if s.len() >= 2 && !is_space(s[s.len() - 2]) {
        lemma_tokens_nonempty(s.drop_last());
    }
}

/// Tokens are maximal runs of non-whitespace bytes, so none is empty.
pub proof fn lemma_tokens_are_nonempty(s: Seq<u8>)
    ensures
        forall|i: int| 0 <= i < tokens_of(s).len() ==> (#[trigger] tokens_of(s)[i]).len() > 0,
    decreases s.len(),
{
    if s.len() > 0 {
        lemma_tokens_are_nonempty(s.drop_last());
        let pre = tokens_of(s.drop_last());
        let c = s.last();
        if is_space(c) {
        } else if s.len() >= 2 && !is_space(s[s.len() - 2]) {
            assert(s.drop_last().last() == s[s.len() - 2]);
            lemma_tokens_nonempty(s.drop_last());
            assert forall|i: int| 0 <= i < tokens_of(s).len() implies (#[trigger] tokens_of(
                s,
            )[i]).len() > 0 by {
                if i == pre.len() - 1 {
                    assert(tokens_of(s)[i] == pre.last().push(c));
                } else {
                    assert(tokens_of(s)[i] == pre[i]);
                }
            }
        } else {
            assert forall|i: int| 0 <= i < tokens_of(s).len() implies (#[trigger] tokens_of(
                s,
            )[i]).len() > 0 by {
                if i == pre.len() {
                    assert(tokens_of(s)[i] == seq![c]);
                } else {
                    assert(tokens_of(s)[i] == pre[i]);
                }
            }
        }
    }
}

pub fn tokenize(s: &[u8]) -> (r: Vec<Vec<u8>>)
    ensures
        r.deep_view() == tokens_of(s@),
{
    let mut r: Vec<Vec<u8>> = Vec::new();
    proof {
        assert(s@.subrange(0, 0) =~= Seq::<u8>::empty());
        assert(r.deep_view() =~~= tokens_of(s@.subrange(0, 0)));
    }
    let mut i: usize = 0;
    while i < s.len()
        invariant
            i <= s@.len(),
            r.deep_view() == tokens_of(s@.subrange(0, i as int)),
        decreases s@.len() - i,
    {
        let ghost pre = s@.subrange(0, i as int);
        let ghost cur = s@.subrange(0, i + 1);
        proof {
            assert(cur.drop_last() =~= pre);
            assert(cur.last() == s@[i as int]);
        }
        let b = s[i];
        if !byte_is_space(b) {
            if i == 0 || byte_is_space(s[i - 1]) {
                let mut t: Vec<u8> = Vec::new();
                t.push(b);
                r.push(t);
                proof {
                    if i > 0 {
                        assert(cur[cur.len() - 2] == s@[i - 1]);
                    }
                    assert(r.deep_view() =~~= tokens_of(pre).push(seq![b]));
                }
            } else {
                proof {
                    assert(pre.last() == s@[i - 1]);
                    lemma_tokens_nonempty(pre);
                    assert(cur[cur.len() - 2] == s@[i - 1]);
                }
                let mut last = r.pop().unwrap();
                last.push(b);
                r.push(last);
                proof {
                    let tpre = tokens_of(pre);
                    assert(r.deep_view() =~~= tpre.update(tpre.len() - 1, tpre.last().push(b)));
                }
            }
        }
        i += 1;
    }
    proof {
        assert(s@.subrange(0, i as int) =~= s@);
    }
    r
}

/// A byte sequence with leading ASCII whitespace removed.
pub open spec fn trim_start_spec(s: Seq<u8>) -> Seq<u8>
    decreases s.len(),
{
    if s.len() > 0 && is_space(s[0]) {
        trim_start_spec(s.subrange(1, s.len() as int))
    } else {
        s
    }
}

/// A byte sequence with trailing ASCII whitespace removed.
pub open spec fn trim_end_spec(s: Seq<u8>) -> Seq<u8>
    decreases s.len(),
{
    if s.len() > 0 && is_space(s.last()) {
        trim_end_spec(s.drop_last())
    } else {
        s
    }
}

/// A byte sequence with whitespace removed at both ends.
pub open spec fn trim_spec(s: Seq<u8>) -> Seq<u8> {
    trim_end_spec(trim_start_spec(s))
}

pub fn trim_bytes(s: &[u8]) -> (r: Vec<u8>)
    ensures
        r@ == trim_spec(s@),
{
    let mut lo: usize = 0;
    proof {
        assert(s@.subrange(0, s@.len() as int) =~= s@);
    }
    while lo < s.len() && byte_is_space(s[lo])
        invariant
            lo <= s@.len(),
            trim_start_spec(s@) == trim_start_spec(s@.subrange(lo as int, s@.len() as int)),
        decreases s@.len() - lo,
    {
        proof {
            let tail = s@.subrange(lo as int, s@.len() as int);
            assert(tail[0] == s@[lo as int]);
            assert(tail.subrange(1, tail.len() as int) =~= s@.subrange(
                lo + 1,
                s@.len() as int,
            ));
        }
        lo += 1;
    }
    proof {
        assert(trim_start_spec(s@) =~= s@.subrange(lo as int, s@.len() as int));
    }
    let mut hi: usize = s.len();
    while hi > lo && byte_is_space(s[hi - 1])
        invariant
            lo <= hi <= s@.len(),
            trim_start_spec(s@) == s@.subrange(lo as int, s@.len() as int),
            trim_end_spec(s@.subrange(lo as int, s@.len() as int)) == trim_end_spec(
                s@.subrange(lo as int, hi as int),
            ),
        decreases hi,
    {
        proof {
            let part = s@.subrange(lo as int, hi as int);
            assert(part.last() == s@[hi - 1]);
            assert(part.drop_last() =~= s@.subrange(lo as int, hi - 1));
        }
        hi -= 1;
    }
    proof {
        let part = s@.subrange(lo as int, hi as int);
        if part.len() > 0 {
            assert(part.last() == s@[hi - 1]);
        }
        assert(trim_end_spec(part) == part);
    }
    let piece = &s[lo..hi];
    let r = vstd::slice::slice_to_vec(piece);
    proof {
        assert(r@ =~= trim_spec(s@));
    }
    r
}

/// `p` is an initial segment of `s`.
pub open spec fn is_prefix(p: Seq<u8>, s: Seq<u8>) -> bool {
    p.len() <= s.len() && s.subrange(0, p.len() as int) == p
}

pub fn starts_with(s: &[u8], p: &[u8]) -> (r: bool)
    ensures
        r == is_prefix(p@, s@),
{
    if p.len() > s.len() {
        return false;
    }
    let mut j: usize = 0;
    while j < p.len()
        invariant
            j <= p@.len() <= s@.len(),
            forall|k: int| 0 <= k < j ==> s@[k] == p@[k],
        decreases p@.len() - j,
    {
        if s[j] != p[j] {
            proof {
                assert(s@.subrange(0, p@.len() as int)[j as int] == s@[j as int]);
            }
            return false;
        }
        j += 1;
    }
    proof {
        assert(s@.subrange(0, p@.len() as int) =~= p@);
    }
    true
}

pub fn bytes_eq(a: &[u8], b: &[u8]) -> (r: bool)
    ensures
        r == (a@ == b@),
{
    if a.len() != b.len() {
        return false;
    }
    let mut j: usize = 0;
    while j < a.len()
        invariant
            j <= a@.len(),
            a@.len() == b@.len(),
            forall|k: int| 0 <= k < j ==> a@[k] == b@[k],
        decreases a@.len() - j,
    {
        if a[j] != b[j] {
            return false;
        }
        j += 1;
    }
    proof {
        assert(a@ =~= b@);
    }
    true
}

} // verus!
