//! Whole-text substitution: every identifier the table maps is replaced, in
//! insertion order, by its pseudonym.

use crate::bytes::copy_bytes;
use crate::bytes::push_all;
use crate::pattern::is_identifier;
use crate::table::PseudonymTable;
use vstd::prelude::*;

verus! {

/// `s` with every non-overlapping occurrence of `from`, scanned left to
/// right, replaced by `to`; replacements are not rescanned.
pub open spec fn spec_replace_all(s: Seq<u8>, from: Seq<u8>, to: Seq<u8>) -> Seq<u8>
    decreases s.len() when from.len() > 0
{
    if s.len() < from.len() {
        s
    } else if s.take(from.len() as int) == from {
        to + spec_replace_all(s.skip(from.len() as int), from, to)
    } else {
        seq![s[0]] + spec_replace_all(s.skip(1), from, to)
    }
}

/// `sub` occurs somewhere in `s`.
pub open spec fn contains_seq(s: Seq<u8>, sub: Seq<u8>) -> bool {
    exists|i: int| 0 <= i && i + sub.len() <= s.len() && #[trigger] s.subrange(i, i + sub.len())
        == sub
}

/// A point where `sub` is known to occur in `s`.
pub proof fn lemma_contains_at(s: Seq<u8>, sub: Seq<u8>, i: int)
    requires
        0 <= i,
        i + sub.len() <= s.len(),
        s.subrange(i, i + sub.len()) == sub,
    ensures
        contains_seq(s, sub),
{
}

/// Whether `pat` occurs in `s` at position `i`.
fn matches_at(s: &Vec<u8>, i: usize, pat: &Vec<u8>) -> (r: bool)
    requires
        i + pat@.len() <= s@.len(),
    ensures
        r == (s@.subrange(i as int, i + pat@.len()) == pat@),
{
    let n = s.len();
    let m = pat.len();
    let mut k: usize = 0;
    while k < m
        invariant
            0 <= k <= m,
            m == pat@.len(),
            n == s@.len(),
            i + m <= n,
            forall|j: int| 0 <= j < k ==> s@[i + j] == pat@[j],
        decreases m - k,
    {
        if s[i + k] != pat[k] {
            proof {
                if s@.subrange(i as int, i + pat@.len()) == pat@ {
                    assert(s@.subrange(i as int, i + pat@.len())[k as int] == pat@[k as int]);
                }
            }
            return false;
        }
        k = k + 1;
    }
    proof {
        assert(s@.subrange(i as int, i + pat@.len()) =~= pat@);
    }
    true
}

/// Replaces every literal occurrence of `from` in `s` by `to`, scanning left
/// to right without rescanning replacements.
pub fn replace_all(s: &Vec<u8>, from: &Vec<u8>, to: &Vec<u8>) -> (r: Vec<u8>)
    requires
        from@.len() > 0,
    ensures
        r@ == spec_replace_all(s@, from@, to@),
{
    let n = s.len();
    let flen = from.len();
    let mut out: Vec<u8> = Vec::new();
    let mut i: usize = 0;
    proof {
        assert(s@.skip(0) =~= s@);
    }
    while i < n
        invariant
            0 <= i <= n,
            n == s@.len(),
            flen == from@.len(),
            flen > 0,
            spec_replace_all(s@, from@, to@) == out@ + spec_replace_all(
                s@.skip(i as int),
                from@,
                to@,
            ),
        decreases n - i,
    {
        let ghost rest = s@.skip(i as int);
        if n - i >= flen && matches_at(s, i, from) {
            proof {
                assert(rest.take(flen as int) =~= s@.subrange(i as int, i + from@.len()));
                assert(spec_replace_all(rest, from@, to@) == to@ + spec_replace_all(
                    rest.skip(flen as int),
                    from@,
                    to@,
                ));
                assert(rest.skip(flen as int) =~= s@.skip(i + flen));
            }
            push_all(&mut out, to);
            i = i + flen;
        } else {
            proof {
                if n - i >= flen {
                    assert(rest.take(flen as int) =~= s@.subrange(i as int, i + from@.len()));
                    assert(spec_replace_all(rest, from@, to@) == seq![rest[0]]
                        + spec_replace_all(rest.skip(1), from@, to@));
                } else {
                    assert(rest.len() < flen);
                    assert(spec_replace_all(rest, from@, to@) == rest);
                    assert(rest.skip(1).len() < flen);
                    assert(spec_replace_all(rest.skip(1), from@, to@) == rest.skip(1));
                    assert(seq![rest[0]] + rest.skip(1) =~= rest);
                }
                assert(rest[0] == s@[i as int]);
                assert(rest.skip(1) =~= s@.skip(i + 1));
            }
            let b = s[i];
            out.push(b);
            i = i + 1;
        }
    }
    proof {
        assert(s@.skip(n as int) =~= Seq::<u8>::empty());
        assert(spec_replace_all(Seq::<u8>::empty(), from@, to@) == Seq::<u8>::empty());
        assert(out@ + Seq::<u8>::empty() =~= out@);
    }
    out
}

/// The text after each entry of `es`, in order, has been substituted.
pub open spec fn apply_entries(s: Seq<u8>, es: Seq<(Seq<u8>, Seq<u8>)>) -> Seq<u8>
    decreases es.len(),
{
    if es.len() == 0 {
        s
    } else {
        apply_entries(spec_replace_all(s, es[0].0, es[0].1), es.skip(1))
    }
}

/// Rewrites one file's content: for every (identifier, pseudonym) entry of
/// the table, in insertion order, every literal occurrence of the identifier
/// is replaced by its pseudonym.
pub fn replace_event_names_with_hashes(event_hashes: &PseudonymTable, data: &Vec<u8>) -> (r: Vec<
    u8,
>)
    requires
        event_hashes.wf(),
    ensures
        r@ == apply_entries(data@, event_hashes.entries_seq()),
{
    let ghost es = event_hashes.entries_seq();
    let n = event_hashes.entries.len();
    let mut cur: Vec<u8> = copy_bytes(data);
    let mut i: usize = 0;
    proof {
        assert(es.skip(0) =~= es);
    }
    while i < n
        invariant
            0 <= i <= n,
            n == es.len(),
            es == event_hashes.entries_seq(),
            event_hashes.wf(),
            apply_entries(data@, es) == apply_entries(cur@, es.skip(i as int)),
        decreases n - i,
    {
        let entry = &event_hashes.entries[i];
        proof {
            assert(es[i as int] == (entry.event@, entry.hash@));
            let rest = es.skip(i as int);
            assert(rest[0] == es[i as int]);
            assert(apply_entries(cur@, rest) == apply_entries(
                spec_replace_all(cur@, rest[0].0, rest[0].1),
                rest.skip(1),
            ));
            assert(rest.skip(1) =~= es.skip(i as int + 1));
        }
        let next = replace_all(&cur, &entry.event, &entry.hash);
        cur = next;
        i = i + 1;
    }
    proof {
        assert(es.skip(n as int) =~= Seq::<(Seq<u8>, Seq<u8>)>::empty());
    }
    cur
}

/// Law: substitution plants the pseudonym — when a text contains the
/// identifier, the rewritten text contains the replacement.
pub proof fn lemma_replace_all_contains_to(s: Seq<u8>, from: Seq<u8>, to: Seq<u8>)
    requires
        from.len() > 0,
        contains_seq(s, from),
    ensures
        contains_seq(spec_replace_all(s, from, to), to),
    decreases s.len(),
{
    let r = spec_replace_all(s, from, to);
    if s.len() < from.len() {
        let i = choose|i: int|
            0 <= i && i + from.len() <= s.len() && #[trigger] s.subrange(i, i + from.len())
                == from;
        assert(false);
    } else if s.take(from.len() as int) == from {
        assert(r == to + spec_replace_all(s.skip(from.len() as int), from, to));
        assert(r.subrange(0, to.len() as int) =~= to);
        lemma_contains_at(r, to, 0);
    } else {
        let i = choose|i: int|
            0 <= i && i + from.len() <= s.len() && #[trigger] s.subrange(i, i + from.len())
                == from;
        if i == 0 {
            assert(s.take(from.len() as int) =~= s.subrange(0, from.len() as int));
            assert(false);
        }
        assert(s.skip(1).subrange(i - 1, i - 1 + from.len()) =~= s.subrange(i, i + from.len()));
        lemma_contains_at(s.skip(1), from, i - 1);
        lemma_replace_all_contains_to(s.skip(1), from, to);
        let r1 = spec_replace_all(s.skip(1), from, to);
        let j = choose|j: int|
            0 <= j && j + to.len() <= r1.len() && #[trigger] r1.subrange(j, j + to.len()) == to;
        assert(r == seq![s[0]] + r1);
        assert(r.subrange(j + 1, j + 1 + to.len()) =~= r1.subrange(j, j + to.len()));
        lemma_contains_at(r, to, j + 1);
    }
}

/// Law: a text with no occurrence of the identifier is left unchanged by its
/// substitution.
pub proof fn lemma_replace_all_absent(s: Seq<u8>, from: Seq<u8>, to: Seq<u8>)
    requires
        from.len() > 0,
        !contains_seq(s, from),
    ensures
        spec_replace_all(s, from, to) == s,
    decreases s.len(),
{
    if s.len() < from.len() {
    } else if s.take(from.len() as int) == from {
        assert(s.subrange(0, from.len() as int) =~= s.take(from.len() as int));
        lemma_contains_at(s, from, 0);
        assert(false);
    } else {
        if contains_seq(s.skip(1), from) {
            let i = choose|i: int|
                0 <= i && i + from.len() <= s.skip(1).len() && #[trigger] s.skip(1).subrange(
                    i,
                    i + from.len(),
                ) == from;
            assert(s.subrange(i + 1, i + 1 + from.len()) =~= s.skip(1).subrange(
                i,
                i + from.len(),
            ));
            lemma_contains_at(s, from, i + 1);
            assert(false);
        }
        lemma_replace_all_absent(s.skip(1), from, to);
        assert(seq![s[0]] + s.skip(1) =~= s);
    }
}

/// Law (cross-file consistency): when the same identifier occurs in two
/// texts, rewriting both with the same table substitutes the identical
/// pseudonym — the one the table maps the identifier to — in each.
pub proof fn lemma_cross_file_consistency(c1: Seq<u8>, c2: Seq<u8>, id: Seq<u8>, p: Seq<u8>)
    requires
        id.len() > 0,
        contains_seq(c1, id),
        contains_seq(c2, id),
    ensures
        contains_seq(spec_replace_all(c1, id, p), p),
        contains_seq(spec_replace_all(c2, id, p), p),
{
    lemma_replace_all_contains_to(c1, id, p);
    lemma_replace_all_contains_to(c2, id, p);
}

/// Law (non-matching text is untouched): a text in which no substring
/// satisfies the identifier grammar is written back unchanged by a table
/// whose keys all satisfy it.
pub proof fn lemma_nonmatching_untouched(s: Seq<u8>, es: Seq<(Seq<u8>, Seq<u8>)>)
    requires
        forall|i: int| 0 <= i < es.len() ==> is_identifier((#[trigger] es[i]).0),
        forall|i: int, j: int| 0 <= i <= j <= s.len() ==> !is_identifier(
            #[trigger] s.subrange(i, j),
        ),
    ensures
        apply_entries(s, es) == s,
    decreases es.len(),
{
    if es.len() == 0 {
    } else {
        let k = es[0].0;
        assert(is_identifier(k));
        if contains_seq(s, k) {
            let i = choose|i: int|
                0 <= i && i + k.len() <= s.len() && #[trigger] s.subrange(i, i + k.len()) == k;
            assert(!is_identifier(s.subrange(i, i + k.len())));
            assert(false);
        }
        lemma_replace_all_absent(s, k, es[0].1);
        assert(apply_entries(s, es) == apply_entries(
            spec_replace_all(s, k, es[0].1),
            es.skip(1),
        ));
        assert forall|i: int| 0 <= i < es.skip(1).len() implies is_identifier(
            (#[trigger] es.skip(1)[i]).0,
        ) by {
            assert(es.skip(1)[i] == es[i + 1]);
        }
        lemma_nonmatching_untouched(s, es.skip(1));
    }
}

} // verus!

