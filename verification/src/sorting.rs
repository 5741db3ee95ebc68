//! Sorting a chunk and merging two sorted files.
//!
//! A chunk's content is tokenized on whitespace and the tokens are sorted
//! lexicographically.  Two already-sorted files are combined by the classic
//! two-pointer streaming merge.  Both steps preserve the multiset of records:
//! sorting and merging are permutations, they never add, drop or duplicate a
//! token or a line.

use vstd::prelude::*;
use vstd::multiset::Multiset;
use crate::order::{lex_le, lines_sorted, str_le};

verus! {

broadcast use vstd::seq_lib::group_to_multiset_ensures, vstd::multiset::group_multiset_axioms;

/// The characters of each line, in order.
pub open spec fn views_of(s: Seq<String>) -> Seq<Seq<char>> {
    Seq::new(s.len(), |i: int| s[i]@)
}

/// The tokens that splitting a text on ASCII whitespace yields, in order.
/// The result depends on the characters of the text alone.
pub uninterp spec fn tokens_of(s: Seq<char>) -> Seq<Seq<char>>;

/// Relies on `str::split_ascii_whitespace`: the returned tokens are a pure
/// function of the characters of `data`.
#[verifier::external_body]
fn split_tokens(data: &str) -> (r: Vec<String>)
    ensures
        views_of(r@) == tokens_of(data@),
{
    data.split_ascii_whitespace().map(|t| t.to_string()).collect()
}

proof fn lemma_views_of_remove(s: Seq<String>, i: int)
    requires
        0 <= i < s.len(),
    ensures
        views_of(s.remove(i)) =~= views_of(s).remove(i),
{
    s.remove_ensures(i);
    views_of(s).remove_ensures(i);
}

proof fn lemma_views_of_insert(s: Seq<String>, i: int, x: String)
    requires
        0 <= i <= s.len(),
    ensures
        views_of(s.insert(i, x)) =~= views_of(s).insert(i, x@),
{
    s.insert_ensures(i, x);
    views_of(s).insert_ensures(i, x@);
}

/// Sort lines into ascending lexicographic order.  The result is a
/// permutation of the input: the multiset of lines is preserved.  Sorting is
/// idempotent: an input already in order comes back unchanged.
pub fn sort_strings(v: Vec<String>) -> (r: Vec<String>)
    ensures
        lines_sorted(views_of(r@)),
        views_of(r@).to_multiset() == views_of(v@).to_multiset(),
        lines_sorted(views_of(v@)) ==> views_of(r@) == views_of(v@),
{
    let mut input = v;
    let mut out: Vec<String> = Vec::new();
    proof {
        assert(views_of(out@) =~= Seq::<Seq<char>>::empty());
        assert(views_of(out@).to_multiset().add(views_of(input@).to_multiset()) =~= views_of(
            v@,
        ).to_multiset());
    }
    while input.len() > 0
        invariant
            lines_sorted(views_of(out@)),
            views_of(out@).to_multiset().add(views_of(input@).to_multiset()) == views_of(
                v@,
            ).to_multiset(),
        decreases input.len(),
    {
        let ghost pre_input = input@;
        let s = input.remove(0);
        proof {
            lemma_views_of_remove(pre_input, 0);
        }
        let mut j: usize = 0;
        while j < out.len() && str_le(out[j].as_str(), s.as_str())
            invariant
                j <= out@.len(),
                forall|k: int| 0 <= k < j ==> lex_le(views_of(out@)[k], s@),
                lines_sorted(views_of(out@)),
            decreases out@.len() - j,
        {
            j += 1;
        }
        proof {
            if (j as int) < out@.len() {
                crate::order::lemma_lex_le_total(views_of(out@)[j as int], s@);
            }
        }
        let ghost pre_out = out@;
        out.insert(j, s);
        proof {
            lemma_views_of_insert(pre_out, j as int, s);
            let ov = views_of(pre_out);
            let nv = views_of(out@);
            assert(nv =~= ov.insert(j as int, s@));
            ov.insert_ensures(j as int, s@);
            // ascending order is kept around the insertion point
            assert forall|p: int, q: int| 0 <= p < q < nv.len() implies lex_le(nv[p], nv[q]) by {
                if p < j && q < j {
                    assert(lex_le(ov[p], ov[q]));
                } else if p < j && q == j {
                    assert(lex_le(ov[p], s@));
                } else if p < j && q > j {
                    assert(lex_le(ov[p], ov[q - 1]));
                } else if p == j && q > j {
                    assert(lex_le(s@, ov[j as int]));
                    if q - 1 > j {
                        assert(lex_le(ov[j as int], ov[q - 1]));
                        crate::order::lemma_lex_le_transitive(s@, ov[j as int], ov[q - 1]);
                    }
                } else {
                    assert(lex_le(ov[p - 1], ov[q - 1]));
                }
            }
            // the multiset bookkeeping: one line moved from `input` to `out`
            assert(views_of(out@).to_multiset() =~= views_of(pre_out).to_multiset().insert(s@));
            assert(views_of(pre_input).to_multiset() =~= views_of(input@).to_multiset().insert(
                s@,
            ));
            assert(views_of(out@).to_multiset().add(views_of(input@).to_multiset()) =~= views_of(
                v@,
            ).to_multiset());
        }
    }
    proof {
        assert(views_of(input@).to_multiset() =~= Multiset::<Seq<char>>::empty());
        assert(views_of(out@).to_multiset() =~= views_of(v@).to_multiset());
        if lines_sorted(views_of(v@)) {
            crate::order::lemma_sorted_permutation_unique(views_of(out@), views_of(v@));
        }
    }
    out
}

/// Sort the tokens of a chunk's text: split on whitespace, then order the
/// tokens lexicographically.  The result holds exactly the tokens of `data`,
/// and text whose tokens are already in order is left as it stands.
pub fn sort_content(data: &str) -> (r: Vec<String>)
    ensures
        lines_sorted(views_of(r@)),
        views_of(r@).to_multiset() == tokens_of(data@).to_multiset(),
        lines_sorted(tokens_of(data@)) ==> views_of(r@) == tokens_of(data@),
{
    let tokens = split_tokens(data);
    sort_strings(tokens)
}

/// Two-pointer streaming merge of two files of lines.  The output holds the
/// lines of both inputs (their multisets add), and if both inputs are sorted
/// the output is sorted.
pub fn merge_sorted(a: &Vec<String>, b: &Vec<String>) -> (r: Vec<String>)
    ensures
        views_of(r@).to_multiset() == views_of(a@).to_multiset().add(views_of(b@).to_multiset()),
        lines_sorted(views_of(a@)) && lines_sorted(views_of(b@)) ==> lines_sorted(views_of(r@)),
{
    let av = Ghost(views_of(a@));
    let bv = Ghost(views_of(b@));
    let mut i: usize = 0;
    let mut j: usize = 0;
    let mut out: Vec<String> = Vec::new();
    proof {
        assert(views_of(out@) =~= Seq::<Seq<char>>::empty());
        assert(av@.take(0) =~= Seq::<Seq<char>>::empty());
        assert(bv@.take(0) =~= Seq::<Seq<char>>::empty());
        assert(views_of(out@).to_multiset() =~= av@.take(0).to_multiset().add(
            bv@.take(0).to_multiset(),
        ));
    }
    while i < a.len() || j < b.len()
        invariant
            i <= a@.len(),
            j <= b@.len(),
            av@ == views_of(a@),
            bv@ == views_of(b@),
            views_of(out@).to_multiset() == av@.take(i as int).to_multiset().add(
                bv@.take(j as int).to_multiset(),
            ),
            lines_sorted(av@) && lines_sorted(bv@) ==> lines_sorted(views_of(out@)),
            lines_sorted(av@) && lines_sorted(bv@) ==> forall|m: int, k: int|
                0 <= m < out@.len() && i <= k < a@.len() ==> lex_le(views_of(out@)[m], av@[k]),
            lines_sorted(av@) && lines_sorted(bv@) ==> forall|m: int, k: int|
                0 <= m < out@.len() && j <= k < b@.len() ==> lex_le(views_of(out@)[m], bv@[k]),
        decreases a@.len() - i + b@.len() - j,
    {
        let take_a = if i < a.len() {
            if j < b.len() {
                str_le(a[i].as_str(), b[j].as_str())
            } else {
                true
            }
        } else {
            false
        };
        let ghost pre_out = out@;
        if take_a {
            out.push(a[i].clone());
            proof {
                assert(views_of(out@) =~= views_of(pre_out).push(av@[i as int]));
                assert(av@.take(i + 1) =~= av@.take(i as int).push(av@[i as int]));
                assert(views_of(out@).to_multiset() =~= av@.take(i + 1).to_multiset().add(
                    bv@.take(j as int).to_multiset(),
                ));
                if lines_sorted(av@) && lines_sorted(bv@) {
                    if j < b@.len() {
                        crate::order::lemma_lex_le_total(av@[i as int], bv@[j as int]);
                    }
                    assert forall|m: int, k: int|
                        0 <= m < out@.len() && j <= k < b@.len() implies lex_le(
                        views_of(out@)[m],
                        bv@[k],
                    ) by {
                        if m == out@.len() - 1 && k > j {
                            crate::order::lemma_lex_le_transitive(
                                av@[i as int],
                                bv@[j as int],
                                bv@[k],
                            );
                        }
                    }
                }
            }
            i += 1;
        } else {
            out.push(b[j].clone());
            proof {
                assert(views_of(out@) =~= views_of(pre_out).push(bv@[j as int]));
                assert(bv@.take(j + 1) =~= bv@.take(j as int).push(bv@[j as int]));
                assert(views_of(out@).to_multiset() =~= av@.take(i as int).to_multiset().add(
                    bv@.take(j + 1).to_multiset(),
                ));
                if lines_sorted(av@) && lines_sorted(bv@) {
                    if i < a@.len() {
                        crate::order::lemma_lex_le_total(av@[i as int], bv@[j as int]);
                        assert(lex_le(bv@[j as int], av@[i as int]));
                    }
                    assert forall|m: int, k: int|
                        0 <= m < out@.len() && i <= k < a@.len() implies lex_le(
                        views_of(out@)[m],
                        av@[k],
                    ) by {
                        if m == out@.len() - 1 && k > i {
                            crate::order::lemma_lex_le_transitive(
                                bv@[j as int],
                                av@[i as int],
                                av@[k],
                            );
                        }
                    }
                }
            }
            j += 1;
        }
    }
    proof {
        assert(av@.take(i as int) =~= av@);
        assert(bv@.take(j as int) =~= bv@);
    }
    out
}

/// Copy a file's lines.
pub fn clone_chunk(v: &Vec<String>) -> (r: Vec<String>)
    ensures
        r@ == v@,
{
    let mut r: Vec<String> = Vec::new();
    let mut k: usize = 0;
    while k < v.len()
        invariant
            k <= v@.len(),
            r@ == v@.take(k as int),
        decreases v@.len() - k,
    {
        r.push(v[k].clone());
        proof {
            assert(r@ =~= v@.take(k + 1));
        }
        k += 1;
    }
    proof {
        assert(v@.take(v@.len() as int) =~= v@);
    }
    r
}

} // verus!
