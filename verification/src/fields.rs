//! The field record that every extractor produces, and its ordering.

use vstd::prelude::*;
use crate::order::{lex_le, lemma_lex_le_antisym, lemma_lex_le_total, lemma_lex_le_trans, str_lex_le};

verus! {

/// One extracted metadata field: a human-readable tag name, the section it
/// came from (`ifd`: a container directory name, or one of the PNG chunk
/// labels), and a display-ready value.
#[derive(Debug)]
pub struct ExifField {
    pub tag: String,
    pub ifd: String,
    pub value: String,
}

/// Mathematical model of a field: the three strings as character sequences.
pub ghost struct FieldV {
    pub tag: Seq<char>,
    pub ifd: Seq<char>,
    pub value: Seq<char>,
}

impl View for ExifField {
    type V = FieldV;

    open spec fn view(&self) -> FieldV {
        FieldV { tag: self.tag@, ifd: self.ifd@, value: self.value@ }
    }
}

impl DeepView for ExifField {
    type V = FieldV;

    open spec fn deep_view(&self) -> FieldV {
        self@
    }
}

/// Field order: by section first, then by tag, both lexicographic.
pub open spec fn field_le(a: FieldV, b: FieldV) -> bool {
    if a.ifd == b.ifd {
        lex_le(a.tag, b.tag)
    } else {
        lex_le(a.ifd, b.ifd)
    }
}

/// Any two fields compare one way or the other.
pub proof fn lemma_field_le_total(a: FieldV, b: FieldV)
    ensures
        field_le(a, b) || field_le(b, a),
{
    if a.ifd == b.ifd {
        lemma_lex_le_total(a.tag, b.tag);
    } else {
        lemma_lex_le_total(a.ifd, b.ifd);
    }
}

/// The field order is transitive.
pub proof fn lemma_field_le_trans(a: FieldV, b: FieldV, c: FieldV)
    requires
        field_le(a, b),
        field_le(b, c),
    ensures
        field_le(a, c),
{
    if a.ifd == b.ifd && b.ifd == c.ifd {
        lemma_lex_le_trans(a.tag, b.tag, c.tag);
    } else if a.ifd == b.ifd {
        // a.ifd == b.ifd < c.ifd
    } else if b.ifd == c.ifd {
        // a.ifd < b.ifd == c.ifd
    } else {
        lemma_lex_le_trans(a.ifd, b.ifd, c.ifd);
        if a.ifd == c.ifd {
            lemma_lex_le_antisym(a.ifd, b.ifd);
        }
    }
}

/// The output order of an extraction: adjacent fields are ordered by
/// section, then tag.
pub open spec fn fields_sorted(s: Seq<FieldV>) -> bool {
    forall|i: int| 0 <= i < s.len() - 1 ==> field_le(#[trigger] s[i], s[i + 1])
}

/// In a sorted sequence every pair is ordered, not just the adjacent
/// ones: the output order is total.
pub proof fn lemma_sorted_pairwise(s: Seq<FieldV>, i: int, j: int)
    requires
        fields_sorted(s),
        0 <= i <= j < s.len(),
    ensures
        field_le(s[i], s[j]),
    decreases j - i,
{
    if i < j {
        lemma_sorted_pairwise(s, i, j - 1);
        lemma_field_le_trans(s[i], s[j - 1], s[j]);
    } else {
        lemma_field_le_total(s[i], s[i]);
    }
}

/// Inserts a field into a sorted sequence, after any equal fields, keeping
/// the sequence sorted.
pub open spec fn insert_sorted(x: FieldV, s: Seq<FieldV>) -> Seq<FieldV>
    decreases s.len(),
{
    if s.len() == 0 {
        seq![x]
    } else if field_le(s.last(), x) {
        s.push(x)
    } else {
        insert_sorted(x, s.drop_last()).push(s.last())
    }
}

/// Insertion sort of a field sequence under `field_le`; stable, since
/// `insert_sorted` places a field after all fields it does not precede.
pub open spec fn sort_fields(s: Seq<FieldV>) -> Seq<FieldV>
    decreases s.len(),
{
    if s.len() == 0 {
        Seq::empty()
    } else {
        insert_sorted(s.last(), sort_fields(s.drop_last()))
    }
}

proof fn lemma_insert_sorted_ensures(x: FieldV, s: Seq<FieldV>)
    requires
        fields_sorted(s),
    ensures
        fields_sorted(insert_sorted(x, s)),
        insert_sorted(x, s).len() == s.len() + 1,
        insert_sorted(x, s).to_multiset() == s.to_multiset().insert(x),
    decreases s.len(),
{
    broadcast use vstd::seq_lib::group_to_multiset_ensures;

    let out = insert_sorted(x, s);
    if s.len() == 0 {
        assert(out =~= seq![x]);
        assert(out.to_multiset() =~= s.to_multiset().insert(x)) by {
            assert(out.drop_first() =~= s);
        }
    } else if field_le(s.last(), x) {
        assert forall|i: int| 0 <= i < out.len() - 1 implies field_le(
            #[trigger] out[i],
            out[i + 1],
        ) by {
            if i < s.len() - 1 {
                assert(field_le(s[i], s[i + 1]));
            }
        }
    } else {
        let t = s.drop_last();
        assert(fields_sorted(t)) by {
            assert forall|i: int| 0 <= i < t.len() - 1 implies field_le(
                #[trigger] t[i],
                t[i + 1],
            ) by {
                assert(t[i] == s[i] && t[i + 1] == s[i + 1]);
                assert(field_le(s[i], s[i + 1]));
            }
        }
        lemma_insert_sorted_ensures(x, t);
        let inner = insert_sorted(x, t);
        assert(out =~= inner.push(s.last()));
        // the last element of `inner` is either x or the last of t; both
        // precede s.last()
        assert forall|i: int| 0 <= i < out.len() - 1 implies field_le(
            #[trigger] out[i],
            out[i + 1],
        ) by {
            if i < inner.len() - 1 {
                assert(field_le(inner[i], inner[i + 1]));
            } else {
                // out[i] == inner.last(), out[i + 1] == s.last()
                assert(inner.last() == out[i]);
                lemma_last_of_insert_sorted(x, t);
                if inner.last() == x {
                    lemma_field_le_total(s.last(), x);
                } else {
                    if t.len() > 0 {
                        assert(field_le(s[t.len() - 1], s[t.len() as int]));
                    }
                }
            }
        }
        assert(out.to_multiset() =~= s.to_multiset().insert(x)) by {
            assert(s =~= t.push(s.last()));
        }
    }
}

/// The last element of `insert_sorted(x, s)` is either `x` or `s.last()`.
proof fn lemma_last_of_insert_sorted(x: FieldV, s: Seq<FieldV>)
    ensures
        s.len() == 0 ==> insert_sorted(x, s).last() == x,
        s.len() > 0 ==> insert_sorted(x, s).last() == x || insert_sorted(x, s).last() == s.last(),
{
}

/// Sorting yields a sorted permutation of the input.
pub proof fn lemma_sort_fields_ensures(s: Seq<FieldV>)
    ensures
        fields_sorted(sort_fields(s)),
        sort_fields(s).len() == s.len(),
        sort_fields(s).to_multiset() == s.to_multiset(),
    decreases s.len(),
{
    broadcast use vstd::seq_lib::group_to_multiset_ensures;

    if s.len() == 0 {
        assert(sort_fields(s).to_multiset() =~= s.to_multiset());
    } else {
        let t = s.drop_last();
        lemma_sort_fields_ensures(t);
        lemma_insert_sorted_ensures(s.last(), sort_fields(t));
        assert(s =~= t.push(s.last()));
        assert(s.to_multiset() == t.to_multiset().insert(s.last()));
    }
}

/// Sorting leaves an already sorted sequence unchanged; in particular,
/// sorting is idempotent.
pub proof fn lemma_sort_fields_of_sorted(s: Seq<FieldV>)
    requires
        fields_sorted(s),
    ensures
        sort_fields(s) == s,
    decreases s.len(),
{
    if s.len() == 0 {
        assert(sort_fields(s) =~= s);
    } else {
        let t = s.drop_last();
        assert(fields_sorted(t)) by {
            assert forall|i: int| 0 <= i < t.len() - 1 implies field_le(
                #[trigger] t[i],
                t[i + 1],
            ) by {
                assert(t[i] == s[i] && t[i + 1] == s[i + 1]);
                assert(field_le(s[i], s[i + 1]));
            }
        }
        lemma_sort_fields_of_sorted(t);
        if t.len() == 0 {
            assert(insert_sorted(s.last(), t) =~= s);
        } else {
            assert(field_le(t.last(), s.last())) by {
                assert(field_le(s[s.len() - 2], s[s.len() - 1]));
            }
            assert(t.push(s.last()) =~= s);
        }
    }
}

/// Compares two fields by section, then tag.
fn field_le_exec(a: &ExifField, b: &ExifField) -> (r: bool)
    ensures
        r == field_le(a@, b@),
{
    if a.ifd == b.ifd {
        str_lex_le(a.tag.as_str(), b.tag.as_str())
    } else {
        str_lex_le(a.ifd.as_str(), b.ifd.as_str())
    }
}

/// Relates a positional insertion to `insert_sorted`.
proof fn lemma_insert_sorted_at(x: FieldV, s: Seq<FieldV>, j: int)
    requires
        0 <= j <= s.len(),
        forall|k: int| j <= k < s.len() ==> !field_le(#[trigger] s[k], x),
        j > 0 ==> field_le(s[j - 1], x),
    ensures
        insert_sorted(x, s) == s.take(j) + seq![x] + s.skip(j),
    decreases s.len(),
{
    if s.len() == 0 {
        assert(insert_sorted(x, s) =~= s.take(j) + seq![x] + s.skip(j));
    } else if field_le(s.last(), x) {
        assert(j == s.len());
        assert(s.push(x) =~= s.take(j) + seq![x] + s.skip(j));
    } else {
        let t = s.drop_last();
        assert(j <= t.len());
        lemma_insert_sorted_at(x, t, j);
        assert(insert_sorted(x, t).push(s.last()) =~= s.take(j) + seq![x] + s.skip(j));
    }
}

/// Sorts the fields by section, then tag; equal fields keep their relative
/// order.
pub fn sort_exif_fields(input: Vec<ExifField>) -> (r: Vec<ExifField>)
    ensures
        r.deep_view() == sort_fields(input.deep_view()),
{
    let ghost orig = input.deep_view();
    let n = input.len();
    let mut rest = input;
    let mut out: Vec<ExifField> = Vec::new();
    let mut done: usize = 0;
    while rest.len() > 0
        invariant
            orig.len() == n,
            done + rest.len() == orig.len(),
            rest.deep_view() =~= orig.skip(done as int),
            out.deep_view() == sort_fields(orig.take(done as int)),
        decreases rest.len(),
    {
        let ghost pre_rest = rest@;
        let ghost pre_dv = rest.deep_view();
        let x = rest.remove(0);
        proof {
            assert(pre_dv[0] == pre_rest[0].deep_view());
            assert(x@ == orig[done as int]);
            pre_rest.remove_ensures(0);
            assert forall|k: int| 0 <= k < rest@.len() implies rest.deep_view()[k] == orig.skip(
                done as int + 1,
            )[k] by {
                assert(rest@[k] == pre_rest[k + 1]);
                assert(rest.deep_view()[k] == rest@[k].deep_view());
                assert(pre_dv[k + 1] == pre_rest[k + 1].deep_view());
                assert(orig.skip(done as int + 1)[k] == orig.skip(done as int)[k + 1]);
            }
            assert(rest.deep_view() =~= orig.skip(done as int + 1));
        }
        let mut j = out.len();
        while j > 0 && !field_le_exec(&out[j - 1], &x)
            invariant
                j <= out.len(),
                forall|k: int| j <= k < out.len() ==> !field_le(#[trigger] out.deep_view()[k], x@),
            decreases j,
        {
            j = j - 1;
        }
        proof {
            lemma_insert_sorted_at(x@, out.deep_view(), j as int);
        }
        let ghost pre = out.deep_view();
        out.insert(j, x);
        proof {
            assert(out.deep_view() =~= pre.take(j as int) + seq![x@] + pre.skip(j as int));
            assert(orig.take(done as int + 1).drop_last() =~= orig.take(done as int));
            assert(orig.take(done as int + 1).last() == orig[done as int]);
        }
        done = done + 1;
    }
    proof {
        assert(orig.take(orig.len() as int) =~= orig);
    }
    out
}

} // verus!
