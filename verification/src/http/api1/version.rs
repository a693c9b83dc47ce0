use vstd::prelude::*;

use crate::version::thaliak::{text_less, text_less_than};

verus! {

/// The text of each string, in order.
pub open spec fn views(names: Seq<String>) -> Seq<Seq<char>> {
    Seq::new(names.len(), |i: int| names[i]@)
}

/// No name comes before one that precedes it.
pub open spec fn names_sorted(names: Seq<Seq<char>>) -> bool {
    forall|i: int, j: int| 0 <= i < j < names.len() ==> !text_less(#[trigger] names[j], #[trigger] names[i])
}

/// No text comes before itself.
pub proof fn lemma_text_less_irreflexive(a: Seq<char>)
    ensures
        !text_less(a, a),
    decreases a.len(),
{
    if a.len() > 0 {
        lemma_text_less_irreflexive(a.drop_first());
    }
}

/// Of two texts, at most one comes before the other.
pub proof fn lemma_text_less_asymmetric(a: Seq<char>, b: Seq<char>)
    ensures
        text_less(a, b) ==> !text_less(b, a),
    decreases a.len(),
{
    if a.len() > 0 && b.len() > 0 && a[0] == b[0] {
        lemma_text_less_asymmetric(a.drop_first(), b.drop_first());
    }
}

/// Of two different texts, one comes before the other.
pub proof fn lemma_text_less_total(a: Seq<char>, b: Seq<char>)
    ensures
        a != b ==> text_less(a, b) || text_less(b, a),
    decreases a.len(),
{
    if a.len() == 0 || b.len() == 0 {
        if a.len() == 0 && b.len() == 0 {
            assert(a =~= b);
        }
    } else if a[0] == b[0] {
        lemma_text_less_total(a.drop_first(), b.drop_first());
        if a.drop_first() == b.drop_first() {
            assert(a =~= seq![a[0]] + a.drop_first());
            assert(b =~= seq![b[0]] + b.drop_first());
        }
    } else {
        vstd::utf8::char_u32_cast(a[0], a[0] as u32);
        vstd::utf8::char_u32_cast(b[0], b[0] as u32);
    }
}

/// Coming before is transitive.
pub proof fn lemma_text_less_transitive(a: Seq<char>, b: Seq<char>, c: Seq<char>)
    ensures
        text_less(a, b) && text_less(b, c) ==> text_less(a, c),
    decreases a.len(),
{
    if a.len() > 0 && b.len() > 0 && c.len() > 0 && a[0] == b[0] && b[0] == c[0] {
        lemma_text_less_transitive(a.drop_first(), b.drop_first(), c.drop_first());
    }
}

/// The names in the order of their characters, as listed to clients.
pub fn sorted_names(names: Vec<String>) -> (out: Vec<String>)
    ensures
        views(out@).to_multiset() == views(names@).to_multiset(),
        names_sorted(views(out@)),
{
    let mut out: Vec<String> = Vec::new();
    let mut i: usize = 0;
    assert(views(names@).take(0) =~= views(out@));
    while i < names.len()
        invariant
            i <= names@.len(),
            views(out@).to_multiset() == views(names@).take(i as int).to_multiset(),
            names_sorted(views(out@)),
        decreases names@.len() - i,
    {
        let x = names[i].clone();
        let mut p: usize = 0;
        while p < out.len() && !text_less_than(&x, &out[p])
            invariant
                p <= out@.len(),
                forall|k: int| 0 <= k < p ==> !text_less(x@, #[trigger] out@[k]@),
            decreases out@.len() - p,
        {
            p = p + 1;
        }
        let ghost before = out@;
        out.insert(p, x);
        proof {
            let vb = views(before);
            let va = views(out@);
            assert(va =~= vb.insert(p as int, x@));
            assert(views(names@).take(i + 1) =~= views(names@).take(i as int).push(x@));
            vstd::seq_lib::to_multiset_insert(vb, p as int, x@);
            vstd::seq_lib::to_multiset_build(views(names@).take(i as int), x@);
            assert forall|a: int, b: int| 0 <= a < b < va.len() implies !text_less(
                #[trigger] va[b],
                #[trigger] va[a],
            ) by {
                if b < p {
                    assert(va[a] == vb[a] && va[b] == vb[b]);
                } else if b == p {
                    assert(va[b] == x@ && va[a] == before[a]@);
                } else if a == p {
                    // x comes before the name that followed it, and that one
                    // does not come after the later names.
                    assert(va[a] == x@ && va[b] == vb[b - 1]);
                    assert(p < before.len());
                    assert(text_less(x@, before[p as int]@));
                    let y = vb[p as int];
                    let z = vb[b - 1];
                    if b - 1 > p {
                        assert(!text_less(z, y));
                    }
                    lemma_text_less_total(y, z);
                    lemma_text_less_transitive(x@, y, z);
                    lemma_text_less_asymmetric(x@, z);
                } else if a < p {
                    assert(va[a] == vb[a] && va[b] == vb[b - 1]);
                } else {
                    assert(va[a] == vb[a - 1] && va[b] == vb[b - 1]);
                }
            }
        }
        i = i + 1;
    }
    assert(views(names@).take(names@.len() as int) =~= views(names@));
    out
}

} // verus!
