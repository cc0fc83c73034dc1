use vstd::prelude::*;

verus! {

/// `f` places the elements of `xs` at increasing positions of `ys`.
pub open spec fn embeds_with<T>(xs: Seq<T>, ys: Seq<T>, f: spec_fn(int) -> int) -> bool {
    &&& forall|i: int| 0 <= i < xs.len() ==> 0 <= #[trigger] f(i) < ys.len() && xs[i] == ys[f(i)]
    &&& forall|i: int, j: int| 0 <= i < j < xs.len() ==> #[trigger] f(i) < #[trigger] f(j)
}

/// `xs` is a subsequence of `ys`: its elements occur in `ys` in the same order.
pub open spec fn embeds<T>(xs: Seq<T>, ys: Seq<T>) -> bool {
    exists|f: spec_fn(int) -> int| embeds_with(xs, ys, f)
}

pub proof fn lemma_embeds_empty<T>(ys: Seq<T>)
    ensures
        embeds(Seq::<T>::empty(), ys),
{
    let f = |i: int| i;
    assert(embeds_with(Seq::<T>::empty(), ys, f));
}

pub proof fn lemma_embeds_refl<T>(ys: Seq<T>)
    ensures
        embeds(ys, ys),
{
    let f = |i: int| i;
    assert(embeds_with(ys, ys, f));
}

pub proof fn lemma_embeds_single<T>(x: T, ys: Seq<T>, k: int)
    requires
        0 <= k < ys.len(),
        ys[k] == x,
    ensures
        embeds(seq![x], ys),
{
    let f = |i: int| k;
    assert(embeds_with(seq![x], ys, f));
}

pub proof fn lemma_embeds_concat<T>(xs1: Seq<T>, ys1: Seq<T>, xs2: Seq<T>, ys2: Seq<T>)
    requires
        embeds(xs1, ys1),
        embeds(xs2, ys2),
    ensures
        embeds(xs1 + xs2, ys1 + ys2),
{
    let f1 = choose|f: spec_fn(int) -> int| embeds_with(xs1, ys1, f);
    let f2 = choose|f: spec_fn(int) -> int| embeds_with(xs2, ys2, f);
    let n1 = xs1.len() as int;
    let m1 = ys1.len() as int;
    let f = |i: int|
        if i < n1 {
            f1(i)
        } else {
            m1 + f2(i - n1)
        };
    let xs = xs1 + xs2;
    let ys = ys1 + ys2;
    assert forall|i: int| 0 <= i < xs.len() implies 0 <= #[trigger] f(i) < ys.len() && xs[i]
        == ys[f(i)] by {
        if i < n1 {
            assert(xs[i] == xs1[i]);
            assert(ys[f1(i)] == ys1[f1(i)]);
        } else {
            assert(xs[i] == xs2[i - n1]);
            assert(0 <= f2(i - n1) < ys2.len());
            assert(ys[m1 + f2(i - n1)] == ys2[f2(i - n1)]);
        }
    }
    assert forall|i: int, j: int| 0 <= i < j < xs.len() implies #[trigger] f(i) < #[trigger] f(
        j,
    ) by {
        if j < n1 {
            assert(f1(i) < f1(j));
        } else if i < n1 {
            assert(0 <= f1(i) < m1);
            assert(0 <= f2(j - n1));
        } else {
            assert(f2(i - n1) < f2(j - n1));
        }
    }
    assert(embeds_with(xs, ys, f));
}

pub proof fn lemma_embeds_trans<T>(xs: Seq<T>, ys: Seq<T>, zs: Seq<T>)
    requires
        embeds(xs, ys),
        embeds(ys, zs),
    ensures
        embeds(xs, zs),
{
    let f = choose|f: spec_fn(int) -> int| embeds_with(xs, ys, f);
    let g = choose|g: spec_fn(int) -> int| embeds_with(ys, zs, g);
    let h = |i: int| g(f(i));
    assert forall|i: int| 0 <= i < xs.len() implies 0 <= #[trigger] h(i) < zs.len() && xs[i]
        == zs[h(i)] by {
        assert(0 <= f(i) < ys.len());
        assert(0 <= g(f(i)) < zs.len());
    }
    assert forall|i: int, j: int| 0 <= i < j < xs.len() implies #[trigger] h(i) < #[trigger] h(
        j,
    ) by {
        assert(f(i) < f(j));
        assert(0 <= f(i) < ys.len());
        assert(0 <= f(j) < ys.len());
        assert(g(f(i)) < g(f(j)));
    }
    assert(embeds_with(xs, zs, h));
}

/// Dropping elements keeps the rest in order.
pub proof fn lemma_embeds_extend<T>(xs: Seq<T>, ys: Seq<T>, left: Seq<T>, right: Seq<T>)
    requires
        embeds(xs, ys),
    ensures
        embeds(xs, left + ys + right),
{
    lemma_embeds_empty(left);
    lemma_embeds_concat(Seq::<T>::empty(), left, xs, ys);
    assert(Seq::<T>::empty() + xs =~= xs);
    lemma_embeds_empty(right);
    lemma_embeds_concat(xs, left + ys, Seq::<T>::empty(), right);
    assert(xs + Seq::<T>::empty() =~= xs);
}

} // verus!
