//! Stable ordering of numbered items by their number.

use vstd::prelude::*;

verus! {

/// The items of `s` whose number is `k`, in their order in `s`.
pub open spec fn with_key(s: Seq<(u32, usize)>, k: u32) -> Seq<(u32, usize)> {
    s.filter(|e: (u32, usize)| e.0 == k)
}

pub open spec fn sorted_by_key(s: Seq<(u32, usize)>) -> bool {
    forall|i: int, j: int| 0 <= i < j < s.len() ==> s[i].0 <= s[j].0
}

/// `out` is `input` ordered by number, where items with the same number
/// keep the order they had in `input`.
pub open spec fn is_stable_sort(input: Seq<(u32, usize)>, out: Seq<(u32, usize)>) -> bool {
    &&& sorted_by_key(out)
    &&& forall|k: u32| #[trigger] with_key(out, k) == with_key(input, k)
}

proof fn lemma_filter_none(s: Seq<(u32, usize)>, k: u32)
    requires
        forall|j: int| 0 <= j < s.len() ==> s[j].0 != k,
    ensures
        with_key(s, k) == Seq::<(u32, usize)>::empty(),
    decreases s.len(),
{
    reveal(Seq::filter);
    if s.len() > 0 {
        lemma_filter_none(s.drop_last(), k);
    }
}

proof fn lemma_filter_single(x: (u32, usize), k: u32)
    ensures
        with_key(seq![x], k) == if x.0 == k {
            seq![x]
        } else {
            Seq::<(u32, usize)>::empty()
        },
{
    reveal_with_fuel(Seq::filter, 2);
    assert(seq![x].drop_last() =~= Seq::<(u32, usize)>::empty());
    if x.0 == k {
        assert(Seq::<(u32, usize)>::empty().push(x) =~= seq![x]);
    }
}

proof fn lemma_with_key_add(a: Seq<(u32, usize)>, b: Seq<(u32, usize)>, k: u32)
    ensures
        with_key(a + b, k) == with_key(a, k) + with_key(b, k),
{
    Seq::filter_distributes_over_add(a, b, |e: (u32, usize)| e.0 == k);
}

/// `items` ordered by number; items with equal numbers keep their order.
pub fn stable_sort_by_key(items: &Vec<(u32, usize)>) -> (r: Vec<(u32, usize)>)
    ensures
        is_stable_sort(items@, r@),
        r@.len() == items@.len(),
{
    let mut r: Vec<(u32, usize)> = Vec::new();
    let mut i: usize = 0;
    proof {
        assert forall|k: u32| #[trigger] with_key(r@, k) == with_key(items@.subrange(0, 0), k) by {
            assert(items@.subrange(0, 0) =~= r@);
        }
    }
    while i < items.len()
        invariant
            i <= items@.len(),
            r@.len() == i,
            sorted_by_key(r@),
            forall|k: u32| #[trigger] with_key(r@, k) == with_key(items@.subrange(0, i as int), k),
        decreases items@.len() - i,
    {
        let x = items[i];
        let mut pos = r.len();
        while pos > 0 && r[pos - 1].0 > x.0
            invariant
                pos <= r@.len(),
                forall|j: int| pos <= j < r@.len() ==> r@[j].0 > x.0,
            decreases pos,
        {
            pos = pos - 1;
        }
        let ghost old_r = r@;
        let ghost a = old_r.subrange(0, pos as int);
        let ghost b = old_r.subrange(pos as int, old_r.len() as int);
        assert(forall|j: int| 0 <= j < pos ==> old_r[j].0 <= x.0) by {
            if pos > 0 {
                assert(old_r[pos - 1].0 <= x.0);
            }
        }
        r.insert(pos, x);
        assert(r@ =~= a + seq![x] + b);
        assert(old_r =~= a + b);
        let ghost prefix = items@.subrange(0, i as int);
        assert(items@.subrange(0, i + 1) =~= prefix + seq![x]);
        assert forall|k: u32| #[trigger] with_key(r@, k) == with_key(
            items@.subrange(0, i + 1),
            k,
        ) by {
            lemma_with_key_add(a + seq![x], b, k);
            lemma_with_key_add(a, seq![x], k);
            lemma_with_key_add(a, b, k);
            lemma_with_key_add(prefix, seq![x], k);
            lemma_filter_single(x, k);
            assert(with_key(old_r, k) == with_key(prefix, k));
            if x.0 == k {
                assert forall|j: int| 0 <= j < b.len() implies b[j].0 != k by {
                    assert(b[j] == old_r[pos + j]);
                }
                lemma_filter_none(b, k);
                assert(with_key(a, k) + Seq::<(u32, usize)>::empty() =~= with_key(a, k));
                assert(with_key(a, k) + seq![x] + Seq::<(u32, usize)>::empty() =~= with_key(a, k)
                    + seq![x]);
            } else {
                assert(with_key(a, k) + Seq::<(u32, usize)>::empty() =~= with_key(a, k));
                assert(with_key(prefix, k) + Seq::<(u32, usize)>::empty() =~= with_key(prefix, k));
            }
        }
        i = i + 1;
    }
    assert(items@.subrange(0, i as int) =~= items@);
    r
}

proof fn lemma_with_key_members(s: Seq<(u32, usize)>, k: u32)
    ensures
        forall|i: int| 0 <= i < with_key(s, k).len() ==> s.contains(#[trigger] with_key(s, k)[i]),
        forall|i: int| 0 <= i < s.len() && s[i].0 == k ==> with_key(s, k).contains(#[trigger] s[i]),
    decreases s.len(),
{
    reveal(Seq::filter);
    if s.len() > 0 {
        lemma_with_key_members(s.drop_last(), k);
        let f = with_key(s, k);
        let g = with_key(s.drop_last(), k);
        assert forall|i: int| 0 <= i < f.len() implies s.contains(#[trigger] f[i]) by {
            if i < g.len() {
                assert(f[i] == g[i]);
                let j = choose|j: int| 0 <= j < s.drop_last().len() && s.drop_last()[j] == g[i];
                assert(s[j] == g[i]);
            } else {
                assert(f[i] == s.last());
                assert(s[s.len() - 1] == s.last());
            }
        }
        assert forall|i: int| 0 <= i < s.len() && s[i].0 == k implies f.contains(#[trigger] s[i]) by {
            if i < s.len() - 1 {
                assert(s.drop_last()[i] == s[i]);
                let j = choose|j: int| 0 <= j < g.len() && g[j] == s.drop_last()[i];
                assert(f[j] == g[j]);
            } else {
                assert(f[f.len() - 1] == s.last());
            }
        }
    }
}

/// Every item of a stable ordering of `input` is an item of `input`.
pub proof fn lemma_stable_sort_members(input: Seq<(u32, usize)>, out: Seq<(u32, usize)>)
    requires
        is_stable_sort(input, out),
    ensures
        forall|m: int| 0 <= m < out.len() ==> input.contains(#[trigger] out[m]),
{
    assert forall|m: int| 0 <= m < out.len() implies input.contains(#[trigger] out[m]) by {
        let k = out[m].0;
        lemma_with_key_members(out, k);
        lemma_with_key_members(input, k);
        assert(with_key(out, k) == with_key(input, k));
        assert(with_key(out, k).contains(out[m]));
        let j = choose|j: int| 0 <= j < with_key(out, k).len() && with_key(out, k)[j] == out[m];
        assert(with_key(input, k)[j] == out[m]);
    }
}

proof fn lemma_cancel_prefix(s: Seq<(u32, usize)>, x: Seq<(u32, usize)>, y: Seq<(u32, usize)>)
    requires
        s + x == s + y,
    ensures
        x == y,
{
    assert(x =~= (s + x).subrange(s.len() as int, (s + x).len() as int));
    assert(y =~= (s + y).subrange(s.len() as int, (s + y).len() as int));
}

/// Two sequences ordered by number that hold the same items for every
/// number, in the same order, are equal.
proof fn lemma_same_groups_equal(a: Seq<(u32, usize)>, b: Seq<(u32, usize)>)
    requires
        sorted_by_key(a),
        sorted_by_key(b),
        forall|k: u32| #[trigger] with_key(a, k) == with_key(b, k),
    ensures
        a == b,
    decreases a.len() + b.len(),
{
    if a.len() == 0 || b.len() == 0 {
        if a.len() > 0 {
            lemma_with_key_members(a, a[0].0);
            lemma_with_key_members(b, a[0].0);
            assert(with_key(a, a[0].0).contains(a[0]));
            assert(with_key(b, a[0].0).len() == 0);
        } else if b.len() > 0 {
            lemma_with_key_members(a, b[0].0);
            lemma_with_key_members(b, b[0].0);
            assert(with_key(b, b[0].0).contains(b[0]));
            assert(with_key(a, b[0].0).len() == 0);
        } else {
            assert(a =~= b);
        }
    } else {
        let ka = a[0].0;
        let kb = b[0].0;
        lemma_with_key_members(a, kb);
        lemma_with_key_members(b, kb);
        lemma_with_key_members(a, ka);
        lemma_with_key_members(b, ka);
        assert(with_key(b, kb).contains(b[0]));
        let i = choose|i: int| 0 <= i < with_key(a, kb).len() && with_key(a, kb)[i] == b[0];
        assert(a.contains(with_key(a, kb)[i]));
        let ja = choose|j: int| 0 <= j < a.len() && a[j] == with_key(a, kb)[i];
        assert(ka <= kb);
        assert(with_key(a, ka).contains(a[0]));
        let i2 = choose|i: int| 0 <= i < with_key(b, ka).len() && with_key(b, ka)[i] == a[0];
        assert(b.contains(with_key(b, ka)[i2]));
        let jb = choose|j: int| 0 <= j < b.len() && b[j] == with_key(b, ka)[i2];
        assert(kb <= ka);
        let ra = a.drop_first();
        let rb = b.drop_first();
        assert(a =~= seq![a[0]] + ra);
        assert(b =~= seq![b[0]] + rb);
        lemma_with_key_add(seq![a[0]], ra, ka);
        lemma_with_key_add(seq![b[0]], rb, ka);
        lemma_filter_single(a[0], ka);
        lemma_filter_single(b[0], ka);
        assert(with_key(a, ka)[0] == a[0]);
        assert(with_key(b, ka)[0] == b[0]);
        assert(a[0] == b[0]);
        assert forall|k: u32| #[trigger] with_key(ra, k) == with_key(rb, k) by {
            lemma_with_key_add(seq![a[0]], ra, k);
            lemma_with_key_add(seq![b[0]], rb, k);
            assert(with_key(a, k) == with_key(b, k));
            lemma_cancel_prefix(with_key(seq![a[0]], k), with_key(ra, k), with_key(rb, k));
        }
        lemma_same_groups_equal(ra, rb);
    }
}

/// A stable ordering by number is unique: any two of the same items are
/// the same sequence.
/// A stable ordering leaves no item of its input out.
pub proof fn lemma_stable_sort_keeps_all(input: Seq<(u32, usize)>, out: Seq<(u32, usize)>)
    requires
        is_stable_sort(input, out),
    ensures
        forall|m: int| 0 <= m < input.len() ==> out.contains(#[trigger] input[m]),
{
    assert forall|m: int| 0 <= m < input.len() implies out.contains(#[trigger] input[m]) by {
        let k = input[m].0;
        lemma_with_key_members(input, k);
        lemma_with_key_members(out, k);
        assert(with_key(input, k).contains(input[m]));
        let j = choose|j: int|
            0 <= j < with_key(input, k).len() && with_key(input, k)[j] == input[m];
        assert(with_key(out, k)[j] == input[m]);
    }
}

pub proof fn law_stable_sort_unique(
    input: Seq<(u32, usize)>,
    a: Seq<(u32, usize)>,
    b: Seq<(u32, usize)>,
)
    requires
        is_stable_sort(input, a),
        is_stable_sort(input, b),
    ensures
        a == b,
{
    assert forall|k: u32| #[trigger] with_key(a, k) == with_key(b, k) by {
        assert(with_key(a, k) == with_key(input, k));
        assert(with_key(b, k) == with_key(input, k));
    }
    lemma_same_groups_equal(a, b);
}

} // verus!
