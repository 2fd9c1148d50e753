use vstd::prelude::*;

use crate::pixel::{color_key, lemma_color_key_injective, PixelColor};

verus! {

/// A color set is kept as a vector that is strictly increasing under the
/// packed color encoding: no duplicates, and a canonical order, so that
/// equal sets have equal representations.
pub open spec fn sorted_colors(s: Seq<PixelColor>) -> bool {
    forall|i: int, j: int|
        0 <= i < j < s.len() ==> color_key(#[trigger] s[i]) < color_key(#[trigger] s[j])
}

/// A strictly increasing color vector holds no color twice.
pub proof fn lemma_sorted_no_duplicates(s: Seq<PixelColor>)
    requires
        sorted_colors(s),
    ensures
        s.no_duplicates(),
{
    assert forall|i: int, j: int| 0 <= i < s.len() && 0 <= j < s.len() && i != j implies s[i]
        != s[j] by {
        if i < j {
            assert(color_key(s[i]) < color_key(s[j]));
        } else {
            assert(color_key(s[j]) < color_key(s[i]));
        }
    }
}

/// The length of a strictly sorted color vector is the size of the set it holds.
pub proof fn lemma_sorted_len_is_set_len(s: Seq<PixelColor>)
    requires
        sorted_colors(s),
    ensures
        s.to_set().len() == s.len(),
        s.to_set().finite(),
{
    lemma_sorted_no_duplicates(s);
    s.unique_seq_to_set();
    vstd::seq_lib::seq_to_set_is_finite(s);
}

/// A strictly sorted color vector is determined by the set it holds: two
/// sorted vectors with the same color set are the same vector.
pub proof fn lemma_sorted_colors_unique(a: Seq<PixelColor>, b: Seq<PixelColor>)
    requires
        sorted_colors(a),
        sorted_colors(b),
        a.to_set() == b.to_set(),
    ensures
        a == b,
    decreases a.len(),
{
    if a.len() == 0 {
        if b.len() > 0 {
            assert(b.contains(b[0]));
            assert(a.to_set().contains(b[0]));
            assert(false);
        }
        assert(a =~= b);
    } else if b.len() == 0 {
        assert(a.contains(a[0]));
        assert(b.to_set().contains(a[0]));
        assert(false);
    } else {
        // each head is the minimum of the shared set, so the heads agree
        assert(a.contains(a[0]));
        assert(b.to_set().contains(a[0]));
        let j = choose|j: int| 0 <= j < b.len() && b[j] == a[0];
        assert(b.contains(b[0]));
        assert(a.to_set().contains(b[0]));
        let i = choose|i: int| 0 <= i < a.len() && a[i] == b[0];
        assert(color_key(b[0]) <= color_key(a[0])) by {
            if j > 0 {
                assert(color_key(b[0]) < color_key(b[j]));
            }
        }
        assert(color_key(a[0]) <= color_key(b[0])) by {
            if i > 0 {
                assert(color_key(a[0]) < color_key(a[i]));
            }
        }
        lemma_color_key_injective(a[0], b[0]);
        // the tails hold the shared set without its minimum
        let at = a.drop_first();
        let bt = b.drop_first();
        assert(sorted_colors(at)) by {
            assert(forall|m: int| 0 <= m < at.len() ==> #[trigger] at[m] == a[m + 1]);
        }
        assert(sorted_colors(bt)) by {
            assert(forall|m: int| 0 <= m < bt.len() ==> #[trigger] bt[m] == b[m + 1]);
        }
        assert(at.to_set() =~= a.to_set().remove(a[0])) by {
            assert forall|c: PixelColor| at.to_set().contains(c) implies a.to_set().remove(
                a[0],
            ).contains(c) by {
                let m = choose|m: int| 0 <= m < at.len() && at[m] == c;
                assert(a[m + 1] == c);
                assert(a.contains(c));
                assert(color_key(a[0]) < color_key(a[m + 1]));
            }
            assert forall|c: PixelColor| a.to_set().remove(a[0]).contains(c) implies
                at.to_set().contains(c) by {
                let m = choose|m: int| 0 <= m < a.len() && a[m] == c;
                assert(m != 0);
                assert(at[m - 1] == c);
                assert(at.contains(c));
            }
        }
        assert(bt.to_set() =~= b.to_set().remove(b[0])) by {
            assert forall|c: PixelColor| bt.to_set().contains(c) implies b.to_set().remove(
                b[0],
            ).contains(c) by {
                let m = choose|m: int| 0 <= m < bt.len() && bt[m] == c;
                assert(b[m + 1] == c);
                assert(b.contains(c));
                assert(color_key(b[0]) < color_key(b[m + 1]));
            }
            assert forall|c: PixelColor| b.to_set().remove(b[0]).contains(c) implies
                bt.to_set().contains(c) by {
                let m = choose|m: int| 0 <= m < b.len() && b[m] == c;
                assert(m != 0);
                assert(bt[m - 1] == c);
                assert(bt.contains(c));
            }
        }
        lemma_sorted_colors_unique(at, bt);
        assert(a =~= b) by {
            assert(forall|m: int| 1 <= m < a.len() ==> #[trigger] a[m] == at[m - 1]);
            assert(forall|m: int| 1 <= m < b.len() ==> #[trigger] b[m] == bt[m - 1]);
        }
    }
}

/// Whether the vector holds the given color.
pub fn color_set_contains(v: &Vec<PixelColor>, c: PixelColor) -> (r: bool)
    ensures
        r == v@.to_set().contains(c),
{
    let mut i: usize = 0;
    while i < v.len()
        invariant
            0 <= i <= v@.len(),
            forall|k: int| 0 <= k < i ==> v@[k] != c,
        decreases v@.len() - i,
    {
        if v[i] == c {
            assert(v@.contains(c));
            return true;
        }
        i += 1;
    }
    assert(!v@.contains(c));
    false
}

/// Inserts a color into a strictly sorted color vector, keeping it sorted;
/// a color already present is left alone.
pub fn color_set_insert(v: &mut Vec<PixelColor>, c: PixelColor)
    requires
        sorted_colors(old(v)@),
        old(v)@.len() < usize::MAX,
    ensures
        sorted_colors(final(v)@),
        final(v)@.to_set() == old(v)@.to_set().insert(c),
        final(v)@.len() <= old(v)@.len() + 1,
{
    let ghost orig = v@;
    let key = c.as_u32();
    let mut p: usize = 0;
    while p < v.len() && v[p].as_u32() < key
        invariant
            0 <= p <= v@.len(),
            v@ == orig,
            key == color_key(c),
            forall|k: int| 0 <= k < p ==> color_key(#[trigger] v@[k]) < color_key(c),
        decreases v@.len() - p,
    {
        p += 1;
    }
    if p < v.len() && v[p].as_u32() == key {
        proof {
            lemma_color_key_injective(orig[p as int], c);
            assert(orig.contains(c));
            assert(orig.to_set() =~= orig.to_set().insert(c));
        }
        return ;
    }
    v.insert(p, c);
    proof {
        orig.insert_ensures(p as int, c);
        // every element at or past the insertion point has a strictly larger key
        assert(forall|k: int|
            p <= k < orig.len() ==> color_key(c) < color_key(#[trigger] orig[k]));
        assert forall|i: int, j: int| 0 <= i < j < v@.len() implies color_key(#[trigger] v@[i])
            < color_key(#[trigger] v@[j]) by {
            if i < p {
                assert(v@[i] == orig[i]);
            } else if i == p {
                assert(v@[i] == c);
            } else {
                assert(v@[i] == orig[i - 1]);
            }
            if j < p {
                assert(v@[j] == orig[j]);
            } else if j == p {
                assert(v@[j] == c);
            } else {
                assert(v@[j] == orig[j - 1]);
            }
        }
        assert forall|x: PixelColor| v@.contains(x) implies orig.to_set().insert(c).contains(
            x,
        ) by {
            let i = choose|i: int| 0 <= i < v@.len() && v@[i] == x;
            if i < p {
                assert(orig[i] == x);
            } else if i == p {
            } else {
                assert(orig[i - 1] == x);
            }
        }
        assert forall|x: PixelColor| orig.to_set().insert(c).contains(x) implies v@.contains(
            x,
        ) by {
            if x == c {
                assert(v@[p as int] == c);
            } else {
                let i = choose|i: int| 0 <= i < orig.len() && orig[i] == x;
                if i < p {
                    assert(v@[i] == x);
                } else {
                    assert(v@[i + 1] == x);
                }
            }
        }
        assert(v@.to_set() =~= orig.to_set().insert(c));
    }
}

/// The union of two strictly sorted color vectors, as a new strictly
/// sorted vector.
pub fn color_set_union(a: &Vec<PixelColor>, b: &Vec<PixelColor>) -> (u: Vec<PixelColor>)
    requires
        sorted_colors(a@),
        sorted_colors(b@),
        a@.len() + b@.len() < usize::MAX,
    ensures
        sorted_colors(u@),
        u@.to_set() == a@.to_set().union(b@.to_set()),
        u@.len() == a@.to_set().union(b@.to_set()).len(),
{
    let mut u: Vec<PixelColor> = Vec::new();
    let mut i: usize = 0;
    while i < a.len()
        invariant
            0 <= i <= a@.len(),
            a@.len() + b@.len() < usize::MAX,
            sorted_colors(a@),
            sorted_colors(u@),
            u@.to_set() == a@.take(i as int).to_set(),
            u@.len() <= i,
        decreases a@.len() - i,
    {
        color_set_insert(&mut u, a[i]);
        proof {
            assert(a@.take(i + 1) =~= a@.take(i as int).push(a@[i as int]));
            a@.take(i as int).lemma_push_to_set_commute(a@[i as int]);
        }
        i += 1;
    }
    assert(a@.take(a@.len() as int) =~= a@);
    let mut j: usize = 0;
    while j < b.len()
        invariant
            0 <= j <= b@.len(),
            a@.len() + b@.len() < usize::MAX,
            sorted_colors(b@),
            sorted_colors(u@),
            u@.to_set() == a@.to_set().union(b@.take(j as int).to_set()),
            u@.len() <= a@.len() + j,
        decreases b@.len() - j,
    {
        let ghost prev = u@.to_set();
        color_set_insert(&mut u, b[j]);
        proof {
            assert(b@.take(j + 1) =~= b@.take(j as int).push(b@[j as int]));
            b@.take(j as int).lemma_push_to_set_commute(b@[j as int]);
            assert(prev.insert(b@[j as int]) =~= a@.to_set().union(
                b@.take(j + 1).to_set(),
            ));
        }
        j += 1;
    }
    proof {
        assert(b@.take(b@.len() as int) =~= b@);
        lemma_sorted_len_is_set_len(u@);
    }
    u
}

/// How many colors the two vectors share: the size of the intersection of
/// the sets they hold.
pub fn count_common(a: &Vec<PixelColor>, b: &Vec<PixelColor>) -> (n: usize)
    requires
        sorted_colors(a@),
    ensures
        n == a@.to_set().intersect(b@.to_set()).len(),
{
    let ghost bs = b@.to_set();
    let mut n: usize = 0;
    let mut i: usize = 0;
    proof {
        assert(a@.take(0).to_set() =~= Set::<PixelColor>::empty());
        assert(Set::<PixelColor>::empty().intersect(bs) =~= Set::<PixelColor>::empty());
        broadcast use vstd::set::axiom_set_empty_len;
    }
    while i < a.len()
        invariant
            0 <= i <= a@.len(),
            sorted_colors(a@),
            n <= i,
            a@.take(i as int).to_set().finite(),
            n == a@.take(i as int).to_set().intersect(bs).len(),
            bs == b@.to_set(),
        decreases a@.len() - i,
    {
        let ghost pre = a@.take(i as int).to_set();
        proof {
            assert(a@.take(i + 1) =~= a@.take(i as int).push(a@[i as int]));
            a@.take(i as int).lemma_push_to_set_commute(a@[i as int]);
            // strict sortedness: a[i] is new to the prefix
            assert(!a@.take(i as int).contains(a@[i as int]));
            vstd::set::axiom_set_insert_len(pre, a@[i as int]);
            vstd::set_lib::lemma_len_intersect(pre, bs);
        }
        if color_set_contains(b, a[i]) {
            proof {
                assert(pre.insert(a@[i as int]).intersect(bs) =~= pre.intersect(bs).insert(
                    a@[i as int],
                ));
                assert(!pre.intersect(bs).contains(a@[i as int]));
                vstd::set_lib::lemma_len_intersect(pre.insert(a@[i as int]), bs);
                vstd::set::axiom_set_insert_len(pre.intersect(bs), a@[i as int]);
            }
            n += 1;
        } else {
            proof {
                assert(pre.insert(a@[i as int]).intersect(bs) =~= pre.intersect(bs));
            }
        }
        i += 1;
    }
    assert(a@.take(a@.len() as int) =~= a@);
    n
}

} // verus!
