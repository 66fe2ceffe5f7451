//! The order of `String`s (lexicographic by character, which for UTF-8 is
//! the byte order `Ord` uses), its total-order laws, and sorting.
use vstd::prelude::*;
use vstd::relations::{sorted_by, total_ordering};
use crate::text::{to_chars, views};

verus! {

broadcast use {vstd::seq_lib::group_to_multiset_ensures, vstd::utf8::char_u32_cast};

/// `a <= b` in lexicographic order of code points.
pub open spec fn str_le(a: Seq<char>, b: Seq<char>) -> bool
    decreases a.len(),
{
    if a.len() == 0 {
        true
    } else if b.len() == 0 {
        false
    } else if a[0] != b[0] {
        (a[0] as u32) < (b[0] as u32)
    } else {
        str_le(a.drop_first(), b.drop_first())
    }
}

pub open spec fn str_leq() -> spec_fn(Seq<char>, Seq<char>) -> bool {
    |a: Seq<char>, b: Seq<char>| str_le(a, b)
}

proof fn lemma_le_reflexive(a: Seq<char>)
    ensures
        str_le(a, a),
    decreases a.len(),
{
    if a.len() > 0 {
        lemma_le_reflexive(a.drop_first());
    }
}

proof fn lemma_le_antisymmetric(a: Seq<char>, b: Seq<char>)
    requires
        str_le(a, b),
        str_le(b, a),
    ensures
        a == b,
    decreases a.len(),
{
    if a.len() > 0 && b.len() > 0 {
        if a[0] == b[0] {
            lemma_le_antisymmetric(a.drop_first(), b.drop_first());
            assert(a =~= seq![a[0]] + a.drop_first());
            assert(b =~= seq![b[0]] + b.drop_first());
        } else {
            assert((a[0] as u32) != (b[0] as u32));
        }
    } else {
        assert(a.len() == 0 && b.len() == 0);
        assert(a =~= b);
    }
}

proof fn lemma_le_transitive(a: Seq<char>, b: Seq<char>, c: Seq<char>)
    requires
        str_le(a, b),
        str_le(b, c),
    ensures
        str_le(a, c),
    decreases a.len(),
{
    if a.len() > 0 && b.len() > 0 && c.len() > 0 {
        if a[0] == b[0] && b[0] == c[0] {
            lemma_le_transitive(a.drop_first(), b.drop_first(), c.drop_first());
        } else if a[0] == c[0] {
            assert((a[0] as u32) != (b[0] as u32) || (b[0] as u32) != (c[0] as u32));
            assert((a[0] as u32) <= (b[0] as u32) && (b[0] as u32) <= (c[0] as u32));
            assert(false);
        }
    }
}

proof fn lemma_le_connected(a: Seq<char>, b: Seq<char>)
    ensures
        str_le(a, b) || str_le(b, a),
    decreases a.len(),
{
    if a.len() > 0 && b.len() > 0 {
        if a[0] == b[0] {
            lemma_le_connected(a.drop_first(), b.drop_first());
        } else {
            vstd::utf8::char_u32_cast(a[0], a[0] as u32);
            vstd::utf8::char_u32_cast(b[0], b[0] as u32);
            assert((a[0] as u32) != (b[0] as u32));
        }
    }
}

/// Lexicographic order on character sequences is a total order.
pub proof fn lemma_str_le_total()
    ensures
        total_ordering(str_leq()),
{
    assert forall|a: Seq<char>| #[trigger] str_leq()(a, a) by {
        lemma_le_reflexive(a);
    }
    assert forall|a: Seq<char>, b: Seq<char>| #[trigger] str_leq()(a, b) && #[trigger] str_leq()(b, a) implies a == b by {
        lemma_le_antisymmetric(a, b);
    }
    assert forall|a: Seq<char>, b: Seq<char>, c: Seq<char>| #[trigger] str_leq()(a, b) && #[trigger] str_leq()(b, c) implies str_leq()(a, c) by {
        lemma_le_transitive(a, b, c);
    }
    assert forall|a: Seq<char>, b: Seq<char>| #[trigger] str_leq()(a, b) || #[trigger] str_leq()(b, a) by {
        lemma_le_connected(a, b);
    }
}

/// Two sorted orderings of the same strings are the same sequence.
pub proof fn lemma_sorted_unique(s1: Seq<Seq<char>>, s2: Seq<Seq<char>>)
    requires
        sorted_by(s1, str_leq()),
        sorted_by(s2, str_leq()),
        s1.to_multiset() == s2.to_multiset(),
    ensures
        s1 == s2,
    decreases s1.len(),
{
    assert(s1.len() == s2.len()) by {
        assert(s1.len() == s1.to_multiset().len());
        assert(s2.len() == s2.to_multiset().len());
    }
    if s1.len() > 0 {
        let a = s1[0];
        let b = s2[0];
        assert(s1.contains(a));
        assert(s2.to_multiset().count(a) > 0);
        assert(s2.contains(a));
        let k = choose|k: int| 0 <= k < s2.len() && s2[k] == a;
        if k > 0 {
            assert(str_leq()(s2[0], s2[k]));
        } else {
            lemma_le_reflexive(a);
        }
        assert(s1.to_multiset().count(b) > 0);
        assert(s1.contains(b));
        let m = choose|m: int| 0 <= m < s1.len() && s1[m] == b;
        if m > 0 {
            assert(str_leq()(s1[0], s1[m]));
        } else {
            lemma_le_reflexive(b);
        }
        lemma_le_antisymmetric(a, b);
        assert(s1.remove(0) =~= s1.drop_first());
        assert(s2.remove(0) =~= s2.drop_first());
        assert(s1.drop_first().to_multiset() == s1.to_multiset().remove(a));
        assert(s2.drop_first().to_multiset() == s2.to_multiset().remove(b));
        assert forall|i: int, j: int| 0 <= i < j < s1.drop_first().len() implies #[trigger] str_leq()(s1.drop_first()[i], s1.drop_first()[j]) by {
            assert(str_leq()(s1[i + 1], s1[j + 1]));
        }
        assert forall|i: int, j: int| 0 <= i < j < s2.drop_first().len() implies #[trigger] str_leq()(s2.drop_first()[i], s2.drop_first()[j]) by {
            assert(str_leq()(s2[i + 1], s2[j + 1]));
        }
        lemma_sorted_unique(s1.drop_first(), s2.drop_first());
        assert(s1 =~= seq![a] + s1.drop_first());
        assert(s2 =~= seq![b] + s2.drop_first());
    } else {
        assert(s1 =~= s2);
    }
}

/// `str_le(a@, b@)`, computed.
pub fn string_le(a: &str, b: &str) -> (res: bool)
    ensures
        res == str_le(a@, b@),
{
    let x = to_chars(a);
    let y = to_chars(b);
    let mut i: usize = 0;
    assert(x@.skip(0) =~= x@);
    assert(y@.skip(0) =~= y@);
    while i < x.len() && i < y.len() && x[i] == y[i]
        invariant
            x@ == a@,
            y@ == b@,
            0 <= i <= x.len(),
            i <= y.len(),
            str_le(x@.skip(i as int), y@.skip(i as int)) == str_le(a@, b@),
        decreases x.len() - i,
    {
        assert(x@.skip(i as int).drop_first() =~= x@.skip(i + 1));
        assert(y@.skip(i as int).drop_first() =~= y@.skip(i + 1));
        i += 1;
    }
    if i == x.len() {
        true
    } else if i == y.len() {
        false
    } else {
        (x[i] as u32) < (y[i] as u32)
    }
}

/// The strings sorted into lexicographic order.
pub fn sort_strings(v: &[String]) -> (res: Vec<String>)
    ensures
        views(res@) == views(v@).sort_by(str_leq()),
{
    let mut out: Vec<String> = Vec::new();
    let ghost all = views(v@);
    let mut i: usize = 0;
    assert(all.take(0) =~= Seq::<Seq<char>>::empty());
    assert(views(out@) =~= Seq::<Seq<char>>::empty());
    proof {
        lemma_str_le_total();
    }
    while i < v.len()
        invariant
            0 <= i <= v.len(),
            all == views(v@),
            total_ordering(str_leq()),
            sorted_by(views(out@), str_leq()),
            views(out@).to_multiset() == all.take(i as int).to_multiset(),
        decreases v.len() - i,
    {
        let x = v[i].as_str();
        let mut pos: usize = 0;
        while pos < out.len() && string_le(out[pos].as_str(), x)
            invariant
                0 <= pos <= out.len(),
                forall|k: int| 0 <= k < pos ==> str_le(#[trigger] views(out@)[k], x@),
            decreases out.len() - pos,
        {
            pos += 1;
        }
        let ghost before = views(out@);
        out.insert(pos, v[i].clone());
        let ghost after = views(out@);
        assert(after =~= before.insert(pos as int, x@));
        assert(pos < before.len() ==> !str_le(before[pos as int], x@));
        assert forall|p: int, q: int| 0 <= p < q < after.len() implies #[trigger] str_leq()(after[p], after[q]) by {
            if q < pos {
                assert(str_leq()(before[p], before[q]));
            } else if q == pos {
                assert(str_le(before[p], x@));
            } else if p == pos {
                lemma_le_connected(x@, before[pos as int]);
                if q - 1 > pos {
                    assert(str_leq()(before[pos as int], before[q - 1]));
                    lemma_le_transitive(x@, before[pos as int], before[q - 1]);
                }
            } else if p < pos {
                assert(str_leq()(before[p], before[q - 1]));
            } else {
                assert(str_leq()(before[p - 1], before[q - 1]));
            }
        }
        assert(after.remove(pos as int) =~= before);
        assert(after.remove(pos as int).to_multiset() == after.to_multiset().remove(after[pos as int]));
        assert(after.to_multiset() =~= before.to_multiset().insert(x@));
        assert(all.take(i + 1) =~= all.take(i as int).push(x@));
        i += 1;
    }
    assert(all.take(v.len() as int) =~= all);
    proof {
        all.lemma_sort_by_ensures(str_leq());
        lemma_sorted_unique(views(out@), all.sort_by(str_leq()));
    }
    out
}

} // verus!
