//! The order in which the files of a folder are uploaded: by file name,
//! compared character by character, ties kept in their listing order.

use vstd::prelude::*;
use crate::text::chars_of;

verus! {

/// `a` sorts strictly before `b`: at the first character where they differ
/// the one of `a` is smaller, or `a` is a proper prefix of `b`. (On UTF-8 text
/// this is the byte order that `String` comparison uses.)
pub open spec fn name_lt(a: Seq<char>, b: Seq<char>) -> bool
    decreases a.len(),
{
    if a.len() == 0 {
        b.len() > 0
    } else if b.len() == 0 {
        false
    } else if a[0] != b[0] {
        a[0] < b[0]
    } else {
        name_lt(a.drop_first(), b.drop_first())
    }
}

/// Entry `i` named `a` comes before entry `j` named `b`: by name, then by
/// listing position.
pub open spec fn entry_before(a: Seq<char>, i: int, b: Seq<char>, j: int) -> bool {
    name_lt(a, b) || (a == b && i < j)
}

/// The name order is transitive.
pub proof fn lemma_name_lt_transitive(a: Seq<char>, b: Seq<char>, c: Seq<char>)
    requires
        name_lt(a, b),
        name_lt(b, c),
    ensures
        name_lt(a, c),
    decreases a.len(),
{
    if a.len() > 0 && b.len() > 0 && c.len() > 0 && a[0] == b[0] && b[0] == c[0] {
        lemma_name_lt_transitive(a.drop_first(), b.drop_first(), c.drop_first());
    }
}

/// Of two different names, one sorts before the other.
pub proof fn lemma_name_lt_total(a: Seq<char>, b: Seq<char>)
    ensures
        name_lt(a, b) || name_lt(b, a) || a == b,
    decreases a.len(),
{
    if a.len() > 0 && b.len() > 0 {
        if a[0] == b[0] {
            lemma_name_lt_total(a.drop_first(), b.drop_first());
            if a.drop_first() == b.drop_first() {
                assert(a =~= seq![a[0]] + a.drop_first());
                assert(b =~= seq![b[0]] + b.drop_first());
            }
        }
    } else if a.len() == 0 && b.len() == 0 {
        assert(a =~= b);
    }
}

/// Names are ordered by the code points of their characters: when two names
/// first differ at position `i`, the one whose character there has the
/// smaller code point sorts first.
pub proof fn lemma_name_lt_first_difference(a: Seq<char>, b: Seq<char>, i: int)
    requires
        0 <= i < a.len(),
        i < b.len(),
        a.subrange(0, i) == b.subrange(0, i),
        a[i] != b[i],
    ensures
        name_lt(a, b) <==> (a[i] as int) < (b[i] as int),
        name_lt(b, a) <==> (b[i] as int) < (a[i] as int),
    decreases i,
{
    if i > 0 {
        assert(a[0] == a.subrange(0, i)[0]);
        assert(b[0] == b.subrange(0, i)[0]);
        assert(a.drop_first().subrange(0, i - 1) =~= a.subrange(0, i).drop_first());
        assert(b.drop_first().subrange(0, i - 1) =~= b.subrange(0, i).drop_first());
        lemma_name_lt_first_difference(a.drop_first(), b.drop_first(), i - 1);
        assert(a.drop_first()[i - 1] == a[i] && b.drop_first()[i - 1] == b[i]);
    }
}

/// A name sorts before every longer name that begins with it, and never
/// after it; no name sorts before itself.
pub proof fn lemma_name_lt_prefix(a: Seq<char>, b: Seq<char>)
    ensures
        a.len() < b.len() && b.subrange(0, a.len() as int) == a ==> name_lt(a, b) && !name_lt(b, a),
        !name_lt(a, a),
    decreases a.len(),
{
    if a.len() > 0 && a.len() < b.len() && b.subrange(0, a.len() as int) == a {
        assert(b[0] == b.subrange(0, a.len() as int)[0]);
        assert(b.drop_first().subrange(0, a.len() - 1) =~= a.drop_first());
        lemma_name_lt_prefix(a.drop_first(), b.drop_first());
    }
    if a.len() > 0 {
        lemma_name_lt_prefix(a.drop_first(), b.drop_first());
    }
}

/// Whether `a` sorts strictly before `b`.
fn name_less(a: &str, b: &str) -> (r: bool)
    ensures
        r == name_lt(a@, b@),
{
    let av = chars_of(a);
    let bv = chars_of(b);
    let mut i: usize = 0;
    assert(a@.skip(0) =~= a@ && b@.skip(0) =~= b@);
    while i < av.len() && i < bv.len() && av[i] == bv[i]
        invariant
            av@ == a@,
            bv@ == b@,
            i <= av.len(),
            i <= bv.len(),
            name_lt(a@, b@) == name_lt(a@.skip(i as int), b@.skip(i as int)),
        decreases av.len() - i,
    {
        proof {
            assert(a@.skip(i as int).drop_first() =~= a@.skip(i + 1));
            assert(b@.skip(i as int).drop_first() =~= b@.skip(i + 1));
        }
        i = i + 1;
    }
    if i == av.len() {
        i < bv.len()
    } else if i == bv.len() {
        false
    } else {
        av[i] < bv[i]
    }
}

/// The entries of a listing in upload order: positions into `names`, each
/// once, ordered by name, equal names in their listing order.
pub fn sorted_order(names: &Vec<String>) -> (r: Vec<usize>)
    ensures
        r.len() == names.len(),
        forall|a: int| 0 <= a < r.len() ==> #[trigger] r[a] < names.len(),
        forall|a: int, b: int| 0 <= a < b < r.len() ==> #[trigger] r[a] != #[trigger] r[b],
        forall|a: int, b: int|
            0 <= a < b < r.len() ==> entry_before(
                names[#[trigger] r[a] as int]@,
                r[a] as int,
                names[#[trigger] r[b] as int]@,
                r[b] as int,
            ),
{
    let mut order: Vec<usize> = Vec::new();
    let mut idx: usize = 0;
    while idx < names.len()
        invariant
            idx <= names.len(),
            order.len() == idx,
            forall|a: int| 0 <= a < order.len() ==> #[trigger] order[a] < idx,
            forall|a: int, b: int| 0 <= a < b < order.len() ==> #[trigger] order[a] != #[trigger] order[b],
            forall|a: int, b: int|
                0 <= a < b < order.len() ==> entry_before(
                    names[#[trigger] order[a] as int]@,
                    order[a] as int,
                    names[#[trigger] order[b] as int]@,
                    order[b] as int,
                ),
        decreases names.len() - idx,
    {
        let ghost old_order = order@;
        let new_name = names[idx].as_str();
        let mut k: usize = 0;
        while k < order.len()
            invariant
                k <= order.len(),
                order@ == old_order,
                idx < names.len(),
                new_name@ == names[idx as int]@,
                forall|a: int| 0 <= a < order.len() ==> #[trigger] order[a] < idx,
                forall|j: int| 0 <= j < k ==> !name_lt(names[idx as int]@, names[#[trigger] order[j] as int]@),
            ensures
                k <= order.len(),
                order@ == old_order,
                forall|j: int| 0 <= j < k ==> !name_lt(names[idx as int]@, names[#[trigger] order[j] as int]@),
                k < order.len() ==> name_lt(names[idx as int]@, names[order[k as int] as int]@),
            decreases order.len() - k,
        {
            if name_less(new_name, names[order[k]].as_str()) {
                break;
            }
            k = k + 1;
        }
        order.insert(k, idx);
        proof {
            let nn = names[idx as int]@;
            assert forall|j: int| 0 <= j < k implies entry_before(
                names[old_order[j] as int]@,
                old_order[j] as int,
                nn,
                idx as int,
            ) by {
                lemma_name_lt_total(names[old_order[j] as int]@, nn);
            }
            assert forall|j: int| k <= j < old_order.len() implies entry_before(
                nn,
                idx as int,
                names[old_order[j] as int]@,
                old_order[j] as int,
            ) by {
                let nk = names[old_order[k as int] as int]@;
                let nj = names[old_order[j] as int]@;
                assert(name_lt(nn, nk));
                if j > k {
                    assert(entry_before(nk, old_order[k as int] as int, nj, old_order[j] as int));
                    if name_lt(nk, nj) {
                        lemma_name_lt_transitive(nn, nk, nj);
                    }
                }
            }
            assert forall|a: int| 0 <= a < order.len() implies #[trigger] order[a] < idx + 1 by {
                if a < k {
                    assert(order[a] == old_order[a]);
                } else if a > k {
                    assert(order[a] == old_order[a - 1]);
                }
            }
            assert forall|a: int, b: int| 0 <= a < b < order.len() implies #[trigger] order[a]
                != #[trigger] order[b] by {
                if a < k && b < k {
                    assert(order[a] == old_order[a] && order[b] == old_order[b]);
                } else if a < k && b == k {
                    assert(order[a] == old_order[a]);
                } else if a < k && b > k {
                    assert(order[a] == old_order[a] && order[b] == old_order[b - 1]);
                } else if a == k {
                    assert(order[b] == old_order[b - 1]);
                } else {
                    assert(order[a] == old_order[a - 1] && order[b] == old_order[b - 1]);
                }
            }
            assert forall|a: int, b: int| 0 <= a < b < order.len() implies entry_before(
                names[#[trigger] order[a] as int]@,
                order[a] as int,
                names[#[trigger] order[b] as int]@,
                order[b] as int,
            ) by {
                if a < k && b < k {
                    assert(order[a] == old_order[a] && order[b] == old_order[b]);
                } else if a < k && b == k {
                    assert(order[a] == old_order[a]);
                } else if a < k && b > k {
                    assert(order[a] == old_order[a] && order[b] == old_order[b - 1]);
                } else if a == k {
                    assert(order[b] == old_order[b - 1]);
                } else {
                    assert(order[a] == old_order[a - 1] && order[b] == old_order[b - 1]);
                }
            }
        }
        idx = idx + 1;
    }
    order
}

} // verus!
