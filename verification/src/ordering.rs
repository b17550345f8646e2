use vstd::prelude::*;

verus! {

/// Lexicographic order on equal-length integer sequences.
pub open spec fn lex_le(a: Seq<int>, b: Seq<int>) -> bool
    decreases a.len(),
{
    if a.len() == 0 || b.len() == 0 {
        true
    } else if a[0] < b[0] {
        true
    } else if a[0] > b[0] {
        false
    } else {
        lex_le(a.drop_first(), b.drop_first())
    }
}

/// Two equal-length sequences are ordered one way or the other, and only equal sequences are
/// ordered both ways.
pub proof fn lemma_lex_total(a: Seq<int>, b: Seq<int>)
    requires
        a.len() == b.len(),
    ensures
        lex_le(a, b) || lex_le(b, a),
        lex_le(a, b) && lex_le(b, a) ==> a == b,
    decreases a.len(),
{
    if a.len() > 0 {
        lemma_lex_total(a.drop_first(), b.drop_first());
        if a[0] == b[0] && lex_le(a, b) && lex_le(b, a) {
            assert(a =~= seq![a[0]] + a.drop_first());
            assert(b =~= seq![b[0]] + b.drop_first());
        }
    } else {
        assert(a =~= b);
    }
}

/// The lexicographic order is transitive.
pub proof fn lemma_lex_transitive(a: Seq<int>, b: Seq<int>, c: Seq<int>)
    requires
        a.len() == b.len(),
        b.len() == c.len(),
        lex_le(a, b),
        lex_le(b, c),
    ensures
        lex_le(a, c),
    decreases a.len(),
{
    if a.len() > 0 && a[0] == b[0] && b[0] == c[0] {
        lemma_lex_transitive(a.drop_first(), b.drop_first(), c.drop_first());
    }
}

/// A machine key as a sequence of mathematical integers.
pub open spec fn key_ints(key: Seq<i128>) -> Seq<int> {
    key.map_values(|v: i128| v as int)
}

/// The keys of a list of machine keys.
pub open spec fn keys_ints(keys: Seq<Vec<i128>>) -> Seq<Seq<int>> {
    keys.map_values(|k: Vec<i128>| key_ints(k@))
}

/// All keys have the same number of entries.
pub open spec fn uniform_keys(keys: Seq<Seq<int>>) -> bool {
    forall|i: int, j: int| 0 <= i < keys.len() && 0 <= j < keys.len() ==> (#[trigger] keys[i]).len() == (#[trigger] keys[j]).len()
}

/// `order` lists every position of `keys` once, sorted by `lex_le`, keeping equal keys in
/// their original relative order.
pub open spec fn stably_sorted(keys: Seq<Seq<int>>, order: Seq<usize>) -> bool {
    &&& order.len() == keys.len()
    &&& forall|i: int| 0 <= i < order.len() ==> #[trigger] order[i] < keys.len()
    &&& forall|i: int, j: int| 0 <= i < j < order.len() ==> order[i] != order[j]
    &&& forall|i: int, j: int|
        0 <= i < j < order.len() ==> lex_le(keys[#[trigger] order[i] as int], keys[#[trigger] order[j] as int])
    &&& forall|i: int, j: int|
        0 <= i < j < order.len() && lex_le(keys[#[trigger] order[j] as int], keys[#[trigger] order[i] as int])
            ==> order[i] < order[j]
}

proof fn lemma_order_covers(order: Seq<usize>, n: int, p: int)
    requires
        order.len() == n,
        forall|i: int| 0 <= i < n ==> #[trigger] order[i] < n,
        forall|i: int, j: int| 0 <= i < j < n ==> order[i] != order[j],
        0 <= p < n,
    ensures
        exists|i: int| 0 <= i < n && order[i] == p,
{
    let ints = Seq::new(n as nat, |i: int| order[i] as int);
    assert forall|i: int, j: int| 0 <= i < ints.len() && 0 <= j < ints.len() && i != j implies ints[i] != ints[j] by {
        if i < j {
            assert(order[i] != order[j]);
        } else {
            assert(order[j] != order[i]);
        }
    }
    assert(ints.no_duplicates());
    ints.unique_seq_to_set();
    vstd::set_lib::lemma_int_range(0, n);
    assert forall|x: int| ints.to_set().contains(x) implies vstd::set_lib::set_int_range(0, n).contains(x) by {
        let i = choose|i: int| 0 <= i < ints.len() && ints[i] == x;
        assert(order[i] < n);
    }
    vstd::set_lib::lemma_subset_equality(ints.to_set(), vstd::set_lib::set_int_range(0, n));
    assert(vstd::set_lib::set_int_range(0, n).contains(p));
    assert(ints.to_set().contains(p));
    let i = choose|i: int| 0 <= i < ints.len() && ints[i] == p;
    assert(order[i] == p);
}

proof fn lemma_stable_orders_agree(keys: Seq<Seq<int>>, a: Seq<usize>, b: Seq<usize>, m: int)
    requires
        uniform_keys(keys),
        stably_sorted(keys, a),
        stably_sorted(keys, b),
        0 <= m <= keys.len(),
    ensures
        forall|k: int| 0 <= k < m ==> a[k] == b[k],
    decreases m,
{
    if m > 0 {
        lemma_stable_orders_agree(keys, a, b, m - 1);
        let n = keys.len() as int;
        let i = m - 1;
        let p = a[i];
        let q = b[i];
        if p != q {
            lemma_order_covers(a, n, q as int);
            let x = choose|x: int| 0 <= x < n && a[x] == q;
            lemma_order_covers(b, n, p as int);
            let y = choose|y: int| 0 <= y < n && b[y] == p;
            if x < i {
                assert(a[x] == b[x]);
                assert(b[x] != b[i]);
            }
            if y < i {
                assert(a[y] == b[y]);
                assert(a[y] != a[i]);
            }
            assert(x > i && y > i);
            assert(lex_le(keys[a[i] as int], keys[a[x] as int]));
            assert(lex_le(keys[b[i] as int], keys[b[y] as int]));
            assert(a[i] < a[x]);
            assert(b[i] < b[y]);
        }
    }
}

/// Stable sorting has one outcome: two orders that both sort the same keys stably are equal.
pub proof fn lemma_stable_order_unique(keys: Seq<Seq<int>>, a: Seq<usize>, b: Seq<usize>)
    requires
        uniform_keys(keys),
        stably_sorted(keys, a),
        stably_sorted(keys, b),
    ensures
        a == b,
{
    lemma_stable_orders_agree(keys, a, b, keys.len() as int);
    assert(a =~= b);
}

/// Whether machine key `a` sorts no later than `b`.
pub fn lex_le_exec(a: &Vec<i128>, b: &Vec<i128>) -> (result: bool)
    requires
        a@.len() == b@.len(),
    ensures
        result == lex_le(key_ints(a@), key_ints(b@)),
{
    let ghost sa = key_ints(a@);
    let ghost sb = key_ints(b@);
    let mut index: usize = 0;
    assert(sa.skip(0) =~= sa);
    assert(sb.skip(0) =~= sb);
    while index < a.len()
        invariant
            index <= a@.len(),
            a@.len() == b@.len(),
            sa == key_ints(a@),
            sb == key_ints(b@),
            lex_le(sa, sb) == lex_le(sa.skip(index as int), sb.skip(index as int)),
        decreases a@.len() - index,
    {
        if a[index] < b[index] {
            return true;
        }
        if a[index] > b[index] {
            return false;
        }
        proof {
            assert(sa.skip(index as int).drop_first() =~= sa.skip(index as int + 1));
            assert(sb.skip(index as int).drop_first() =~= sb.skip(index as int + 1));
        }
        index += 1;
    }
    true
}

/// A stable sort of positions by their keys (insertion sort).
pub fn sort_positions(keys: &Vec<Vec<i128>>) -> (result: Vec<usize>)
    requires
        uniform_keys(keys_ints(keys@)),
    ensures
        stably_sorted(keys_ints(keys@), result@),
{
    let ghost k = keys_ints(keys@);
    let mut order: Vec<usize> = Vec::new();
    let count = keys.len();
    let mut next: usize = 0;
    while next < count
        invariant
            count == keys@.len(),
            k == keys_ints(keys@),
            k.len() == count,
            uniform_keys(k),
            next <= count,
            order@.len() == next,
            forall|i: int| 0 <= i < order@.len() ==> #[trigger] order@[i] < next,
            forall|i: int, j: int| 0 <= i < j < order@.len() ==> order@[i] != order@[j],
            forall|i: int, j: int|
                0 <= i < j < order@.len() ==> lex_le(k[#[trigger] order@[i] as int], k[#[trigger] order@[j] as int]),
            forall|i: int, j: int|
                0 <= i < j < order@.len() && lex_le(k[#[trigger] order@[j] as int], k[#[trigger] order@[i] as int])
                    ==> order@[i] < order@[j],
        decreases count - next,
    {
        let mut position = order.len();
        loop
            invariant
                count == keys@.len(),
                k == keys_ints(keys@),
                k.len() == count,
                uniform_keys(k),
                next < count,
                position <= order@.len(),
                order@.len() == next,
                forall|i: int| 0 <= i < order@.len() ==> #[trigger] order@[i] < next,
                forall|m: int| position <= m < order@.len() ==> !lex_le(k[#[trigger] order@[m] as int], k[next as int]),
            ensures
                position <= order@.len(),
                forall|m: int| position <= m < order@.len() ==> !lex_le(k[#[trigger] order@[m] as int], k[next as int]),
                position > 0 ==> lex_le(k[order@[position - 1] as int], k[next as int]),
            decreases position,
        {
            if position == 0 {
                break;
            }
            let previous = order[position - 1];
            proof {
                assert(k[previous as int] == key_ints(keys@[previous as int]@));
                assert(k[next as int] == key_ints(keys@[next as int]@));
                assert(k[previous as int].len() == k[next as int].len());
            }
            if lex_le_exec(&keys[previous], &keys[next]) {
                break;
            }
            position -= 1;
        }
        let ghost old_order = order@;
        order.insert(position, next);
        proof {
            let o = order@;
            assert(o =~= old_order.subrange(0, position as int).push(next) + old_order.subrange(
                position as int,
                old_order.len() as int,
            ));
            assert forall|i: int| 0 <= i < o.len() implies #[trigger] o[i] < next + 1 by {}
            assert forall|i: int, j: int| 0 <= i < j < o.len() implies o[i] != o[j] by {
                if i < position && j > position {
                    assert(old_order[i] != old_order[j - 1]);
                } else if j < position {
                    assert(old_order[i] != old_order[j]);
                } else if i > position {
                    assert(old_order[i - 1] != old_order[j - 1]);
                }
            }
            assert forall|i: int, j: int|
                0 <= i < j < o.len() implies lex_le(k[#[trigger] o[i] as int], k[#[trigger] o[j] as int]) by {
                assert(k[o[i] as int].len() == k[o[j] as int].len());
                assert(k[o[i] as int].len() == k[next as int].len());
                if j == position {
                    if i < position - 1 {
                        assert(k[old_order[position - 1] as int].len() == k[next as int].len());
                        assert(lex_le(k[old_order[i] as int], k[old_order[position - 1] as int]));
                        lemma_lex_transitive(
                            k[old_order[i] as int],
                            k[old_order[position - 1] as int],
                            k[next as int],
                        );
                    }
                } else if i == position {
                    assert(!lex_le(k[old_order[j - 1] as int], k[next as int]));
                    lemma_lex_total(k[old_order[j - 1] as int], k[next as int]);
                } else if j < position {
                    assert(lex_le(k[old_order[i] as int], k[old_order[j] as int]));
                } else if i > position {
                    assert(lex_le(k[old_order[i - 1] as int], k[old_order[j - 1] as int]));
                } else {
                    assert(lex_le(k[old_order[i] as int], k[old_order[j - 1] as int]));
                }
            }
            assert forall|i: int, j: int|
                0 <= i < j < o.len() && lex_le(k[#[trigger] o[j] as int], k[#[trigger] o[i] as int]) implies o[i]
                < o[j] by {
                if j == position {
                } else if i == position {
                    assert(!lex_le(k[old_order[j - 1] as int], k[next as int]));
                } else if j < position {
                    assert(old_order[i] < old_order[j]);
                } else if i > position {
                    assert(old_order[i - 1] < old_order[j - 1]);
                } else {
                    assert(old_order[i] < old_order[j - 1]);
                }
            }
        }
        next += 1;
    }
    order
}

} // verus!
