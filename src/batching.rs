//! Splitting a sequence into contiguous batches of nearly equal size.
use vstd::prelude::*;

verus! {

/// Items per batch when `n` items are split into `c` batches: `ceil(n / c)`;
/// all `n` when `c` is zero.
pub open spec fn per_batch(n: nat, c: nat) -> nat {
    if c == 0 {
        n
    } else {
        ((n + c - 1) / (c as int)) as nat
    }
}

/// `items` cut into consecutive batches of `per` items; the last batch holds
/// what is left.
pub open spec fn batches_of<T>(items: Seq<T>, per: nat) -> Seq<Seq<T>>
    decreases items.len(),
{
    if items.len() == 0 || per == 0 {
        Seq::empty()
    } else if items.len() <= per {
        seq![items]
    } else {
        seq![items.subrange(0, per as int)] + batches_of(
            items.subrange(per as int, items.len() as int),
            per,
        )
    }
}

/// The batches that `batch_items` makes of `items` for `batch_count`.
pub open spec fn batched<T>(items: Seq<T>, batch_count: nat) -> Seq<Seq<T>> {
    if batch_count == 0 {
        seq![items]
    } else {
        batches_of(items, per_batch(items.len(), batch_count))
    }
}

/// The views of a sequence of vectors.
pub open spec fn vecs_view<T>(vs: Seq<Vec<T>>) -> Seq<Seq<T>> {
    vs.map_values(|v: Vec<T>| v@)
}

/// Cutting into batches loses and reorders nothing.
pub proof fn lemma_batches_flatten<T>(items: Seq<T>, per: nat)
    requires
        per > 0,
    ensures
        batches_of(items, per).flatten() == items,
    decreases items.len(),
{
    if items.len() == 0 {
        assert(batches_of(items, per).flatten() =~= items);
    } else if items.len() <= per {
        assert(seq![items].flatten() =~= items) by {
            reveal_with_fuel(Seq::flatten, 2);
        }
    } else {
        let head = items.subrange(0, per as int);
        let tail = items.subrange(per as int, items.len() as int);
        lemma_batches_flatten(tail, per);
        lemma_flatten_push_front(head, batches_of(tail, per));
        assert(head + tail =~= items);
    }
}

/// Batch `i` of `items` cut into batches of `per` holds items `i * per` up
/// to `(i + 1) * per`, or to the end.
pub proof fn lemma_batches_index<T>(items: Seq<T>, per: nat, i: int)
    requires
        per > 0,
        0 <= i < batches_of(items, per).len(),
    ensures
        i * per < items.len(),
        batches_of(items, per)[i] == items.subrange(
            i * per,
            if (i + 1) * per < items.len() {
                (i + 1) * per
            } else {
                items.len() as int
            },
        ),
    decreases items.len(),
{
    let n = items.len() as int;
    let d = per as int;
    if n <= d {
        assert(i == 0);
        assert(items.subrange(0, n) =~= items);
        assert(d >= n);
        assert((0 + 1) * d == d);
    } else {
        let tail = items.subrange(d, n);
        assert(batches_of(items, per) == seq![items.subrange(0, d)] + batches_of(tail, per));
        if i > 0 {
            lemma_batches_index(tail, per, i - 1);
            assert(i * d == (i - 1) * d + d) by (nonlinear_arith);
            assert((i + 1) * d == i * d + d) by (nonlinear_arith);
            assert(batches_of(items, per)[i] == batches_of(tail, per)[i - 1]);
            let hi = if (i + 1) * d < n {
                (i + 1) * d
            } else {
                n
            };
            assert(tail.subrange((i - 1) * d, hi - d) =~= items.subrange(i * d, hi));
        } else {
            assert(1 * d == d);
        }
    }
}

/// Cutting `n` items into batches of `per` makes `ceil(n / per)` batches.
pub proof fn lemma_batches_count<T>(items: Seq<T>, per: nat)
    requires
        per > 0,
    ensures
        batches_of(items, per).len() == (items.len() + per - 1) / (per as int),
    decreases items.len(),
{
    let n = items.len() as int;
    let d = per as int;
    if n == 0 {
        assert((d - 1) / d == 0) by (nonlinear_arith)
            requires
                d > 0,
        ;
    } else if n <= d {
        assert((n + d - 1) / d == 1) by (nonlinear_arith)
            requires
                d > 0,
                0 < n <= d,
        ;
    } else {
        let tail = items.subrange(d, n);
        lemma_batches_count(tail, per);
        vstd::arithmetic::div_mod::lemma_div_plus_one(n - d + d - 1, d);
        assert(batches_of(items, per) == seq![items.subrange(0, d)] + batches_of(tail, per));
    }
}

/// Cutting `n >= 1` items with a batch count of `ceil(n / 2)` makes
/// `ceil(n / 2)` batches, of two items each but perhaps the last.
pub proof fn lemma_halves_count<T>(items: Seq<T>)
    requires
        items.len() >= 1,
    ensures
        batched(items, ((items.len() + 1) / 2) as nat).len() == (items.len() + 1) / 2,
        items.len() >= 2 ==> per_batch(items.len(), ((items.len() + 1) / 2) as nat) == 2,
        items.len() == 1 ==> per_batch(items.len(), ((items.len() + 1) / 2) as nat) == 1,
{
    let n = items.len() as int;
    let c = (n + 1) / 2;
    let per = per_batch(items.len(), c as nat);
    assert(c >= 1);
    if n == 1 {
        assert(c == 1);
        assert(per == (n + c - 1) / c);
        assert(per == 1) by (nonlinear_arith)
            requires
                per == (n + c - 1) / c,
                n == 1,
                c == 1,
        ;
        lemma_batches_count(items, per);
    } else {
        assert(per == 2) by (nonlinear_arith)
            requires
                n >= 2,
                c == (n + 1) / 2,
                per == (n + c - 1) / c,
        {
            assert(c >= 1);
            assert(n + c - 1 >= 2 * c);
            assert(n + c - 1 < 3 * c);
        }
        lemma_batches_count(items, per);
    }
}

/// Cutting into batches, for any batch count, loses and reorders nothing.
pub proof fn lemma_batched_flatten<T>(items: Seq<T>, batch_count: nat)
    ensures
        batched(items, batch_count).flatten() == items,
{
    if batch_count == 0 {
        assert(seq![items].flatten() =~= items) by {
            reveal_with_fuel(Seq::flatten, 2);
        }
    } else if items.len() == 0 {
        assert(batched(items, batch_count) =~= Seq::<Seq<T>>::empty());
        assert(batched(items, batch_count).flatten() =~= items);
    } else {
        assert(per_batch(items.len(), batch_count) > 0) by (nonlinear_arith)
            requires
                items.len() > 0,
                batch_count >= 1,
                per_batch(items.len(), batch_count) == ((items.len() + batch_count - 1) / (
                batch_count as int)) as nat,
        ;
        lemma_batches_flatten(items, per_batch(items.len(), batch_count));
    }
}

proof fn lemma_flatten_push_front<T>(head: Seq<T>, rest: Seq<Seq<T>>)
    ensures
        (seq![head] + rest).flatten() == head + rest.flatten(),
{
    let s = seq![head] + rest;
    assert(s.drop_first() =~= rest);
    assert(s[0] == head);
}

/// Every batch is non-empty and holds at most `per` items, and there are fewer
/// batches than items once batches hold two or more items.
pub proof fn lemma_batches_sizes<T>(items: Seq<T>, per: nat)
    requires
        per > 0,
    ensures
        forall|i: int|
            0 <= i < batches_of(items, per).len() ==> 0 < (#[trigger] batches_of(items, per)[i]).len()
                <= per,
        batches_of(items, per).len() <= items.len(),
        per >= 2 && items.len() >= 2 ==> batches_of(items, per).len() < items.len(),
    decreases items.len(),
{
    if items.len() == 0 {
    } else if items.len() <= per {
    } else {
        let head = items.subrange(0, per as int);
        let tail = items.subrange(per as int, items.len() as int);
        lemma_batches_sizes(tail, per);
        let b = batches_of(items, per);
        assert(b == seq![head] + batches_of(tail, per));
        assert forall|i: int| 0 <= i < b.len() implies 0 < (#[trigger] b[i]).len() <= per by {
            if i > 0 {
                assert(b[i] == batches_of(tail, per)[i - 1]);
            }
        }
    }
}

/// Splits `items` into contiguous batches of `ceil(n / batch_count)` items,
/// dropping empty ones; with a `batch_count` of zero, into one batch holding
/// all items.
pub fn batch_items<T>(items: Vec<T>, batch_count: usize) -> (r: Vec<Vec<T>>)
    ensures
        vecs_view(r@) == batched(items@, batch_count as nat),
{
    if batch_count == 0 {
        let r = vec![items];
        assert(vecs_view(r@) =~= seq![items@]);
        return r;
    }
    let ghost all = items@;
    let n = items.len();
    let q = n / batch_count;
    let m = n % batch_count;
    assert(m > 0 ==> q < n) by (nonlinear_arith)
        requires
            batch_count > 0,
            q == n / batch_count,
            m == n % batch_count,
    {
        assert(n == q * batch_count + m);
    }
    let per: usize = q + if m == 0 {
        0
    } else {
        1
    };
    assert(n > 0 ==> per > 0) by (nonlinear_arith)
        requires
            batch_count > 0,
            q == n / batch_count,
            m == n % batch_count,
            per == q + if m == 0 {
                0int
            } else {
                1int
            },
    {
        assert(n == q * batch_count + m);
    }
    assert(per as nat == per_batch(n as nat, batch_count as nat)) by (nonlinear_arith)
        requires
            batch_count > 0,
            per == n / batch_count + if n % batch_count == 0 {
                0int
            } else {
                1int
            },
    {
        let q = n / batch_count;
        let m = n % batch_count;
        assert(n == q * batch_count + m);
        if m == 0 {
            assert((n + batch_count - 1) == q * batch_count + (batch_count - 1));
        } else {
            assert((n + batch_count - 1) == (q + 1) * batch_count + (m - 1));
        }
    }
    let mut rest = items;
    let mut batches: Vec<Vec<T>> = Vec::new();
    while rest.len() > 0
        invariant
            per as nat == per_batch(all.len(), batch_count as nat),
            batch_count > 0,
            all.len() > 0 ==> per > 0,
            rest@.len() > 0 ==> per > 0,
            vecs_view(batches@) + batches_of(rest@, per as nat) == batches_of(all, per as nat),
        decreases rest@.len(),
    {
        let ghost before = rest@;
        let take: usize = if per < rest.len() {
            per
        } else {
            rest.len()
        };
        let tail = rest.split_off(take);
        proof {
            if before.len() <= per {
                assert(before.subrange(0, take as int) =~= before);
                assert(batches_of(before, per as nat) == seq![before]);
                assert(batches_of(tail@, per as nat) =~= Seq::<Seq<T>>::empty());
            }
        }
        let ghost old_batches = vecs_view(batches@);
        batches.push(rest);
        assert(vecs_view(batches@) =~= old_batches.push(before.subrange(0, take as int)));
        assert(vecs_view(batches@) + batches_of(tail@, per as nat) =~= old_batches + batches_of(
            before,
            per as nat,
        ));
        rest = tail;
    }
    assert(batches_of(rest@, per as nat) =~= Seq::<Seq<T>>::empty());
    assert(vecs_view(batches@) =~= vecs_view(batches@) + batches_of(rest@, per as nat));
    batches
}

/// Relies on `num_cpus::get`: the number of logical CPUs, at least one.
#[verifier::external_body]
fn cpu_count() -> (r: usize)
    ensures
        r >= 1,
{
    num_cpus::get()
}

/// Splits `items` into one contiguous batch per logical CPU, of
/// `ceil(n / cpus)` items each, dropping empty batches.
pub fn batch_items_by_cpu_count<T>(items: Vec<T>) -> (r: Vec<Vec<T>>)
    ensures
        exists|c: nat| c >= 1 && vecs_view(r@) == batched(items@, c),
        vecs_view(r@).flatten() == items@,
{
    let ghost all = items@;
    let c = cpu_count();
    let r = batch_items(items, c);
    proof {
        if all.len() == 0 {
            assert(vecs_view(r@) =~= Seq::<Seq<T>>::empty());
            assert(vecs_view(r@).flatten() =~= all);
        } else {
            assert(per_batch(all.len(), c as nat) > 0) by (nonlinear_arith)
                requires
                    all.len() > 0,
                    c >= 1,
                    per_batch(all.len(), c as nat) == ((all.len() + c - 1) / c as int) as nat,
            ;
            lemma_batches_flatten(all, per_batch(all.len(), c as nat));
        }
    }
    r
}

} // verus!
