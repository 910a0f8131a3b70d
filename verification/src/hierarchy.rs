//! What holds of all contexts of a hierarchy, however it was grown.

use crate::context_id::{is_new_child, is_root, path_text, ContextId, IdSource};
use crate::ctx_path::{is_number, spec_ancestors, valid_ctx_id};
use crate::text::{
    decimal,
    joined,
    last_dot,
    lemma_decimal_is_digits,
    lemma_decimal_reads_back,
    lemma_joined_grows,
    lemma_joined_is_injective,
    lemma_joined_last_dot,
    lemma_no_dot,
    segments,
    value_of,
};
use vstd::prelude::*;

verus! {

/// Context `p` made a child, which stands last; the others are as they were.
pub open spec fn grows(
    before: Seq<ContextId>,
    after: Seq<ContextId>,
    ids_before: IdSource,
    ids_after: IdSource,
    p: int,
) -> bool {
    &&& 0 <= p < before.len()
    &&& after.len() == before.len() + 1
    &&& is_new_child(before[p], after[p], ids_before, ids_after, after.last())
    &&& forall|i: int| 0 <= i < before.len() && i != p ==> after[i] == before[i]
}

/// A hierarchy as it grows from a root and a fresh source: after step `k`, the
/// contexts are `contexts[k]`, and `parents[k]` made the next child.
pub open spec fn is_growth(
    contexts: Seq<Seq<ContextId>>,
    ids: Seq<IdSource>,
    parents: Seq<int>,
) -> bool {
    &&& contexts.len() == parents.len() + 1
    &&& ids.len() == contexts.len()
    &&& contexts[0].len() == 1
    &&& is_root(contexts[0][0])
    &&& ids[0].next() == 1
    &&& forall|k: int|
        0 <= k < parents.len() ==> #[trigger] grows(
            contexts[k],
            contexts[k + 1],
            ids[k],
            ids[k + 1],
            parents[k],
        )
}

/// How many different numbers an [`IdSource`] has.
pub open spec fn id_range() -> int {
    u64::MAX + 1
}

spec fn tidy(contexts: Seq<ContextId>, ids: IdSource) -> bool {
    &&& contexts.len() > 0
    &&& contexts[0].path().len() == 0
    &&& ids.next() == (contexts.len() as int) % id_range()
    &&& forall|i: int|
        0 <= i < contexts.len() ==> (#[trigger] contexts[i]).spec_id() == i % id_range()
    &&& forall|i: int| 0 <= i < contexts.len() ==> (#[trigger] contexts[i]).next_child() >= 1
    &&& forall|i: int, m: int|
        0 <= i < contexts.len() && 0 <= m < contexts[i].path().len()
            ==> #[trigger] contexts[i].path()[m] >= 1
    &&& forall|i: int, j: int|
        0 <= i < contexts.len() && 0 <= j < contexts.len() && i != j
            ==> #[trigger] contexts[i].path() != #[trigger] contexts[j].path()
    &&& forall|i: int, j: int|
        0 <= i < contexts.len() && 0 <= j < contexts.len() ==> #[trigger] below(
            contexts[i],
            contexts[j],
        )
    &&& forall|i: int|
        0 < i < contexts.len() ==> #[trigger] has_parent(contexts, contexts[i].path())
}

/// If `b` stands right below `a`, then `a` has given out its number.
spec fn below(a: ContextId, b: ContextId) -> bool {
    b.path().len() == a.path().len() + 1 && b.path().drop_last() == a.path() ==> b.path().last()
        < a.next_child()
}

spec fn has_parent(contexts: Seq<ContextId>, path: Seq<u64>) -> bool {
    path.len() > 0 && exists|j: int|
        0 <= j < contexts.len() && #[trigger] contexts[j].path() == path.drop_last()
}

proof fn lemma_growth_keeps_tidy(
    before: Seq<ContextId>,
    after: Seq<ContextId>,
    ids_before: IdSource,
    ids_after: IdSource,
    p: int,
)
    requires
        tidy(before, ids_before),
        grows(before, after, ids_before, ids_after, p),
    ensures
        tidy(after, ids_after),
{
    let n = before.len() as int;
    let child = after[n];
    let path = child.path();
    assert(path.drop_last() == before[p].path());
    assert(forall|i: int| 0 <= i < n ==> (#[trigger] after[i]).path() == before[i].path());
    assert(forall|i: int| 0 <= i < n ==> (#[trigger] after[i]).spec_id() == before[i].spec_id());
    assert(forall|i: int|
        0 <= i < n ==> (#[trigger] after[i]).next_child() >= before[i].next_child());
    assert(ids_after.next() == (n + 1) % id_range()) by {
        assert(ids_before.next() == n % id_range());
        let q = n / id_range();
        assert(n == q * id_range() + ids_before.next()) by (nonlinear_arith)
            requires
                ids_before.next() == n % id_range(),
                q == n / id_range(),
                id_range() > 0,
        ;
        if ids_before.next() == u64::MAX {
            assert(n + 1 == (q + 1) * id_range()) by (nonlinear_arith)
                requires
                    n == q * id_range() + ids_before.next(),
                    ids_before.next() + 1 == id_range(),
            ;
            assert(((q + 1) * id_range()) % id_range() == 0) by (nonlinear_arith)
                requires
                    id_range() > 0,
            ;
        }
    }
    assert forall|i: int| 0 <= i < n implies #[trigger] before[i].path() != path by {
        assert(below(before[p], before[i]));
    }
    assert forall|i: int, m: int|
        0 <= i < after.len() && 0 <= m < after[i].path().len() implies #[trigger] after[i].path()[m]
        >= 1 by {
        if i < n {
            assert(before[i].path()[m] >= 1);
        } else if m < path.len() - 1 {
            assert(before[p].path()[m] >= 1);
        }
    }
    assert forall|i: int, j: int|
        0 <= i < after.len() && 0 <= j < after.len() && i != j implies #[trigger] after[i].path()
        != #[trigger] after[j].path() by {
        if i < n && j < n {
            assert(before[i].path() != before[j].path());
        } else if i < n {
            assert(before[i].path() != path);
        } else {
            assert(before[j].path() != path);
        }
    }
    assert forall|i: int, j: int|
        0 <= i < after.len() && 0 <= j < after.len() implies #[trigger] below(
        after[i],
        after[j],
    ) by {
        if i < n && j < n {
            assert(below(before[i], before[j]));
        } else if i < n {
            if path.drop_last() == before[i].path() {
                assert(before[i].path() == before[p].path());
                assert(i == p);
            }
        } else if j < n {
            if before[j].path().len() > 0 {
                assert(j > 0);
                assert(has_parent(before, before[j].path()));
            }
        }
    }
    assert forall|i: int| 0 < i < after.len() implies #[trigger] has_parent(
        after,
        after[i].path(),
    ) by {
        if i < n {
            assert(has_parent(before, before[i].path()));
            let j = choose|j: int|
                0 <= j < before.len() && #[trigger] before[j].path() == before[i].path().drop_last();
            assert(after[j].path() == after[i].path().drop_last());
        } else {
            assert(after[p].path() == path.drop_last());
        }
    }
}

proof fn lemma_growth_is_tidy(
    contexts: Seq<Seq<ContextId>>,
    ids: Seq<IdSource>,
    parents: Seq<int>,
    k: int,
)
    requires
        is_growth(contexts, ids, parents),
        0 <= k < contexts.len(),
    ensures
        tidy(contexts[k], ids[k]),
        contexts[k].len() == k + 1,
    decreases k,
{
    if k > 0 {
        lemma_growth_is_tidy(contexts, ids, parents, k - 1);
        assert(grows(
            contexts[k - 1],
            contexts[(k - 1) + 1],
            ids[k - 1],
            ids[(k - 1) + 1],
            parents[k - 1],
        ));
        lemma_growth_keeps_tidy(
            contexts[k - 1],
            contexts[k],
            ids[k - 1],
            ids[k],
            parents[k - 1],
        );
    } else {
        vstd::arithmetic::div_mod::lemma_small_mod(0, id_range() as nat);
        vstd::arithmetic::div_mod::lemma_small_mod(1, id_range() as nat);
    }
}

/// No two contexts of a hierarchy have the same number, as long as there are
/// not more contexts than numbers.
pub proof fn lemma_ids_are_unique(
    contexts: Seq<Seq<ContextId>>,
    ids: Seq<IdSource>,
    parents: Seq<int>,
    k: int,
    i: int,
    j: int,
)
    requires
        is_growth(contexts, ids, parents),
        0 <= k < contexts.len(),
        contexts[k].len() <= id_range(),
        0 <= i < contexts[k].len(),
        0 <= j < contexts[k].len(),
        i != j,
    ensures
        contexts[k][i].spec_id() != contexts[k][j].spec_id(),
{
    lemma_growth_is_tidy(contexts, ids, parents, k);
    assert(contexts[k][i].spec_id() == i % id_range());
    assert(contexts[k][j].spec_id() == j % id_range());
}

/// No two contexts of a hierarchy have the same path, and no two are written
/// the same.
pub proof fn lemma_paths_are_unique(
    contexts: Seq<Seq<ContextId>>,
    ids: Seq<IdSource>,
    parents: Seq<int>,
    k: int,
    i: int,
    j: int,
)
    requires
        is_growth(contexts, ids, parents),
        0 <= k < contexts.len(),
        0 <= i < contexts[k].len(),
        0 <= j < contexts[k].len(),
        i != j,
    ensures
        contexts[k][i].path() != contexts[k][j].path(),
        path_text(contexts[k][i].path()) != path_text(contexts[k][j].path()),
{
    lemma_growth_is_tidy(contexts, ids, parents, k);
    let a = contexts[k][i].path();
    let b = contexts[k][j].path();
    assert(a != b);
    assert(forall|m: int| 0 <= m < a.len() ==> contexts[k][i].path()[m] >= 1);
    assert(forall|m: int| 0 <= m < b.len() ==> contexts[k][j].path()[m] >= 1);
    if path_text(a) == path_text(b) {
        lemma_path_text_is_injective(a, b);
    }
}

spec fn numbers(path: Seq<u64>) -> Seq<nat> {
    path.map_values(|n: u64| n as nat)
}

/// Different paths whose numbers are positive are written differently.
pub proof fn lemma_path_text_is_injective(a: Seq<u64>, b: Seq<u64>)
    requires
        forall|m: int| 0 <= m < a.len() ==> #[trigger] a[m] >= 1,
        forall|m: int| 0 <= m < b.len() ==> #[trigger] b[m] >= 1,
        path_text(a) == path_text(b),
    ensures
        a == b,
{
    if a.len() > 0 && b.len() > 0 {
        lemma_joined_is_injective(numbers(a), numbers(b));
        assert forall|m: int| 0 <= m < a.len() implies a[m] == b[m] by {
            assert(numbers(a)[m] == numbers(b)[m]);
        }
        assert(a == b);
    } else if a.len() > 0 {
        lemma_not_written_as_root(a);
    } else if b.len() > 0 {
        lemma_not_written_as_root(b);
    }
}

proof fn lemma_not_written_as_root(path: Seq<u64>)
    requires
        path.len() > 0,
        forall|m: int| 0 <= m < path.len() ==> #[trigger] path[m] >= 1,
    ensures
        path_text(path) != seq!['0'],
{
    if path_text(path) == seq!['0'] {
        assert(decimal(0) == seq!['0']);
        assert(joined(seq![0nat], seq!['.']) == decimal(0));
        lemma_joined_is_injective(numbers(path), seq![0nat]);
        assert(numbers(path)[0] == 0);
        assert(path[0] >= 1);
    }
}

proof fn lemma_joined_segments(path: Seq<nat>)
    requires
        path.len() > 0,
    ensures
        segments(joined(path, seq!['.'])).len() == path.len(),
        forall|k: int|
            0 <= k < path.len() ==> #[trigger] segments(joined(path, seq!['.']))[k] == decimal(
                path[k],
            ),
    decreases path.len(),
{
    let s = joined(path, seq!['.']);
    lemma_joined_last_dot(path);
    if path.len() > 1 {
        let head = joined(path.drop_last(), seq!['.']);
        lemma_joined_segments(path.drop_last());
        assert(s.take(head.len() as int) == head);
        assert(s.skip((head.len() + 1) as int) == decimal(path.last()));
    }
}

/// How a path is written: the root is `0`; a path of one number is that number's
/// decimal text; and one more number adds a dot and its own decimal text to what
/// the path before it is written as, however long that path is.
pub proof fn lemma_path_text_grows_by_a_dot_and_a_number(path: Seq<u64>, n: u64)
    ensures
        path_text(Seq::empty()) == seq!['0'],
        path_text(seq![n]) == decimal(n as nat),
        path.len() > 0 ==> path_text(path.push(n)) == path_text(path) + seq!['.'] + decimal(
            n as nat,
        ),
{
    lemma_joined_grows(numbers(path), n as nat, seq!['.']);
    assert(seq![n].map_values(|n: u64| n as nat) == seq![n as nat]);
    assert(path.push(n).map_values(|n: u64| n as nat) == numbers(path).push(n as nat));
}

/// The text of a path below the root has one segment for each number of the path,
/// and segment `k`, read in base ten, is number `k` of the path.
pub proof fn lemma_path_text_reads_back(path: Seq<u64>, k: int)
    requires
        0 <= k < path.len(),
    ensures
        segments(path_text(path)).len() == path.len(),
        value_of(segments(path_text(path))[k]) == path[k],
        segments(path_text(path))[k].len() > 1 ==> segments(path_text(path))[k][0] != '0',
{
    lemma_joined_segments(numbers(path));
    lemma_decimal_reads_back(numbers(path)[k]);
    lemma_decimal_reads_back(path[k] as nat);
}

/// The children of a context that was just made, in the order in which they were
/// made: the first is number one, each next one has the number after that, and
/// they are written as their parent is, then a dot, then their number. Below the
/// root their number stands alone. The numbers that tell them apart follow one
/// another as well, and start over after the largest.
pub proof fn lemma_children_count_from_one(
    parents: Seq<ContextId>,
    ids: Seq<IdSource>,
    children: Seq<ContextId>,
    k: int,
)
    requires
        parents.len() == children.len() + 1,
        ids.len() == children.len() + 1,
        is_root(parents[0]) || exists|before: ContextId, after: ContextId, a: IdSource, b: IdSource|
            is_new_child(before, after, a, b, parents[0]),
        forall|m: int|
            0 <= m < children.len() ==> #[trigger] is_new_child(
                parents[m],
                parents[m + 1],
                ids[m],
                ids[m + 1],
                children[m],
            ),
        0 <= k < children.len(),
    ensures
        parents[k].path() == parents[0].path(),
        parents[k].next_child() == k + 1,
        parents[k].spec_id() == parents[0].spec_id(),
        children[k].path() == parents[0].path().push((k + 1) as u64),
        children[k].spec_id() == (ids[0].next() + k) % 0x1_0000_0000_0000_0000,
        parents[0].path().len() == 0 ==> path_text(children[k].path()) == decimal((k + 1) as nat),
        parents[0].path().len() > 0 ==> path_text(children[k].path()) == path_text(
            parents[0].path(),
        ) + seq!['.'] + decimal((k + 1) as nat),
    decreases k,
{
    assert(is_new_child(parents[k], parents[k + 1], ids[k], ids[k + 1], children[k]));
    lemma_children_before(parents, ids, children, k);
    let path = parents[0].path();
    let n = (k + 1) as u64;
    lemma_path_text_grows_by_a_dot_and_a_number(path, n);
    if path.len() == 0 {
        assert(path.push(n) == seq![n]);
    }
}

proof fn lemma_children_before(
    parents: Seq<ContextId>,
    ids: Seq<IdSource>,
    children: Seq<ContextId>,
    k: int,
)
    requires
        parents.len() == children.len() + 1,
        ids.len() == children.len() + 1,
        is_root(parents[0]) || exists|before: ContextId, after: ContextId, a: IdSource, b: IdSource|
            is_new_child(before, after, a, b, parents[0]),
        forall|m: int|
            0 <= m < children.len() ==> #[trigger] is_new_child(
                parents[m],
                parents[m + 1],
                ids[m],
                ids[m + 1],
                children[m],
            ),
        0 <= k <= children.len(),
    ensures
        parents[k].path() == parents[0].path(),
        parents[k].next_child() == k + 1,
        parents[k].spec_id() == parents[0].spec_id(),
        ids[k].next() == (ids[0].next() + k) % 0x1_0000_0000_0000_0000,
    decreases k,
{
    if k > 0 {
        lemma_children_before(parents, ids, children, k - 1);
        assert(is_new_child(
            parents[k - 1],
            parents[(k - 1) + 1],
            ids[k - 1],
            ids[(k - 1) + 1],
            children[k - 1],
        ));
    }
}

/// Every context is written as a valid context id.
pub proof fn lemma_path_text_is_valid(path: Seq<u64>)
    ensures
        valid_ctx_id(path_text(path)),
{
    let s = path_text(path);
    if path.len() == 0 {
        lemma_no_dot(s);
        assert(segments(s)[0] == s);
    } else {
        lemma_joined_segments(numbers(path));
        assert forall|k: int| 0 <= k < segments(s).len() implies is_number(
            #[trigger] segments(s)[k],
        ) by {
            lemma_decimal_is_digits(numbers(path)[k]);
        }
    }
}

/// The ancestors of a context's text are the texts of the contexts above it:
/// below the text of the context itself comes what its parent has. The root is
/// not listed.
pub proof fn lemma_ancestors_follow_the_path(path: Seq<u64>)
    requires
        path.len() > 0,
    ensures
        spec_ancestors(path_text(path)) == seq![path_text(path)] + (if path.len() == 1 {
            Seq::empty()
        } else {
            spec_ancestors(path_text(path.drop_last()))
        }),
{
    let s = path_text(path);
    lemma_joined_last_dot(numbers(path));
    if path.len() > 1 {
        assert(numbers(path).drop_last() == numbers(path.drop_last()));
        let head = path_text(path.drop_last());
        assert(s.take(head.len() as int) == head);
    } else {
        assert(last_dot(s) is None);
        assert(spec_ancestors(s) == seq![s]);
    }
}

} // verus!
