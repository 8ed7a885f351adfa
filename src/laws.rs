//! Laws of the comparison, stated over the model and proved.
use vstd::prelude::*;
use crate::model::{Failure, consume, fits, lemma_common_prefix_len, mismatch, verdict};

verus! {

/// A concatenation fits at a cursor exactly when its first part fits there and
/// its second part fits right after the first.
pub proof fn lemma_fits_concat(expected: Seq<char>, pos: nat, a: Seq<char>, b: Seq<char>)
    ensures
        fits(expected, pos, a + b) <==> fits(expected, pos, a) && fits(
            expected,
            pos + a.len(),
            b,
        ),
{
    let (p, m, n) = (pos as int, a.len() as int, b.len() as int);
    if fits(expected, pos, a + b) {
        assert(expected.subrange(p, p + m) =~= (a + b).subrange(0, m));
        assert((a + b).subrange(0, m) =~= a);
        assert(expected.subrange(p + m, p + m + n) =~= (a + b).subrange(m, m + n));
        assert((a + b).subrange(m, m + n) =~= b);
    }
    if fits(expected, pos, a) && fits(expected, pos + a.len(), b) {
        assert(expected.subrange(p, p + m + n) =~= expected.subrange(p, p + m) + expected.subrange(
            p + m,
            p + m + n,
        ));
    }
}

/// Feeding fragments one by one succeeds exactly when their concatenation fits,
/// and leaves the cursor just past it.
pub proof fn lemma_consume_flatten(expected: Seq<char>, pos: nat, fragments: Seq<Seq<char>>)
    requires
        pos <= expected.len(),
    ensures
        consume(expected, pos, fragments) is Ok <==> fits(expected, pos, fragments.flatten()),
        consume(expected, pos, fragments) is Ok ==> consume(expected, pos, fragments)->Ok_0 == pos
            + fragments.flatten().len(),
    decreases fragments.len(),
{
    if fragments.len() == 0 {
        assert(expected.subrange(pos as int, pos as int) =~= Seq::<char>::empty());
    } else {
        let (a, rest) = (fragments[0], fragments.drop_first());
        lemma_fits_concat(expected, pos, a, rest.flatten());
        if fits(expected, pos, a) {
            lemma_consume_flatten(expected, pos + a.len(), rest);
        }
    }
}

/// Feeding `x` then `y` is feeding `x`, and then `y` from where `x` left the cursor.
pub proof fn lemma_consume_split(
    expected: Seq<char>,
    pos: nat,
    x: Seq<Seq<char>>,
    y: Seq<Seq<char>>,
)
    requires
        consume(expected, pos, x) is Ok,
    ensures
        consume(expected, pos, x + y) == consume(expected, consume(expected, pos, x)->Ok_0, y),
    decreases x.len(),
{
    if x.len() == 0 {
        assert(x + y =~= y);
    } else {
        assert((x + y)[0] == x[0]);
        assert((x + y).drop_first() =~= x.drop_first() + y);
        lemma_consume_split(expected, pos + x[0].len(), x.drop_first(), y);
    }
}

/// Exact match: whatever fragments a rendering is cut into, it passes when they
/// make up the expected text.
pub proof fn lemma_exact_match(expected: Seq<char>, fragments: Seq<Seq<char>>)
    requires
        fragments.flatten() == expected,
    ensures
        verdict(expected, fragments) == Ok::<(), Failure>(()),
{
    lemma_consume_flatten(expected, 0, fragments);
    assert(expected.subrange(0, expected.len() as int) =~= expected);
}

/// Chunking never changes the outcome: a rendering passes exactly when the same
/// text handed over as one fragment passes, that is, when it is the expected text.
pub proof fn lemma_chunking_invariance(expected: Seq<char>, fragments: Seq<Seq<char>>)
    ensures
        verdict(expected, fragments) is Ok <==> verdict(expected, seq![fragments.flatten()]) is Ok,
        verdict(expected, fragments) is Ok <==> fragments.flatten() == expected,
{
    let whole = seq![fragments.flatten()];
    whole.lemma_flatten_one_element();
    lemma_verdict_ok(expected, fragments);
    lemma_verdict_ok(expected, whole);
}

/// A rendering passes exactly when its fragments make up the expected text.
proof fn lemma_verdict_ok(expected: Seq<char>, fragments: Seq<Seq<char>>)
    ensures
        verdict(expected, fragments) is Ok <==> fragments.flatten() == expected,
{
    let flat = fragments.flatten();
    lemma_consume_flatten(expected, 0, fragments);
    if fits(expected, 0, flat) && flat.len() == expected.len() {
        assert(expected.subrange(0, expected.len() as int) =~= expected);
    }
    if flat == expected {
        assert(expected.subrange(0, expected.len() as int) =~= expected);
    }
}

/// Early mismatch position: when the first `k` fragments match and fragment `k`
/// does not, the mismatch names fragment `k` at the number of characters that
/// the first `k` fragments matched.
pub proof fn lemma_mismatch_position(expected: Seq<char>, fragments: Seq<Seq<char>>, k: nat)
    requires
        k < fragments.len(),
        fits(expected, 0, fragments.take(k as int).flatten()),
        !fits(expected, fragments.take(k as int).flatten().len(), fragments[k as int]),
    ensures
        verdict(expected, fragments) == Err::<(), Failure>(
            mismatch(expected, fragments.take(k as int).flatten().len(), fragments[k as int]),
        ),
{
    let (head, tail) = (fragments.take(k as int), fragments.skip(k as int));
    lemma_consume_flatten(expected, 0, head);
    lemma_consume_split(expected, 0, head, tail);
    assert(head + tail =~= fragments);
    assert(tail[0] == fragments[k as int]);
}

/// Underrun: a rendering that produces a proper prefix of the expected text fails
/// as an underrun, showing that prefix as matched and the rest as missing.
pub proof fn lemma_underrun(expected: Seq<char>, fragments: Seq<Seq<char>>)
    requires
        fragments.flatten().is_prefix_of(expected),
        fragments.flatten().len() < expected.len(),
    ensures
        verdict(expected, fragments) == Err::<(), Failure>(
            Failure::Underrun {
                expected,
                matched: fragments.flatten(),
                missing: (expected.len() - fragments.flatten().len()) as nat,
            },
        ),
{
    let flat = fragments.flatten();
    lemma_consume_flatten(expected, 0, fragments);
    assert(expected.take(flat.len() as int) =~= flat);
}

/// Overrun: a rendering that goes on past the expected text fails as a mismatch,
/// whose first disagreeing index is the end of the expected text.
pub proof fn lemma_overrun(expected: Seq<char>, fragments: Seq<Seq<char>>)
    requires
        expected.is_prefix_of(fragments.flatten()),
        expected.len() < fragments.flatten().len(),
    ensures
        verdict(expected, fragments) matches Err(
            Failure::Mismatch { position, divergence, .. },
        ) && divergence == expected.len() && position <= expected.len(),
{
    assert(expected.skip(0) =~= expected);
    lemma_overrun_from(expected, 0, fragments);
}

/// Overrun, from any cursor whose remaining expected text the fragments run past.
proof fn lemma_overrun_from(expected: Seq<char>, pos: nat, fragments: Seq<Seq<char>>)
    requires
        pos <= expected.len(),
        expected.skip(pos as int).is_prefix_of(fragments.flatten()),
        expected.len() - pos < fragments.flatten().len(),
    ensures
        consume(expected, pos, fragments) matches Err(
            Failure::Mismatch { position, divergence, .. },
        ) && divergence == expected.len() && position <= expected.len(),
    decreases fragments.len(),
{
    let (a, rest) = (fragments[0], fragments.drop_first());
    let flat = fragments.flatten();
    let left = expected.skip(pos as int);
    let (p, m) = (pos as int, a.len() as int);
    assert(flat == a + rest.flatten());
    if fits(expected, pos, a) {
        let left2 = expected.skip(p + m);
        assert(left2.is_prefix_of(rest.flatten())) by {
            assert forall|j: int| 0 <= j < left2.len() implies left2[j] == rest.flatten()[j] by {
                assert(left[m + j] == flat[m + j]);
            }
            assert(left2 =~= rest.flatten().subrange(0, left2.len() as int));
        }
        lemma_overrun_from(expected, pos + a.len(), rest);
    } else {
        if m <= left.len() {
            assert(expected.subrange(p, p + m) =~= a) by {
                assert forall|j: int| 0 <= j < m implies expected.subrange(p, p + m)[j] == a[j] by {
                    assert(left[j] == flat[j]);
                }
            }
        }
        assert forall|j: int| 0 <= j < left.len() implies left[j] == a[j] by {
            assert(left[j] == flat[j]);
        }
        lemma_common_prefix_len(left, a, left.len());
    }
}

/// Overrun at a fragment boundary: when the first `k` fragments make up the
/// expected text and fragment `k` is not empty, the mismatch names fragment `k`
/// at the end of the expected text.
pub proof fn lemma_overrun_at_boundary(expected: Seq<char>, fragments: Seq<Seq<char>>, k: nat)
    requires
        k < fragments.len(),
        fragments.take(k as int).flatten() == expected,
        fragments[k as int].len() > 0,
    ensures
        verdict(expected, fragments) == Err::<(), Failure>(
            mismatch(expected, expected.len(), fragments[k as int]),
        ),
{
    assert(expected.subrange(0, expected.len() as int) =~= expected);
    lemma_mismatch_position(expected, fragments, k);
}

} // verus!
