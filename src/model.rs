//! The mathematical model of a streaming comparison: an expected text, a cursor
//! into it, and the fragments that a rendering hands over one after another.
use vstd::prelude::*;

verus! {

/// The abstract value of a failed assertion.
pub enum Failure {
    /// A fragment disagreed with the expected text at the cursor, or ran past its end.
    Mismatch {
        /// The whole expected text.
        expected: Seq<char>,
        /// The offending fragment, as it was handed over.
        fragment: Seq<char>,
        /// How many expected characters had been matched before this fragment.
        position: nat,
        /// Index in the expected text of the first character that disagrees.
        divergence: nat,
    },
    /// The rendering finished before the expected text was complete.
    Underrun {
        /// The whole expected text.
        expected: Seq<char>,
        /// The part of the expected text that was matched.
        matched: Seq<char>,
        /// How many expected characters were never produced.
        missing: nat,
    },
}

/// `fragment` continues the expected text at cursor `pos`: it lies inside the
/// expected text and equals the characters found there.
pub open spec fn fits(expected: Seq<char>, pos: nat, fragment: Seq<char>) -> bool {
    &&& pos + fragment.len() <= expected.len()
    &&& expected.subrange(pos as int, (pos + fragment.len()) as int) == fragment
}

/// Length of the longest common prefix of `a` and `b`.
pub open spec fn common_prefix_len(a: Seq<char>, b: Seq<char>) -> nat
    decreases a.len(),
{
    if a.len() == 0 || b.len() == 0 || a[0] != b[0] {
        0
    } else {
        1 + common_prefix_len(a.drop_first(), b.drop_first())
    }
}

/// The failure reported for `fragment` arriving at cursor `pos`.
pub open spec fn mismatch(expected: Seq<char>, pos: nat, fragment: Seq<char>) -> Failure {
    Failure::Mismatch {
        expected,
        fragment,
        position: pos,
        divergence: pos + common_prefix_len(expected.skip(pos as int), fragment),
    }
}

/// One fragment handed to the comparator at cursor `pos`: the new cursor, or the
/// mismatch that halts the comparison.
pub open spec fn step(expected: Seq<char>, pos: nat, fragment: Seq<char>) -> Result<nat, Failure> {
    if fits(expected, pos, fragment) {
        Ok(pos + fragment.len())
    } else {
        Err(mismatch(expected, pos, fragment))
    }
}

/// Feeds `fragments` in order from cursor `pos`, stopping at the first mismatch.
pub open spec fn consume(expected: Seq<char>, pos: nat, fragments: Seq<Seq<char>>) -> Result<
    nat,
    Failure,
>
    decreases fragments.len(),
{
    if fragments.len() == 0 {
        Ok(pos)
    } else {
        match step(expected, pos, fragments[0]) {
            Ok(next) => consume(expected, next, fragments.drop_first()),
            Err(f) => Err(f),
        }
    }
}

/// The check made once rendering is over: the cursor must stand at the end.
pub open spec fn finish_at(expected: Seq<char>, pos: nat) -> Result<(), Failure> {
    if pos >= expected.len() {
        Ok(())
    } else {
        Err(
            Failure::Underrun {
                expected,
                matched: expected.take(pos as int),
                missing: (expected.len() - pos) as nat,
            },
        )
    }
}

/// Outcome of a whole assertion: `fragments` is what the rendering produced.
pub open spec fn verdict(expected: Seq<char>, fragments: Seq<Seq<char>>) -> Result<(), Failure> {
    match consume(expected, 0, fragments) {
        Ok(pos) => finish_at(expected, pos),
        Err(f) => Err(f),
    }
}

/// The text of each fragment.
pub open spec fn texts(fragments: Seq<&str>) -> Seq<Seq<char>> {
    fragments.map_values(|s: &str| s@)
}

/// If `b` agrees with `a` on its first `i` characters and they part there,
/// `i` is their common prefix length.
pub proof fn lemma_common_prefix_len(a: Seq<char>, b: Seq<char>, i: nat)
    requires
        i <= a.len(),
        i <= b.len(),
        forall|k: int| 0 <= k < i ==> a[k] == b[k],
        i == a.len() || i == b.len() || a[i as int] != b[i as int],
    ensures
        common_prefix_len(a, b) == i,
    decreases i,
{
    if i > 0 {
        assert(a[0] == b[0]);
        let (a1, b1) = (a.drop_first(), b.drop_first());
        assert forall|k: int| 0 <= k < i - 1 implies a1[k] == b1[k] by {
            assert(a[k + 1] == b[k + 1]);
        }
        lemma_common_prefix_len(a1, b1, (i - 1) as nat);
    }
}

} // verus!
