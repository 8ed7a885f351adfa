//! The streaming comparator: a sink that checks each fragment against the
//! expected text as soon as it arrives.
use vstd::prelude::*;
use crate::model::{
    Failure, common_prefix_len, consume, finish_at, fits, lemma_common_prefix_len, step, texts,
    verdict,
};

verus! {

/// Why an assertion failed.
#[derive(Debug, PartialEq, Eq)]
pub enum FormatError {
    /// A fragment disagreed with the expected text, or ran past its end.
    Mismatch {
        /// The whole expected text.
        expected: String,
        /// The offending fragment.
        fragment: String,
        /// Characters matched before the fragment arrived.
        position: usize,
        /// Index in the expected text of the first character that disagrees.
        divergence: usize,
    },
    /// The rendering produced a proper prefix of the expected text.
    Underrun {
        /// The whole expected text.
        expected: String,
        /// What was matched before the rendering finished.
        matched: String,
        /// Characters that were never produced.
        missing: usize,
    },
}

impl View for FormatError {
    type V = Failure;

    open spec fn view(&self) -> Failure {
        match self {
            FormatError::Mismatch { expected, fragment, position, divergence } => Failure::Mismatch {
                expected: expected@,
                fragment: fragment@,
                position: *position as nat,
                divergence: *divergence as nat,
            },
            FormatError::Underrun { expected, matched, missing } => Failure::Underrun {
                expected: expected@,
                matched: matched@,
                missing: *missing as nat,
            },
        }
    }
}

/// `r` carries the abstract outcome `v`.
pub open spec fn outcome_is<T>(r: Result<T, FormatError>, v: Result<(), Failure>) -> bool {
    match r {
        Ok(_) => v is Ok,
        Err(e) => v == Err::<(), Failure>(e@),
    }
}

/// The characters of `s`, in order.
fn chars_of(s: &str) -> (r: Vec<char>)
    ensures
        r@ == s@,
{
    let mut out: Vec<char> = Vec::new();
    for c in it: s.chars()
        invariant
            out@ == it.seq().take(it.index() as int),
    {
        out.push(c);
    }
    out
}

/// Relies on `String::from(char)`: a string of that one character.
#[verifier::external_body]
fn char_to_string(c: char) -> (r: String)
    ensures
        r@ == seq![c],
{
    String::from(c)
}

/// State of one assertion: the expected text and how much of it has been matched.
pub struct AssertFormat<'a> {
    original: &'a str,
    chars: Vec<char>,
    cursor: usize,
}

impl<'a> AssertFormat<'a> {
    /// The expected text.
    pub closed spec fn expected(&self) -> Seq<char> {
        self.original@
    }

    /// Number of expected characters matched so far.
    pub closed spec fn consumed(&self) -> nat {
        self.cursor as nat
    }

    #[verifier::type_invariant]
    closed spec fn inv(&self) -> bool {
        &&& self.chars@ == self.original@
        &&& self.cursor <= self.chars@.len()
    }

    /// A fresh comparison against `expected`, with nothing matched yet.
    pub fn new(expected: &'a str) -> (r: Self)
        ensures
            r.expected() == expected@,
            r.consumed() == 0,
    {
        AssertFormat { original: expected, chars: chars_of(expected), cursor: 0 }
    }

    /// Number of characters of `fragment` that agree with the expected text from
    /// the cursor on.
    fn agreeing_prefix(&self, fragment: &Vec<char>) -> (n: usize)
        ensures
            n == common_prefix_len(self.expected().skip(self.consumed() as int), fragment@),
            n <= fragment@.len(),
            self.cursor + n <= self.chars.len(),
    {
        proof {
            use_type_invariant(self);
        }
        let start: usize = self.cursor;
        let rest: usize = self.chars.len() - start;
        let mut i: usize = 0;
        while i < fragment.len() && i < rest && fragment[i] == self.chars[start + i]
            invariant
                i <= fragment.len(),
                i <= rest,
                start == self.cursor,
                start + rest == self.chars.len(),
                self.chars@ == self.original@,
                self.cursor <= self.chars@.len(),
                forall|k: int|
                    0 <= k < i ==> fragment@[k] == self.chars@[self.cursor + k],
            decreases fragment.len() - i,
        {
            i = i + 1;
        }
        proof {
            let a = self.expected().skip(self.consumed() as int);
            assert forall|k: int| 0 <= k < i implies a[k] == fragment@[k] by {}
            lemma_common_prefix_len(a, fragment@, i as nat);
        }
        i
    }

    /// Checks the characters of `fragment` (whose text is `text`) at the cursor.
    fn accept(&mut self, fragment: &Vec<char>, text: String) -> (r: Result<(), FormatError>)
        requires
            fragment@ == text@,
        ensures
            final(self).expected() == old(self).expected(),
            match step(old(self).expected(), old(self).consumed(), fragment@) {
                Ok(next) => r is Ok && final(self).consumed() == next,
                Err(f) => r matches Err(e) && e@ == f && final(self).consumed()
                    == old(self).consumed(),
            },
    {
        proof {
            use_type_invariant(&*self);
        }
        let n = self.agreeing_prefix(fragment);
        if n == fragment.len() {
            proof {
                let e = self.expected();
                let c = self.consumed() as int;
                assert(e.subrange(c, c + n) =~= fragment@) by {
                    assert forall|k: int| 0 <= k < n implies e[c + k] == fragment@[k] by {
                        lemma_prefix_agrees(e.skip(c), fragment@, k);
                    }
                }
            }
            self.cursor = self.cursor + n;
            Ok(())
        } else {
            proof {
                let e = self.expected();
                let c = self.consumed() as int;
                if fits(e, self.consumed(), fragment@) {
                    assert(e.skip(c).take(fragment@.len() as int) =~= e.subrange(
                        c,
                        c + fragment@.len(),
                    ));
                    lemma_fit_agrees(e.skip(c), fragment@);
                }
            }
            Err(
                FormatError::Mismatch {
                    expected: self.original.to_owned(),
                    fragment: text,
                    position: self.cursor,
                    divergence: self.cursor + n,
                },
            )
        }
    }

    /// Hands a fragment of rendered text to the comparator. It is matched and the
    /// cursor advances past it, or the mismatch is returned and the cursor stays.
    pub fn write_str(&mut self, s: &str) -> (r: Result<(), FormatError>)
        ensures
            final(self).expected() == old(self).expected(),
            match step(old(self).expected(), old(self).consumed(), s@) {
                Ok(next) => r is Ok && final(self).consumed() == next,
                Err(f) => r matches Err(e) && e@ == f && final(self).consumed()
                    == old(self).consumed(),
            },
    {
        let fragment = chars_of(s);
        self.accept(&fragment, s.to_owned())
    }

    /// Hands a single rendered character to the comparator, as a fragment of one
    /// character.
    pub fn write_char(&mut self, c: char) -> (r: Result<(), FormatError>)
        ensures
            final(self).expected() == old(self).expected(),
            match step(old(self).expected(), old(self).consumed(), seq![c]) {
                Ok(next) => r is Ok && final(self).consumed() == next,
                Err(f) => r matches Err(e) && e@ == f && final(self).consumed()
                    == old(self).consumed(),
            },
    {
        let mut fragment: Vec<char> = Vec::new();
        fragment.push(c);
        assert(fragment@ =~= seq![c]);
        self.accept(&fragment, char_to_string(c))
    }

    /// The check made after rendering: the whole expected text must have been
    /// matched.
    pub fn finish(&self) -> (r: Result<(), FormatError>)
        ensures
            outcome_is(r, finish_at(self.expected(), self.consumed())),
    {
        proof {
            use_type_invariant(self);
        }
        if self.cursor == self.chars.len() {
            Ok(())
        } else {
            Err(
                FormatError::Underrun {
                    expected: self.original.to_owned(),
                    matched: self.original.substring_char(0, self.cursor).to_owned(),
                    missing: self.chars.len() - self.cursor,
                },
            )
        }
    }
}

impl<'a> AssertFormat<'a> {
    /// Runs one whole assertion: the fragments of `rendered`, in order, then the
    /// final check that nothing of `expected` is missing.
    fn check_rendered(rendered: &[&str], expected: &str) -> (r: Result<(), FormatError>)
        ensures
            outcome_is(r, verdict(expected@, texts(rendered@))),
    {
        let ghost frags = texts(rendered@);
        let mut state = AssertFormat::new(expected);
        let mut i: usize = 0;
        assert(frags.skip(0) =~= frags);
        while i < rendered.len()
            invariant
                i <= rendered@.len(),
                frags == texts(rendered@),
                state.expected() == expected@,
                consume(expected@, 0, frags) == consume(
                    expected@,
                    state.consumed(),
                    frags.skip(i as int),
                ),
            decreases rendered@.len() - i,
        {
            proof {
                assert(frags.skip(i as int)[0] == rendered@[i as int]@);
                assert(frags.skip(i as int).drop_first() =~= frags.skip(i + 1));
            }
            match state.write_str(rendered[i]) {
                Ok(()) => {},
                Err(e) => {
                    return Err(e);
                },
            }
            i = i + 1;
        }
        assert(frags.skip(i as int).len() == 0);
        state.finish()
    }

    /// Asserts that a value's debug rendering, handed over as the fragments
    /// `rendered`, is exactly `expected`: `Ok` when it is, else the first
    /// mismatch, or the underrun when the rendering stopped short.
    pub fn assert_debug_fmt(rendered: &[&str], expected: &str) -> (r: Result<(), FormatError>)
        ensures
            outcome_is(r, verdict(expected@, texts(rendered@))),
    {
        AssertFormat::check_rendered(rendered, expected)
    }

    /// Asserts that a value's display rendering, handed over as the fragments
    /// `rendered`, is exactly `expected`: `Ok` when it is, else the first
    /// mismatch, or the underrun when the rendering stopped short.
    pub fn assert_display_fmt(rendered: &[&str], expected: &str) -> (r: Result<(), FormatError>)
        ensures
            outcome_is(r, verdict(expected@, texts(rendered@))),
    {
        AssertFormat::check_rendered(rendered, expected)
    }
}

/// Where `a` and `b` share a common prefix, they agree on each of its characters.
proof fn lemma_prefix_agrees(a: Seq<char>, b: Seq<char>, k: int)
    requires
        0 <= k < common_prefix_len(a, b),
    ensures
        k < a.len(),
        k < b.len(),
        a[k] == b[k],
    decreases k,
{
    if k > 0 {
        lemma_prefix_agrees(a.drop_first(), b.drop_first(), k - 1);
    }
}

/// A fragment that is a prefix of `a` is wholly a common prefix.
proof fn lemma_fit_agrees(a: Seq<char>, b: Seq<char>)
    requires
        b.len() <= a.len(),
        a.take(b.len() as int) == b,
    ensures
        common_prefix_len(a, b) == b.len(),
{
    assert forall|k: int| 0 <= k < b.len() implies a[k] == b[k] by {
        assert(a.take(b.len() as int)[k] == a[k]);
    }
    lemma_common_prefix_len(a, b, b.len());
}

} // verus!
