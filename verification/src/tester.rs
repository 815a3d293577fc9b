//! The bookkeeping of a run over numbered fixtures: each fixture's answer is
//! held against what was expected, passes and failures are counted, and the
//! run moves on to the next number or stops. Reading the fixtures, calling the
//! solver and reporting are the caller's part.

use vstd::prelude::*;
use vstd::string::StringSliceAdditionalSpecFns;
use vstd::utf8::{decode_utf8, encode_utf8_decode_utf8};

verus! {

/// Whether two texts are the same, found by comparing their bytes.
fn same_text(a: &str, b: &str) -> (same: bool)
    ensures
        same == (a@ == b@),
{
    let left = a.as_bytes();
    let right = b.as_bytes();
    proof {
        encode_utf8_decode_utf8(a@);
        encode_utf8_decode_utf8(b@);
    }
    if left.len() != right.len() {
        return false;
    }
    let mut at: usize = 0;
    while at < left.len()
        invariant
            at <= left@.len() == right@.len(),
            forall|i: int| 0 <= i < at ==> left@[i] == right@[i],
            left@ == a.spec_bytes(),
            right@ == b.spec_bytes(),
            decode_utf8(a.spec_bytes()) == a@,
            decode_utf8(b.spec_bytes()) == b@,
        decreases left@.len() - at,
    {
        if left[at] != right[at] {
            return false;
        }
        at += 1;
    }
    assert(left@ =~= right@);
    true
}

/// The state of a run: the number of the fixture that is up, the passes and
/// failures counted so far, and whether the run has stopped.
#[derive(Debug)]
pub struct Run {
    test_number: u8,
    ok: i32,
    failed: i32,
    stopped: bool,
}

impl Run {
    /// The number of the fixture that is up; after a stop, of the last one judged.
    pub closed spec fn number(self) -> nat {
        self.test_number as nat
    }

    /// The fixtures that passed.
    pub closed spec fn passes(self) -> int {
        self.ok as int
    }

    /// The fixtures that failed.
    pub closed spec fn failures(self) -> int {
        self.failed as int
    }

    /// Whether the run has stopped.
    pub closed spec fn stopped(self) -> bool {
        self.stopped
    }

    /// What holds of every run: each fixture below the current number was
    /// judged once, and the current one too if the run has stopped.
    #[verifier::type_invariant]
    pub open spec fn wf(self) -> bool {
        &&& self.passes() >= 0
        &&& self.failures() >= 0
        &&& self.passes() + self.failures() == self.number() + if self.stopped() {
            1int
        } else {
            0int
        }
    }

    /// A run that has judged nothing yet, with fixture 0 up.
    pub fn new() -> (run: Self)
        ensures
            run.number() == 0,
            run.passes() == 0,
            run.failures() == 0,
            !run.stopped(),
    {
        Run { test_number: 0, ok: 0, failed: 0, stopped: false }
    }

    /// The number of the fixture that is up.
    pub fn test_number(&self) -> (number: u8)
        ensures
            number == self.number(),
    {
        self.test_number
    }

    /// The fixtures that passed.
    pub fn ok(&self) -> (passes: i32)
        ensures
            passes == self.passes(),
    {
        self.ok
    }

    /// The fixtures that failed.
    pub fn failed(&self) -> (failures: i32)
        ensures
            failures == self.failures(),
    {
        self.failed
    }

    /// Whether the run has stopped.
    pub fn is_stopped(&self) -> (stopped: bool)
        ensures
            stopped == self.stopped(),
    {
        self.stopped
    }

    /// Judges the fixture that is up: it passes if the solver's text is the
    /// expected text. Then the run moves to the next number if `proceed`
    /// says so, and stops otherwise. A run that has stopped judges nothing
    /// more and answers `false`.
    ///
    /// Fixture numbers end at 255: the run cannot proceed beyond that one.
    pub fn record(&mut self, expected: &str, solved: &str, proceed: bool) -> (passed: bool)
        requires
            proceed && !old(self).stopped() ==> old(self).number() < 255,
        ensures
            old(self).stopped() ==> !passed && *final(self) == *old(self),
            !old(self).stopped() ==> {
                &&& passed == (expected@ == solved@)
                &&& final(self).passes() == old(self).passes() + if passed { 1int } else { 0int }
                &&& final(self).failures() == old(self).failures() + if passed {
                    0int
                } else {
                    1int
                }
                &&& final(self).stopped() == !proceed
                &&& final(self).number() == old(self).number() + if proceed { 1int } else { 0int }
            },
    {
        proof {
            use_type_invariant(&*self);
        }
        if self.stopped {
            return false;
        }
        let passed = same_text(expected, solved);
        let ok = if passed { self.ok + 1 } else { self.ok };
        let failed = if passed { self.failed } else { self.failed + 1 };
        let test_number = if proceed { self.test_number + 1 } else { self.test_number };
        *self = Run { test_number, ok, failed, stopped: !proceed };
        passed
    }
}

/// Whether a run that stops after fixture `max_test` goes on after fixture `n`.
pub fn within_limit(n: u8, max_test: u8) -> (proceed: bool)
    ensures
        proceed == (n < max_test),
{
    n < max_test
}

} // verus!
