//! Results of the self-tests of the kernel, in the Test Anything Protocol:
//! what each line of the report says.

use vstd::prelude::*;

verus! {

/// A line of a report.
#[derive(Debug, Clone, Copy, PartialEq, Eq)]
pub enum Line<'a> {
    /// The plan: so many tests will follow.
    Plan { count: u8 },
    /// The test with the given number passed.
    Passed { number: u8, message: Option<&'a str> },
    /// The test with the given number failed.
    Failed { number: u8, message: &'a str },
    /// A remark.
    Diagnostic { message: &'a str },
}

/// A group of tests that is planned as a whole.
#[derive(Debug)]
pub struct TestGroup {
    count: u8,
    cur: u8,
}

impl TestGroup {
    #[verifier::type_invariant]
    spec fn within_plan(self) -> bool {
        self.cur <= self.count
    }

    /// The number of tests that were planned.
    pub closed spec fn planned(self) -> u8 {
        self.count
    }

    /// The number of tests that were reported.
    pub closed spec fn done(self) -> u8 {
        self.cur
    }

    /// Plans `count` tests. Returns the group and the line that says so.
    pub fn new(count: u8) -> (planned: (TestGroup, Line<'static>))
        ensures
            planned.0.planned() == count,
            planned.0.done() == 0,
            planned.1 == (Line::Plan { count }),
    {
        (TestGroup { count, cur: 0 }, Line::Plan { count })
    }

    /// The number of tests that are still to be reported.
    pub fn left(&self) -> (left: u8)
        ensures
            left == self.planned() - self.done(),
    {
        proof {
            use_type_invariant(self);
        }
        self.count - self.cur
    }

    /// Counts a test that passed, which has to be one of those planned.
    /// Returns the line that reports it, with the number of the test.
    pub fn ok<'a>(&mut self, message: Option<&'a str>) -> (line: Line<'a>)
        requires
            old(self).done() < old(self).planned(),
        ensures
            final(self).planned() == old(self).planned(),
            final(self).done() == old(self).done() + 1,
            line == (Line::Passed { number: final(self).done(), message }),
    {
        self.cur = self.cur + 1;
        Line::Passed { number: self.cur, message }
    }

    /// Counts a test that failed, which has to be one of those planned.
    /// Returns the line that reports it, with the number of the test.
    pub fn not_ok<'a>(&mut self, message: &'a str) -> (line: Line<'a>)
        requires
            old(self).done() < old(self).planned(),
        ensures
            final(self).planned() == old(self).planned(),
            final(self).done() == old(self).done() + 1,
            line == (Line::Failed { number: final(self).done(), message }),
    {
        self.cur = self.cur + 1;
        Line::Failed { number: self.cur, message }
    }

    /// Counts a test by its outcome, which has to be one of those planned:
    /// as passed, without a message, where `cond` holds, and as failed, with
    /// the message, where it does not.
    pub fn assert_tap<'a>(&mut self, cond: bool, message: &'a str) -> (line: Line<'a>)
        requires
            old(self).done() < old(self).planned(),
        ensures
            final(self).planned() == old(self).planned(),
            final(self).done() == old(self).done() + 1,
            line == if cond {
                Line::Passed { number: final(self).done(), message: None }
            } else {
                Line::Failed { number: final(self).done(), message }
            },
    {
        if cond {
            self.ok(None)
        } else {
            self.not_ok(message)
        }
    }

    /// The line that makes a remark.
    pub fn diagnostic<'a>(&self, msg: &'a str) -> (line: Line<'a>)
        ensures
            line == (Line::Diagnostic { message: msg }),
    {
        Line::Diagnostic { message: msg }
    }

    /// The line that ends the report of the group.
    pub fn finish(&self) -> (line: Line<'static>)
        ensures
            line == (Line::Diagnostic { message: "EOT" }),
    {
        Line::Diagnostic { message: "EOT" }
    }
}

} // verus!
