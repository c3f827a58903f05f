use vstd::prelude::*;

verus! {

/// What the interpreter needs from the program that runs it: arithmetic on
/// 64-bit floats, which it holds as IEEE-754 bit patterns and does not
/// compute itself, and the outside world (printing, files, a clock, an HTTP
/// listener). The interpreter promises its results whatever these return.
pub trait Host {
    /// The float nearest to `i`.
    fn float_from_int(&self, i: i64) -> u64;

    /// The float written as `text`: an optional `-`, digits, `.`, digits.
    fn float_parse(&self, text: &str) -> u64;

    fn float_add(&self, a: u64, b: u64) -> u64;

    fn float_sub(&self, a: u64, b: u64) -> u64;

    fn float_mul(&self, a: u64, b: u64) -> u64;

    fn float_div(&self, a: u64, b: u64) -> u64;

    /// The remainder of `a / b`, with the sign of `a`.
    fn float_rem(&self, a: u64, b: u64) -> u64;

    fn float_less(&self, a: u64, b: u64) -> bool;

    fn float_less_eq(&self, a: u64, b: u64) -> bool;

    /// `a` rounded to the nearest integer, halves away from zero.
    fn float_round(&self, a: u64) -> u64;

    /// `a` written out, with at least one digit after the point.
    fn float_text(&self, a: u64) -> String;

    /// Writes one line of output.
    fn print(&mut self, line: &str);

    /// The contents of the file at `path`, or `None` where it cannot be read.
    fn read_file(&mut self, path: &str) -> Option<String>;

    /// Writes `content` to the file at `path`; whether that succeeded.
    fn write_file(&mut self, path: &str, content: &str) -> bool;

    /// Milliseconds on a monotonic clock.
    fn clock_ms(&mut self) -> u64;

    /// Waits for the next HTTP request on `port` and returns its path, or
    /// `None` once no more requests will come.
    fn next_request(&mut self, port: i64) -> Option<String>;

    /// Answers the request that `next_request` returned last.
    fn respond(&mut self, body: &str);
}

} // verus!
