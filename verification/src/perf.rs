//! Timing a full round trip (tokenize, parse, generate, restore) over many iterations.

use std::time::{Duration, Instant};

use vstd::prelude::*;

use crate::compat::restore_compat_operators;
use crate::error::Hoi4ParserError;
use crate::gen_spec::value_depth;
use crate::generator::generate_document;
use crate::parse_spec::parse_document;
use crate::parser::parse_root;
use crate::tokenizer::{spec_tokenize, tokenize};
use crate::Document;

verus! {

#[verifier::external_type_specification]
#[verifier::external_body]
pub struct ExInstant(Instant);

/// std's `Instant::now`: the current instant of the monotonic clock.  Nothing is stated of
/// it: it is the time.
#[verifier::external_body]
fn clock_now() -> Instant {
    Instant::now()
}

/// std's `Instant::elapsed` on `start`, read in whole nanoseconds (`Duration::as_nanos`).
/// Nothing is stated of it: it is the time.
#[verifier::external_body]
fn nanos_since(start: &Instant) -> u128 {
    start.elapsed().as_nanos()
}

/// The whole nanoseconds a `Duration` holds (what `Duration::as_nanos` returns).
pub uninterp spec fn duration_nanos(d: Duration) -> nat;

/// std's `Duration::from_nanos`: a duration of exactly `n` nanoseconds.
#[verifier::external_body]
fn duration_from_nanos(n: u64) -> (r: Duration)
    ensures
        duration_nanos(r) == n,
{
    Duration::from_nanos(n)
}

/// A reading of the clock, in nanoseconds since `start`, as a `u64` (a clock that has run
/// past `u64::MAX` nanoseconds, some 584 years, reads as that), and never before `last`: the
/// clock is monotonic, so a later reading never comes out earlier.
fn read_clock(start: &Instant, last: u64) -> (r: u64)
    ensures
        r >= last,
{
    let raw = nanos_since(start);
    let now: u64 = if raw > 0xffff_ffff_ffff_ffffu128 {
        0xffff_ffff_ffff_ffffu64
    } else {
        raw as u64
    };
    if now < last {
        last
    } else {
        now
    }
}

/// The timings of a round-trip benchmark.
#[derive(Debug, PartialEq, Eq)]
pub struct BenchReport {
    pub iterations: usize,
    pub parse_generate_total: Duration,
    pub avg_per_iteration: Duration,
    pub tokenize_total: Duration,
    pub parse_total: Duration,
    pub generate_total: Duration,
    pub post_process_total: Duration,
    pub input_bytes: usize,
}

impl Clone for BenchReport {
    fn clone(&self) -> (r: Self)
        ensures
            r == *self,
    {
        BenchReport {
            iterations: self.iterations,
            parse_generate_total: self.parse_generate_total,
            avg_per_iteration: self.avg_per_iteration,
            tokenize_total: self.tokenize_total,
            parse_total: self.parse_total,
            generate_total: self.generate_total,
            post_process_total: self.post_process_total,
            input_bytes: self.input_bytes,
        }
    }
}

/// The message one round trip of `s` stops with, if it stops: an unclosed string literal, a
/// token sequence that does not form a document (the parser's message), or a document nested
/// deeper than `usize` can count.
pub open spec fn round_trip_error(s: Seq<char>) -> Option<Seq<char>> {
    match spec_tokenize(s) {
        Ok(ts) => match parse_document(ts) {
            Ok(root) => if value_depth(root) < usize::MAX {
                None
            } else {
                Some("文档嵌套过深，无法还原"@)
            },
            Err(m) => Some(m),
        },
        Err(_) => Some("字符串未闭合"@),
    }
}

/// Whether one round trip of `s` goes through: it tokenizes, its tokens form a document, and
/// the document's nesting can be counted.
pub open spec fn round_trip_succeeds(s: Seq<char>) -> bool {
    round_trip_error(s) is None
}

/// Whether a round trip of `s` stops while reading it (tokenizing or parsing) rather than
/// while writing it back.
pub open spec fn round_trip_fails_reading(s: Seq<char>) -> bool {
    match spec_tokenize(s) {
        Ok(ts) => parse_document(ts) is Err,
        Err(_) => true,
    }
}

/// Runs `iterations` round trips of `input` (tokenize, parse, generate, restore) and reports
/// how long each stage took in all.  Zero iterations are refused ("迭代次数必须大于 0"); a text
/// that does not tokenize, parse or generate is refused with that stage's error.  Times are
/// whole nanoseconds read from one monotonic clock: the total runs from before the first
/// round trip to after the last, the stages are timed inside it (so together they take no
/// longer), and the average is the total divided by `iterations as u32`.
pub fn benchmark_round_trip(input: &str, iterations: usize) -> (r: Result<
    BenchReport,
    Hoi4ParserError,
>)
    requires
        iterations == 0 || iterations as u32 != 0,
    ensures
        match r {
            Ok(report) => {
                &&& iterations > 0
                &&& round_trip_succeeds(input@)
                &&& report.iterations == iterations
                &&& report.input_bytes == input.len()
                &&& duration_nanos(report.avg_per_iteration) == duration_nanos(
                    report.parse_generate_total,
                ) / ((iterations as u32) as nat)
                &&& duration_nanos(report.tokenize_total) + duration_nanos(report.parse_total)
                    + duration_nanos(report.generate_total) + duration_nanos(
                    report.post_process_total,
                ) <= duration_nanos(report.parse_generate_total)
            },
            Err(e) => if iterations == 0 {
                e matches Hoi4ParserError::Generate { message } && message@ == "迭代次数必须大于 0"@
            } else {
                &&& !round_trip_succeeds(input@)
                &&& match e {
                    Hoi4ParserError::Parse { message } => round_trip_fails_reading(input@)
                        && round_trip_error(input@) == Some(message@),
                    Hoi4ParserError::Generate { message } => !round_trip_fails_reading(input@)
                        && round_trip_error(input@) == Some(message@),
                }
            },
        },
{
    if iterations == 0 {
        return Err(Hoi4ParserError::generate_error("迭代次数必须大于 0"));
    }
    let start = clock_now();
    let mut now: u64 = 0;
    let mut tokenize_total: u64 = 0;
    let mut parse_total: u64 = 0;
    let mut generate_total: u64 = 0;
    let mut post_process_total: u64 = 0;
    let mut k: usize = 0;
    while k < iterations
        invariant
            0 < iterations,
            k <= iterations,
            k > 0 ==> round_trip_succeeds(input@),
            tokenize_total + parse_total + generate_total + post_process_total <= now,
        decreases iterations - k,
    {
        let t0 = read_clock(&start, now);
        let tokens = match tokenize(input) {
            Ok(ts) => ts,
            Err(e) => {
                return Err(e);
            },
        };
        let t1 = read_clock(&start, t0);
        tokenize_total = tokenize_total + (t1 - t0);
        let root = match parse_root(tokens.as_slice()) {
            Ok(v) => v,
            Err(e) => {
                return Err(e);
            },
        };
        let t2 = read_clock(&start, t1);
        parse_total = parse_total + (t2 - t1);
        let doc = Document::new(root, input);
        let rendered = match generate_document(&doc) {
            Ok(s) => s,
            Err(e) => {
                return Err(e);
            },
        };
        let t3 = read_clock(&start, t2);
        generate_total = generate_total + (t3 - t2);
        let _restored = restore_compat_operators(rendered.as_str());
        let t4 = read_clock(&start, t3);
        post_process_total = post_process_total + (t4 - t3);
        now = t4;
        k += 1;
    }
    let total = read_clock(&start, now);
    let divisor = iterations as u32;
    let average = total / (divisor as u64);
    Ok(
        BenchReport {
            iterations,
            parse_generate_total: duration_from_nanos(total),
            avg_per_iteration: duration_from_nanos(average),
            tokenize_total: duration_from_nanos(tokenize_total),
            parse_total: duration_from_nanos(parse_total),
            generate_total: duration_from_nanos(generate_total),
            post_process_total: duration_from_nanos(post_process_total),
            input_bytes: input.len(),
        },
    )
}

} // verus!
