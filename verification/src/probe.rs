//! The probe backend's two edges: the arguments with which the platform's
//! `ping` utility is started for one host, and the verdict that is read
//! from what the utility printed.
//!
//! A host counts as reachable exactly if the output shows an answer to at
//! least one echo attempt: one answer among the attempts is enough, and an
//! attempt that timed out or failed counts as no answer, whatever the
//! utility printed for it.

use crate::address::{dotted_quad, format_address};
use crate::text::{decimal_digits, decimal_text, texts_of};
use vstd::prelude::*;
use vstd::string::StringExecFns;
use vstd::string::StringSliceAdditionalSpecFns;

verus! {

/// The number of echo attempts made for one host unless configured otherwise.
pub const DEFAULT_ATTEMPTS: u32 = 4;

/// The time, in milliseconds, that one echo attempt waits for its answer
/// unless configured otherwise.
pub const DEFAULT_ECHO_TIMEOUT_MS: u64 = 1;

/// The byte that ends a line.
pub const NEWLINE: u8 = 10;

/// A platform whose `ping` utility the probe backend knows how to start.
#[derive(Clone, Copy, Debug, PartialEq, Eq, Structural)]
pub enum Platform {
    Windows,
    Linux,
}

/// The platform that the operating system name `os` stands for, if it is
/// one that the probe backend supports.
pub open spec fn platform_named(os: Seq<char>) -> Option<Platform> {
    if os == "windows"@ {
        Some(Platform::Windows)
    } else if os == "linux"@ {
        Some(Platform::Linux)
    } else {
        None
    }
}

/// The flag of the platform's `ping` that takes the number of attempts.
pub open spec fn attempts_flag(platform: Platform) -> Seq<char> {
    match platform {
        Platform::Windows => "-n"@,
        Platform::Linux => "-c"@,
    }
}

/// The flag of the platform's `ping` that takes the time to wait for an answer.
pub open spec fn timeout_flag(platform: Platform) -> Seq<char> {
    match platform {
        Platform::Windows => "-w"@,
        Platform::Linux => "-W"@,
    }
}

/// The arguments for one probe: the attempts flag and the number of
/// attempts, the timeout flag and the timeout, and the host's address.
pub open spec fn probe_argument_texts(
    platform: Platform,
    attempts: u32,
    timeout_ms: u64,
    address: u32,
) -> Seq<Seq<char>> {
    seq![
        attempts_flag(platform),
        decimal_digits(attempts as nat),
        timeout_flag(platform),
        decimal_digits(timeout_ms as nat),
        dotted_quad(address),
    ]
}

/// The platform for the operating system name `os`: `windows` and `linux`
/// are supported, every other name is not.
pub fn platform_for(os: &str) -> (platform: Option<Platform>)
    ensures
        platform == platform_named(os@),
{
    let name: String = String::from_str(os);
    if name == String::from_str("windows") {
        Some(Platform::Windows)
    } else if name == String::from_str("linux") {
        Some(Platform::Linux)
    } else {
        None
    }
}

/// The name of the utility that performs a probe.
pub fn probe_program() -> (program: &'static str)
    ensures
        program@ == "ping"@,
{
    "ping"
}

/// The arguments with which the platform's `ping` is started to probe
/// `address` with `attempts` echo attempts, each waiting `timeout_ms`.
pub fn probe_arguments(platform: Platform, attempts: u32, timeout_ms: u64, address: u32) -> (arguments:
    Vec<String>)
    ensures
        texts_of(arguments@) == probe_argument_texts(platform, attempts, timeout_ms, address),
{
    let mut arguments: Vec<String> = Vec::new();
    match platform {
        Platform::Windows => {
            arguments.push(String::from_str("-n"));
            arguments.push(decimal_text(attempts as u64));
            arguments.push(String::from_str("-w"));
        },
        Platform::Linux => {
            arguments.push(String::from_str("-c"));
            arguments.push(decimal_text(attempts as u64));
            arguments.push(String::from_str("-W"));
        },
    }
    arguments.push(decimal_text(timeout_ms));
    arguments.push(format_address(address));
    assert(texts_of(arguments@) =~= probe_argument_texts(platform, attempts, timeout_ms, address));
    arguments
}

/// `marker` stands in `text` at index `at`.
pub open spec fn occurs_at(text: Seq<u8>, marker: Seq<u8>, at: int) -> bool {
    &&& 0 <= at
    &&& at + marker.len() <= text.len()
    &&& text.subrange(at, at + marker.len()) == marker
}

/// `marker` stands somewhere in `text`.
pub open spec fn contains_marker(text: Seq<u8>, marker: Seq<u8>) -> bool {
    exists|at: int| occurs_at(text, marker, at)
}

/// The end of the line of `text` that holds index `from`: the index of the
/// first newline at or after `from`, or the length of `text` if there is none.
pub open spec fn line_end(text: Seq<u8>, from: int) -> int
    decreases text.len() - from,
{
    if from < 0 || from >= text.len() {
        text.len() as int
    } else if text[from] == NEWLINE {
        from
    } else {
        line_end(text, from + 1)
    }
}

/// The number of lines of `text` from index `from` on that hold `marker`,
/// where `from` is the start of a line. Lines are what newlines separate;
/// a newline at the very end of the text does not begin another line.
pub open spec fn marked_lines_from(text: Seq<u8>, marker: Seq<u8>, from: int) -> nat
    decreases text.len() - from,
    via marked_lines_from_decreases
{
    if from < 0 || from >= text.len() {
        0
    } else {
        let end: int = line_end(text, from);
        let here: nat = if contains_marker(text.subrange(from, end), marker) {
            1
        } else {
            0
        };
        if end < text.len() {
            here + marked_lines_from(text, marker, end + 1)
        } else {
            here
        }
    }
}

#[via_fn]
proof fn marked_lines_from_decreases(text: Seq<u8>, marker: Seq<u8>, from: int) {
    if 0 <= from < text.len() {
        lemma_line_end(text, from);
    }
}

/// The number of lines of `text` that hold `marker`.
pub open spec fn marked_lines(text: Seq<u8>, marker: Seq<u8>) -> nat {
    marked_lines_from(text, marker, 0)
}

/// The bytes by which the line of an answered echo attempt is known in the
/// output of the platform's `ping`: the label of the reply's time-to-live,
/// which the utility prints for an echo reply and for nothing else. A line
/// that reports a timeout, an unreachable destination or a failure to send
/// does not hold it.
pub open spec fn answer_marker(platform: Platform) -> Seq<u8> {
    match platform {
        Platform::Windows => "TTL=".spec_bytes(),
        Platform::Linux => "ttl=".spec_bytes(),
    }
}

/// The number of echo attempts that, by the utility's output, were answered.
pub open spec fn answered_attempts(platform: Platform, output: Seq<u8>) -> nat {
    marked_lines(output, answer_marker(platform))
}

/// The verdict on a host: reachable exactly if the utility's output shows
/// an answer to at least one echo attempt.
pub open spec fn is_reachable(platform: Platform, output: Seq<u8>) -> bool {
    answered_attempts(platform, output) >= 1
}

/// The end of a line lies between the index it is asked for and the end of
/// the text; no byte of the line is a newline, and the byte at the end of
/// the line, if there is one, is.
pub proof fn lemma_line_end(text: Seq<u8>, from: int)
    requires
        0 <= from <= text.len(),
    ensures
        from <= line_end(text, from) <= text.len(),
        forall|k: int| from <= k < line_end(text, from) ==> text[k] != NEWLINE,
        line_end(text, from) < text.len() ==> text[line_end(text, from)] == NEWLINE,
    decreases text.len() - from,
{
    if from < text.len() && text[from] != NEWLINE {
        lemma_line_end(text, from + 1);
    }
}

/// Tells whether `marker` stands in `text` at index `at`.
fn stands_at(text: &[u8], marker: &[u8], at: usize) -> (found: bool)
    requires
        at + marker.len() <= text.len(),
    ensures
        found == occurs_at(text@, marker@, at as int),
{
    let mut k: usize = 0;
    while k < marker.len()
        invariant
            k <= marker.len(),
            at + marker.len() <= text.len(),
            forall|j: int| 0 <= j < k ==> text@[at + j] == marker@[j],
        decreases marker.len() - k,
    {
        if text[at + k] != marker[k] {
            proof {
                let part: Seq<u8> = text@.subrange(at as int, at + marker.len());
                assert(part[k as int] == text@[at + k]);
            }
            return false;
        }
        k = k + 1;
    }
    assert(text@.subrange(at as int, at + marker.len()) =~= marker@);
    true
}

/// Tells whether `marker` stands somewhere in the part of `text` from index
/// `from` up to, not including, index `end`.
pub fn part_contains(text: &[u8], from: usize, end: usize, marker: &[u8]) -> (found: bool)
    requires
        from <= end <= text.len(),
    ensures
        found == contains_marker(text@.subrange(from as int, end as int), marker@),
{
    let ghost part: Seq<u8> = text@.subrange(from as int, end as int);
    if marker.len() > end - from {
        return false;
    }
    let last: usize = end - marker.len();
    let mut at: usize = from;
    while at <= last
        invariant
            from <= at <= last + 1,
            last + marker.len() == end,
            from <= end <= text.len(),
            part == text@.subrange(from as int, end as int),
            forall|k: int| 0 <= k < at - from ==> !occurs_at(part, marker@, k),
        decreases last + 1 - at,
    {
        let found: bool = stands_at(text, marker, at);
        proof {
            assert(part.subrange(at - from, at - from + marker.len()) =~= text@.subrange(
                at as int,
                at + marker.len(),
            ));
        }
        if found {
            assert(occurs_at(part, marker@, at - from));
            return true;
        }
        if at == last {
            return false;
        }
        at = at + 1;
    }
    false
}

/// The end of the line of `text` that holds index `from`.
pub fn find_line_end(text: &[u8], from: usize) -> (end: usize)
    requires
        from <= text.len(),
    ensures
        end == line_end(text@, from as int),
        from <= end <= text.len(),
{
    let mut end: usize = from;
    while end < text.len() && text[end] != NEWLINE
        invariant
            from <= end <= text.len(),
            line_end(text@, end as int) == line_end(text@, from as int),
        decreases text.len() - end,
    {
        end = end + 1;
    }
    end
}

/// Counts the lines of `text` that hold `marker`.
pub fn count_marked_lines(text: &[u8], marker: &[u8]) -> (count: usize)
    ensures
        count == marked_lines(text@, marker@),
{
    let mut count: usize = 0;
    let mut from: usize = 0;
    while from < text.len()
        invariant
            from <= text.len(),
            count <= from,
            count + marked_lines_from(text@, marker@, from as int) == marked_lines(
                text@,
                marker@,
            ),
        decreases text.len() - from,
    {
        let end: usize = find_line_end(text, from);
        if part_contains(text, from, end, marker) {
            count = count + 1;
        }
        if end < text.len() {
            from = end + 1;
        } else {
            from = end;
        }
    }
    count
}

/// Counts the echo attempts that, by the output of the platform's `ping`,
/// were answered.
pub fn count_answered(platform: Platform, output: &[u8]) -> (count: usize)
    ensures
        count == answered_attempts(platform, output@),
{
    match platform {
        Platform::Windows => count_marked_lines(output, "TTL=".as_bytes()),
        Platform::Linux => count_marked_lines(output, "ttl=".as_bytes()),
    }
}

/// The verdict on a host from what the platform's `ping` printed for it:
/// reachable exactly if at least one echo attempt was answered. An output
/// that shows no answer gives unreachable, be it empty, a row of timeouts
/// or the report of an error.
pub fn verdict(platform: Platform, output: &[u8]) -> (reachable: bool)
    ensures
        reachable == is_reachable(platform, output@),
        reachable == contains_marker(output@, answer_marker(platform)),
{
    proof {
        lemma_reachable_iff_answer_in_output(platform, output@);
    }
    count_answered(platform, output) >= 1
}

/// The answer marker of either platform is four bytes, none of them a newline.
pub proof fn lemma_answer_marker(platform: Platform)
    ensures
        answer_marker(Platform::Windows) == seq![84u8, 84u8, 76u8, 61u8],
        answer_marker(Platform::Linux) == seq![116u8, 116u8, 108u8, 61u8],
        answer_marker(platform).len() == 4,
        forall|i: int| 0 <= i < 4 ==> answer_marker(platform)[i] != NEWLINE,
{
    reveal_strlit("TTL=");
    reveal_strlit("ttl=");
    vstd::utf8::is_ascii_chars_encode_utf8("TTL="@);
    vstd::utf8::is_ascii_chars_encode_utf8("ttl="@);
    assert(answer_marker(Platform::Windows) =~= seq![84u8, 84u8, 76u8, 61u8]);
    assert(answer_marker(Platform::Linux) =~= seq![116u8, 116u8, 108u8, 61u8]);
}

/// A marker that some line holds stands in the text.
pub proof fn lemma_marked_line_is_in_text(text: Seq<u8>, marker: Seq<u8>, from: int)
    requires
        0 <= from,
        marked_lines_from(text, marker, from) >= 1,
    ensures
        contains_marker(text, marker),
    decreases text.len() - from,
{
    if from < text.len() {
        lemma_line_end(text, from);
        let end: int = line_end(text, from);
        let part: Seq<u8> = text.subrange(from, end);
        if contains_marker(part, marker) {
            let at: int = choose|at: int| occurs_at(part, marker, at);
            assert(text.subrange(from + at, from + at + marker.len()) =~= part.subrange(
                at,
                at + marker.len(),
            ));
            assert(occurs_at(text, marker, from + at));
        } else {
            lemma_marked_line_is_in_text(text, marker, end + 1);
        }
    }
}

/// A marker without a newline that stands in the text at or after the
/// start of a line stands in one of the lines from there on.
pub proof fn lemma_marker_in_text_is_in_line(text: Seq<u8>, marker: Seq<u8>, from: int, at: int)
    requires
        0 <= from <= at,
        marker.len() >= 1,
        forall|i: int| 0 <= i < marker.len() ==> marker[i] != NEWLINE,
        occurs_at(text, marker, at),
    ensures
        marked_lines_from(text, marker, from) >= 1,
    decreases text.len() - from,
{
    lemma_line_end(text, from);
    let end: int = line_end(text, from);
    let part: Seq<u8> = text.subrange(from, end);
    if at + marker.len() <= end {
        assert(part.subrange(at - from, at - from + marker.len()) =~= text.subrange(
            at,
            at + marker.len(),
        ));
        assert(occurs_at(part, marker, at - from));
    } else {
        if at <= end {
            assert(text.subrange(at, at + marker.len())[end - at] == text[end]);
        }
        lemma_marker_in_text_is_in_line(text, marker, end + 1, at);
    }
}

/// A host is reachable exactly if the answer marker stands somewhere in the
/// output; an output without any line is an output without an answer.
pub proof fn lemma_reachable_iff_answer_in_output(platform: Platform, output: Seq<u8>)
    ensures
        is_reachable(platform, output) <==> contains_marker(output, answer_marker(platform)),
        output.len() < 4 ==> !is_reachable(platform, output),
{
    let marker: Seq<u8> = answer_marker(platform);
    lemma_answer_marker(platform);
    if is_reachable(platform, output) {
        lemma_marked_line_is_in_text(output, marker, 0);
    }
    if contains_marker(output, marker) {
        let at: int = choose|at: int| occurs_at(output, marker, at);
        lemma_marker_in_text_is_in_line(output, marker, 0, at);
    }
}

} // verus!
