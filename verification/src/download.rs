//! The downloader: what it is started with, and what is said when it fails.

use vstd::prelude::*;

use crate::external;
use crate::layout;
use crate::text;

verus! {

/// How many processes the downloader is to use on a machine with that many processors.
pub open spec fn subprocesses(cpus: nat) -> nat {
    if cpus < 2 {
        2
    } else {
        cpus
    }
}

/// What the downloader is started with to fetch the dump of the given date.
pub open spec fn arguments(date: Seq<char>, cpus: nat) -> Seq<Seq<char>> {
    seq![
        layout::FAST_DIR@,
        date,
        text::decimal(subprocesses(cpus)),
        layout::PIPE_DIR@,
    ]
}

/// The downloader uses a process for every processor, but never fewer than two.
pub proof fn law_a_process_for_every_processor(cpus: nat)
    ensures
        subprocesses(cpus) >= 2,
        subprocesses(cpus) >= cpus,
        subprocesses(cpus) == 2 || subprocesses(cpus) == cpus,
{
}

/// The downloader is told where the indices are kept, which dump to fetch, with how many processes,
/// and where to open its pipes, in this order.
pub proof fn law_downloader_is_told(date: Seq<char>, cpus: nat)
    ensures
        arguments(date, cpus).len() == 4,
        arguments(date, cpus)[0] == "/fast_dir"@,
        arguments(date, cpus)[1] == date,
        arguments(date, cpus)[2] == text::decimal(
            (if cpus > 2 {
                cpus
            } else {
                2nat
            }),
        ),
        arguments(date, cpus)[3] == "/pipes"@,
{
}

/// What the downloader is started with on a machine with that many processors.
pub fn downloader_arguments_for(date: &str, cpus: usize) -> (r: Vec<String>)
    ensures
        text::views(r@) == arguments(date@, cpus as nat),
        r@.len() == 4,
        r@[0]@ == "/fast_dir"@,
        r@[1]@ == date@,
        r@[2]@ == text::decimal(
            (if cpus > 2 {
                cpus as nat
            } else {
                2nat
            }),
        ),
        r@[3]@ == "/pipes"@,
{
    let num_subprocesses: u64 = if cpus < 2 {
        2
    } else {
        cpus as u64
    };
    let mut number = String::new();
    text::push_decimal(&mut number, num_subprocesses);
    let mut r: Vec<String> = Vec::new();
    r.push(layout::FAST_DIR.to_string());
    r.push(date.to_string());
    r.push(number);
    r.push(layout::PIPE_DIR.to_string());
    assert(number@ =~= text::decimal(subprocesses(cpus as nat)));
    assert(text::views(r@) =~= arguments(date@, cpus as nat));
    proof {
        law_downloader_is_told(date@, cpus as nat);
    }
    r
}

/// What the downloader is started with on this machine.
pub fn downloader_arguments(date: &str) -> (r: Vec<String>)
    ensures
        exists|cpus: nat| cpus >= 1 && text::views(r@) == #[trigger] arguments(date@, cpus),
        r@.len() == 4,
        r@[0]@ == "/fast_dir"@,
        r@[1]@ == date@,
        exists|processes: nat| processes >= 2 && r@[2]@ == #[trigger] text::decimal(processes),
        r@[3]@ == "/pipes"@,
{
    let cpus = external::cpu_count();
    downloader_arguments_for(date, cpus)
}

/// What is said of the way in which the downloader ended. `None` where it succeeded.
pub open spec fn complaint(success: bool, code: Option<i32>) -> Option<Seq<char>> {
    if success {
        None
    } else {
        match code {
            Some(n) => Some("loader failed. Exit code: "@ + text::signed_decimal(n as int)),
            None => Some("loader failed. No exit code collected."@),
        }
    }
}

/// What is said of the way in which the downloader ended. `None` where it succeeded.
pub fn loader_failure(success: bool, code: Option<i32>) -> (r: Option<String>)
    ensures
        match complaint(success, code) {
            Some(message) => r is Some && r->0@ == message,
            None => r is None,
        },
        r is None <==> success,
        !success && code is Some ==> r->0@ == "loader failed. Exit code: "@ + text::signed_decimal(
            code->0 as int,
        ),
        !success && code is None ==> r->0@ == "loader failed. No exit code collected."@,
{
    if success {
        return None;
    }
    match code {
        Some(n) => {
            let mut message = "loader failed. Exit code: ".to_string();
            text::push_signed_decimal(&mut message, n);
            Some(message)
        },
        None => Some("loader failed. No exit code collected.".to_string()),
    }
}

/// There is a complaint exactly where the downloader did not succeed. It holds the exit code, if
/// there was one.
pub proof fn law_failures_are_told_with_their_code(success: bool, code: i32)
    ensures
        complaint(success, Some(code)) is None <==> success,
        complaint(success, None) is None <==> success,
        !success ==> complaint(success, Some(code))->0 == "loader failed. Exit code: "@
            + text::signed_decimal(code as int),
        !success ==> complaint(success, None)->0 == "loader failed. No exit code collected."@,
{
}

} // verus!
