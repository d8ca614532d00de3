//! The build runner's logic: classifying diagnostic lines and folding the
//! tagged output lines of a build process into a build result.
//!
//! The process itself runs outside the library. Two workers drain its output
//! and error streams and forward each line, tagged by origin, to one merge
//! point; the caller hands the arrived events to `collect_build_events`,
//! which keeps each stream's lines in order and remembers the hash carried
//! by the last diagnostic line that reports one.

use vstd::prelude::*;
use vstd::string::*;
use crate::chars::{leading_end, trim_exec, trim_spec, trim_start_spec};

verus! {

/// A corrected-hash diagnostic: the line starts, after leading whitespace,
/// with the marker `got:`, and carries the trimmed remainder.
pub open spec fn classify_spec(line: Seq<char>) -> Option<Seq<char>> {
    let t = trim_start_spec(line);
    if t.len() >= 4 && t.take(4) == seq!['g', 'o', 't', ':'] {
        Some(trim_spec(t.skip(4)))
    } else {
        None
    }
}

/// The view of a possibly borrowed candidate hash.
pub open spec fn opt_str_view(o: Option<&str>) -> Option<Seq<char>> {
    match o {
        Some(s) => Some(s@),
        None => None,
    }
}

/// The view of a possibly owned candidate hash.
pub open spec fn opt_string_view(o: Option<String>) -> Option<Seq<char>> {
    match o {
        Some(s) => Some(s@),
        None => None,
    }
}

/// Extract the corrected hash from one diagnostic line: after leading
/// whitespace the line must start with the literal marker `got:`; the
/// remainder, trimmed, is the candidate hash.
pub fn classify<'a>(line: &'a str) -> (r: Option<&'a str>)
    ensures
        opt_str_view(r) == classify_spec(line@),
{
    let n = line.unicode_len();
    let a = leading_end(line);
    let ghost t = trim_start_spec(line@);
    if n - a >= 4 && line.get_char(a) == 'g' && line.get_char(a + 1) == 'o' && line.get_char(
        a + 2,
    ) == 't' && line.get_char(a + 3) == ':' {
        let rest = line.substring_char(a + 4, n);
        let r = trim_exec(rest);
        proof {
            assert(t.take(4) =~= seq!['g', 'o', 't', ':']);
            assert(rest@ =~= t.skip(4));
        }
        Some(r)
    } else {
        proof {
            if t.len() >= 4 && t.take(4) == seq!['g', 'o', 't', ':'] {
                assert(t.take(4)[0] == line@[a as int]);
                assert(t.take(4)[1] == line@[a + 1]);
                assert(t.take(4)[2] == line@[a + 2]);
                assert(t.take(4)[3] == line@[a + 3]);
                assert(false);
            }
        }
        None
    }
}

/// One line of the build process's output, tagged by the stream it came
/// from.
#[derive(Debug)]
pub enum StreamEvent {
    Stdout(String),
    Stderr(String),
}

/// How the build process exited: whether it succeeded, and its exit code
/// where the platform reports one.
#[derive(Clone, Copy, Debug, PartialEq, Eq, Structural)]
pub struct BuildStatus {
    pub success: bool,
    pub code: Option<i32>,
}

/// Result of a build: the exit status, the captured lines of each stream in
/// their original per-stream order, and the last corrected hash reported on
/// the error stream, if any.
#[derive(Debug)]
pub struct NixBuildResult {
    pub status: BuildStatus,
    pub stdout_lines: Vec<String>,
    pub stderr_lines: Vec<String>,
    pub new_hash: Option<String>,
}

/// The output-stream lines among the events, in order.
pub open spec fn stdout_lines_of(evs: Seq<StreamEvent>) -> Seq<Seq<char>>
    decreases evs.len(),
{
    if evs.len() == 0 {
        seq![]
    } else {
        match evs.last() {
            StreamEvent::Stdout(l) => stdout_lines_of(evs.drop_last()).push(l@),
            StreamEvent::Stderr(_) => stdout_lines_of(evs.drop_last()),
        }
    }
}

/// The error-stream lines among the events, in order.
pub open spec fn stderr_lines_of(evs: Seq<StreamEvent>) -> Seq<Seq<char>>
    decreases evs.len(),
{
    if evs.len() == 0 {
        seq![]
    } else {
        match evs.last() {
            StreamEvent::Stderr(l) => stderr_lines_of(evs.drop_last()).push(l@),
            StreamEvent::Stdout(_) => stderr_lines_of(evs.drop_last()),
        }
    }
}

/// The hash carried by the last error-stream line that classifies as a
/// corrected-hash diagnostic, if any: the most recent report wins.
pub open spec fn detected_hash(evs: Seq<StreamEvent>) -> Option<Seq<char>>
    decreases evs.len(),
{
    if evs.len() == 0 {
        None
    } else {
        match evs.last() {
            StreamEvent::Stderr(l) => match classify_spec(l@) {
                Some(h) => Some(h),
                None => detected_hash(evs.drop_last()),
            },
            StreamEvent::Stdout(_) => detected_hash(evs.drop_last()),
        }
    }
}

/// The event is an error-stream line that classifies as a corrected-hash
/// diagnostic.
pub open spec fn is_diagnostic(ev: StreamEvent) -> bool {
    ev matches StreamEvent::Stderr(l) && classify_spec(l@) is Some
}

/// The hash one event reports, if it is an error-stream diagnostic.
pub open spec fn diagnostic_hash(ev: StreamEvent) -> Option<Seq<char>> {
    match ev {
        StreamEvent::Stderr(l) => classify_spec(l@),
        StreamEvent::Stdout(_) => None,
    }
}

/// Law: when a diagnostic stands at position `k` and none follows it, the
/// detected hash is that diagnostic's — the most recent report wins.
pub proof fn lemma_last_diagnostic_wins(evs: Seq<StreamEvent>, k: int)
    requires
        0 <= k < evs.len(),
        is_diagnostic(evs[k]),
        forall|j: int| k < j < evs.len() ==> !is_diagnostic(#[trigger] evs[j]),
    ensures
        detected_hash(evs) == diagnostic_hash(evs[k]),
    decreases evs.len(),
{
    if k == evs.len() - 1 {
        assert(evs.last() == evs[k]);
        match evs.last() {
            StreamEvent::Stderr(l) => {
                assert(classify_spec(l@) is Some);
            },
            StreamEvent::Stdout(_) => {
                assert(false);
            },
        }
    } else {
        assert(evs.last() == evs[evs.len() - 1]);
        assert(!is_diagnostic(evs.last()));
        let pre = evs.drop_last();
        assert(pre[k] == evs[k]);
        assert forall|j: int| k < j < pre.len() implies !is_diagnostic(#[trigger] pre[j]) by {
            assert(pre[j] == evs[j]);
        }
        lemma_last_diagnostic_wins(pre, k);
        assert(detected_hash(evs) == detected_hash(pre));
    }
}

/// Law: a hash is detected exactly when at least one error-stream line
/// classifies as a corrected-hash diagnostic.
pub proof fn lemma_detected_iff_diagnostic(evs: Seq<StreamEvent>)
    ensures
        detected_hash(evs) is Some <==> exists|i: int|
            0 <= i < evs.len() && is_diagnostic(#[trigger] evs[i]),
    decreases evs.len(),
{
    if evs.len() > 0 {
        let pre = evs.drop_last();
        lemma_detected_iff_diagnostic(pre);
        assert(forall|i: int| 0 <= i < pre.len() ==> #[trigger] pre[i] == evs[i]);
        if is_diagnostic(evs.last()) {
            assert(evs[evs.len() - 1] == evs.last());
        } else {
            assert(detected_hash(evs) == detected_hash(pre));
            if exists|i: int| 0 <= i < evs.len() && is_diagnostic(#[trigger] evs[i]) {
                let i = choose|i: int| 0 <= i < evs.len() && is_diagnostic(#[trigger] evs[i]);
                assert(i < evs.len() - 1);
                assert(pre[i] == evs[i]);
                assert(detected_hash(pre) is Some);
            }
        }
    }
}

/// Fold the arrived events into the build result: each stream's lines in
/// arrival order, and the hash of the last corrected-hash diagnostic seen on
/// the error stream.
pub fn collect_build_events(events: Vec<StreamEvent>, status: BuildStatus) -> (r: NixBuildResult)
    ensures
        r.status == status,
        r.stdout_lines@.map_values(|l: String| l@) == stdout_lines_of(events@),
        r.stderr_lines@.map_values(|l: String| l@) == stderr_lines_of(events@),
        opt_string_view(r.new_hash) == detected_hash(events@),
{
    let mut stdout_lines: Vec<String> = Vec::new();
    let mut stderr_lines: Vec<String> = Vec::new();
    let mut new_hash: Option<String> = None;
    let mut i: usize = 0;
    proof {
        assert(events@.take(0) =~= Seq::<StreamEvent>::empty());
        assert(stdout_lines@.map_values(|l: String| l@) =~= Seq::<Seq<char>>::empty());
        assert(stderr_lines@.map_values(|l: String| l@) =~= Seq::<Seq<char>>::empty());
    }
    while i < events.len()
        invariant
            0 <= i <= events.len(),
            stdout_lines@.map_values(|l: String| l@) == stdout_lines_of(events@.take(i as int)),
            stderr_lines@.map_values(|l: String| l@) == stderr_lines_of(events@.take(i as int)),
            opt_string_view(new_hash) == detected_hash(events@.take(i as int)),
        decreases events.len() - i,
    {
        let ghost outs = stdout_lines@.map_values(|l: String| l@);
        let ghost errs = stderr_lines@.map_values(|l: String| l@);
        proof {
            assert(events@.take(i as int + 1).drop_last() =~= events@.take(i as int));
            assert(events@.take(i as int + 1).last() == events@[i as int]);
        }
        match &events[i] {
            StreamEvent::Stdout(line) => {
                stdout_lines.push(line.clone());
                proof {
                    assert(stdout_lines@.map_values(|l: String| l@) =~= outs.push(line@));
                }
            },
            StreamEvent::Stderr(line) => {
                match classify(line.as_str()) {
                    Some(got) => {
                        new_hash = Some(got.to_owned());
                    },
                    None => {},
                }
                stderr_lines.push(line.clone());
                proof {
                    assert(stderr_lines@.map_values(|l: String| l@) =~= errs.push(line@));
                }
            },
        }
        i = i + 1;
    }
    proof {
        assert(events@.take(events@.len() as int) =~= events@);
    }
    NixBuildResult { status, stdout_lines, stderr_lines, new_hash }
}

} // verus!
