//! One transcoding job: the command that runs the encoder on a source file,
//! what each line of its output does to the progress table, and what becomes
//! of the source file once the encoder has exited.
use vstd::prelude::*;
use vstd::string::*;
use crate::marker::{line_total, line_position, parse_line, chars_of};
use crate::registry::{Registry, upserted, advanced};

verus! {

/// A path separator, of either kind.
pub open spec fn is_separator(c: char) -> bool {
    c == '/' || c == '\\'
}

/// The file name of a path: what follows its last separator.
pub open spec fn base_name(path: Seq<char>) -> Seq<char>
    decreases path.len(),
{
    if path.len() == 0 || is_separator(path.last()) {
        Seq::empty()
    } else {
        base_name(path.drop_last()).push(path.last())
    }
}

/// The file name of `path`, which labels its job in the progress table.
pub fn base_name_of(path: &str) -> (r: String)
    ensures
        r@ == base_name(path@),
{
    let chars = chars_of(path);
    let n = chars.len();
    let mut j: usize = n;
    assert(path@.subrange(n as int, n as int) =~= Seq::<char>::empty());
    assert(path@.subrange(0, n as int) =~= path@);
    while j > 0 && !(chars[j - 1] == '/' || chars[j - 1] == '\\')
        invariant
            j <= n == path@.len(),
            chars@ == path@,
            base_name(path@) == base_name(path@.subrange(0, j as int)) + path@.subrange(
                j as int,
                n as int,
            ),
        decreases j,
    {
        let ghost pre = path@.subrange(0, j as int);
        assert(pre.drop_last() =~= path@.subrange(0, j - 1));
        assert(path@.subrange(j - 1, n as int) =~= seq![pre.last()] + path@.subrange(
            j as int,
            n as int,
        ));
        assert(base_name(pre) == base_name(pre.drop_last()).push(pre.last()));
        assert(base_name(pre.drop_last()).push(pre.last()) + path@.subrange(j as int, n as int)
            =~= base_name(pre.drop_last()) + path@.subrange(j - 1, n as int));
        j = j - 1;
    }
    assert(base_name(path@.subrange(0, j as int)) =~= Seq::<char>::empty());
    assert(base_name(path@) =~= path@.subrange(j as int, n as int));
    String::from_str(path.substring_char(j, n))
}

/// What becomes of a source file once its encoder has exited.
#[derive(PartialEq, Eq, Structural, Debug, Clone, Copy)]
pub enum Outcome {
    /// The encoder succeeded: the source is removed.
    DeleteSource,
    /// The encoder failed: the source stays, to be tried again on a later scan.
    KeepSource,
}

/// The progress table and the job's "total seen" flag after one line of the
/// encoder's output. A position counts only once a total has been seen, on
/// this line or an earlier one.
pub open spec fn after_line(
    v: Seq<(Seq<char>, u64, u64)>,
    label: Seq<char>,
    seen: bool,
    line: Seq<char>,
) -> (Seq<(Seq<char>, u64, u64)>, bool) {
    let v1 = match line_total(line) {
        Some(t) => upserted(v, label, t),
        None => v,
    };
    let seen1 = seen || line_total(line) is Some;
    match line_position(line) {
        Some(c) => if seen1 {
            (advanced(v1, label, c), seen1)
        } else {
            (v1, seen1)
        },
        None => (v1, seen1),
    }
}

/// The shell script that runs the encoder on `source`, writing `destination`
/// (overwritten where it exists) at verbose level, so that the duration and
/// position markers appear on its merged output.
pub open spec fn encoder_script(source: Seq<char>, destination: Seq<char>) -> Seq<char> {
    "ffmpeg -i "@ + source
        + " -loglevel debug -vcodec libx265 -crf 28 -tune zerolatency -preset medium "@
        + destination + " -y 2>&1"@
}

/// What caps the encoder's CPU share outside Windows.
pub open spec fn throttle_prefix() -> Seq<char> {
    "cpulimit -l 50 -- "@
}

/// Program and arguments of the process that runs a job: the platform's shell
/// with the encoder script, throttled where the platform is not Windows.
pub open spec fn invocation_of(source: Seq<char>, destination: Seq<char>, windows: bool) -> Seq<
    Seq<char>,
> {
    if windows {
        seq!["cmd"@, "/C"@, encoder_script(source, destination)]
    } else {
        seq!["sh"@, "-c"@, throttle_prefix() + encoder_script(source, destination)]
    }
}

/// One source file on its way through the encoder.
pub struct Job {
    pub source: String,
    pub destination: String,
    /// The source's file name, under which the job's progress is kept.
    pub label: String,
    /// Whether a total duration has been read from the encoder yet.
    pub total_seen: bool,
}

impl Job {
    /// A job that encodes `source` into `destination`; nothing read yet.
    pub fn new(source: String, destination: String) -> (r: Job)
        ensures
            r.source@ == source@,
            r.destination@ == destination@,
            r.label@ == base_name(source@),
            !r.total_seen,
    {
        let label = base_name_of(source.as_str());
        Job { source, destination, label, total_seen: false }
    }

    /// Takes one line of the encoder's output: a total is recorded under the
    /// job's label (the first one staying), and a position advances the
    /// job's entry once a total has been seen. Other lines change nothing.
    pub fn on_line(&mut self, registry: &mut Registry, line: &str)
        requires
            old(registry).wf(),
        ensures
            final(registry).wf(),
            (final(registry)@, final(self).total_seen) == after_line(
                old(registry)@,
                old(self).label@,
                old(self).total_seen,
                line@,
            ),
            final(self).source == old(self).source,
            final(self).destination == old(self).destination,
            final(self).label == old(self).label,
    {
        let m = parse_line(line);
        if let Some(t) = m.total {
            registry.upsert_total(&self.label, t);
            self.total_seen = true;
        }
        if let Some(c) = m.position {
            if self.total_seen {
                registry.advance(&self.label, c);
            }
        }
    }

    /// Program and arguments of the process that runs this job.
    pub fn invocation(&self, windows: bool) -> (r: Vec<String>)
        ensures
            r@.map_values(|a: String| a@) == invocation_of(
                self.source@,
                self.destination@,
                windows,
            ),
    {
        let mut script = String::from_str("ffmpeg -i ");
        script.append(self.source.as_str());
        script.append(" -loglevel debug -vcodec libx265 -crf 28 -tune zerolatency -preset medium ");
        script.append(self.destination.as_str());
        script.append(" -y 2>&1");
        let r = if windows {
            vec![String::from_str("cmd"), String::from_str("/C"), script]
        } else {
            let mut throttled = String::from_str("cpulimit -l 50 -- ");
            throttled.append(script.as_str());
            vec![String::from_str("sh"), String::from_str("-c"), throttled]
        };
        assert(r@.map_values(|a: String| a@) =~= invocation_of(
            self.source@,
            self.destination@,
            windows,
        ));
        r
    }

    /// The source is removed exactly when the encoder exited with success.
    pub fn on_exit(&self, success: bool) -> (r: Outcome)
        ensures
            r == (if success {
                Outcome::DeleteSource
            } else {
                Outcome::KeepSource
            }),
    {
        if success {
            Outcome::DeleteSource
        } else {
            Outcome::KeepSource
        }
    }
}

/// A position read before any total leaves the progress table as it was:
/// no entry is created and none moves.
pub proof fn lemma_position_before_total(
    v: Seq<(Seq<char>, u64, u64)>,
    label: Seq<char>,
    line: Seq<char>,
)
    requires
        line_total(line) is None,
    ensures
        after_line(v, label, false, line) == (v, false),
{
}

} // verus!
