//! The export of a snapshot by `gdu`: which program is run, what its output means, and
//! what is to be done once it ends.

use crate::gdu::{COMPRESSED_SNAPSHOT_EXTENSION, GDU_EXPORT_EXTENSION, SNAPSHOT_FILE_SUFFIX, SnapshotOutputKind, output_kind, raw_snapshot_temp_path, snapshot_output_kind};
use crate::path::{extension, file_name, trim_tail, with_extension};
use crate::text::{copied, joined_pair, last_place, lemma_last_place, trim, trimmed, view_option};
use vstd::prelude::*;
use vstd::string::StringExecFns;
use vstd::utf8::{decode_utf8, valid_utf8};

verus! {

/// What `String::from_utf8_lossy` makes of some bytes.
pub uninterp spec fn lossy(bytes: Seq<u8>) -> Seq<char>;

/// `String::from_utf8_lossy` of the standard library reads bytes as UTF-8, with the
/// replacement character where they are not. What it gives depends on the bytes alone,
/// and is the text itself where they are UTF-8.
#[verifier::external_body]
fn lossy_text(bytes: &[u8]) -> (r: String)
    ensures
        r@ == lossy(bytes@),
        valid_utf8(bytes@) ==> r@ == decode_utf8(bytes@),
{
    String::from_utf8_lossy(bytes).into_owned()
}

/// The programs that can export a snapshot, in the order in which they are tried.
pub open spec fn program_name(candidate: nat) -> Seq<char> {
    if candidate == 0 {
        "gdu-go"@
    } else {
        "gdu"@
    }
}

/// The state of an export.
#[verifier::ext_equal]
pub struct ExportState {
    pub target: Seq<char>,
    pub output: Seq<char>,
    pub compressed: bool,
    pub candidate: nat,
    pub last_progress: Option<Seq<char>>,
}

/// What happens during an export.
pub enum ExportEventView {
    NotFound,
    SpawnFailed,
    Progress { text: Seq<char> },
    ReadFailed,
    WaitFailed,
    Exited { success: bool, status: Seq<char>, stdout: Seq<char>, stderr: Seq<char> },
}

/// What is to be done next.
pub enum ExportStepView {
    Run { program: Seq<char> },
    Report { text: Seq<char> },
    Wait,
    Finish,
    Compress { input: Seq<char>, output: Seq<char> },
    Fail { message: Seq<char> },
}

/// Where the program writes the export.
pub open spec fn export_path(state: ExportState) -> Seq<char> {
    if state.compressed {
        with_extension(state.output, GDU_EXPORT_EXTENSION@)
    } else {
        state.output
    }
}

/// What is said of a program that failed: what it wrote to its error output, or to its
/// output, or the last progress, or its exit status.
pub open spec fn failure_detail(
    stderr: Seq<char>,
    stdout: Seq<char>,
    last_progress: Option<Seq<char>>,
    status: Seq<char>,
) -> Seq<char> {
    if trim(stderr).len() > 0 {
        trim(stderr)
    } else if trim(stdout).len() > 0 {
        trim(stdout)
    } else {
        match last_progress {
            Some(progress) => progress,
            None => "exit status "@ + status,
        }
    }
}

/// What is to be done once something happened, and the state after it.
pub open spec fn export_step(state: ExportState, event: ExportEventView) -> (
    ExportState,
    ExportStepView,
) {
    let program = program_name(state.candidate);
    match event {
        ExportEventView::NotFound => if state.candidate == 0 {
            (ExportState { candidate: 1, ..state }, ExportStepView::Run { program: program_name(1) })
        } else {
            (
                state,
                ExportStepView::Fail {
                    message: "failed to find a gdu executable, tried: gdu-go, gdu"@,
                },
            )
        },
        ExportEventView::SpawnFailed => (
            state,
            ExportStepView::Fail {
                message: "failed to run "@ + program + " to export "@ + state.target,
            },
        ),
        ExportEventView::Progress { text } => if trim(text).len() == 0 {
            (state, ExportStepView::Wait)
        } else {
            (
                ExportState { last_progress: Some(trim(text)), ..state },
                ExportStepView::Report { text: trim(text) },
            )
        },
        ExportEventView::ReadFailed => (
            state,
            ExportStepView::Fail { message: "failed to read progress output from "@ + program },
        ),
        ExportEventView::WaitFailed => (
            state,
            ExportStepView::Fail {
                message: "failed to wait for "@ + program + " while exporting "@ + state.target,
            },
        ),
        ExportEventView::Exited { success, status, stdout, stderr } => if !success {
            (
                state,
                ExportStepView::Fail {
                    message: program + " failed to export "@ + state.target + ": "@
                        + failure_detail(stderr, stdout, state.last_progress, status),
                },
            )
        } else if state.compressed {
            (
                state,
                ExportStepView::Compress { input: export_path(state), output: state.output },
            )
        } else {
            (state, ExportStepView::Finish)
        },
    }
}

/// What happens during an export.
#[derive(Debug)]
pub enum ExportEvent {
    NotFound,
    SpawnFailed,
    Progress { text: String },
    ReadFailed,
    WaitFailed,
    Exited { success: bool, status: String, stdout: String, stderr: String },
}

impl ExportEvent {
    /// What happens.
    pub open spec fn view(&self) -> ExportEventView {
        match *self {
            ExportEvent::NotFound => ExportEventView::NotFound,
            ExportEvent::SpawnFailed => ExportEventView::SpawnFailed,
            ExportEvent::Progress { text } => ExportEventView::Progress { text: text@ },
            ExportEvent::ReadFailed => ExportEventView::ReadFailed,
            ExportEvent::WaitFailed => ExportEventView::WaitFailed,
            ExportEvent::Exited { success, status, stdout, stderr } => ExportEventView::Exited {
                success,
                status: status@,
                stdout: stdout@,
                stderr: stderr@,
            },
        }
    }

    /// The program wrote to its error output.
    pub fn progress(chunk: &[u8]) -> (r: ExportEvent)
        ensures
            r@ == (ExportEventView::Progress { text: lossy(chunk@) }),
    {
        ExportEvent::Progress { text: lossy_text(chunk) }
    }

    /// The program ended, with the status and the output that it left.
    pub fn exited(success: bool, status: String, stdout: &[u8], stderr: &[u8]) -> (r: ExportEvent)
        ensures
            r@ == (ExportEventView::Exited {
                success,
                status: status@,
                stdout: lossy(stdout@),
                stderr: lossy(stderr@),
            }),
    {
        ExportEvent::Exited {
            success,
            status,
            stdout: lossy_text(stdout),
            stderr: lossy_text(stderr),
        }
    }
}

/// What is to be done next.
#[derive(Debug)]
pub enum ExportStep {
    Run { program: String },
    Report { text: String },
    Wait,
    Finish,
    Compress { input: String, output: String },
    Fail { message: String },
}

impl ExportStep {
    /// What is to be done.
    pub open spec fn view(&self) -> ExportStepView {
        match *self {
            ExportStep::Run { program } => ExportStepView::Run { program: program@ },
            ExportStep::Report { text } => ExportStepView::Report { text: text@ },
            ExportStep::Wait => ExportStepView::Wait,
            ExportStep::Finish => ExportStepView::Finish,
            ExportStep::Compress { input, output } => ExportStepView::Compress {
                input: input@,
                output: output@,
            },
            ExportStep::Fail { message } => ExportStepView::Fail { message: message@ },
        }
    }
}

/// An export that is under way.
#[derive(Debug)]
pub struct ExportRun {
    target: String,
    output: String,
    compressed: bool,
    second: bool,
    last_progress: Option<String>,
}

/// The message for an output whose name is not that of a snapshot.
pub open spec fn wrong_output(output: Seq<char>) -> Seq<char> {
    "snapshot output must use either .json or "@ + SNAPSHOT_FILE_SUFFIX@ + ": "@ + output
}

impl ExportRun {
    /// The state of the export.
    pub closed spec fn view(&self) -> ExportState {
        ExportState {
            target: self.target@,
            output: self.output@,
            compressed: self.compressed,
            candidate: if self.second {
                1
            } else {
                0
            },
            last_progress: view_option(self.last_progress),
        }
    }

    /// An export of a directory to a file, or the message for a file whose name is not that
    /// of a snapshot.
    pub fn start(target: &str, output: &str) -> (r: Result<ExportRun, String>)
        ensures
            match r {
                Ok(run) => output_kind(output@) is Some && run@ == (ExportState {
                    target: target@,
                    output: output@,
                    compressed: output_kind(output@) == Some(SnapshotOutputKind::CompressedZstd),
                    candidate: 0,
                    last_progress: None,
                }),
                Err(message) => output_kind(output@) is None && message@ == wrong_output(output@),
            },
    {
        let compressed = match snapshot_output_kind(output) {
            Some(SnapshotOutputKind::CompressedZstd) => true,
            Some(SnapshotOutputKind::PlainJson) => false,
            None => {
                let mut message = copied("snapshot output must use either .json or ");
                message.append(SNAPSHOT_FILE_SUFFIX);
                message.append(": ");
                message.append(output);
                return Err(message);
            },
        };
        Ok(
            ExportRun {
                target: copied(target),
                output: copied(output),
                compressed,
                second: false,
                last_progress: None,
            },
        )
    }

    /// The program that is to be run.
    pub fn program(&self) -> (r: &'static str)
        ensures
            r@ == program_name(self@.candidate),
    {
        if self.second {
            "gdu"
        } else {
            "gdu-go"
        }
    }

    /// Where the program writes the export.
    pub fn export_path(&self) -> (r: String)
        ensures
            r@ == export_path(self@),
    {
        if self.compressed {
            raw_snapshot_temp_path(self.output.as_str())
        } else {
            copied(self.output.as_str())
        }
    }

    /// What is to be done once something happened.
    pub fn step(&mut self, event: ExportEvent) -> (r: ExportStep)
        ensures
            final(self)@ == export_step(old(self)@, event@).0,
            r@ == export_step(old(self)@, event@).1,
    {
        let program = self.program();
        match event {
            ExportEvent::NotFound => {
                if self.second {
                    ExportStep::Fail {
                        message: copied("failed to find a gdu executable, tried: gdu-go, gdu"),
                    }
                } else {
                    self.second = true;
                    ExportStep::Run { program: copied(self.program()) }
                }
            },
            ExportEvent::SpawnFailed => {
                let mut message = copied("failed to run ");
                message.append(program);
                message.append(" to export ");
                message.append(self.target.as_str());
                ExportStep::Fail { message }
            },
            ExportEvent::Progress { text } => {
                let text = trimmed(text.as_str());
                if text.as_str().is_empty() {
                    ExportStep::Wait
                } else {
                    self.last_progress = Some(copied(text.as_str()));
                    ExportStep::Report { text }
                }
            },
            ExportEvent::ReadFailed => ExportStep::Fail {
                message: joined_pair("failed to read progress output from ", program),
            },
            ExportEvent::WaitFailed => {
                let mut message = copied("failed to wait for ");
                message.append(program);
                message.append(" while exporting ");
                message.append(self.target.as_str());
                ExportStep::Fail { message }
            },
            ExportEvent::Exited { success, status, stdout, stderr } => {
                if success {
                    if self.compressed {
                        ExportStep::Compress {
                            input: self.export_path(),
                            output: copied(self.output.as_str()),
                        }
                    } else {
                        ExportStep::Finish
                    }
                } else {
                    let stderr = trimmed(stderr.as_str());
                    let stdout = trimmed(stdout.as_str());
                    let detail = if !stderr.as_str().is_empty() {
                        stderr
                    } else if !stdout.as_str().is_empty() {
                        stdout
                    } else {
                        match &self.last_progress {
                            Some(progress) => copied(progress.as_str()),
                            None => joined_pair("exit status ", status.as_str()),
                        }
                    };
                    let mut message = copied(program);
                    message.append(" failed to export ");
                    message.append(self.target.as_str());
                    message.append(": ");
                    message.append(detail.as_str());
                    ExportStep::Fail { message }
                }
            },
        }
    }
}

/// A compressed snapshot has the extension of one.
pub proof fn law_compressed_output_has_its_extension(output: Seq<char>)
    requires
        output_kind(output) == Some(SnapshotOutputKind::CompressedZstd),
    ensures
        extension(output) == Some(COMPRESSED_SNAPSHOT_EXTENSION@),
{
    reveal_strlit(".json.zst");
    reveal_strlit("zst");
    reveal_strlit("json");
    let suffix = SNAPSHOT_FILE_SUFFIX@;
    let name = file_name(output)->Some_0;
    let n = name.len() as int;
    assert(file_name(output) is Some) by {
        if file_name(output) is None {
            assert(!suffix.is_suffix_of(Seq::<char>::empty()));
        }
    }
    assert(name.subrange(n - 9, n) =~= suffix);
    assert(forall|i: int| 0 <= i < 9 ==> name[n - 9 + i] == suffix[i]) by {
        assert forall|i: int| 0 <= i < 9 implies name[n - 9 + i] == suffix[i] by {
            assert(name.subrange(n - 9, n)[i] == suffix[i]);
        }
    }
    lemma_last_place(name, '.');
    assert(name[n - 4] == suffix[5]);
    assert(name[n - 3] == suffix[6]);
    assert(name[n - 2] == suffix[7]);
    assert(name[n - 1] == suffix[8]);
    assert(last_place(name, '.') == n - 4);
    assert(name.skip(n - 3) =~= "zst"@);
}

/// The export of a compressed snapshot is written beside it, under another name.
pub proof fn law_export_is_not_overwritten(state: ExportState)
    requires
        state.compressed,
        output_kind(state.output) == Some(SnapshotOutputKind::CompressedZstd),
    ensures
        export_path(state) != state.output,
        extension(state.output) != Some(GDU_EXPORT_EXTENSION@),
{
    law_compressed_output_has_its_extension(state.output);
    reveal_strlit("zst");
    reveal_strlit("json");
    let path = export_path(state);
    let name = file_name(state.output)->Some_0;
    let dot = last_place(name, '.');
    let start = last_place(trim_tail(state.output), '/') + 1;
    lemma_last_place(name, '.');
    lemma_last_place(trim_tail(state.output), '/');
    assert(COMPRESSED_SNAPSHOT_EXTENSION@[0] == 'z');
    assert(GDU_EXPORT_EXTENSION@[0] == 'j');
    let ext = name.skip(dot + 1);
    assert(ext == COMPRESSED_SNAPSHOT_EXTENSION@);
    assert(ext.len() == 3);
    assert(ext[2] == 't');
    assert(name.len() == dot + 4);
    assert(name[dot + 3] == ext[2]);
    assert(trim_tail(state.output).skip(start) == name);
    assert(trim_tail(state.output).last() == name[dot + 3]);
    if path == state.output {
        assert(path.last() == 'n');
        assert(trim_tail(path) == path);
    }
}

} // verus!
