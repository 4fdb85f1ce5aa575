//! The framed shell executor: the decision core of one command execution.
//!
//! The executor owns the accumulated PTY byte stream and every decision the
//! read loop takes: marker detection, the drain phase after first contact
//! with the marker, elevation-prompt handling, idle cutoff, and the final
//! extraction of cleaned output. The caller performs the reads, writes,
//! sleeps and clock checks, feeds each outcome in as an event, and obeys
//! the returned action.

use vstd::prelude::*;

use crate::error::SshError;
use crate::extract::{command_line_bytes, extract_bytes_spec, extract_output, full_command_spec};
use crate::marker::{
    ascii_bytes, bytes_to_string_lossy, generate_marker_bytes, is_marker_bytes, lossy_of,
};
use crate::output::CommandOutput;
use crate::ansi::clean_spec;
use crate::extract::clean_capture;
use crate::text::{
    find_first, first_occurrence, lemma_first_occurrence_some, occurs, occurs_at, trim_end_spec,
};
use vstd::string::StringSliceAdditionalSpecFns;
use vstd::utf8::{decode_utf8, valid_utf8};

verus! {

/// The literal whose presence marks a privileged-escalation prompt.
pub open spec fn sudo_prompt_bytes() -> Seq<u8> {
    seq![
        91u8,
        115u8,
        117u8,
        100u8,
        111u8,
        93u8,
        32u8,
        112u8,
        97u8,
        115u8,
        115u8,
        119u8,
        111u8,
        114u8,
        100u8,
    ]
}

/// The second prompt literal: `Password:`.
pub open spec fn password_prompt_bytes() -> Seq<u8> {
    seq![80u8, 97u8, 115u8, 115u8, 119u8, 111u8, 114u8, 100u8, 58u8]
}

/// The stream shows an elevation prompt.
pub open spec fn has_prompt(s: Seq<u8>) -> bool {
    occurs(s, sudo_prompt_bytes()) || occurs(s, password_prompt_bytes())
}

fn sudo_prompt_vec() -> (r: Vec<u8>)
    ensures
        r@ == sudo_prompt_bytes(),
{
    let mut v: Vec<u8> = Vec::new();
    v.push(91);
    v.push(115);
    v.push(117);
    v.push(100);
    v.push(111);
    v.push(93);
    v.push(32);
    v.push(112);
    v.push(97);
    v.push(115);
    v.push(115);
    v.push(119);
    v.push(111);
    v.push(114);
    v.push(100);
    proof {
        assert(v@ =~= sudo_prompt_bytes());
    }
    v
}

fn password_prompt_vec() -> (r: Vec<u8>)
    ensures
        r@ == password_prompt_bytes(),
{
    let mut v: Vec<u8> = Vec::new();
    v.push(80);
    v.push(97);
    v.push(115);
    v.push(115);
    v.push(119);
    v.push(111);
    v.push(114);
    v.push(100);
    v.push(58);
    proof {
        assert(v@ =~= password_prompt_bytes());
    }
    v
}

/// Whether the buffer shows an elevation prompt.
pub fn contains_prompt(s: &[u8]) -> (r: bool)
    ensures
        r == has_prompt(s@),
{
    let sudo = sudo_prompt_vec();
    let pw = password_prompt_vec();
    proof {
        lemma_first_occurrence_some(s@, sudo@, 0);
        lemma_first_occurrence_some(s@, pw@, 0);
    }
    let a = find_first(s, sudo.as_slice());
    let b = find_first(s, pw.as_slice());
    a.is_some() || b.is_some()
}

/// What the caller must do next with the transport.
pub enum ExecAction {
    /// Keep the main read loop going: select the next read against the tick.
    Continue,
    /// Write these bytes (an elevation password and a newline) to the
    /// channel, flush, and keep reading.
    SendPassword(Vec<u8>),
    /// Enter or stay in the drain phase: one more bounded read.
    Drain,
    /// The command is complete; this is its output.
    Finish(CommandOutput),
    /// The command failed; stop reading.
    Fail(SshError),
}

enum ExecPhase {
    Main,
    Drain,
    Done,
}

/// One command execution in progress.
pub struct Executor {
    command: Vec<u8>,
    marker: Vec<u8>,
    password: Option<Vec<u8>>,
    buf: Vec<u8>,
    prompt_sent: bool,
    no_data_count: u32,
    drain_attempts: u32,
    phase: ExecPhase,
}

impl Executor {
    /// Everything read from the PTY so far, in arrival order.
    pub closed spec fn captured(self) -> Seq<u8> {
        self.buf@
    }

    /// The command bytes this execution runs.
    pub closed spec fn command_view(self) -> Seq<u8> {
        self.command@
    }

    /// This execution's completion marker.
    pub closed spec fn marker_view(self) -> Seq<u8> {
        self.marker@
    }

    /// The elevation password available to answer a prompt, if any.
    pub closed spec fn password_view(self) -> Option<Seq<u8>> {
        match self.password {
            Some(p) => Some(p@),
            None => None,
        }
    }

    /// Whether the prompt has already been answered during this execution.
    pub closed spec fn prompt_answered(self) -> bool {
        self.prompt_sent
    }

    /// Consecutive empty reads in the main loop.
    pub closed spec fn no_data_runs(self) -> u32 {
        self.no_data_count
    }

    /// Consecutive fruitless reads in the drain phase.
    pub closed spec fn drain_failures(self) -> u32 {
        self.drain_attempts
    }

    /// In the main read loop.
    pub closed spec fn in_main(self) -> bool {
        self.phase is Main
    }

    /// In the drain phase after first marker contact.
    pub closed spec fn in_drain(self) -> bool {
        self.phase is Drain
    }

    /// Execution over, output or error already delivered.
    pub closed spec fn finished(self) -> bool {
        self.phase is Done
    }

    /// The marker is framed and non-empty.
    pub closed spec fn wf(self) -> bool {
        self.marker@.len() >= 1
    }

    /// Begin a command execution: generate the marker, remember the
    /// password, start with an empty capture.
    pub fn new(command: &str, sudo_password: Option<&str>) -> (r: Executor)
        ensures
            r.wf(),
            r.in_main(),
            r.captured() == Seq::<u8>::empty(),
            r.command_view() == command.spec_bytes(),
            is_marker_bytes(r.marker_view()),
            ascii_bytes(r.marker_view()),
            r.password_view() == match sudo_password {
                Some(p) => Some(p.spec_bytes()),
                None => None::<Seq<u8>>,
            },
            !r.prompt_answered(),
            r.no_data_runs() == 0,
    {
        let marker = generate_marker_bytes();
        let password = match sudo_password {
            Some(p) => Some(p.as_bytes_vec()),
            None => None,
        };
        Executor {
            command: command.as_bytes_vec(),
            marker,
            password,
            buf: Vec::new(),
            prompt_sent: false,
            no_data_count: 0,
            drain_attempts: 0,
            phase: ExecPhase::Main,
        }
    }

    /// The framed line the caller writes to the shell:
    /// `<command>; echo <marker>\n`.
    pub fn command_line(&self) -> (r: Vec<u8>)
        ensures
            r@ == full_command_spec(self.command_view(), self.marker_view()) + seq![10u8],
    {
        command_line_bytes(self.command.as_slice(), self.marker.as_slice())
    }

    /// Extraction attempt after the drain phase: with an on-own-line marker
    /// the command is done; without one the main loop resumes.
    fn finalize(&mut self) -> (r: ExecAction)
        requires
            old(self).wf(),
        ensures
            final(self).wf(),
            final(self).captured() == old(self).captured(),
            final(self).command_view() == old(self).command_view(),
            final(self).marker_view() == old(self).marker_view(),
            final(self).password_view() == old(self).password_view(),
            final(self).prompt_answered() == old(self).prompt_answered(),
            final(self).no_data_runs() == old(self).no_data_runs(),
            match extract_bytes_spec(
                old(self).captured(),
                old(self).command_view(),
                old(self).marker_view(),
            ) {
                Some(v) => final(self).finished() && (r matches ExecAction::Finish(o) && o.stdout@
                    == lossy_of(v) && (valid_utf8(v) ==> o.stdout@ == decode_utf8(v)) && o.stderr@
                    == Seq::<char>::empty()),
                None => final(self).in_main() && r is Continue,
            },
    {
        match extract_output(&self.buf, self.command.as_slice(), self.marker.as_slice()) {
            Some(v) => {
                let stdout = bytes_to_string_lossy(&v);
                self.phase = ExecPhase::Done;
                ExecAction::Finish(CommandOutput { stdout, stderr: String::new() })
            },
            None => {
                self.phase = ExecPhase::Main;
                ExecAction::Continue
            },
        }
    }

    /// The command was cut off without its marker (the remote side went
    /// quiet or closed the channel): the whole capture, cleaned, is the
    /// output.
    fn finish_without_marker(&mut self) -> (r: ExecAction)
        requires
            old(self).wf(),
        ensures
            final(self).wf(),
            final(self).captured() == old(self).captured(),
            final(self).command_view() == old(self).command_view(),
            final(self).marker_view() == old(self).marker_view(),
            final(self).password_view() == old(self).password_view(),
            final(self).prompt_answered() == old(self).prompt_answered(),
            final(self).no_data_runs() == old(self).no_data_runs(),
            final(self).finished(),
            ({
                let v = trim_end_spec(clean_spec(old(self).captured()));
                r matches ExecAction::Finish(o) && o.stdout@ == lossy_of(v) && (valid_utf8(v)
                    ==> o.stdout@ == decode_utf8(v)) && o.stderr@ == Seq::<char>::empty()
            }),
    {
        let v = clean_capture(&self.buf);
        let stdout = bytes_to_string_lossy(&v);
        self.phase = ExecPhase::Done;
        ExecAction::Finish(CommandOutput { stdout, stderr: String::new() })
    }

    /// A read delivered `chunk` in the main loop.
    pub fn on_data(&mut self, chunk: &[u8]) -> (r: ExecAction)
        requires
            old(self).wf(),
            old(self).in_main(),
        ensures
            final(self).wf(),
            final(self).captured() == old(self).captured() + chunk@,
            final(self).command_view() == old(self).command_view(),
            final(self).marker_view() == old(self).marker_view(),
            final(self).password_view() == old(self).password_view(),
            final(self).no_data_runs() == 0,
            occurs(old(self).captured() + chunk@, old(self).marker_view())
                ==> final(self).in_drain() && final(self).drain_failures() == 0 && r is Drain
                && final(self).prompt_answered() == old(self).prompt_answered(),
            (!occurs(old(self).captured() + chunk@, old(self).marker_view())
                && has_prompt(old(self).captured() + chunk@) && !old(self).prompt_answered()
                && old(self).password_view() is Some)
                ==> (r matches ExecAction::SendPassword(p) && p@ == old(self).password_view()->Some_0
                    + seq![10u8])
                && final(self).prompt_answered() && final(self).in_main(),
            (!occurs(old(self).captured() + chunk@, old(self).marker_view())
                && has_prompt(old(self).captured() + chunk@) && !old(self).prompt_answered()
                && old(self).password_view() is None)
                ==> final(self).finished() && r == ExecAction::Fail(SshError::PromptUnanswered),
            (!occurs(old(self).captured() + chunk@, old(self).marker_view())
                && !(has_prompt(old(self).captured() + chunk@) && !old(self).prompt_answered()))
                ==> final(self).in_main() && r is Continue
                && final(self).prompt_answered() == old(self).prompt_answered(),
    {
        self.buf.extend_from_slice(chunk);
        self.no_data_count = 0;
        let found = find_first(self.buf.as_slice(), self.marker.as_slice());
        proof {
            assert(self.buf@ =~= old(self).captured() + chunk@);
            lemma_first_occurrence_some(self.buf@, self.marker@, 0);
            if found is Some {
                assert(occurs(old(self).captured() + chunk@, old(self).marker_view()));
            } else {
                assert forall|k: int|
                    !occurs_at(old(self).captured() + chunk@, old(self).marker_view(), k) by {
                    if k >= 0 {
                        assert(!occurs_at(self.buf@, self.marker@, k));
                    }
                }
                assert(!occurs(old(self).captured() + chunk@, old(self).marker_view()));
            }
        }
        if found.is_some() {
            self.phase = ExecPhase::Drain;
            self.drain_attempts = 0;
            return ExecAction::Drain;
        }
        let prompted = contains_prompt(self.buf.as_slice());
        proof {
            assert(prompted == has_prompt(old(self).captured() + chunk@));
        }
        if !self.prompt_sent && prompted {
            match &self.password {
                Some(pw) => {
                    let mut reply: Vec<u8> = Vec::new();
                    reply.extend_from_slice(pw.as_slice());
                    reply.push(10);
                    self.prompt_sent = true;
                    return ExecAction::SendPassword(reply);
                },
                None => {
                    self.phase = ExecPhase::Done;
                    return ExecAction::Fail(SshError::PromptUnanswered);
                },
            }
        }
        ExecAction::Continue
    }

    /// A read in the main loop returned no bytes; `idle` says whether the
    /// last successful read is older than the idle cutoff.
    pub fn on_no_data(&mut self, idle: bool) -> (r: ExecAction)
        requires
            old(self).wf(),
            old(self).in_main(),
        ensures
            final(self).wf(),
            final(self).captured() == old(self).captured(),
            final(self).command_view() == old(self).command_view(),
            final(self).marker_view() == old(self).marker_view(),
            final(self).no_data_runs() == if old(self).no_data_runs() < u32::MAX {
                (old(self).no_data_runs() + 1) as u32
            } else {
                u32::MAX
            },
            if final(self).no_data_runs() > 10 && idle {
                final(self).finished() && ({
                    let v = trim_end_spec(clean_spec(old(self).captured()));
                    r matches ExecAction::Finish(o) && o.stdout@ == lossy_of(v) && (valid_utf8(v)
                        ==> o.stdout@ == decode_utf8(v)) && o.stderr@ == Seq::<char>::empty()
                })
            } else {
                final(self).in_main() && r is Continue
            },
    {
        if self.no_data_count < u32::MAX {
            self.no_data_count = self.no_data_count + 1;
        }
        if self.no_data_count > 10 && idle {
            self.finish_without_marker()
        } else {
            ExecAction::Continue
        }
    }

    /// The 100 ms tick won the select; `idle` says whether the last
    /// successful read is older than the idle cutoff.
    pub fn on_tick(&mut self, idle: bool) -> (r: ExecAction)
        requires
            old(self).wf(),
            old(self).in_main(),
        ensures
            final(self).wf(),
            final(self).captured() == old(self).captured(),
            final(self).command_view() == old(self).command_view(),
            final(self).marker_view() == old(self).marker_view(),
            final(self).no_data_runs() == old(self).no_data_runs(),
            if idle && old(self).no_data_runs() > 5 {
                final(self).finished() && ({
                    let v = trim_end_spec(clean_spec(old(self).captured()));
                    r matches ExecAction::Finish(o) && o.stdout@ == lossy_of(v) && (valid_utf8(v)
                        ==> o.stdout@ == decode_utf8(v)) && o.stderr@ == Seq::<char>::empty()
                })
            } else {
                final(self).in_main() && r is Continue
            },
    {
        if idle && self.no_data_count > 5 {
            self.finish_without_marker()
        } else {
            ExecAction::Continue
        }
    }

    /// A read in the main loop failed; the caller pauses briefly and goes
    /// on.
    pub fn on_read_error(&mut self) -> (r: ExecAction)
        requires
            old(self).wf(),
            old(self).in_main(),
        ensures
            *final(self) == *old(self),
            r is Continue,
    {
        ExecAction::Continue
    }

    /// The per-command deadline elapsed. Accumulated output is discarded:
    /// the command fails as a whole.
    pub fn on_deadline(&mut self) -> (r: ExecAction)
        requires
            old(self).wf(),
        ensures
            final(self).wf(),
            final(self).finished(),
            r == ExecAction::Fail(SshError::Timeout),
    {
        self.phase = ExecPhase::Done;
        ExecAction::Fail(SshError::Timeout)
    }

    /// A bounded read in the drain phase delivered `chunk`.
    pub fn on_drain_data(&mut self, chunk: &[u8]) -> (r: ExecAction)
        requires
            old(self).wf(),
            old(self).in_drain(),
        ensures
            final(self).wf(),
            final(self).captured() == old(self).captured() + chunk@,
            final(self).command_view() == old(self).command_view(),
            final(self).marker_view() == old(self).marker_view(),
            final(self).prompt_answered() == old(self).prompt_answered(),
            if occurs(chunk@, old(self).marker_view()) {
                match extract_bytes_spec(
                    old(self).captured() + chunk@,
                    old(self).command_view(),
                    old(self).marker_view(),
                ) {
                    Some(v) => final(self).finished() && (r matches ExecAction::Finish(o)
                        && o.stdout@ == lossy_of(v) && (valid_utf8(v) ==> o.stdout@ == decode_utf8(
                        v,
                    )) && o.stderr@ == Seq::<char>::empty()),
                    None => final(self).in_main() && r is Continue,
                }
            } else {
                final(self).in_drain() && final(self).drain_failures() == 0 && r is Drain
            },
    {
        self.buf.extend_from_slice(chunk);
        self.drain_attempts = 0;
        let found = find_first(chunk, self.marker.as_slice());
        proof {
            assert(self.buf@ =~= old(self).captured() + chunk@);
            lemma_first_occurrence_some(chunk@, self.marker@, 0);
            if found is Some {
                assert(occurs(chunk@, old(self).marker_view()));
            } else {
                assert forall|k: int| !occurs_at(chunk@, old(self).marker_view(), k) by {
                    if k >= 0 {
                        assert(!occurs_at(chunk@, self.marker@, k));
                    }
                }
                assert(!occurs(chunk@, old(self).marker_view()));
            }
        }
        if found.is_some() {
            self.finalize()
        } else {
            ExecAction::Drain
        }
    }

    /// A bounded read in the drain phase returned no bytes.
    pub fn on_drain_no_data(&mut self) -> (r: ExecAction)
        requires
            old(self).wf(),
            old(self).in_drain(),
        ensures
            final(self).wf(),
            final(self).captured() == old(self).captured(),
            final(self).command_view() == old(self).command_view(),
            final(self).marker_view() == old(self).marker_view(),
            if old(self).drain_failures() + 1 >= 10 {
                match extract_bytes_spec(
                    old(self).captured(),
                    old(self).command_view(),
                    old(self).marker_view(),
                ) {
                    Some(v) => final(self).finished() && (r matches ExecAction::Finish(o)
                        && o.stdout@ == lossy_of(v) && (valid_utf8(v) ==> o.stdout@ == decode_utf8(
                        v,
                    )) && o.stderr@ == Seq::<char>::empty()),
                    None => final(self).in_main() && r is Continue,
                }
            } else {
                final(self).in_drain() && final(self).drain_failures() == old(
                    self,
                ).drain_failures() + 1 && r is Drain
            },
    {
        if self.drain_attempts < u32::MAX {
            self.drain_attempts = self.drain_attempts + 1;
        }
        if self.drain_attempts >= 10 {
            self.finalize()
        } else {
            ExecAction::Drain
        }
    }

    /// A bounded read in the drain phase timed out or failed.
    pub fn on_drain_timeout(&mut self) -> (r: ExecAction)
        requires
            old(self).wf(),
            old(self).in_drain(),
        ensures
            final(self).wf(),
            final(self).captured() == old(self).captured(),
            final(self).command_view() == old(self).command_view(),
            final(self).marker_view() == old(self).marker_view(),
            if old(self).drain_failures() + 1 > 3 {
                match extract_bytes_spec(
                    old(self).captured(),
                    old(self).command_view(),
                    old(self).marker_view(),
                ) {
                    Some(v) => final(self).finished() && (r matches ExecAction::Finish(o)
                        && o.stdout@ == lossy_of(v) && (valid_utf8(v) ==> o.stdout@ == decode_utf8(
                        v,
                    )) && o.stderr@ == Seq::<char>::empty()),
                    None => final(self).in_main() && r is Continue,
                }
            } else {
                final(self).in_drain() && final(self).drain_failures() == old(
                    self,
                ).drain_failures() + 1 && r is Drain
            },
    {
        if self.drain_attempts < u32::MAX {
            self.drain_attempts = self.drain_attempts + 1;
        }
        if self.drain_attempts > 3 {
            self.finalize()
        } else {
            ExecAction::Drain
        }
    }
}

/// The streaming variant's cut: everything before the first occurrence of
/// the marker, once it has appeared.
pub fn streaming_cut(buf: &[u8], marker: &[u8]) -> (r: Option<Vec<u8>>)
    ensures
        match r {
            Some(v) => first_occurrence(buf@, marker@) matches Some(i) && v@ == buf@.subrange(
                0,
                i,
            ),
            None => first_occurrence(buf@, marker@) is None,
        },
{
    proof {
        lemma_first_occurrence_some(buf@, marker@, 0);
    }
    match find_first(buf, marker) {
        Some(i) => {
            let mut out: Vec<u8> = Vec::new();
            out.extend_from_slice(&buf[0..i]);
            proof {
                assert(out@ =~= buf@.subrange(0, i as int));
            }
            Some(out)
        },
        None => None,
    }
}

} // verus!
