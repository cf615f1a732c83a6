//! Explicit background publication of the project source into one immutable runtime
//! generation: a single-flight request that is queued, cooked, adopted, then published or failed.

use vstd::prelude::*;
use crate::project_store::SendOutcome;
use crate::text::{append_decimal, decimal};

verus! {

/// Where the publication stands.
#[derive(Clone, Debug, PartialEq, Eq)]
pub enum PublicationPhase {
    Idle,
    Queued { request_id: u64, source_epoch: u64 },
    Cooking { request_id: u64, source_epoch: u64 },
    Adopting { request_id: u64, source_epoch: u64, generation: String },
    Published { generation: String },
    Failed { error: String },
}

/// The phase with texts as character sequences.
pub enum PhaseView {
    Idle,
    Queued { request_id: u64, source_epoch: u64 },
    Cooking { request_id: u64, source_epoch: u64 },
    Adopting { request_id: u64, source_epoch: u64, generation: Seq<char> },
    Published { generation: Seq<char> },
    Failed { error: Seq<char> },
}

/// The phase with texts as character sequences.
pub open spec fn phase_of(p: PublicationPhase) -> PhaseView {
    match p {
        PublicationPhase::Idle => PhaseView::Idle,
        PublicationPhase::Queued { request_id, source_epoch } => PhaseView::Queued { request_id, source_epoch },
        PublicationPhase::Cooking { request_id, source_epoch } => PhaseView::Cooking { request_id, source_epoch },
        PublicationPhase::Adopting { request_id, source_epoch, generation } => PhaseView::Adopting {
            request_id,
            source_epoch,
            generation: generation@,
        },
        PublicationPhase::Published { generation } => PhaseView::Published { generation: generation@ },
        PublicationPhase::Failed { error } => PhaseView::Failed { error: error@ },
    }
}

/// The abstract state of publication.
pub struct PublicationView {
    pub phase: PhaseView,
    pub next_request_id: u64,
}

/// Whether a publication is queued, cooking or being adopted.
pub open spec fn spec_active(phase: PhaseView) -> bool {
    phase is Queued || phase is Cooking || phase is Adopting
}

/// The message of a publication whose source changed while it was cooked.
pub open spec fn source_changed_message(from: u64, to: u64) -> Seq<char> {
    "source changed from epoch "@ + decimal(from as nat) + " to "@ + decimal(to as nat)
        + " while cooking; publish again"@
}

/// The message of an adoption of another generation than the one published.
pub open spec fn unexpected_generation_message(request_id: u64, source_epoch: u64, adopted: Seq<char>) -> Seq<char> {
    "publication request "@ + decimal(request_id as nat) + " for source epoch "@ + decimal(
        source_epoch as nat,
    ) + " adopted unexpected generation "@ + adopted
}

/// What receiving a cook result does; the generation to request adoption of, if any.
pub open spec fn receive_model(
    s: PublicationView,
    request_id: u64,
    source_epoch: u64,
    result: Result<Seq<char>, Seq<char>>,
    current_epoch: u64,
) -> (PublicationView, Option<Seq<char>>) {
    match s.phase {
        PhaseView::Cooking { request_id: r, source_epoch: e } => {
            if r != request_id || e != source_epoch {
                (s, None)
            } else {
                match result {
                    Ok(generation) => if current_epoch != e {
                        (
                            PublicationView {
                                phase: PhaseView::Failed { error: source_changed_message(e, current_epoch) },
                                ..s
                            },
                            None,
                        )
                    } else {
                        (
                            PublicationView {
                                phase: PhaseView::Adopting { request_id: r, source_epoch: e, generation },
                                ..s
                            },
                            Some(generation),
                        )
                    },
                    Err(error) => (PublicationView { phase: PhaseView::Failed { error }, ..s }, None),
                }
            }
        },
        _ => (s, None),
    }
}

/// What the completion of an adoption does; whether the published generation was adopted.
pub open spec fn adoption_model(s: PublicationView, result: Result<Seq<char>, Seq<char>>) -> (PublicationView, bool) {
    match s.phase {
        PhaseView::Adopting { request_id, source_epoch, generation } => match result {
            Ok(adopted) => if adopted == generation {
                (PublicationView { phase: PhaseView::Published { generation: adopted }, ..s }, true)
            } else {
                (
                    PublicationView {
                        phase: PhaseView::Failed {
                            error: unexpected_generation_message(request_id, source_epoch, adopted),
                        },
                        ..s
                    },
                    false,
                )
            },
            Err(error) => (PublicationView { phase: PhaseView::Failed { error }, ..s }, false),
        },
        _ => (s, false),
    }
}

/// The single-flight publication state.
pub struct RuntimePublicationState {
    phase: PublicationPhase,
    next_request_id: u64,
}

impl View for RuntimePublicationState {
    type V = PublicationView;

    closed spec fn view(&self) -> PublicationView {
        PublicationView { phase: phase_of(self.phase), next_request_id: self.next_request_id }
    }
}

fn text_of(s: &String) -> (r: String)
    ensures
        r@ == s@,
{
    s.clone()
}

impl RuntimePublicationState {
    /// An idle publication state.
    pub fn new() -> (s: Self)
        ensures
            s@.phase is Idle,
            s@.next_request_id == 0,
    {
        RuntimePublicationState { phase: PublicationPhase::Idle, next_request_id: 0 }
    }

    /// Whether a publication is queued, cooking or being adopted.
    pub fn active(&self) -> (r: bool)
        ensures
            r == spec_active(self@.phase),
    {
        match self.phase {
            PublicationPhase::Queued { .. } | PublicationPhase::Cooking { .. } | PublicationPhase::Adopting {
                ..
            } => true,
            _ => false,
        }
    }

    /// Requests a publication of the given source epoch; refused for the unopened epoch zero
    /// and while another publication is active.
    pub fn request(&mut self, source_epoch: u64) -> (ok: bool)
        ensures
            ok == (source_epoch != 0 && !spec_active(old(self)@.phase)),
            ok ==> final(self)@ == (PublicationView {
                phase: PhaseView::Queued {
                    request_id: crate::project_store::next_id(old(self)@.next_request_id),
                    source_epoch,
                },
                next_request_id: crate::project_store::next_id(old(self)@.next_request_id),
            }),
            !ok ==> final(self)@ == old(self)@,
    {
        if source_epoch == 0 || self.active() {
            return false;
        }
        let request_id = if self.next_request_id == u64::MAX {
            1
        } else {
            self.next_request_id + 1
        };
        self.next_request_id = request_id;
        self.phase = PublicationPhase::Queued { request_id, source_epoch };
        true
    }

    /// The queued request to hand to the publication worker.
    pub fn next_dispatch(&self) -> (r: Option<(u64, u64)>)
        ensures
            r == (match self@.phase {
                PhaseView::Queued { request_id, source_epoch } => Some((request_id, source_epoch)),
                _ => None,
            }),
    {
        match self.phase {
            PublicationPhase::Queued { request_id, source_epoch } => Some((request_id, source_epoch)),
            _ => None,
        }
    }

    /// Records what became of handing the queued request to the worker.
    pub fn dispatched(&mut self, outcome: SendOutcome)
        ensures
            final(self)@ == (match old(self)@.phase {
                PhaseView::Queued { request_id, source_epoch } => match outcome {
                    SendOutcome::Sent => PublicationView {
                        phase: PhaseView::Cooking { request_id, source_epoch },
                        ..old(self)@
                    },
                    SendOutcome::Full => old(self)@,
                    SendOutcome::Disconnected => PublicationView {
                        phase: PhaseView::Failed { error: "publication worker stopped"@ },
                        ..old(self)@
                    },
                },
                _ => old(self)@,
            }),
    {
        if let PublicationPhase::Queued { request_id, source_epoch } = self.phase {
            match outcome {
                SendOutcome::Sent => {
                    self.phase = PublicationPhase::Cooking { request_id, source_epoch };
                },
                SendOutcome::Full => {},
                SendOutcome::Disconnected => {
                    self.phase = PublicationPhase::Failed {
                        error: String::from_str("publication worker stopped"),
                    };
                },
            }
        }
    }

    /// Receives a cook result. A result of the request being cooked either fails the
    /// publication or moves it to adoption; the generation to adopt is returned.
    pub fn receive_result(
        &mut self,
        request_id: u64,
        source_epoch: u64,
        result: Result<String, String>,
        current_epoch: u64,
    ) -> (adopt: Option<String>)
        ensures
            ({
                let (m, g) = receive_model(
                    old(self)@,
                    request_id,
                    source_epoch,
                    match result {
                        Ok(x) => Ok(x@),
                        Err(e) => Err(e@),
                    },
                    current_epoch,
                );
                &&& final(self)@ == m
                &&& match adopt {
                    Some(a) => g == Some(a@),
                    None => g is None,
                }
            }),
    {
        let (r, e) = match self.phase {
            PublicationPhase::Cooking { request_id: r, source_epoch: e } => (r, e),
            _ => return None,
        };
        if r != request_id || e != source_epoch {
            return None;
        }
        match result {
            Ok(generation) => {
                if current_epoch != e {
                    let mut error = String::from_str("source changed from epoch ");
                    append_decimal(&mut error, e);
                    error.append(" to ");
                    append_decimal(&mut error, current_epoch);
                    error.append(" while cooking; publish again");
                    proof {
                        reveal_strlit("source changed from epoch ");
                        reveal_strlit(" to ");
                        reveal_strlit(" while cooking; publish again");
                        assert(error@ =~= source_changed_message(e, current_epoch));
                    }
                    self.phase = PublicationPhase::Failed { error };
                    None
                } else {
                    let copy = text_of(&generation);
                    self.phase = PublicationPhase::Adopting { request_id: r, source_epoch: e, generation };
                    Some(copy)
                }
            },
            Err(error) => {
                self.phase = PublicationPhase::Failed { error };
                None
            },
        }
    }

    /// The runtime refused to queue the adoption of the published generation.
    pub fn adoption_refused(&mut self)
        ensures
            final(self)@ == (if old(self)@.phase is Adopting {
                PublicationView {
                    phase: PhaseView::Failed { error: "runtime streamer could not queue generation adoption"@ },
                    ..old(self)@
                }
            } else {
                old(self)@
            }),
    {
        if let PublicationPhase::Adopting { .. } = self.phase {
            self.phase = PublicationPhase::Failed {
                error: String::from_str("runtime streamer could not queue generation adoption"),
            };
        }
    }

    /// The publication worker stopped: an active publication fails.
    pub fn worker_stopped(&mut self)
        ensures
            final(self)@ == (if spec_active(old(self)@.phase) {
                PublicationView { phase: PhaseView::Failed { error: "publication worker stopped"@ }, ..old(self)@ }
            } else {
                old(self)@
            }),
    {
        if self.active() {
            self.phase = PublicationPhase::Failed { error: String::from_str("publication worker stopped") };
        }
    }

    /// Receives the completion of an adoption. Returns whether the published generation was
    /// adopted, in which case the working sets adopt it as their runtime baseline.
    pub fn adoption_completed(&mut self, result: Result<String, String>) -> (adopted: bool)
        ensures
            (final(self)@, adopted) == adoption_model(
                old(self)@,
                match result {
                    Ok(x) => Ok(x@),
                    Err(e) => Err(e@),
                },
            ),
    {
        let (request_id, source_epoch, same) = match &self.phase {
            PublicationPhase::Adopting { request_id, source_epoch, generation } => {
                let same = match &result {
                    Ok(adopted) => adopted.eq(generation),
                    Err(_) => false,
                };
                (*request_id, *source_epoch, same)
            },
            _ => return false,
        };
        match result {
            Ok(adopted) => {
                if same {
                    self.phase = PublicationPhase::Published { generation: adopted };
                    true
                } else {
                    let mut error = String::from_str("publication request ");
                    append_decimal(&mut error, request_id);
                    error.append(" for source epoch ");
                    append_decimal(&mut error, source_epoch);
                    error.append(" adopted unexpected generation ");
                    error.append(adopted.as_str());
                    proof {
                        reveal_strlit("publication request ");
                        reveal_strlit(" for source epoch ");
                        reveal_strlit(" adopted unexpected generation ");
                        assert(error@ =~= unexpected_generation_message(request_id, source_epoch, adopted@));
                    }
                    self.phase = PublicationPhase::Failed { error };
                    false
                }
            },
            Err(error) => {
                self.phase = PublicationPhase::Failed { error };
                false
            },
        }
    }

    /// The status line of the publication.
    pub fn status(&self) -> (text: String)
        ensures
            text@ == status_text(self@.phase),
    {
        match &self.phase {
            PublicationPhase::Idle => String::from_str("Runtime publication idle"),
            PublicationPhase::Queued { .. } => String::from_str("Runtime publication queued"),
            PublicationPhase::Cooking { .. } => String::from_str(
                "Cooking and validating a complete staging generation\u{2026}",
            ),
            PublicationPhase::Adopting { generation, .. } => {
                let mut text = String::from_str("Adopting runtime generation ");
                text.append(generation.as_str());
                text.append("\u{2026}");
                text
            },
            PublicationPhase::Published { generation } => {
                let mut text = String::from_str("Published and adopted runtime generation ");
                text.append(generation.as_str());
                text
            },
            PublicationPhase::Failed { error } => {
                let mut text = String::from_str("Runtime publication failed: ");
                text.append(error.as_str());
                text
            },
        }
    }

    /// The generation that was published and adopted, if the last publication succeeded.
    pub fn published_generation(&self) -> (r: Option<&str>)
        ensures
            match r {
                Some(g) => self@.phase == PhaseView::Published { generation: g@ },
                None => !(self@.phase is Published),
            },
    {
        match &self.phase {
            PublicationPhase::Published { generation } => Some(generation.as_str()),
            _ => None,
        }
    }

    /// The error of the last publication, if it failed.
    pub fn failure(&self) -> (r: Option<&str>)
        ensures
            match r {
                Some(e) => self@.phase == PhaseView::Failed { error: e@ },
                None => !(self@.phase is Failed),
            },
    {
        match &self.phase {
            PublicationPhase::Failed { error } => Some(error.as_str()),
            _ => None,
        }
    }
}

/// The status line of a phase.
pub open spec fn status_text(phase: PhaseView) -> Seq<char> {
    match phase {
        PhaseView::Idle => "Runtime publication idle"@,
        PhaseView::Queued { .. } => "Runtime publication queued"@,
        PhaseView::Cooking { .. } => "Cooking and validating a complete staging generation\u{2026}"@,
        PhaseView::Adopting { generation, .. } => "Adopting runtime generation "@ + generation + "\u{2026}"@,
        PhaseView::Published { generation } => "Published and adopted runtime generation "@ + generation,
        PhaseView::Failed { error } => "Runtime publication failed: "@ + error,
    }
}

} // verus!
