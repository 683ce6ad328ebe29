//! Progress reporting.
//!
//! The engine announces how far each of its phases has come through a [`Progress`] sink. The
//! sink remembers, for contracts only, every event it was asked to announce, and forwards each
//! one to a channel when it has one. Delivery is best effort: the sink never waits for a
//! listener, and an event that the channel does not take at once is dropped.

use vstd::prelude::*;

verus! {

/// `crossbeam::channel::Sender`, the sending end of a channel. Nothing is known of a value of
/// this type.
#[verifier::external_type_specification]
#[verifier::external_body]
#[verifier::reject_recursive_types(T)]
pub struct ExSender<T>(crossbeam::channel::Sender<T>);

/// `crossbeam::channel::Receiver`, the receiving end of a channel. Nothing is known of a value
/// of this type.
#[verifier::external_type_specification]
#[verifier::external_body]
#[verifier::reject_recursive_types(T)]
pub struct ExReceiver<T>(crossbeam::channel::Receiver<T>);

/// Sending end of a progress channel. A message is `(completed, total, phase label)`.
pub type ProgressSender = crossbeam::channel::Sender<(usize, usize, &'static str)>;

/// Receiving end of a progress channel.
pub type ProgressReceiver = crossbeam::channel::Receiver<(usize, usize, &'static str)>;

/// Creates a progress channel that never blocks its sender.
///
/// Calls `crossbeam::channel::unbounded`; nothing is claimed of the two ends.
#[verifier::external_body]
pub fn progress_channel() -> (ends: (ProgressSender, ProgressReceiver)) {
    crossbeam::channel::unbounded()
}

/// Offers one message to the channel without waiting, and ignores whether it was taken.
///
/// Calls `crossbeam::channel::Sender::try_send`, which returns at once whether or not the
/// channel takes the message; nothing is claimed of its effect.
#[verifier::external_body]
fn send_message(sender: &ProgressSender, done: usize, total: usize, label: &'static str) {
    let _ = sender.try_send((done, total, label));
}

/// The phases of making a mosaic that report progress.
#[derive(Clone, Copy, Debug, PartialEq, Eq, Structural)]
pub enum Phase {
    /// Reading and resizing the candidate images.
    LoadingImages,
    /// Scoring every candidate against every cell.
    CalculatingErrors,
    /// Choosing one candidate for every cell.
    SelectingImages,
    /// Copying the chosen candidates into the result.
    InsertingImages,
}

impl Phase {
    /// The text under which the phase is reported.
    pub open spec fn label_text(self) -> Seq<char> {
        match self {
            Phase::LoadingImages => "Loading images from disk"@,
            Phase::CalculatingErrors => "calculating errors"@,
            Phase::SelectingImages => "Selecting images for result"@,
            Phase::InsertingImages => "Inserting images in target"@,
        }
    }

    /// The text under which the phase is reported.
    pub fn label(self) -> (text: &'static str)
        ensures
            text@ == self.label_text(),
    {
        match self {
            Phase::LoadingImages => "Loading images from disk",
            Phase::CalculatingErrors => "calculating errors",
            Phase::SelectingImages => "Selecting images for result",
            Phase::InsertingImages => "Inserting images in target",
        }
    }
}

/// One progress report: `done` of `total` units of `phase` are complete.
pub struct ProgressEvent {
    pub done: usize,
    pub total: usize,
    pub phase: Phase,
}

/// The reports of a phase that announces each of its `total` units before working on it:
/// `0 of total`, `1 of total`, up to `total - 1 of total`.
pub open spec fn reports_before_each(phase: Phase, total: nat) -> Seq<ProgressEvent> {
    Seq::new(total, |k: int| ProgressEvent { done: k as usize, total: total as usize, phase })
}

/// The reports of a phase that announces each of its `total` units after completing it:
/// `1 of total`, `2 of total`, up to `total of total`.
pub open spec fn reports_after_each(phase: Phase, total: nat) -> Seq<ProgressEvent> {
    Seq::new(
        total,
        |k: int| ProgressEvent { done: (k + 1) as usize, total: total as usize, phase },
    )
}

/// Where the engine announces its progress.
pub struct Progress {
    sender: Option<ProgressSender>,
    announced: Ghost<Seq<ProgressEvent>>,
}

impl Progress {
    /// Every event announced through this sink so far, oldest first.
    pub closed spec fn announced(&self) -> Seq<ProgressEvent> {
        self.announced@
    }

    /// The channel to which this sink forwards, if it has one.
    pub closed spec fn channel(&self) -> Option<ProgressSender> {
        self.sender
    }

    /// This sink is the sink `before` once that has announced `events`, and nothing else.
    pub open spec fn has_announced(&self, before: Progress, events: Seq<ProgressEvent>) -> bool {
        self.channel() == before.channel() && self.announced() == before.announced() + events
    }

    /// A sink has announced nothing since it was itself.
    pub proof fn lemma_announced_nothing(self, reports: Seq<ProgressEvent>)
        ensures
            self.has_announced(self, reports.take(0)),
    {
        assert(self.announced() + reports.take(0) =~= self.announced());
    }

    /// Announcing the next report of a list after its first `k` reports makes it the first
    /// `k + 1` reports that have been announced.
    pub proof fn lemma_announced_next(
        self,
        mid: Progress,
        before: Progress,
        reports: Seq<ProgressEvent>,
        k: int,
    )
        requires
            0 <= k < reports.len(),
            mid.has_announced(before, reports.take(k)),
            self.has_announced(mid, seq![reports[k]]),
        ensures
            self.has_announced(before, reports.take(k + 1)),
    {
        assert(before.announced() + reports.take(k) + seq![reports[k]] =~= before.announced()
            + reports.take(k + 1));
    }

    /// Once every report of a list has been announced, the list has been announced.
    pub proof fn lemma_announced_all(self, before: Progress, reports: Seq<ProgressEvent>)
        requires
            self.has_announced(before, reports.take(reports.len() as int)),
        ensures
            self.has_announced(before, reports),
    {
        assert(reports.take(reports.len() as int) =~= reports);
    }

    /// What has been announced in two steps has been announced.
    pub proof fn lemma_announced_both(
        self,
        mid: Progress,
        before: Progress,
        first: Seq<ProgressEvent>,
        second: Seq<ProgressEvent>,
    )
        requires
            mid.has_announced(before, first),
            self.has_announced(mid, second),
        ensures
            self.has_announced(before, first + second),
    {
        assert(before.announced() + first + second =~= before.announced() + (first + second));
    }

    /// A sink that forwards to `sender` if there is one, and has announced nothing yet.
    pub fn new(sender: Option<ProgressSender>) -> (progress: Progress)
        ensures
            progress.channel() == sender,
            progress.announced() == Seq::<ProgressEvent>::empty(),
    {
        Progress { sender, announced: Ghost(Seq::empty()) }
    }

    /// A sink without a channel.
    pub fn silent() -> (progress: Progress)
        ensures
            progress.channel() is None,
            progress.announced() == Seq::<ProgressEvent>::empty(),
    {
        Progress { sender: None, announced: Ghost(Seq::empty()) }
    }

    /// Announces that `done` of `total` units of `phase` are complete.
    pub fn notify(&mut self, done: usize, total: usize, phase: Phase)
        ensures
            final(self).has_announced(*old(self), seq![ProgressEvent { done, total, phase }]),
    {
        match &self.sender {
            Some(sender) => {
                send_message(sender, done, total, phase.label());
            },
            None => {},
        }
        self.announced = Ghost(self.announced@.push(ProgressEvent { done, total, phase }));
        assert(self.announced@ =~= old(self).announced@ + seq![ProgressEvent { done, total, phase }]);
    }
}

} // verus!
