//! The workflow of one domain, as a state machine. The caller does the
//! work that an action asks for (a fetch, a call of the completion
//! service, a write to a log) and hands back what came of it as the next
//! event.

use crate::categories::is_label;
use crate::classify::{classification_prompt, classified, prompt_text, validate_response};
use crate::failure::Failure;
use crate::scraping::{
    byte_len, extract, extracted, extraction_view, lemma_failure_is_of_the_selectors,
    page_selectors_refused, MAX_PAGE_BYTES,
};
use crate::sink::{Classification, Domain};
use vstd::prelude::*;
use vstd::string::{StrSliceExecFns, StringExecFns};

verus! {

/// The least number of characters of a digest that is worth a question to
/// the completion service.
pub const MIN_DIGEST_LEN: usize = 3;

/// The seconds after which a fetch is given up.
pub const FETCH_TIMEOUT_SECS: u64 = 30;

/// How a fetch names its sender to the server: as a browser would.
pub const USER_AGENT: &'static str =
    "Mozilla/5.0 (platform; rv:geckoversion) Gecko/geckotrail Firefox/firefoxversion";

/// How far the workflow of a domain has come.
#[derive(Clone, Copy, Debug, PartialEq, Eq, Structural)]
pub enum Stage {
    /// Nothing was done yet.
    Pending,
    /// The page was asked for.
    Fetching,
    /// The page could not be had, or gave no digest worth asking about.
    FetchFailed,
    /// The digest of the page is there.
    Extracted,
    /// The completion service was asked.
    Classifying,
    /// The completion service failed, or its answer was refused.
    ClassifyFailed,
    /// The domain has its category.
    Classified,
}

/// Whether a workflow at `stage` has come to its end.
pub open spec fn is_terminal(stage: Stage) -> bool {
    stage == Stage::FetchFailed || stage == Stage::ClassifyFailed || stage == Stage::Classified
}

/// The workflow of one domain.
#[derive(Debug, PartialEq, Eq)]
pub struct Workflow {
    pub domain: String,
    pub stage: Stage,
    /// The text of the keyword digest, once the stage is `Extracted`.
    pub digest: String,
}

/// A workflow as plain values.
pub struct WorkflowView {
    pub domain: Seq<char>,
    pub stage: Stage,
    pub digest: Seq<char>,
}

impl View for Workflow {
    type V = WorkflowView;

    open spec fn view(&self) -> WorkflowView {
        WorkflowView { domain: self.domain@, stage: self.stage, digest: self.digest@ }
    }
}

/// What happened outside, for the workflow to react to.
#[derive(Debug, PartialEq, Eq)]
pub enum Event {
    /// The action before is done, and called for no answer.
    Advance,
    /// The fetch was answered with this status and body.
    Page { status: u16, body: String },
    /// The fetch failed in transport or ran out of time.
    FetchError,
    /// The completion service answered with this text.
    Answer { text: String },
    /// The completion service could not be reached or understood.
    AnswerError,
}

/// An event as plain values.
pub enum EventView {
    Advance,
    Page { status: u16, body: Seq<char> },
    FetchError,
    Answer { text: Seq<char> },
    AnswerError,
}

impl View for Event {
    type V = EventView;

    open spec fn view(&self) -> EventView {
        match self {
            Event::Advance => EventView::Advance,
            Event::Page { status, body } => EventView::Page { status: *status, body: body@ },
            Event::FetchError => EventView::FetchError,
            Event::Answer { text } => EventView::Answer { text: text@ },
            Event::AnswerError => EventView::AnswerError,
        }
    }
}

/// What the caller is to do next.
#[derive(Debug, PartialEq, Eq)]
pub enum Action {
    /// Fetch this address, and come back with `Page` or `FetchError`.
    Fetch { url: String },
    /// Nothing to do outside: come back with `Advance`.
    Continue,
    /// Send this prompt to the completion service, and come back with
    /// `Answer` or `AnswerError`.
    Complete { prompt: String },
    /// Record the classification in the log of successes. The workflow is
    /// over.
    RecordSuccess { classification: Domain },
    /// Record the domain in the log of failures. The workflow is over.
    RecordFailure { domain: String, reason: Failure },
    /// The event does not belong to the stage: nothing has changed, and
    /// there is nothing to do.
    Nothing,
}

/// An action as plain values.
pub enum ActionView {
    Fetch { url: Seq<char> },
    Continue,
    Complete { prompt: Seq<char> },
    RecordSuccess { classification: Classification },
    RecordFailure { domain: Seq<char>, reason: Failure },
    Nothing,
}

impl View for Action {
    type V = ActionView;

    open spec fn view(&self) -> ActionView {
        match self {
            Action::Fetch { url } => ActionView::Fetch { url: url@ },
            Action::Continue => ActionView::Continue,
            Action::Complete { prompt } => ActionView::Complete { prompt: prompt@ },
            Action::RecordSuccess { classification } => ActionView::RecordSuccess {
                classification: classification@,
            },
            Action::RecordFailure { domain, reason } => ActionView::RecordFailure {
                domain: domain@,
                reason: *reason,
            },
            Action::Nothing => ActionView::Nothing,
        }
    }
}

/// The address of the home page of `domain`.
pub open spec fn homepage(domain: Seq<char>) -> Seq<char> {
    "http://"@ + domain + "/"@
}

/// Whether an HTTP status stands for success.
pub open spec fn is_success(status: u16) -> bool {
    200 <= status <= 299
}

/// `w` at another stage.
pub open spec fn at_stage(w: WorkflowView, stage: Stage) -> WorkflowView {
    WorkflowView { domain: w.domain, stage, digest: w.digest }
}

/// The failure of `w` for `reason`, at `stage`.
pub open spec fn failed(w: WorkflowView, stage: Stage, reason: Failure) -> (
    WorkflowView,
    ActionView,
) {
    (at_stage(w, stage), ActionView::RecordFailure { domain: w.domain, reason })
}

/// An event that does not belong to the stage changes nothing.
pub open spec fn idle(w: WorkflowView) -> (WorkflowView, ActionView) {
    (w, ActionView::Nothing)
}

/// The step on `Advance`: a pending workflow asks for the page, one with
/// its digest asks the completion service.
pub open spec fn on_advance(w: WorkflowView) -> (WorkflowView, ActionView) {
    match w.stage {
        Stage::Pending => (
            at_stage(w, Stage::Fetching),
            ActionView::Fetch { url: homepage(w.domain) },
        ),
        Stage::Extracted => (
            at_stage(w, Stage::Classifying),
            ActionView::Complete { prompt: prompt_text(w.domain, w.digest) },
        ),
        _ => idle(w),
    }
}

/// The step of a fetching workflow once the extraction has given
/// `extraction`: a failure, or a digest of fewer than `MIN_DIGEST_LEN`
/// characters, ends the workflow; any other digest is kept.
pub open spec fn on_extraction(w: WorkflowView, extraction: Result<Seq<char>, Failure>) -> (
    WorkflowView,
    ActionView,
) {
    if w.stage != Stage::Fetching {
        idle(w)
    } else {
        match extraction {
            Err(reason) => failed(w, Stage::FetchFailed, reason),
            Ok(text) => if text.len() < MIN_DIGEST_LEN {
                failed(w, Stage::FetchFailed, Failure::ExtractionTooShort)
            } else {
                (
                    WorkflowView { domain: w.domain, stage: Stage::Extracted, digest: text },
                    ActionView::Continue,
                )
            },
        }
    }
}

/// The step of a classifying workflow on the answer of the completion
/// service, `None` where the service failed.
pub open spec fn on_answer(w: WorkflowView, answer: Option<Seq<char>>) -> (
    WorkflowView,
    ActionView,
) {
    if w.stage != Stage::Classifying {
        idle(w)
    } else {
        match answer {
            None => failed(w, Stage::ClassifyFailed, Failure::FetchError),
            Some(text) => match classified(w.domain, text) {
                Ok(classification) => (
                    at_stage(w, Stage::Classified),
                    ActionView::RecordSuccess { classification },
                ),
                Err(reason) => failed(w, Stage::ClassifyFailed, reason),
            },
        }
    }
}

/// What the extraction makes of a page that came with `status` and
/// `body`: a status other than success is a fetch failure, and otherwise
/// the page gives the text of its keyword digest, or a parse failure
/// (so for a page too large to parse).
pub open spec fn extraction_of(status: u16, body: Seq<char>) -> Result<Seq<char>, Failure> {
    if is_success(status) {
        extracted(body)
    } else {
        Err(Failure::FetchError)
    }
}

/// The step of the workflow `w` on `event`: the workflow after it, and
/// what the caller is to do next.
pub open spec fn step_of(w: WorkflowView, event: EventView) -> (WorkflowView, ActionView) {
    match event {
        EventView::Advance => on_advance(w),
        EventView::Page { status, body } => on_extraction(w, extraction_of(status, body)),
        EventView::FetchError => on_extraction(w, Err(Failure::FetchError)),
        EventView::Answer { text } => on_answer(w, Some(text)),
        EventView::AnswerError => on_answer(w, None),
    }
}

/// The view of an answer.
pub open spec fn answer_view(answer: Option<String>) -> Option<Seq<char>> {
    match answer {
        Some(text) => Some(text@),
        None => None,
    }
}

/// The view of a step.
pub open spec fn step_view(step: (Workflow, Action)) -> (WorkflowView, ActionView) {
    (step.0@, step.1@)
}

/// The address of the home page of `domain`.
pub fn homepage_url(domain: &str) -> (url: String)
    ensures
        url@ == homepage(domain@),
{
    let mut url = String::from_str("http://");
    url.append(domain);
    url.append("/");
    url
}

/// Whether an HTTP status stands for success.
pub fn status_is_success(status: u16) -> (ok: bool)
    ensures
        ok == is_success(status),
{
    200 <= status && status <= 299
}

impl Workflow {
    /// The workflow of `domain`, before anything was done.
    pub fn new(domain: String) -> (w: Workflow)
        ensures
            w@ == (WorkflowView {
                domain: domain@,
                stage: Stage::Pending,
                digest: Seq::<char>::empty(),
            }),
    {
        Workflow { domain, stage: Stage::Pending, digest: String::new() }
    }

    /// Whether the workflow has come to its end.
    pub fn is_over(&self) -> (over: bool)
        ensures
            over == is_terminal(self.stage),
    {
        match self.stage {
            Stage::FetchFailed => true,
            Stage::ClassifyFailed => true,
            Stage::Classified => true,
            _ => false,
        }
    }

    /// The end of the workflow for `reason`.
    fn fail(self, stage: Stage, reason: Failure) -> (step: (Workflow, Action))
        ensures
            step_view(step) == failed(self@, stage, reason),
    {
        let domain = self.domain.clone();
        (
            Workflow { domain: self.domain, stage, digest: self.digest },
            Action::RecordFailure { domain, reason },
        )
    }

    /// The step on `Advance`.
    pub fn advance(self) -> (step: (Workflow, Action))
        ensures
            step_view(step) == on_advance(self@),
    {
        match self.stage {
            Stage::Pending => {
                let url = homepage_url(self.domain.as_str());
                (
                    Workflow { domain: self.domain, stage: Stage::Fetching, digest: self.digest },
                    Action::Fetch { url },
                )
            },
            Stage::Extracted => {
                let prompt = classification_prompt(self.domain.as_str(), self.digest.as_str());
                (
                    Workflow {
                        domain: self.domain,
                        stage: Stage::Classifying,
                        digest: self.digest,
                    },
                    Action::Complete { prompt },
                )
            },
            _ => (self, Action::Nothing),
        }
    }

    /// The step of a fetching workflow once the extraction has given
    /// `extraction`.
    pub fn after_extraction(self, extraction: Result<String, Failure>) -> (step: (Workflow, Action))
        ensures
            step_view(step) == on_extraction(self@, extraction_view(extraction)),
    {
        match self.stage {
            Stage::Fetching => {},
            _ => {
                return (self, Action::Nothing);
            },
        }
        match extraction {
            Err(reason) => self.fail(Stage::FetchFailed, reason),
            Ok(text) => {
                if text.as_str().unicode_len() < MIN_DIGEST_LEN {
                    self.fail(Stage::FetchFailed, Failure::ExtractionTooShort)
                } else {
                    (
                        Workflow { domain: self.domain, stage: Stage::Extracted, digest: text },
                        Action::Continue,
                    )
                }
            },
        }
    }

    /// The step of a classifying workflow on the answer of the completion
    /// service, `None` where the service failed.
    pub fn after_answer(self, answer: Option<String>) -> (step: (Workflow, Action))
        ensures
            step_view(step) == on_answer(self@, answer_view(answer)),
            step.1 matches Action::RecordSuccess { classification } ==> is_label(
                classification.category@,
            ),
    {
        match self.stage {
            Stage::Classifying => {},
            _ => {
                return (self, Action::Nothing);
            },
        }
        match answer {
            None => self.fail(Stage::ClassifyFailed, Failure::FetchError),
            Some(text) => match validate_response(self.domain.as_str(), text.as_str()) {
                Ok(classification) => (
                    Workflow {
                        domain: self.domain,
                        stage: Stage::Classified,
                        digest: self.digest,
                    },
                    Action::RecordSuccess { classification },
                ),
                Err(reason) => self.fail(Stage::ClassifyFailed, reason),
            },
        }
    }

    /// The step of the workflow on `event`: the workflow after it, and
    /// what the caller is to do next.
    pub fn step(self, event: Event) -> (step: (Workflow, Action))
        ensures
            step_view(step) == step_of(self@, event@),
            step.1 matches Action::RecordSuccess { classification } ==> is_label(
                classification.category@,
            ),
    {
        match event {
            Event::Advance => self.advance(),
            Event::Page { status, body } => {
                match self.stage {
                    Stage::Fetching => {},
                    _ => {
                        return (self, Action::Nothing);
                    },
                }
                let extraction = if status_is_success(status) {
                    extract(body.as_str())
                } else {
                    Err(Failure::FetchError)
                };
                self.after_extraction(extraction)
            },
            Event::FetchError => self.after_extraction(Err(Failure::FetchError)),
            Event::Answer { text } => self.after_answer(Some(text)),
            Event::AnswerError => self.after_answer(None),
        }
    }
}

/// The extraction of a fetched page fails for the status, for the size of
/// the page, or for a selector that the selector parser refuses, and for
/// nothing else: never for the markup of the page.
pub proof fn lemma_extraction_fails(status: u16, body: Seq<char>)
    ensures
        extraction_of(status, body) is Err <==> !is_success(status) || byte_len(body)
            > MAX_PAGE_BYTES || page_selectors_refused(),
{
    lemma_failure_is_of_the_selectors(body);
}

/// Whether a workflow at stage `from` can come to stage `to` in one step:
/// from pending to fetching; from there to a failed fetch or to the
/// digest; from the digest to classifying; and from there to a failed
/// classification or to the category.
pub open spec fn follows(from: Stage, to: Stage) -> bool {
    match from {
        Stage::Pending => to == Stage::Fetching,
        Stage::Fetching => to == Stage::FetchFailed || to == Stage::Extracted,
        Stage::Extracted => to == Stage::Classifying,
        Stage::Classifying => to == Stage::ClassifyFailed || to == Stage::Classified,
        _ => false,
    }
}

/// A step leaves the workflow at its stage or takes it to a stage that
/// follows; it never goes back, and never passes over a stage.
pub proof fn lemma_stages_in_order(w: WorkflowView, event: EventView)
    ensures
        step_of(w, event).0.stage == w.stage || follows(w.stage, step_of(w, event).0.stage),
        step_of(w, event).0.stage == w.stage ==> step_of(w, event) == idle(w),
{
}

/// A workflow that has come to its end stays as it is, whatever happens:
/// nothing is tried a second time.
pub proof fn lemma_terminal_stays(w: WorkflowView, event: EventView)
    requires
        is_terminal(w.stage),
    ensures
        step_of(w, event) == idle(w),
{
}

/// A step asks for a record exactly when it ends the workflow: for one in
/// the log of successes when the domain is classified, for one in the log
/// of failures when the fetch or the classification failed. What is
/// recorded is the domain of the workflow, and a category is always one of
/// the category labels.
pub proof fn lemma_records_at_the_end(w: WorkflowView, event: EventView)
    ensures
        ({
            let (next, action) = step_of(w, event);
            &&& next.domain == w.domain
            &&& action is RecordSuccess <==> !is_terminal(w.stage) && next.stage
                == Stage::Classified
            &&& action is RecordFailure <==> !is_terminal(w.stage) && (next.stage
                == Stage::FetchFailed || next.stage == Stage::ClassifyFailed)
            &&& action matches ActionView::RecordSuccess { classification }
                ==> classification.domain == w.domain && is_label(classification.category)
            &&& action matches ActionView::RecordFailure { domain, .. } ==> domain == w.domain
        }),
{
}

} // verus!
