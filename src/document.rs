//! A document split into fragments, and the run that translates it.
//!
//! A run asks for one fragment at a time, in order. The caller sends that
//! fragment to the chat-completion service and hands the outcome back with
//! [`Document::advance`]; the run then asks for the next fragment, finishes
//! with the replies of every fragment in order, or stops at the first failure.
use vstd::prelude::*;

use crate::error::Error;
use crate::segment::{split, split_text, views};

verus! {

/// A document to translate: the fragments of its text, in order.
pub struct Document {
    /// Fragments of the text.
    pub fragments: Vec<String>,
}

/// A run that waits for the translation of fragment `next`.
pub struct TranslationRun {
    /// Index of the fragment whose translation is awaited.
    pub next: usize,
    /// The replies for the fragments before `next`, in order.
    pub output: Vec<String>,
}

/// What a run asks for after a step.
pub enum RunStep {
    /// Translate the fragment that the run names, then advance the run.
    Translate(TranslationRun),
    /// Every fragment was translated; these are the replies, in order.
    Finished(Vec<String>),
    /// The translation of a fragment failed; the run is over.
    Failed(Error),
}

/// The state of a run, as a mathematical value.
pub enum StepModel {
    Translate { next: nat, output: Seq<String> },
    Finished(Seq<String>),
    Failed(Error),
}

/// The outcome of one fragment's translation, as a mathematical value.
pub open spec fn outcome_view(o: Result<Vec<String>, Error>) -> Result<Seq<String>, Error> {
    match o {
        Ok(v) => Ok(v@),
        Err(e) => Err(e),
    }
}

impl RunStep {
    /// The step as a mathematical value.
    pub open spec fn view(&self) -> StepModel {
        match self {
            RunStep::Translate(run) => StepModel::Translate { next: run.next as nat, output: run.output@ },
            RunStep::Finished(v) => StepModel::Finished(v@),
            RunStep::Failed(e) => StepModel::Failed(*e),
        }
    }
}

/// The first step of a run over `len` fragments.
pub open spec fn start_step(len: nat) -> StepModel {
    if len == 0 {
        StepModel::Finished(seq![])
    } else {
        StepModel::Translate { next: 0, output: seq![] }
    }
}

/// The step that follows `step` when the awaited fragment's translation ends
/// with `outcome`. A finished or failed run stays as it is.
pub open spec fn next_step(len: nat, step: StepModel, outcome: Result<Seq<String>, Error>) -> StepModel {
    match step {
        StepModel::Translate { next, output } => match outcome {
            Err(e) => StepModel::Failed(e),
            Ok(t) => if next + 1 < len {
                StepModel::Translate { next: next + 1, output: output + t }
            } else {
                StepModel::Finished(output + t)
            },
        },
        _ => step,
    }
}

/// The step a run reaches from `step` when the translations it asks for end
/// with `outcomes`, one after the other.
pub open spec fn run_steps(len: nat, step: StepModel, outcomes: Seq<Result<Seq<String>, Error>>) -> StepModel
    decreases outcomes.len(),
{
    if outcomes.len() == 0 {
        step
    } else {
        run_steps(len, next_step(len, step, outcomes[0]), outcomes.drop_first())
    }
}

/// The indices of the fragments that a run asks for, starting at `step`,
/// while the requests end with `outcomes`.
pub open spec fn requested(len: nat, step: StepModel, outcomes: Seq<Result<Seq<String>, Error>>) -> Seq<nat>
    decreases outcomes.len(),
{
    match step {
        StepModel::Translate { next, output } => seq![next] + if outcomes.len() == 0 {
            seq![]
        } else {
            requested(len, next_step(len, step, outcomes[0]), outcomes.drop_first())
        },
        _ => seq![],
    }
}

/// The replies of successful outcomes, each outcome's in turn.
pub open spec fn replies_of(outcomes: Seq<Result<Seq<String>, Error>>) -> Seq<String>
    decreases outcomes.len(),
{
    if outcomes.len() == 0 {
        seq![]
    } else {
        replies_of(outcomes.drop_last()) + outcomes.last()->Ok_0
    }
}

impl Document {
    /// Splits `text` into a document of heading-delimited fragments.
    pub fn try_from(text: String) -> (r: Result<Document, Error>)
        ensures
            text@.len() == 0 <==> r is Err,
            r is Err ==> r->Err_0 is EmptyInput,
            r is Ok ==> views(r->Ok_0.fragments@) == split_text(text@),
    {
        match split(text.as_str()) {
            Ok(fragments) => Ok(Document { fragments }),
            Err(e) => Err(e),
        }
    }

    /// Starts a run that translates the document.
    pub fn begin(&self) -> (r: RunStep)
        ensures
            r@ == start_step(self.fragments@.len()),
    {
        if self.fragments.len() == 0 {
            RunStep::Finished(Vec::new())
        } else {
            RunStep::Translate(TranslationRun { next: 0, output: Vec::new() })
        }
    }

    /// The fragment that `run` waits for.
    pub fn fragment(&self, run: &TranslationRun) -> (r: &String)
        requires
            run.next < self.fragments@.len(),
        ensures
            *r == self.fragments@[run.next as int],
    {
        &self.fragments[run.next]
    }

    /// Hands the outcome of the awaited fragment's translation to `run`: the
    /// run asks for the next fragment, finishes after the last one, or fails
    /// with the error.
    pub fn advance(&self, run: TranslationRun, outcome: Result<Vec<String>, Error>) -> (r: RunStep)
        requires
            run.next < self.fragments@.len(),
        ensures
            r@ == next_step(
                self.fragments@.len(),
                RunStep::Translate(run)@,
                outcome_view(outcome),
            ),
    {
        let TranslationRun { next, output } = run;
        match outcome {
            Err(e) => RunStep::Failed(e),
            Ok(t) => {
                let mut output = output;
                let mut t = t;
                let ghost before = output@;
                let ghost replies = t@;
                output.append(&mut t);
                assert(output@ == before + replies);
                if next < self.fragments.len() - 1 {
                    RunStep::Translate(TranslationRun { next: next + 1, output })
                } else {
                    RunStep::Finished(output)
                }
            },
        }
    }
}

proof fn lemma_run_all_ok(len: nat, outcomes: Seq<Result<Seq<String>, Error>>, i: nat)
    requires
        outcomes.len() == len,
        i < len,
        forall|j: int| 0 <= j < len ==> (#[trigger] outcomes[j]) is Ok,
    ensures
        run_steps(
            len,
            StepModel::Translate { next: i, output: replies_of(outcomes.take(i as int)) },
            outcomes.skip(i as int),
        ) == StepModel::Finished(replies_of(outcomes)),
        requested(
            len,
            StepModel::Translate { next: i, output: replies_of(outcomes.take(i as int)) },
            outcomes.skip(i as int),
        ) == Seq::new((len - i) as nat, |j: int| (i + j) as nat),
    decreases len - i,
{
    let step = StepModel::Translate { next: i, output: replies_of(outcomes.take(i as int)) };
    let rest = outcomes.skip(i as int);
    assert(outcomes.take(i + 1 as int).drop_last() =~= outcomes.take(i as int));
    assert(replies_of(outcomes.take(i + 1 as int)) == replies_of(outcomes.take(i as int))
        + outcomes[i as int]->Ok_0);
    assert(rest[0] == outcomes[i as int]);
    assert(rest.drop_first() =~= outcomes.skip(i + 1 as int));
    let after = next_step(len, step, rest[0]);
    assert(after == if i + 1 < len {
        StepModel::Translate { next: i + 1, output: replies_of(outcomes.take(i + 1 as int)) }
    } else {
        StepModel::Finished(replies_of(outcomes.take(i + 1 as int)))
    });
    assert(run_steps(len, step, rest) == run_steps(len, after, outcomes.skip(i + 1 as int)));
    if i + 1 < len {
        lemma_run_all_ok(len, outcomes, i + 1);
        assert(requested(len, step, rest) =~= Seq::new((len - i) as nat, |j: int| (i + j) as nat));
    } else {
        assert(outcomes.take(i + 1 as int) =~= outcomes);
        assert(outcomes.skip(i + 1 as int) =~= Seq::<Result<Seq<String>, Error>>::empty());
        assert(requested(len, after, outcomes.skip(i + 1 as int)) =~= seq![]);
        assert(run_steps(len, after, outcomes.skip(i + 1 as int)) == after);
        assert(requested(len, step, rest) =~= Seq::new((len - i) as nat, |j: int| (i + j) as nat));
    }
}

/// When every fragment's translation succeeds, the run finishes with the
/// replies of each fragment in turn, in fragment order, after asking for
/// every fragment exactly once and in order.
pub proof fn lemma_run_succeeds(len: nat, outcomes: Seq<Result<Seq<String>, Error>>)
    requires
        outcomes.len() == len,
        forall|j: int| 0 <= j < len ==> (#[trigger] outcomes[j]) is Ok,
    ensures
        run_steps(len, start_step(len), outcomes) == StepModel::Finished(replies_of(outcomes)),
        requested(len, start_step(len), outcomes) == Seq::new(len, |j: int| j as nat),
{
    if len == 0 {
        assert(replies_of(outcomes) =~= seq![]);
        assert(requested(len, start_step(len), outcomes) =~= Seq::new(len, |j: int| j as nat));
    } else {
        assert(outcomes.take(0) =~= Seq::<Result<Seq<String>, Error>>::empty());
        assert(replies_of(outcomes.take(0)) =~= seq![]);
        assert(outcomes.skip(0) =~= outcomes);
        lemma_run_all_ok(len, outcomes, 0);
        assert(Seq::new((len - 0) as nat, |j: int| (0 + j) as nat) =~= Seq::new(
            len,
            |j: int| j as nat,
        ));
    }
}

/// When each fragment's translation succeeds with exactly one reply, reply
/// `i` of the finished run is the reply for fragment `i`.
pub proof fn lemma_run_aligns(len: nat, outcomes: Seq<Result<Seq<String>, Error>>)
    requires
        outcomes.len() == len,
        forall|j: int| 0 <= j < len ==> (#[trigger] outcomes[j]) is Ok && outcomes[j]->Ok_0.len() == 1,
    ensures
        run_steps(len, start_step(len), outcomes) is Finished,
        run_steps(len, start_step(len), outcomes)->Finished_0.len() == len,
        forall|j: int|
            0 <= j < len ==> run_steps(len, start_step(len), outcomes)->Finished_0[j]
                == (#[trigger] outcomes[j])->Ok_0[0],
{
    lemma_run_succeeds(len, outcomes);
    lemma_replies_single(outcomes);
}

proof fn lemma_replies_single(s: Seq<Result<Seq<String>, Error>>)
    requires
        forall|j: int| 0 <= j < s.len() ==> (#[trigger] s[j]) is Ok && s[j]->Ok_0.len() == 1,
    ensures
        replies_of(s).len() == s.len(),
        forall|j: int| 0 <= j < s.len() ==> replies_of(s)[j] == (#[trigger] s[j])->Ok_0[0],
    decreases s.len(),
{
    if s.len() > 0 {
        let p = s.drop_last();
        assert forall|j: int| 0 <= j < p.len() implies (#[trigger] p[j]) is Ok && p[j]->Ok_0.len()
            == 1 by {
            assert(p[j] == s[j]);
        };
        lemma_replies_single(p);
        assert(s[s.len() - 1] is Ok);
        assert forall|j: int| 0 <= j < s.len() implies replies_of(s)[j] == (#[trigger] s[j])->Ok_0[0] by {
            if j < s.len() - 1 {
                assert(p[j] == s[j]);
            }
        };
    }
}

proof fn lemma_run_fails_from(
    len: nat,
    outcomes: Seq<Result<Seq<String>, Error>>,
    k: nat,
    i: nat,
    output: Seq<String>,
)
    requires
        i <= k < len,
        k < outcomes.len(),
        forall|j: int| 0 <= j < k ==> (#[trigger] outcomes[j]) is Ok,
        outcomes[k as int] is Err,
    ensures
        run_steps(len, StepModel::Translate { next: i, output }, outcomes.skip(i as int))
            == StepModel::Failed(outcomes[k as int]->Err_0),
        requested(len, StepModel::Translate { next: i, output }, outcomes.skip(i as int))
            == Seq::new((k + 1 - i) as nat, |j: int| (i + j) as nat),
    decreases k - i,
{
    let step = StepModel::Translate { next: i, output };
    let rest = outcomes.skip(i as int);
    assert(rest[0] == outcomes[i as int]);
    assert(rest.drop_first() =~= outcomes.skip(i + 1 as int));
    if i == k {
        lemma_failed_stays(len, outcomes[k as int]->Err_0, outcomes.skip(i + 1 as int));
        assert(requested(len, step, rest) =~= Seq::new((k + 1 - i) as nat, |j: int| (i + j) as nat));
    } else {
        let t = outcomes[i as int]->Ok_0;
        lemma_run_fails_from(len, outcomes, k, i + 1, output + t);
        assert(requested(len, step, rest) =~= Seq::new((k + 1 - i) as nat, |j: int| (i + j) as nat));
    }
}

proof fn lemma_failed_stays(len: nat, e: Error, outcomes: Seq<Result<Seq<String>, Error>>)
    ensures
        run_steps(len, StepModel::Failed(e), outcomes) == StepModel::Failed(e),
        requested(len, StepModel::Failed(e), outcomes) == Seq::<nat>::empty(),
    decreases outcomes.len(),
{
    if outcomes.len() > 0 {
        lemma_failed_stays(len, e, outcomes.drop_first());
    }
}

/// When the translation of fragment `k` fails after those of all earlier
/// fragments succeeded, the run fails with that error, and it asks for
/// fragments `0` to `k` only, whatever the later outcomes would have been.
pub proof fn lemma_run_stops_at_failure(len: nat, outcomes: Seq<Result<Seq<String>, Error>>, k: nat)
    requires
        k < len,
        k < outcomes.len(),
        forall|j: int| 0 <= j < k ==> (#[trigger] outcomes[j]) is Ok,
        outcomes[k as int] is Err,
    ensures
        run_steps(len, start_step(len), outcomes) == StepModel::Failed(outcomes[k as int]->Err_0),
        requested(len, start_step(len), outcomes) == Seq::new(k + 1, |j: int| j as nat),
{
    assert(outcomes.skip(0) =~= outcomes);
    lemma_run_fails_from(len, outcomes, k, 0, seq![]);
    assert(Seq::new((k + 1 - 0) as nat, |j: int| (0 + j) as nat) =~= Seq::new(
        k + 1,
        |j: int| j as nat,
    ));
}

} // verus!
