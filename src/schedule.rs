use vstd::prelude::*;

verus! {

/// The options of a training pass that decide, example by example, what is
/// predicted, what updates the weights and what is reported.
#[derive(Clone, Copy, Debug, PartialEq, Eq, Structural)]
pub struct RunOptions {
    /// Never update the weights.
    pub testonly: bool,
    /// Report predictions only for examples numbered above this.
    pub predictions_after: u64,
    /// Examples numbered this or above do not update the weights (without delay).
    pub holdout_after: Option<u64>,
    /// Update with the feature buffer of this many examples ago; zero updates at once.
    pub prediction_model_delay: u64,
}

/// What to do with one example, numbered from one in input order.
pub struct ExamplePlan<T> {
    /// The example's number.
    pub example_num: u64,
    /// Run the model on the example's own feature buffer.
    pub run_current: bool,
    /// When running on the current buffer, also update the weights.
    pub update_current: bool,
    /// A buffer of an earlier example to run the model on now.
    pub delayed: Option<T>,
    /// When running on the delayed buffer, also update the weights.
    pub update_delayed: bool,
    /// Report the prediction for this example.
    pub emit_prediction: bool,
}

/// Whether the model runs on example `n`'s own buffer.
pub open spec fn runs_current(o: RunOptions, n: int) -> bool {
    o.prediction_model_delay == 0 || n > o.predictions_after
}

/// Whether example `n` updates the weights with its own buffer.
pub open spec fn updates_current(o: RunOptions, n: int) -> bool {
    &&& o.prediction_model_delay == 0
    &&& !o.testonly
    &&& match o.holdout_after {
        Some(h) => n < h,
        None => true,
    }
}

/// Whether the prediction for example `n` is reported.
pub open spec fn emits_prediction(o: RunOptions, n: int) -> bool {
    n > o.predictions_after
}

/// The delayed buffer handed out once the examples `seen` have arrived: with a
/// delay `d > 0`, the buffer of example `n - d` when the `n`-th arrives, and none
/// for the first `d` examples.
pub open spec fn delayed_buffer<T>(o: RunOptions, seen: Seq<T>) -> Option<T> {
    if o.prediction_model_delay > 0 && seen.len() > o.prediction_model_delay {
        Some(seen[seen.len() - 1 - o.prediction_model_delay])
    } else {
        None
    }
}

/// With a delay `d > 0`, no example updates the weights with its own buffer; the
/// first `d` examples bring no update at all; and the update made when example `n`
/// arrives uses the feature buffer of example `n - d` (numbering from one).
pub proof fn lemma_delay_semantics<T>(o: RunOptions, seen: Seq<T>)
    requires
        o.prediction_model_delay > 0,
    ensures
        forall|n: int| !#[trigger] updates_current(o, n),
        seen.len() <= o.prediction_model_delay ==> delayed_buffer(o, seen) is None,
        seen.len() > o.prediction_model_delay ==> delayed_buffer(o, seen) == Some(
            seen[(seen.len() - o.prediction_model_delay) - 1],
        ),
{
}

/// Without delay, an example numbered `h` or above, with `holdout_after = h`,
/// never updates the weights, whether or not testing only.
pub proof fn lemma_holdout<T>(o: RunOptions, h: u64, n: int, seen: Seq<T>)
    requires
        o.prediction_model_delay == 0,
        o.holdout_after == Some(h),
        n >= h,
    ensures
        !updates_current(o, n),
        !updates_current(RunOptions { testonly: !o.testonly, ..o }, n),
        delayed_buffer(o, seen) is None,
{
}

/// How many buffers wait for their delayed update once `n` examples have arrived.
pub open spec fn pending_len(o: RunOptions, n: int) -> int {
    if n < o.prediction_model_delay {
        n
    } else {
        o.prediction_model_delay as int
    }
}

/// The per-example decisions of a training pass, with the queue of feature
/// buffers that wait for a delayed update.
pub struct TrainingSchedule<T> {
    options: RunOptions,
    example_num: u64,
    pending: Vec<T>,
    seen: Ghost<Seq<T>>,
}

impl<T> TrainingSchedule<T> {
    /// The options the schedule was made with.
    pub closed spec fn options(&self) -> RunOptions {
        self.options
    }

    /// The buffers of all examples so far, in input order.
    pub closed spec fn seen(&self) -> Seq<T> {
        self.seen@
    }

    /// The buffers that wait for their delayed update, oldest first.
    pub closed spec fn pending(&self) -> Seq<T> {
        self.pending@
    }

    /// The pending buffers are the last ones seen, as many as the delay (or all,
    /// while fewer have arrived).
    pub closed spec fn wf(&self) -> bool {
        let n = self.seen@.len();
        &&& self.example_num as int == n
        &&& self.options.prediction_model_delay == 0 ==> self.pending@.len() == 0
        &&& self.options.prediction_model_delay > 0 ==> self.pending@.len() == pending_len(
            self.options,
            n as int,
        )
        &&& self.pending@ == self.seen@.subrange(n - self.pending@.len(), n as int)
    }

    /// A schedule before the first example.
    pub fn new(options: RunOptions) -> (s: Self)
        ensures
            s.wf(),
            s.options() == options,
            s.seen() == Seq::<T>::empty(),
            s.pending() == Seq::<T>::empty(),
    {
        let s = TrainingSchedule {
            options,
            example_num: 0,
            pending: Vec::new(),
            seen: Ghost(Seq::empty()),
        };
        assert(s.pending@ =~= s.seen@.subrange(0, 0));
        s
    }

    /// How many examples have arrived.
    pub fn examples_seen(&self) -> (n: u64)
        requires
            self.wf(),
        ensures
            n as int == self.seen().len(),
    {
        self.example_num
    }

    /// Takes the feature buffer of the next example and says what to do with it.
    /// Without delay, the model runs on it and updates unless testing only or
    /// holding out. With a delay `d > 0`, it runs on it without update (only when
    /// its prediction is reported) and the buffer of example `n - d`, if any, is
    /// handed back for the one update of this step.
    pub fn next_example(&mut self, fb: T) -> (plan: ExamplePlan<T>)
        requires
            old(self).wf(),
            old(self).seen().len() < u64::MAX,
        ensures
            final(self).wf(),
            final(self).options() == old(self).options(),
            final(self).seen() == old(self).seen().push(fb),
            plan.example_num as int == final(self).seen().len(),
            plan.run_current == runs_current(old(self).options(), plan.example_num as int),
            plan.update_current == updates_current(old(self).options(), plan.example_num as int),
            plan.delayed == delayed_buffer(old(self).options(), final(self).seen()),
            plan.update_delayed == (plan.delayed is Some && !old(self).options().testonly),
            plan.emit_prediction == emits_prediction(old(self).options(), plan.example_num as int),
    {
        let ghost old_seen = self.seen@;
        let n = self.example_num + 1;
        self.example_num = n;
        self.seen = Ghost(self.seen@.push(fb));
        let o = self.options;
        let emit_prediction = n > o.predictions_after;
        if o.prediction_model_delay == 0 {
            let update_current = !o.testonly && match o.holdout_after {
                Some(h) => n < h,
                None => true,
            };
            assert(self.pending@ =~= self.seen@.subrange(n as int, n as int));
            ExamplePlan {
                example_num: n,
                run_current: true,
                update_current,
                delayed: None,
                update_delayed: false,
                emit_prediction,
            }
        } else {
            let ghost seen = self.seen@;
            self.pending.push(fb);
            assert(self.pending@ =~= seen.subrange(n - self.pending@.len(), n as int));
            if (self.pending.len() as u64) > o.prediction_model_delay {
                let delayed = self.pending.remove(0);
                assert(self.pending@ =~= seen.subrange(n - self.pending@.len(), n as int));
                ExamplePlan {
                    example_num: n,
                    run_current: emit_prediction,
                    update_current: false,
                    delayed: Some(delayed),
                    update_delayed: !o.testonly,
                    emit_prediction,
                }
            } else {
                ExamplePlan {
                    example_num: n,
                    run_current: emit_prediction,
                    update_current: false,
                    delayed: None,
                    update_delayed: false,
                    emit_prediction,
                }
            }
        }
    }
}

} // verus!
