//! A live decode step, one stretch of operations at a time. Where the host chooses
//! the experts, each layer stops for that choice, and goes on with what it came to.

use crate::plan::Plan;
use crate::schedule::{Mode, Op};
use vstd::prelude::*;

verus! {

/// Where a decode step stands.
#[derive(Clone, Copy, Debug, PartialEq, Eq)]
pub enum Stage {
    /// A layer is next, or the end if there is none left.
    Layer,
    /// The host is to choose the experts of the layer.
    Choice,
    /// All layers are done.
    Tail,
    /// Everything is done.
    Finished,
}

/// What the host's choice of experts came to: how many pairs the device computes,
/// and whether the host computes some.
#[derive(Clone, Copy, Debug, PartialEq, Eq)]
pub struct Chosen {
    pub n_pairs: usize,
    pub any_host: bool,
}

/// What to do next.
pub enum Action {
    /// Issue these operations.
    Run(Vec<Op>),
    /// Issue these operations, and choose the experts of the layer.
    Choose(usize, Vec<Op>),
    /// Nothing more.
    Done,
}

/// A decode step of `n` sequences.
pub struct Driver {
    pub n: usize,
    /// How many positions attention may reach.
    pub span: usize,
    /// Whether the device chooses the experts.
    pub device: bool,
    /// Whether the device chooses the next tokens.
    pub sample: bool,
    pub layer: usize,
    pub stage: Stage,
}

/// A live step with nothing left out.
pub open spec fn live() -> Mode {
    Mode {
        live: true,
        skip_attn: false,
        skip_dense: false,
        skip_moe: false,
        skip_lm_head: false,
    }
}

/// A live step with nothing left out.
pub fn live_mode() -> (r: Mode)
    ensures
        r == live(),
{
    Mode {
        live: true,
        skip_attn: false,
        skip_dense: false,
        skip_moe: false,
        skip_lm_head: false,
    }
}

/// The choices as numbers of pairs, and whether the host has some.
pub open spec fn as_work(choices: Seq<Chosen>) -> Seq<(usize, bool)> {
    Seq::new(choices.len(), |i: int| (choices[i].n_pairs, choices[i].any_host))
}

impl Action {
    /// The operations to issue.
    pub open spec fn ops(&self) -> Seq<Op> {
        match self {
            Action::Run(ops) => ops@,
            Action::Choose(_, ops) => ops@,
            Action::Done => seq![],
        }
    }
}

impl Driver {
    /// The layer is one that there is, or the one behind the last.
    pub open spec fn wf(&self, plan: Plan) -> bool {
        &&& plan.wf()
        &&& self.device ==> plan.step_fits(self.n)
        &&& self.layer <= plan.layers@.len()
        &&& self.stage is Choice ==> !self.device && self.layer < plan.layers@.len()
        &&& self.stage is Layer && self.device ==> self.layer == 0
        &&& (self.stage is Tail || self.stage is Finished) && !self.device ==> self.layer
            == plan.layers@.len()
    }

    /// What the whole of the layers issues, given the choices made for them.
    pub open spec fn all_layers(&self, plan: Plan, choices: Seq<Chosen>) -> Seq<Op> {
        if self.device {
            plan.layers_upto(plan.layers@.len() as int, self.n, self.span, live())
        } else {
            crate::schedule_flow::host_layers(
                plan,
                plan.layers@.len() as int,
                self.n,
                self.span,
                live(),
                as_work(choices),
            )
        }
    }

    /// The operations of the whole step, given the choices made for its layers.
    pub open spec fn whole(&self, plan: Plan, choices: Seq<Chosen>) -> Seq<Op> {
        self.all_layers(plan, choices) + plan.tail(self.n, live()) + plan.finish(
            self.n,
            self.sample,
        )
    }

    /// The operations issued so far, given the choices made so far.
    pub open spec fn issued(&self, plan: Plan, choices: Seq<Chosen>) -> Seq<Op> {
        let before = crate::schedule_flow::host_layers(
            plan,
            self.layer as int,
            self.n,
            self.span,
            live(),
            as_work(choices),
        );
        match self.stage {
            Stage::Layer => if self.device {
                seq![]
            } else {
                before
            },
            Stage::Choice => before + plan.front(self.layer as int, self.n, self.span, live())
                + plan.host_choice(self.n),
            Stage::Tail => self.all_layers(plan, choices),
            Stage::Finished => self.whole(plan, choices),
        }
    }

    /// What never changes is as it was.
    pub open spec fn same_step(&self, other: &Driver) -> bool {
        &&& self.n == other.n
        &&& self.span == other.span
        &&& self.device == other.device
        &&& self.sample == other.sample
    }

    /// Where the step stands behind the next action: at which layer, and at which of
    /// its stages.
    pub open spec fn after(&self, plan: Plan) -> (int, Stage) {
        match self.stage {
            Stage::Layer => if self.device {
                (self.layer as int, Stage::Tail)
            } else if self.layer < plan.layers@.len() {
                (self.layer as int, Stage::Choice)
            } else {
                (self.layer as int, Stage::Finished)
            },
            Stage::Choice => (self.layer + 1, Stage::Layer),
            Stage::Tail | Stage::Finished => (self.layer as int, Stage::Finished),
        }
    }

    /// The beginning of a step.
    pub fn start(plan: &Plan, n: usize, span: usize, device: bool, sample: bool) -> (r: Driver)
        requires
            plan.wf(),
            device ==> plan.step_fits(n),
        ensures
            r.wf(*plan),
            r.n == n,
            r.span == span,
            r.device == device,
            r.sample == sample,
            r.issued(*plan, seq![]) == Seq::<Op>::empty(),
            r.stage is Layer,
            r.layer == 0,
    {
        Driver { n, span, device, sample, layer: 0, stage: Stage::Layer }
    }

    /// What to do next. Behind a choice of experts, `chosen` says what it came to.
    pub fn next(&mut self, plan: &Plan, chosen: Chosen) -> (r: Action)
        requires
            old(self).wf(*plan),
        ensures
            final(self).wf(*plan),
            final(self).same_step(old(self)),
            (final(self).layer as int, final(self).stage) == old(self).after(*plan),
            r is Done <==> old(self).stage is Finished,
            r is Choose <==> final(self).stage is Choice,
            r is Choose ==> r->Choose_0 == final(self).layer,
            forall|choices: Seq<Chosen>|
                choices.len() == old(self).layer ==> final(self).issued(
                    *plan,
                    if old(self).stage is Choice {
                        choices.push(chosen)
                    } else {
                        choices
                    },
                ) == #[trigger] old(self).issued(*plan, choices) + r.ops(),
    {
        let mode = live_mode();
        match self.stage {
            Stage::Layer => {
                if self.device {
                    let ops = plan.layer_ops(self.n, self.span, mode);
                    self.stage = Stage::Tail;
                    proof {
                        let s = old(self);
                        assert forall|choices: Seq<Chosen>|
                            choices.len() == s.layer implies self.issued(*plan, choices)
                            == #[trigger] s.issued(*plan, choices) + ops@ by {
                            assert(seq![] + ops@ =~= ops@);
                        }
                    }
                    Action::Run(ops)
                } else if self.layer < plan.layers.len() {
                    let ops = plan.front_ops(self.layer, self.n, self.span, mode);
                    self.stage = Stage::Choice;
                    proof {
                        let s = old(self);
                        assert forall|choices: Seq<Chosen>|
                            choices.len() == s.layer implies self.issued(*plan, choices)
                            == #[trigger] s.issued(*plan, choices) + ops@ by {
                            assert(self.issued(*plan, choices) =~= s.issued(*plan, choices) + ops@);
                        }
                    }
                    Action::Choose(self.layer, ops)
                } else {
                    let ops = plan.tail_ops(self.n, mode, self.sample);
                    self.stage = Stage::Finished;
                    proof {
                        let s = old(self);
                        assert forall|choices: Seq<Chosen>|
                            choices.len() == s.layer implies self.issued(*plan, choices)
                            == #[trigger] s.issued(*plan, choices) + ops@ by {
                            assert(self.issued(*plan, choices) =~= s.issued(*plan, choices) + ops@);
                        }
                    }
                    Action::Run(ops)
                }
            },
            Stage::Choice => {
                let ops = plan.host_ops(self.layer, self.n, chosen.n_pairs, chosen.any_host);
                self.layer = self.layer + 1;
                self.stage = Stage::Layer;
                proof {
                    let s = old(self);
                    assert forall|choices: Seq<Chosen>|
                        choices.len() == s.layer implies self.issued(
                        *plan,
                        choices.push(chosen),
                    ) == #[trigger] s.issued(*plan, choices) + ops@ by {
                        lemma_same_layers(
                            *plan,
                            s.layer as int,
                            s.n,
                            s.span,
                            as_work(choices),
                            as_work(choices.push(chosen)),
                        );
                        assert(as_work(choices.push(chosen))[s.layer as int] == (
                            chosen.n_pairs,
                            chosen.any_host,
                        ));
                        assert(self.issued(*plan, choices.push(chosen)) =~= s.issued(*plan, choices)
                            + ops@);
                    }
                }
                Action::Run(ops)
            },
            Stage::Tail => {
                let ops = plan.tail_ops(self.n, mode, self.sample);
                self.stage = Stage::Finished;
                proof {
                    let s = old(self);
                    assert forall|choices: Seq<Chosen>|
                        choices.len() == s.layer implies self.issued(*plan, choices)
                        == #[trigger] s.issued(*plan, choices) + ops@ by {
                        assert(self.issued(*plan, choices) =~= s.issued(*plan, choices) + ops@);
                    }
                }
                Action::Run(ops)
            },
            Stage::Finished => {
                proof {
                    let s = old(self);
                    assert forall|choices: Seq<Chosen>|
                        choices.len() == s.layer implies self.issued(*plan, choices)
                        == #[trigger] s.issued(*plan, choices) + seq![] by {
                        assert(self.issued(*plan, choices) =~= s.issued(*plan, choices) + seq![]);
                    }
                }
                Action::Done
            },
        }
    }
}

proof fn lemma_same_layers(
    plan: Plan,
    l: int,
    n: usize,
    span: usize,
    a: Seq<(usize, bool)>,
    b: Seq<(usize, bool)>,
)
    requires
        0 <= l <= a.len(),
        l <= b.len(),
        forall|i: int| 0 <= i < l ==> a[i] == b[i],
    ensures
        crate::schedule_flow::host_layers(plan, l, n, span, live(), a)
            == crate::schedule_flow::host_layers(plan, l, n, span, live(), b),
    decreases l,
{
    if l > 0 {
        lemma_same_layers(plan, l - 1, n, span, a, b);
    }
}

/// A finished step has issued the whole schedule for the choices that were made, and
/// read nothing before it was written.
pub proof fn finished_step_is_whole(plan: Plan, driver: Driver, choices: Seq<Chosen>)
    requires
        plan.wf(),
        driver.stage is Finished,
    ensures
        driver.issued(plan, choices) == driver.whole(plan, choices),
        crate::schedule_flow::flows(
            plan,
            driver.issued(plan, choices),
            if driver.device {
                crate::schedule_flow::device_inputs()
            } else {
                crate::schedule_flow::given_inputs()
            },
        ),
{
    crate::schedule_flow::live_step_flows(plan, driver.n, driver.span, live(), driver.sample);
    crate::schedule_flow::host_step_flows(
        plan,
        driver.n,
        driver.span,
        live(),
        as_work(choices),
        driver.sample,
    );
}

/// The whole of a step is all its layers, with the experts chosen where the step says, then
/// the scores of the tokens, and last the next tokens or these scores. It is issued live,
/// with nothing left out.
pub proof fn whole_steps_are_issued_live(plan: Plan, driver: Driver, choices: Seq<Chosen>)
    ensures
        ({
            let mode = Mode {
                live: true,
                skip_attn: false,
                skip_dense: false,
                skip_moe: false,
                skip_lm_head: false,
            };
            let all = plan.layers@.len() as int;
            let work = Seq::new(
                choices.len(),
                |i: int| (choices[i].n_pairs, choices[i].any_host),
            );
            let end = plan.tail(driver.n, mode) + seq![
                if driver.sample {
                    Op::Sample { n: driver.n }
                } else {
                    Op::DownloadLogits { n: driver.n }
                },
            ];
            &&& driver.device ==> driver.whole(plan, choices) == plan.layers_upto(
                all,
                driver.n,
                driver.span,
                mode,
            ) + end
            &&& !driver.device ==> driver.whole(plan, choices)
                == crate::schedule_flow::host_layers(plan, all, driver.n, driver.span, mode, work)
                + end
        }),
{
    let end = plan.tail(driver.n, live()) + plan.finish(driver.n, driver.sample);
    assert(driver.whole(plan, choices) =~= driver.all_layers(plan, choices) + end);
    assert(as_work(choices) =~= Seq::new(
        choices.len(),
        |i: int| (choices[i].n_pairs, choices[i].any_host),
    ));
}

} // verus!
