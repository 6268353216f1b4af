//! Which weights a squad fights with.
//!
//! A strategy says when it applies and which weights it brings; of a list of strategies the first that
//! applies decides. What the kernel prices is not touched by this.
use crate::force_sizing::AssaultMode;
use crate::kernel::KernelParams;
use crate::lists::{alone, with};
use vstd::prelude::*;

verus! {

/// What kind of objective a squad has.
#[derive(Clone, Copy, Debug, PartialEq, Eq, Structural)]
pub enum CombatObjectiveClass {
    /// Creeps in the open.
    OpenCombat,
    /// A structure behind ramparts.
    StructureBreach,
}

/// What is known of the target room.
#[derive(Clone, Copy, Debug, PartialEq, Eq, Structural)]
pub struct StrategyInfo {
    /// Nothing there can be damaged.
    pub enemy_safe_mode: bool,
    /// How the base is to be attacked, where that was assessed.
    pub assault_mode: Option<AssaultMode>,
}

impl Default for StrategyInfo {
    fn default() -> (info: Self)
        ensures
            info == (StrategyInfo { enemy_safe_mode: false, assault_mode: None }),
    {
        StrategyInfo { enemy_safe_mode: false, assault_mode: None }
    }
}

/// What a strategy is chosen by.
#[derive(Clone, Copy, Debug, PartialEq, Eq, Structural)]
pub struct StrategyContext {
    pub class: CombatObjectiveClass,
    pub info: StrategyInfo,
}

/// The weights that a squad fights with.
#[derive(Clone, Copy, Debug, PartialEq, Eq, Structural)]
pub struct SquadTacticParams {
    pub kernel: KernelParams,
}

impl Default for SquadTacticParams {
    fn default() -> (p: Self)
        ensures
            p.kernel == (KernelParams {
                approach_coef: 2,
                incumbency_coef: 3,
                discohesion_coef: 10,
                cohesion_k: 3,
                spacing_coef: 1,
            }),
    {
        SquadTacticParams { kernel: KernelParams::default() }
    }
}

/// Weights for the open: keep the distance, hold the tiles to fire from, stay together, but not on top
/// of each other.
pub open spec fn open_weights() -> SquadTacticParams {
    SquadTacticParams {
        kernel: KernelParams {
            approach_coef: 1,
            incumbency_coef: 6,
            discohesion_coef: 20,
            cohesion_k: 2,
            spacing_coef: 2,
        },
    }
}

/// Weights for a breach: hold less, so that the squad gets next to the ramparts.
pub open spec fn breach_weights() -> SquadTacticParams {
    SquadTacticParams {
        kernel: KernelParams {
            approach_coef: 1,
            incumbency_coef: 4,
            discohesion_coef: 10,
            cohesion_k: 3,
            spacing_coef: 1,
        },
    }
}

/// Weights for a breach that drains the towers first: hold longer.
pub open spec fn drain_weights() -> SquadTacticParams {
    SquadTacticParams {
        kernel: KernelParams {
            approach_coef: 1,
            incumbency_coef: 6,
            discohesion_coef: 10,
            cohesion_k: 3,
            spacing_coef: 1,
        },
    }
}

impl SquadTacticParams {
    /// Weights for the open.
    pub fn open_combat() -> (p: Self)
        ensures
            p == open_weights(),
    {
        SquadTacticParams {
            kernel: KernelParams {
                approach_coef: 1,
                incumbency_coef: 6,
                discohesion_coef: 20,
                cohesion_k: 2,
                spacing_coef: 2,
            },
        }
    }

    /// Weights for a breach.
    pub fn breach() -> (p: Self)
        ensures
            p == breach_weights(),
    {
        SquadTacticParams {
            kernel: KernelParams {
                approach_coef: 1,
                incumbency_coef: 4,
                discohesion_coef: 10,
                cohesion_k: 3,
                spacing_coef: 1,
            },
        }
    }

    /// Weights for a breach that drains the towers first.
    pub fn breach_drain() -> (p: Self)
        ensures
            p == drain_weights(),
    {
        SquadTacticParams {
            kernel: KernelParams {
                approach_coef: 1,
                incumbency_coef: 6,
                discohesion_coef: 10,
                cohesion_k: 3,
                spacing_coef: 1,
            },
        }
    }
}

/// A strategy: when it applies, and the weights that it brings. Each strategy states these of itself; one
/// that states nothing never applies.
pub trait CombatStrategy: Sync {
    /// Its name.
    open spec fn title(&self) -> Seq<char> {
        Seq::empty()
    }

    /// When it applies.
    open spec fn fits(&self, ctx: StrategyContext) -> bool {
        false
    }

    /// The weights that it brings.
    open spec fn weights(&self) -> SquadTacticParams {
        open_weights()
    }

    /// Its name.
    fn name(&self) -> (n: &'static str)
        ensures
            n@ == self.title(),
    ;

    /// Whether it applies.
    fn applies(&self, ctx: &StrategyContext) -> (yes: bool)
        ensures
            yes == self.fits(*ctx),
    ;

    /// The weights that it brings.
    fn profile(&self) -> (p: SquadTacticParams)
        ensures
            p == self.weights(),
    ;
}

/// In the open.
pub struct OpenCombat;

impl CombatStrategy for OpenCombat {
    open spec fn title(&self) -> Seq<char> {
        "open-combat"@
    }

    open spec fn fits(&self, ctx: StrategyContext) -> bool {
        ctx.class == CombatObjectiveClass::OpenCombat
    }

    open spec fn weights(&self) -> SquadTacticParams {
        open_weights()
    }

    fn name(&self) -> (n: &'static str) {
        "open-combat"
    }

    fn applies(&self, ctx: &StrategyContext) -> (yes: bool) {
        ctx.class == CombatObjectiveClass::OpenCombat
    }

    fn profile(&self) -> (p: SquadTacticParams) {
        SquadTacticParams::open_combat()
    }
}

/// A base under safe mode takes no damage: keep away from it until that ends.
pub struct SafeModeHold;

impl CombatStrategy for SafeModeHold {
    open spec fn title(&self) -> Seq<char> {
        "safe-mode-hold"@
    }

    open spec fn fits(&self, ctx: StrategyContext) -> bool {
        ctx.class == CombatObjectiveClass::StructureBreach && ctx.info.enemy_safe_mode
    }

    open spec fn weights(&self) -> SquadTacticParams {
        open_weights()
    }

    fn name(&self) -> (n: &'static str) {
        "safe-mode-hold"
    }

    fn applies(&self, ctx: &StrategyContext) -> (yes: bool) {
        ctx.class == CombatObjectiveClass::StructureBreach && ctx.info.enemy_safe_mode
    }

    fn profile(&self) -> (p: SquadTacticParams) {
        SquadTacticParams::open_combat()
    }
}

/// A breach for which the towers are to be drained.
pub struct DrainBreach;

impl CombatStrategy for DrainBreach {
    open spec fn title(&self) -> Seq<char> {
        "drain-breach"@
    }

    open spec fn fits(&self, ctx: StrategyContext) -> bool {
        ctx.class == CombatObjectiveClass::StructureBreach && ctx.info.assault_mode == Some(
            AssaultMode::Drain,
        )
    }

    open spec fn weights(&self) -> SquadTacticParams {
        drain_weights()
    }

    fn name(&self) -> (n: &'static str) {
        "drain-breach"
    }

    fn applies(&self, ctx: &StrategyContext) -> (yes: bool) {
        ctx.class == CombatObjectiveClass::StructureBreach && matches!(
            ctx.info.assault_mode,
            Some(AssaultMode::Drain)
        )
    }

    fn profile(&self) -> (p: SquadTacticParams) {
        SquadTacticParams::breach_drain()
    }
}

/// Any other breach.
pub struct Breach;

impl CombatStrategy for Breach {
    open spec fn title(&self) -> Seq<char> {
        "breach"@
    }

    open spec fn fits(&self, ctx: StrategyContext) -> bool {
        ctx.class == CombatObjectiveClass::StructureBreach
    }

    open spec fn weights(&self) -> SquadTacticParams {
        breach_weights()
    }

    fn name(&self) -> (n: &'static str) {
        "breach"
    }

    fn applies(&self, ctx: &StrategyContext) -> (yes: bool) {
        ctx.class == CombatObjectiveClass::StructureBreach
    }

    fn profile(&self) -> (p: SquadTacticParams) {
        SquadTacticParams::breach()
    }
}

/// The strategies are the standard ones: hold under safe mode, drain, breach, fight in the open.
pub open spec fn is_standard(strategies: Seq<Box<dyn CombatStrategy>>) -> bool {
    &&& strategies.len() == 4
    &&& forall|ctx: StrategyContext| #[trigger]
        strategies[0].fits(ctx) == SafeModeHold.fits(ctx)
    &&& forall|ctx: StrategyContext| #[trigger] strategies[1].fits(ctx) == DrainBreach.fits(ctx)
    &&& forall|ctx: StrategyContext| #[trigger] strategies[2].fits(ctx) == Breach.fits(ctx)
    &&& forall|ctx: StrategyContext| #[trigger] strategies[3].fits(ctx) == OpenCombat.fits(ctx)
    &&& strategies[0].weights() == open_weights()
    &&& strategies[1].weights() == drain_weights()
    &&& strategies[2].weights() == breach_weights()
    &&& strategies[3].weights() == open_weights()
    &&& strategies[0].title() == SafeModeHold.title()
    &&& strategies[1].title() == DrainBreach.title()
    &&& strategies[2].title() == Breach.title()
    &&& strategies[3].title() == OpenCombat.title()
}

/// The standard strategies, in order of priority.
pub fn default_strategies() -> (strategies: Vec<Box<dyn CombatStrategy>>)
    ensures
        is_standard(strategies@),
{
    let hold: Box<dyn CombatStrategy> = Box::new(SafeModeHold);
    let drain: Box<dyn CombatStrategy> = Box::new(DrainBreach);
    let breach: Box<dyn CombatStrategy> = Box::new(Breach);
    let open: Box<dyn CombatStrategy> = Box::new(OpenCombat);
    assert(forall|ctx: StrategyContext| #[trigger] hold.fits(ctx) == SafeModeHold.fits(ctx));
    assert(hold.weights() == open_weights());
    assert(hold.title() == SafeModeHold.title());
    assert(forall|ctx: StrategyContext| #[trigger] drain.fits(ctx) == DrainBreach.fits(ctx));
    assert(drain.weights() == drain_weights());
    assert(drain.title() == DrainBreach.title());
    assert(forall|ctx: StrategyContext| #[trigger] breach.fits(ctx) == Breach.fits(ctx));
    assert(breach.weights() == breach_weights());
    assert(breach.title() == Breach.title());
    assert(forall|ctx: StrategyContext| #[trigger] open.fits(ctx) == OpenCombat.fits(ctx));
    assert(open.weights() == open_weights());
    assert(open.title() == OpenCombat.title());
    let list = alone(hold);
    assert(list@[0] == hold);
    let list = with(drain, list);
    assert(list@[1] == drain);
    let list = with(breach, list);
    assert(list@[2] == breach);
    let list = with(open, list);
    assert(list@[3] == open);
    list
}

/// The weights of the first strategy from `i` on that applies; those for the open where none does.
pub open spec fn first_weights(
    strategies: Seq<Box<dyn CombatStrategy>>,
    ctx: StrategyContext,
    i: int,
) -> SquadTacticParams
    decreases strategies.len() - i,
{
    if i >= strategies.len() {
        open_weights()
    } else if strategies[i].fits(ctx) {
        strategies[i].weights()
    } else {
        first_weights(strategies, ctx, i + 1)
    }
}

/// The weights of the first strategy that applies; those for the open where none does.
pub fn decide_strategy(ctx: &StrategyContext, strategies: &[Box<dyn CombatStrategy>]) -> (p:
    SquadTacticParams)
    ensures
        p == first_weights(strategies@, *ctx, 0),
{
    let mut i: usize = 0;
    while i < strategies.len()
        invariant
            i <= strategies@.len(),
            first_weights(strategies@, *ctx, 0) == first_weights(strategies@, *ctx, i as int),
        decreases strategies@.len() - i,
    {
        if strategies[i].applies(ctx) {
            return strategies[i].profile();
        }
        i = i + 1;
    }
    SquadTacticParams::open_combat()
}

/// With the standard strategies, safe mode overrules every breach; else a breach drains where that was
/// chosen, and goes straight in where not; and one of them always applies.
pub proof fn law_standard_choice(strategies: Seq<Box<dyn CombatStrategy>>, ctx: StrategyContext)
    requires
        is_standard(strategies),
    ensures
        first_weights(strategies, ctx, 0) == match ctx.class {
            CombatObjectiveClass::OpenCombat => open_weights(),
            CombatObjectiveClass::StructureBreach => if ctx.info.enemy_safe_mode {
                open_weights()
            } else if ctx.info.assault_mode == Some(AssaultMode::Drain) {
                drain_weights()
            } else {
                breach_weights()
            },
        },
        exists|i: int| 0 <= i < strategies.len() && #[trigger] strategies[i].fits(ctx),
{
    reveal_with_fuel(first_weights, 5);
    assert(strategies[2].fits(ctx) || strategies[3].fits(ctx));
}

/// The weights of the strategies: all pull alike towards the objective. In the open and in a drain a squad
/// holds its tiles harder than in a breach; in the open it keeps together more closely, and apart more.
pub proof fn law_weights_of_the_strategies(ctx: StrategyContext, strategies: Seq<Box<dyn CombatStrategy>>)
    requires
        is_standard(strategies),
    ensures
        ({
            let w = first_weights(strategies, ctx, 0).kernel;
            let breach = ctx.class == CombatObjectiveClass::StructureBreach && !ctx.info.enemy_safe_mode;
            let drain = breach && ctx.info.assault_mode == Some(AssaultMode::Drain);
            &&& w.approach_coef == 1
            &&& w.incumbency_coef == if breach && !drain {
                4int
            } else {
                6
            }
            &&& w.discohesion_coef == if breach {
                10int
            } else {
                20
            }
            &&& w.cohesion_k == if breach {
                3int
            } else {
                2
            }
            &&& w.spacing_coef == if breach {
                1int
            } else {
                2
            }
        }),
{
    law_standard_choice(strategies, ctx);
}

/// The first strategy that fits is taken, and where none does a squad fights as in the open.
pub proof fn law_first_fit_is_taken(
    strategies: Seq<Box<dyn CombatStrategy>>,
    ctx: StrategyContext,
    from: int,
    k: int,
)
    requires
        0 <= from <= k <= strategies.len(),
        forall|i: int| from <= i < k ==> !(#[trigger] strategies[i]).fits(ctx),
    ensures
        k < strategies.len() && strategies[k].fits(ctx) ==> first_weights(strategies, ctx, from)
            == strategies[k].weights(),
        k == strategies.len() ==> first_weights(strategies, ctx, from) == open_weights(),
    decreases k - from,
{
    if from < k {
        assert(!strategies[from].fits(ctx));
        law_first_fit_is_taken(strategies, ctx, from + 1, k);
    }
}

/// The standard strategies, in the order in which they are tried: holding under safe mode, breaching after a
/// drain, breaching, and fighting in the open.
pub proof fn law_strategies_are_tried_in_order(strategies: Seq<Box<dyn CombatStrategy>>, ctx: StrategyContext)
    requires
        is_standard(strategies),
    ensures
        strategies.len() == 4,
        strategies[0].title() == "safe-mode-hold"@,
        strategies[1].title() == "drain-breach"@,
        strategies[2].title() == "breach"@,
        strategies[3].title() == "open-combat"@,
        strategies[0].fits(ctx) <==> ctx.class != CombatObjectiveClass::OpenCombat
            && ctx.info.enemy_safe_mode,
        strategies[1].fits(ctx) <==> ctx.class != CombatObjectiveClass::OpenCombat
            && ctx.info.assault_mode == Some(AssaultMode::Drain),
        strategies[2].fits(ctx) <==> ctx.class != CombatObjectiveClass::OpenCombat,
        strategies[3].fits(ctx) <==> ctx.class == CombatObjectiveClass::OpenCombat,
{
}

}
