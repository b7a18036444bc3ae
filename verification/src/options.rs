//! The checker's configuration: engine choice and per-engine settings.
use vstd::prelude::*;

verus! {

/// The model checking engine.
#[derive(Clone, Copy, Debug, PartialEq, Eq, Structural)]
pub enum Engine {
    /// IC3
    IC3,
    /// k-induction
    Kind,
    /// bounded model checking
    BMC,
    /// several engines at once
    Portfolio,
}

/// IC3 settings.
#[derive(Clone, Debug)]
pub struct IC3Options {
    /// dynamic generalization
    pub dynamic: bool,
    /// counterexample to generalization
    pub ctg: bool,
    /// most counterexamples to generalization in a row
    pub ctg_max: usize,
    /// depth of counterexample to generalization
    pub ctg_limit: usize,
    /// counterexample to propagation
    pub ctp: bool,
    /// internal signals
    pub inn: bool,
    /// abstract constraints
    pub abs_cst: bool,
}

/// Bounded model checking settings.
#[derive(Clone, Debug)]
pub struct BMCOptions {
    /// time limit of one step, in seconds
    pub time_limit: Option<u64>,
    /// use the kissat solver rather than cadical
    pub bmc_kissat: bool,
}

/// k-induction settings.
#[derive(Clone, Debug)]
pub struct KindOptions {
    /// no bounded check inside k-induction
    pub no_bmc: bool,
    /// use the kissat solver rather than cadical
    pub kind_kissat: bool,
    /// simple path constraint
    pub simple_path: bool,
}

/// Preprocessing settings.
#[derive(Clone, Debug)]
pub struct PreprocessOptions {
    /// sequential equivalence preprocessing
    pub sec: bool,
    /// no abc preprocessing
    pub no_abc: bool,
}

/// The whole configuration.
#[derive(Clone, Debug)]
pub struct Options {
    /// model checking engine
    pub engine: Engine,
    /// model file
    pub model: String,
    /// certificate output path
    pub certifaiger_path: Option<String>,
    /// certify the result
    pub certify: bool,
    /// print a witness when the model is unsafe
    pub witness: bool,
    pub ic3: IC3Options,
    pub bmc: BMCOptions,
    pub kind: KindOptions,
    pub preprocess: PreprocessOptions,
    /// step length
    pub step: u32,
    /// random seed
    pub rseed: u64,
    /// verbosity
    pub verbose: usize,
    /// print statistics when interrupted
    pub interrupt_statistic: bool,
}

impl IC3Options {
    /// The default IC3 settings.
    pub fn new() -> (o: IC3Options)
        ensures
            !o.dynamic && !o.ctg && o.ctg_max == 3 && o.ctg_limit == 1 && !o.ctp && !o.inn && !o.abs_cst,
    {
        IC3Options { dynamic: false, ctg: false, ctg_max: 3, ctg_limit: 1, ctp: false, inn: false, abs_cst: false }
    }
}

impl Options {
    /// The default configuration for `model`: the portfolio engine, step
    /// one, seed zero, verbosity one, everything else off.
    pub fn new(model: String) -> (o: Options)
        ensures
            o.engine == Engine::Portfolio,
            o.model == model,
            o.certifaiger_path is None,
            !o.certify,
            !o.witness,
            !o.ic3.dynamic && !o.ic3.ctg && o.ic3.ctg_max == 3 && o.ic3.ctg_limit == 1 && !o.ic3.ctp && !o.ic3.inn && !o.ic3.abs_cst,
            o.bmc.time_limit is None && !o.bmc.bmc_kissat,
            !o.kind.no_bmc && !o.kind.kind_kissat && !o.kind.simple_path,
            !o.preprocess.sec && !o.preprocess.no_abc,
            o.step == 1,
            o.rseed == 0,
            o.verbose == 1,
            !o.interrupt_statistic,
    {
        Options {
            engine: Engine::Portfolio,
            model,
            certifaiger_path: None,
            certify: false,
            witness: false,
            ic3: IC3Options::new(),
            bmc: BMCOptions { time_limit: None, bmc_kissat: false },
            kind: KindOptions { no_bmc: false, kind_kissat: false, simple_path: false },
            preprocess: PreprocessOptions { sec: false, no_abc: false },
            step: 1,
            rseed: 0,
            verbose: 1,
            interrupt_statistic: false,
        }
    }
}

} // verus!
