//! The portfolio-analysis session as a verified decision function.
//!
//! The analysis itself lives on the far side of broker statements, a quote
//! cache, a database and per-currency performance reports — input and output
//! this library cannot perform.  What the library does own is the order of
//! operations: check the statement's date, batch the quotes, emulate selling
//! every open position, process the trades, emulate the commissions, merge
//! the symbols, then analyse performance for US dollars and for roubles.
//! This module keeps that order as data: the caller performs each returned
//! action, reports how it went, and the step function decides what comes
//! next, aborting the session on the first failure.

use vstd::prelude::*;

verus! {

/// Currencies the performance analysis runs for, in order.
#[derive(Clone, Copy, Debug, PartialEq, Eq, Structural)]
pub enum Currency {
    Usd,
    Rub,
}

/// Where the session stands: the action of this stage is the next to run.
#[derive(Clone, Copy, Debug, PartialEq, Eq, Structural)]
pub enum AnalyseStage {
    CheckDate,
    BatchQuotes,
    SellPositions,
    ProcessTrades,
    EmulateCommissions,
    MergeSymbols,
    AnalysePerformance,
    Done,
    Failed,
}

/// What the caller is asked to do next.  A position is referred to by its
/// index into the caller's list of open positions; every open position is
/// sold in full, in order.
#[derive(Clone, Copy, Debug, PartialEq, Eq, Structural)]
pub enum AnalyseAction {
    CheckDate,
    BatchQuotes,
    EmulateSell { position: usize },
    ProcessTrades,
    EmulateCommissions,
    MergeSymbols,
    AnalysePerformance { currency: Currency, show_closed_positions: bool },
    Finish,
    Abort,
}

/// How the caller's last action went.
#[derive(Clone, Copy, Debug, PartialEq, Eq, Structural)]
pub enum StepOutcome {
    Succeeded,
    Failed,
}

/// The state of one analysis session.
#[derive(Clone, Copy, Debug, PartialEq, Eq, Structural)]
pub struct AnalyseSession {
    pub stage: AnalyseStage,
    pub position_count: usize,
    pub next_position: usize,
    pub next_currency: Currency,
    pub show_closed_positions: bool,
}

/// The stage that follows a completed stage, given the session's counters.
pub open spec fn spec_next_stage(s: AnalyseSession) -> AnalyseStage {
    match s.stage {
        AnalyseStage::CheckDate => AnalyseStage::BatchQuotes,
        AnalyseStage::BatchQuotes => if s.position_count > 0 {
            AnalyseStage::SellPositions
        } else {
            AnalyseStage::ProcessTrades
        },
        AnalyseStage::SellPositions => if s.next_position + 1 < s.position_count {
            AnalyseStage::SellPositions
        } else {
            AnalyseStage::ProcessTrades
        },
        AnalyseStage::ProcessTrades => AnalyseStage::EmulateCommissions,
        AnalyseStage::EmulateCommissions => AnalyseStage::MergeSymbols,
        AnalyseStage::MergeSymbols => AnalyseStage::AnalysePerformance,
        AnalyseStage::AnalysePerformance => if s.next_currency == Currency::Usd {
            AnalyseStage::AnalysePerformance
        } else {
            AnalyseStage::Done
        },
        AnalyseStage::Done => AnalyseStage::Done,
        AnalyseStage::Failed => AnalyseStage::Failed,
    }
}

/// The action belonging to a stage.
pub open spec fn spec_stage_action(s: AnalyseSession) -> AnalyseAction {
    match s.stage {
        AnalyseStage::CheckDate => AnalyseAction::CheckDate,
        AnalyseStage::BatchQuotes => AnalyseAction::BatchQuotes,
        AnalyseStage::SellPositions => AnalyseAction::EmulateSell {
            position: s.next_position,
        },
        AnalyseStage::ProcessTrades => AnalyseAction::ProcessTrades,
        AnalyseStage::EmulateCommissions => AnalyseAction::EmulateCommissions,
        AnalyseStage::MergeSymbols => AnalyseAction::MergeSymbols,
        AnalyseStage::AnalysePerformance => AnalyseAction::AnalysePerformance {
            currency: s.next_currency,
            show_closed_positions: s.show_closed_positions,
        },
        AnalyseStage::Done => AnalyseAction::Finish,
        AnalyseStage::Failed => AnalyseAction::Abort,
    }
}

/// Opens a session over the caller's open positions.  The first action to
/// perform is checking the statement's date.
pub fn analyse_session(position_count: usize, show_closed_positions: bool) -> (s: AnalyseSession)
    ensures
        s.stage == AnalyseStage::CheckDate,
        s.position_count == position_count,
        s.next_position == 0,
        s.next_currency == Currency::Usd,
        s.show_closed_positions == show_closed_positions,
{
    AnalyseSession {
        stage: AnalyseStage::CheckDate,
        position_count,
        next_position: 0,
        next_currency: Currency::Usd,
        show_closed_positions,
    }
}

/// Advances the session by one step: the caller reports how the current
/// stage's action went, and receives the next action to perform.
///
/// A failure at any stage aborts the session.  On success the stages run in
/// the fixed order, selling each open position once and analysing
/// performance for both currencies before the session is done.
pub fn analyse(session: AnalyseSession, outcome: StepOutcome) -> (res: (
    AnalyseSession,
    AnalyseAction,
))
    ensures
        outcome == StepOutcome::Failed && session.stage != AnalyseStage::Done
            && session.stage != AnalyseStage::Failed ==> res.0.stage == AnalyseStage::Failed
            && res.1 == AnalyseAction::Abort,
        outcome == StepOutcome::Succeeded ==> res.0.stage == spec_next_stage(session),
        outcome == StepOutcome::Succeeded ==> res.1 == spec_stage_action(res.0),
        res.0.position_count == session.position_count,
        res.0.show_closed_positions == session.show_closed_positions,
        session.stage == AnalyseStage::SellPositions && outcome == StepOutcome::Succeeded
            ==> res.0.next_position == session.next_position + 1 || (session.next_position + 1
            >= session.position_count && res.0.next_position == session.next_position),
        session.stage == AnalyseStage::AnalysePerformance && outcome == StepOutcome::Succeeded
            && session.next_currency == Currency::Usd ==> res.0.next_currency == Currency::Rub,
        session.stage != AnalyseStage::SellPositions ==> res.0.next_position
            == session.next_position,
        session.stage != AnalyseStage::AnalysePerformance ==> res.0.next_currency
            == session.next_currency,
        outcome == StepOutcome::Failed ==> res.0.next_position == session.next_position
            && res.0.next_currency == session.next_currency,
{
    let mut next = session;
    match outcome {
        StepOutcome::Failed => {
            match session.stage {
                AnalyseStage::Done => {
                    return (next, AnalyseAction::Finish);
                },
                AnalyseStage::Failed => {
                    return (next, AnalyseAction::Abort);
                },
                _ => {
                    next.stage = AnalyseStage::Failed;
                    return (next, AnalyseAction::Abort);
                },
            }
        },
        StepOutcome::Succeeded => {},
    }
    match session.stage {
        AnalyseStage::CheckDate => {
            next.stage = AnalyseStage::BatchQuotes;
        },
        AnalyseStage::BatchQuotes => {
            if session.position_count > 0 {
                next.stage = AnalyseStage::SellPositions;
            } else {
                next.stage = AnalyseStage::ProcessTrades;
            }
        },
        AnalyseStage::SellPositions => {
            let more = session.position_count > 0 && session.next_position
                < session.position_count - 1;
            if more {
                next.next_position = session.next_position + 1;
                next.stage = AnalyseStage::SellPositions;
            } else {
                next.stage = AnalyseStage::ProcessTrades;
            }
        },
        AnalyseStage::ProcessTrades => {
            next.stage = AnalyseStage::EmulateCommissions;
        },
        AnalyseStage::EmulateCommissions => {
            next.stage = AnalyseStage::MergeSymbols;
        },
        AnalyseStage::MergeSymbols => {
            next.stage = AnalyseStage::AnalysePerformance;
        },
        AnalyseStage::AnalysePerformance => {
            if matches!(session.next_currency, Currency::Usd) {
                next.next_currency = Currency::Rub;
                next.stage = AnalyseStage::AnalysePerformance;
            } else {
                next.stage = AnalyseStage::Done;
            }
        },
        AnalyseStage::Done => {},
        AnalyseStage::Failed => {},
    }
    let action = stage_action(&next);
    (next, action)
}

/// Executable form of [`spec_stage_action`].
fn stage_action(s: &AnalyseSession) -> (a: AnalyseAction)
    ensures
        a == spec_stage_action(*s),
{
    match s.stage {
        AnalyseStage::CheckDate => AnalyseAction::CheckDate,
        AnalyseStage::BatchQuotes => AnalyseAction::BatchQuotes,
        AnalyseStage::SellPositions => AnalyseAction::EmulateSell {
            position: s.next_position,
        },
        AnalyseStage::ProcessTrades => AnalyseAction::ProcessTrades,
        AnalyseStage::EmulateCommissions => AnalyseAction::EmulateCommissions,
        AnalyseStage::MergeSymbols => AnalyseAction::MergeSymbols,
        AnalyseStage::AnalysePerformance => AnalyseAction::AnalysePerformance {
            currency: s.next_currency,
            show_closed_positions: s.show_closed_positions,
        },
        AnalyseStage::Done => AnalyseAction::Finish,
        AnalyseStage::Failed => AnalyseAction::Abort,
    }
}

} // verus!
