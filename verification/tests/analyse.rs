use investments::analyse::{
    analyse, analyse_session, AnalyseAction, AnalyseStage, Currency, StepOutcome,
};
use investments::rounding::{ceil_div_i128, round_div_i128};

#[test]
fn session_runs_the_stages_in_order() {
    let s = analyse_session(2, true);
    assert_eq!(s.stage, AnalyseStage::CheckDate);

    let (s, a) = analyse(s, StepOutcome::Succeeded);
    assert_eq!(a, AnalyseAction::BatchQuotes);
    let (s, a) = analyse(s, StepOutcome::Succeeded);
    assert_eq!(a, AnalyseAction::EmulateSell { position: 0 });
    let (s, a) = analyse(s, StepOutcome::Succeeded);
    assert_eq!(a, AnalyseAction::EmulateSell { position: 1 });
    let (s, a) = analyse(s, StepOutcome::Succeeded);
    assert_eq!(a, AnalyseAction::ProcessTrades);
    let (s, a) = analyse(s, StepOutcome::Succeeded);
    assert_eq!(a, AnalyseAction::EmulateCommissions);
    let (s, a) = analyse(s, StepOutcome::Succeeded);
    assert_eq!(a, AnalyseAction::MergeSymbols);
    let (s, a) = analyse(s, StepOutcome::Succeeded);
    assert_eq!(
        a,
        AnalyseAction::AnalysePerformance { currency: Currency::Usd, show_closed_positions: true }
    );
    let (s, a) = analyse(s, StepOutcome::Succeeded);
    assert_eq!(
        a,
        AnalyseAction::AnalysePerformance { currency: Currency::Rub, show_closed_positions: true }
    );
    let (s, a) = analyse(s, StepOutcome::Succeeded);
    assert_eq!(a, AnalyseAction::Finish);
    assert_eq!(s.stage, AnalyseStage::Done);
}

#[test]
fn session_without_positions_skips_the_sales() {
    let s = analyse_session(0, false);
    let (s, _) = analyse(s, StepOutcome::Succeeded);
    assert_eq!(s.stage, AnalyseStage::BatchQuotes);
    let (s, a) = analyse(s, StepOutcome::Succeeded);
    assert_eq!(s.stage, AnalyseStage::ProcessTrades);
    assert_eq!(a, AnalyseAction::ProcessTrades);
}

#[test]
fn session_aborts_on_failure() {
    let s = analyse_session(1, false);
    let (s, _) = analyse(s, StepOutcome::Succeeded);
    let (s, a) = analyse(s, StepOutcome::Failed);
    assert_eq!(s.stage, AnalyseStage::Failed);
    assert_eq!(a, AnalyseAction::Abort);
}

#[test]
fn rounding_goes_half_away_from_zero() {
    assert_eq!(round_div_i128(105, 10), 11);
    assert_eq!(round_div_i128(104, 10), 10);
    assert_eq!(round_div_i128(-105, 10), -11);
    assert_eq!(round_div_i128(-104, 10), -10);
    assert_eq!(round_div_i128(0, 7), 0);
    assert_eq!(ceil_div_i128(1, 10), 1);
    assert_eq!(ceil_div_i128(10, 10), 1);
    assert_eq!(ceil_div_i128(11, 10), 2);
    assert_eq!(ceil_div_i128(0, 10), 0);
}
