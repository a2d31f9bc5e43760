use dstructs::Bet;
use dstructs::CheatingAgent;
use dstructs::CooperatingAgent;
use dstructs::CopycatAgent;
use dstructs::DetectiveAgent;
use dstructs::Game;
use dstructs::GrudgerAgent;
use dstructs::RoundOutcome;
use dstructs::TrustAgent;

#[test]
fn cooperators_share_points() {
    let mut game = Game::new(CooperatingAgent::default(), CooperatingAgent::default());
    for _ in 0..5 {
        assert_eq!(game.play_round(), RoundOutcome::BothCooperated);
    }
    assert_eq!(game.left_score(), 10);
    assert_eq!(game.right_score(), 10);
}

#[test]
fn cheater_exploits_cooperator() {
    let mut game = Game::new(CheatingAgent::default(), CooperatingAgent::default());
    assert_eq!(game.play_round(), RoundOutcome::LeftCheated);
    assert_eq!(game.left_score(), 3);
    assert_eq!(game.right_score(), -1);
}

#[test]
fn cheaters_gain_nothing() {
    let mut game = Game::new(CheatingAgent::default(), CheatingAgent::default());
    for _ in 0..4 {
        assert_eq!(game.play_round(), RoundOutcome::BothCheated);
    }
    assert_eq!(game.left_score(), 0);
    assert_eq!(game.right_score(), 0);
}

#[test]
fn grudger_turns_on_a_cheater() {
    let mut game = Game::new(GrudgerAgent::default(), CheatingAgent::default());
    // the grudger cooperates once, is cheated, then cheats forever
    assert_eq!(game.play_round(), RoundOutcome::RightCheated);
    for _ in 0..3 {
        assert_eq!(game.play_round(), RoundOutcome::BothCheated);
    }
    assert_eq!(game.left_score(), -1);
    assert_eq!(game.right_score(), 3);
}

#[test]
fn copycat_mirrors_the_last_move() {
    let mut game = Game::new(CopycatAgent::default(), CheatingAgent::default());
    assert_eq!(game.play_round(), RoundOutcome::RightCheated);
    assert_eq!(game.play_round(), RoundOutcome::BothCheated);
    let mut game = Game::new(CopycatAgent::default(), CooperatingAgent::default());
    assert_eq!(game.play_round(), RoundOutcome::BothCooperated);
    assert_eq!(game.play_round(), RoundOutcome::BothCooperated);
}

#[test]
fn detective_probes_then_exploits_the_meek() {
    // Against an unconditional cooperator the detective sees no revenge and
    // cheats from the fifth round on.
    let mut game = Game::new(DetectiveAgent::default(), CooperatingAgent::default());
    assert_eq!(game.play_round(), RoundOutcome::BothCooperated);
    assert_eq!(game.play_round(), RoundOutcome::LeftCheated);
    assert_eq!(game.play_round(), RoundOutcome::BothCooperated);
    assert_eq!(game.play_round(), RoundOutcome::BothCooperated);
    for _ in 0..3 {
        assert_eq!(game.play_round(), RoundOutcome::LeftCheated);
    }
}

#[test]
fn detective_copies_a_copycat_after_being_punished() {
    let mut game = Game::new(DetectiveAgent::default(), CopycatAgent::default());
    // round 1: both cooperate; round 2: detective probes with a cheat
    assert_eq!(game.play_round(), RoundOutcome::BothCooperated);
    assert_eq!(game.play_round(), RoundOutcome::LeftCheated);
    // round 3: the copycat answers the cheat; the detective remembers it
    assert_eq!(game.play_round(), RoundOutcome::RightCheated);
    assert_eq!(game.play_round(), RoundOutcome::BothCooperated);
    // from round 5 on the detective plays copycat itself
    assert_eq!(game.play_round(), RoundOutcome::BothCooperated);
}

#[test]
fn agents_report_their_bets() {
    assert!(CheatingAgent::default().bet() == Bet::Cheat);
    assert!(CooperatingAgent::default().bet() == Bet::Cooperate);
    assert!(GrudgerAgent::default().bet() == Bet::Cooperate);
    assert!(CopycatAgent::default().bet() == Bet::Cooperate);
    assert!(DetectiveAgent::default().bet() == Bet::Cooperate);
    assert_eq!(CheatingAgent::default().score(), 0);
}
