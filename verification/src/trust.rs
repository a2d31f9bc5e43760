use vstd::prelude::*;

verus! {

/// What one round of the trust game came to.
#[derive(Clone, Copy, Debug, PartialEq, Eq, Structural)]
pub enum RoundOutcome {
    BothCooperated,
    LeftCheated,
    RightCheated,
    BothCheated,
}

/// One player's move in a round.
#[derive(PartialEq, Eq, Structural, Copy, Clone)]
pub enum Bet {
    Cooperate,
    Cheat,
}

/// A strategy in the iterated trust game.  The spec functions pin each
/// implementation down: `bet` returns `spec_bet` and `update` turns the agent
/// into `spec_updated`, adding the round's points to its score.
pub trait TrustAgent: Sized {
    /// The move this agent makes in its current state.
    spec fn spec_bet(self) -> Bet;

    /// The agent's accumulated score.
    spec fn spec_score(self) -> int;

    /// The state after being told the round's points and the opponent's move.
    spec fn spec_updated(self, points: i32, opponent_bet: Bet) -> Self;

    /// True when the agent can absorb the round's points without leaving the
    /// machine's integer ranges.
    spec fn update_ok(self, points: i32) -> bool;

    fn bet(&self) -> (b: Bet)
        ensures
            b == self.spec_bet(),
    ;

    fn update(&mut self, points: i32, opponent_bet: Bet)
        requires
            old(self).update_ok(points),
        ensures
            *final(self) == old(self).spec_updated(points, opponent_bet),
            final(self).spec_score() == old(self).spec_score() + points,
    ;

    fn score(&self) -> (s: i32)
        ensures
            s == self.spec_score(),
    ;
}

/// Two agents playing the iterated trust game against each other.
pub struct Game<L: TrustAgent, R: TrustAgent> {
    left: L,
    right: R,
    rounds_passed: usize,
}

impl<L: TrustAgent, R: TrustAgent> Game<L, R> {
    pub closed spec fn spec_left(self) -> L {
        self.left
    }

    pub closed spec fn spec_right(self) -> R {
        self.right
    }

    pub closed spec fn spec_rounds(self) -> nat {
        self.rounds_passed as nat
    }

    pub fn new(left: L, right: R) -> (g: Self)
        ensures
            g.spec_left() == left,
            g.spec_right() == right,
            g.spec_rounds() == 0,
    {
        Self { left, right, rounds_passed: 0 }
    }

    pub fn left_score(&self) -> (s: i32)
        ensures
            s == self.spec_left().spec_score(),
    {
        self.left.score()
    }

    pub fn right_score(&self) -> (s: i32)
        ensures
            s == self.spec_right().spec_score(),
    {
        self.right.score()
    }

    /// Plays one round: both agents bet, the payoff matrix scores the pair
    /// of moves, and both agents are told their points and the opponent's
    /// move.  Mutual cooperation pays 2 and 2; a lone cheat pays 3 against
    /// -1; mutual cheating pays nothing.
    pub fn play_round(&mut self) -> (r: RoundOutcome)
        requires
            old(self).spec_rounds() < usize::MAX,
            old(self).spec_left().update_ok(-1i32),
            old(self).spec_left().update_ok(0i32),
            old(self).spec_left().update_ok(2i32),
            old(self).spec_left().update_ok(3i32),
            old(self).spec_right().update_ok(-1i32),
            old(self).spec_right().update_ok(0i32),
            old(self).spec_right().update_ok(2i32),
            old(self).spec_right().update_ok(3i32),
        ensures
            final(self).spec_rounds() == old(self).spec_rounds() + 1,
            ({
                let lb = old(self).spec_left().spec_bet();
                let rb = old(self).spec_right().spec_bet();
                let l0 = old(self).spec_left();
                let r0 = old(self).spec_right();
                &&& (lb == Bet::Cooperate && rb == Bet::Cooperate) ==> {
                    &&& r == RoundOutcome::BothCooperated
                    &&& final(self).spec_left() == l0.spec_updated(2i32, Bet::Cooperate)
                    &&& final(self).spec_right() == r0.spec_updated(2i32, Bet::Cooperate)
                }
                &&& (lb == Bet::Cooperate && rb == Bet::Cheat) ==> {
                    &&& r == RoundOutcome::RightCheated
                    &&& final(self).spec_left() == l0.spec_updated(-1i32, Bet::Cheat)
                    &&& final(self).spec_right() == r0.spec_updated(3i32, Bet::Cooperate)
                }
                &&& (lb == Bet::Cheat && rb == Bet::Cooperate) ==> {
                    &&& r == RoundOutcome::LeftCheated
                    &&& final(self).spec_left() == l0.spec_updated(3i32, Bet::Cooperate)
                    &&& final(self).spec_right() == r0.spec_updated(-1i32, Bet::Cheat)
                }
                &&& (lb == Bet::Cheat && rb == Bet::Cheat) ==> {
                    &&& r == RoundOutcome::BothCheated
                    &&& final(self).spec_left() == l0.spec_updated(0i32, Bet::Cheat)
                    &&& final(self).spec_right() == r0.spec_updated(0i32, Bet::Cheat)
                }
            }),
    {
        self.rounds_passed = self.rounds_passed + 1;
        let left_bet = self.left.bet();
        let right_bet = self.right.bet();
        if left_bet == Bet::Cooperate && right_bet == Bet::Cooperate {
            self.left.update(2, Bet::Cooperate);
            self.right.update(2, Bet::Cooperate);
            RoundOutcome::BothCooperated
        } else if left_bet == Bet::Cooperate && right_bet == Bet::Cheat {
            self.left.update(-1, Bet::Cheat);
            self.right.update(3, Bet::Cooperate);
            RoundOutcome::RightCheated
        } else if left_bet == Bet::Cheat && right_bet == Bet::Cooperate {
            self.left.update(3, Bet::Cooperate);
            self.right.update(-1, Bet::Cheat);
            RoundOutcome::LeftCheated
        } else {
            self.left.update(0, Bet::Cheat);
            self.right.update(0, Bet::Cheat);
            RoundOutcome::BothCheated
        }
    }
}

/// Always cheats.
#[derive(Default)]
pub struct CheatingAgent {
    score: i32,
}

impl TrustAgent for CheatingAgent {
    closed spec fn spec_bet(self) -> Bet {
        Bet::Cheat
    }

    closed spec fn spec_score(self) -> int {
        self.score as int
    }

    closed spec fn spec_updated(self, points: i32, opponent_bet: Bet) -> Self {
        CheatingAgent { score: (self.score + points) as i32 }
    }

    closed spec fn update_ok(self, points: i32) -> bool {
        i32::MIN <= self.score + points <= i32::MAX
    }

    fn bet(&self) -> Bet {
        Bet::Cheat
    }

    fn update(&mut self, points: i32, _opponent_bet: Bet) {
        self.score = self.score + points;
    }

    fn score(&self) -> i32 {
        self.score
    }
}

/// Always cooperates.
#[derive(Default)]
pub struct CooperatingAgent {
    score: i32,
}

impl TrustAgent for CooperatingAgent {
    closed spec fn spec_bet(self) -> Bet {
        Bet::Cooperate
    }

    closed spec fn spec_score(self) -> int {
        self.score as int
    }

    closed spec fn spec_updated(self, points: i32, opponent_bet: Bet) -> Self {
        CooperatingAgent { score: (self.score + points) as i32 }
    }

    closed spec fn update_ok(self, points: i32) -> bool {
        i32::MIN <= self.score + points <= i32::MAX
    }

    fn bet(&self) -> Bet {
        Bet::Cooperate
    }

    fn update(&mut self, points: i32, _opponent_bet: Bet) {
        self.score = self.score + points;
    }

    fn score(&self) -> i32 {
        self.score
    }
}

/// Cooperates until it is cheated once, then cheats forever.
#[derive(Default)]
pub struct GrudgerAgent {
    score: i32,
    is_disappointed: bool,
}

impl TrustAgent for GrudgerAgent {
    closed spec fn spec_bet(self) -> Bet {
        if self.is_disappointed {
            Bet::Cheat
        } else {
            Bet::Cooperate
        }
    }

    closed spec fn spec_score(self) -> int {
        self.score as int
    }

    closed spec fn spec_updated(self, points: i32, opponent_bet: Bet) -> Self {
        GrudgerAgent {
            score: (self.score + points) as i32,
            is_disappointed: self.is_disappointed || points == -1,
        }
    }

    closed spec fn update_ok(self, points: i32) -> bool {
        i32::MIN <= self.score + points <= i32::MAX
    }

    fn bet(&self) -> Bet {
        if self.is_disappointed {
            Bet::Cheat
        } else {
            Bet::Cooperate
        }
    }

    fn update(&mut self, points: i32, _opponent_bet: Bet) {
        if points == -1 {
            self.is_disappointed = true;
        }
        self.score = self.score + points;
    }

    fn score(&self) -> i32 {
        self.score
    }
}

/// Repeats the opponent's previous move, starting with cooperation.
pub struct CopycatAgent {
    score: i32,
    last_opponent_action: Bet,
}

impl Default for CopycatAgent {
    fn default() -> (r: Self)
        ensures
            r.spec_score() == 0,
            r.spec_bet() == Bet::Cooperate,
    {
        CopycatAgent { score: 0, last_opponent_action: Bet::Cooperate }
    }
}

impl TrustAgent for CopycatAgent {
    closed spec fn spec_bet(self) -> Bet {
        self.last_opponent_action
    }

    closed spec fn spec_score(self) -> int {
        self.score as int
    }

    closed spec fn spec_updated(self, points: i32, opponent_bet: Bet) -> Self {
        CopycatAgent { score: (self.score + points) as i32, last_opponent_action: opponent_bet }
    }

    closed spec fn update_ok(self, points: i32) -> bool {
        i32::MIN <= self.score + points <= i32::MAX
    }

    fn bet(&self) -> Bet {
        self.last_opponent_action
    }

    fn update(&mut self, points: i32, opponent_action: Bet) {
        self.score = self.score + points;
        self.last_opponent_action = opponent_action;
    }

    fn score(&self) -> i32 {
        self.score
    }
}

/// Opens with cooperate, cheat, cooperate, cooperate; after that it copies
/// the opponent if the opponent ever cheated in the opening, else it cheats
/// relentlessly.
pub struct DetectiveAgent {
    score: i32,
    current_round: usize,
    last_opponent_action: Bet,
    opponent_cheated: bool,
}

impl Default for DetectiveAgent {
    fn default() -> (r: Self)
        ensures
            r.spec_score() == 0,
            r.spec_bet() == Bet::Cooperate,
    {
        DetectiveAgent {
            score: 0,
            current_round: 0,
            last_opponent_action: Bet::Cooperate,
            opponent_cheated: false,
        }
    }
}

impl TrustAgent for DetectiveAgent {
    closed spec fn spec_bet(self) -> Bet {
        if self.current_round == 0 {
            Bet::Cooperate
        } else if self.current_round == 1 {
            Bet::Cheat
        } else if self.current_round < 4 {
            Bet::Cooperate
        } else if self.opponent_cheated {
            self.last_opponent_action
        } else {
            Bet::Cheat
        }
    }

    closed spec fn spec_score(self) -> int {
        self.score as int
    }

    closed spec fn spec_updated(self, points: i32, opponent_bet: Bet) -> Self {
        DetectiveAgent {
            score: (self.score + points) as i32,
            current_round: (self.current_round + 1) as usize,
            last_opponent_action: opponent_bet,
            opponent_cheated: self.opponent_cheated || (self.current_round + 1 < 4 && opponent_bet
                == Bet::Cheat),
        }
    }

    closed spec fn update_ok(self, points: i32) -> bool {
        &&& i32::MIN <= self.score + points <= i32::MAX
        &&& self.current_round < usize::MAX
    }

    fn bet(&self) -> Bet {
        if self.current_round == 0 {
            Bet::Cooperate
        } else if self.current_round == 1 {
            Bet::Cheat
        } else if self.current_round < 4 {
            Bet::Cooperate
        } else if self.opponent_cheated {
            self.last_opponent_action
        } else {
            Bet::Cheat
        }
    }

    fn update(&mut self, points: i32, opponent_action: Bet) {
        self.score = self.score + points;
        self.current_round = self.current_round + 1;
        self.last_opponent_action = opponent_action;
        if self.current_round < 4 && opponent_action == Bet::Cheat {
            self.opponent_cheated = true;
        }
    }

    fn score(&self) -> i32 {
        self.score
    }
}

} // verus!
