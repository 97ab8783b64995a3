//! The decisions of the game server for one player, apart from the
//! connection: the server receives a nickname, then repeatedly sends the
//! board, stores the score once no move is left, and otherwise receives a
//! move and plays it.
use vstd::prelude::*;
use crate::high_score::HighScore;
use crate::local::{Local, move_fits, moved};
use crate::random::{Random, draw_chain};
use crate::board::is_move;
use crate::state::{no_equal_pair, validation};

verus! {

/// The longest nickname the server accepts, in bytes.
pub const MAX_NICKNAME: usize = 16;

/// The length in bytes of the UTF-8 encoding of `s`, as `str::len`
/// reports it.
pub open spec fn byte_length(s: Seq<char>) -> usize {
    vstd::utf8::encode_utf8(s).len() as usize
}

/// Why the server ends a game early.
pub enum SessionError {
    /// The nickname is longer than 16 bytes; it carries the nickname.
    NicknameTooLong(String),
    /// The player sent a move that does not validate; it carries the
    /// player's nickname.
    WrongMove(String),
}

/// One player's game on the server.
pub struct GameSession<R: Random> {
    nickname: String,
    game: Local<R>,
}

impl<R: Random> GameSession<R> {
    /// The player's nickname.
    pub closed spec fn name(&self) -> Seq<char> {
        self.nickname@
    }

    /// The game being played.
    pub closed spec fn local(&self) -> Local<R> {
        self.game
    }

    /// Starts a game for `nickname`, refused when the nickname is longer
    /// than 16 bytes.
    pub fn start(nickname: String, random: R) -> (res: Result<Self, SessionError>)
        requires
            random.ready(),
        ensures
            byte_length(nickname@) > 16 <==> res is Err,
            res matches Err(e) ==> e matches SessionError::NicknameTooLong(n) && n@ == nickname@,
            res matches Ok(s) ==> {
                &&& s.name() == nickname@
                &&& s.local().wf()
                &&& s.local().game().score == 0
                &&& forall|i: int| 0 <= i < 25 ==> 1 <= #[trigger] s.local().game().board@[i] <= 3
                &&& draw_chain(random, s.local().game().board@, s.local().generator())
            },
    {
        if nickname.as_str().len() > MAX_NICKNAME {
            return Err(SessionError::NicknameTooLong(nickname));
        }
        let game = Local::new(random);
        Ok(GameSession { nickname, game })
    }

    /// The board to send to the player.
    pub fn board(&self) -> (res: [u32; 25])
        ensures
            res@ == self.local().game().board@,
    {
        self.game.state.board
    }

    /// The score to store once no move is left, or `None` while the game
    /// goes on.
    pub fn finished(&self) -> (res: Option<HighScore>)
        ensures
            res is Some <==> no_equal_pair(self.local().game().board@),
            res is Some <==> !exists|p: Seq<usize>| is_move(self.local().game().board@, p),
            res matches Some(h) ==> h.name@ == self.name() && h.score == self.local().game().score,
    {
        if self.game.state.is_game_over() {
            Some(HighScore { name: self.nickname.clone(), score: self.game.state.score })
        } else {
            None
        }
    }

    /// Whether the player's move, if it validates, keeps the numbers and the
    /// score within 32 bits.
    pub fn fits(&self, action: &[usize]) -> (res: bool)
        ensures
            res == (validation(self.local().game().board@, action@) is Ok ==> move_fits(
                self.local().game(),
                action@,
            )),
    {
        match self.game.state.validate_action(action) {
            Err(_) => true,
            Ok(()) => self.game.fits(action),
        }
    }

    /// Plays the player's move, refused when it does not validate.
    pub fn play(&mut self, action: &[usize]) -> (res: Result<(), SessionError>)
        requires
            old(self).local().wf(),
            validation(old(self).local().game().board@, action@) is Ok ==> move_fits(
                old(self).local().game(),
                action@,
            ),
        ensures
            final(self).local().wf(),
            final(self).name() == old(self).name(),
            res is Ok <==> is_move(old(self).local().game().board@, action@),
            res matches Err(e) ==> e matches SessionError::WrongMove(n) && n@ == old(self).name(),
            res is Err ==> final(self).local() == old(self).local(),
            res is Ok ==> moved(old(self).local(), action@, final(self).local()),
    {
        if self.game.state.validate_action(action).is_err() {
            return Err(SessionError::WrongMove(self.nickname.clone()));
        }
        self.game.make_move(action);
        Ok(())
    }
}

/// `games` is a run of one player's game on the server: each move of
/// `actions` was accepted on the game before it (`GameSession::play` gave
/// `Ok`) and led to the next game.
pub open spec fn accepted_run<R: Random>(games: Seq<Local<R>>, actions: Seq<Seq<usize>>) -> bool {
    &&& games.len() == actions.len() + 1
    &&& forall|k: int|
        0 <= k < actions.len() ==> is_move(#[trigger] games[k].game().board@, actions[k]) && moved(
            games[k],
            actions[k],
            games[k + 1],
        )
}

/// The points the first `n` accepted moves of a run earned: for each, the
/// number its last cell holds after the move.
pub open spec fn run_points<R: Random>(games: Seq<Local<R>>, actions: Seq<Seq<usize>>, n: nat) -> int
    decreases n,
{
    if n == 0 {
        0
    } else {
        run_points(games, actions, (n - 1) as nat) + games[n as int].game().board@[actions[n - 1].last() as int]
    }
}

/// A score is stored once, for the last board: along a run of accepted
/// moves no game before the last is finished (each still had the move that
/// was played on it), so `GameSession::finished` gives no score before the
/// last board the server sends; and the score of the last game is the start
/// score plus the points of the moves.
pub proof fn lemma_score_stored_once<R: Random>(games: Seq<Local<R>>, actions: Seq<Seq<usize>>)
    requires
        accepted_run(games, actions),
    ensures
        forall|k: int| 0 <= k < actions.len() ==> !no_equal_pair(#[trigger] games[k].game().board@),
        games.last().game().score == games[0].game().score + run_points(games, actions, actions.len()),
{
    assert forall|k: int| 0 <= k < actions.len() implies !no_equal_pair(
        #[trigger] games[k].game().board@,
    ) by {
        let b = games[k].game().board@;
        assert(is_move(b, actions[k]));
        crate::state::lemma_validation_is_move(b, actions[k]);
        crate::state::lemma_game_over_listing(b);
        assert(!(validation(b, actions[k]) is Err));
    }
    lemma_run_score(games, actions, actions.len());
}

/// The score after the first `n` accepted moves of a run.
proof fn lemma_run_score<R: Random>(games: Seq<Local<R>>, actions: Seq<Seq<usize>>, n: nat)
    requires
        accepted_run(games, actions),
        n <= actions.len(),
    ensures
        games[n as int].game().score == games[0].game().score + run_points(games, actions, n),
    decreases n,
{
    if n > 0 {
        lemma_run_score(games, actions, (n - 1) as nat);
        let k = n - 1;
        assert(is_move(games[k].game().board@, actions[k]) && moved(games[k], actions[k], games[k + 1]));
    }
}

} // verus!
