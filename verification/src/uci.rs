//! The engine-facing state of the text protocol: the command vocabulary and
//! the manager that owns the board and the search engine. The reading and
//! printing around them lives outside the library.

use vstd::prelude::*;
use crate::board::{Board, board_wf};
use crate::search::SearchEngine;

verus! {

/// The commands the protocol understands.
pub enum CommandTypes {
    Uci,
    IsReady,
    Position,
    SetOption,
    NewGame,
    UciNewGame,
    Go,
    PrintState,
    Evaluate,
    Perft,
    MakeMove,
    MakeUnMake,
    Bench,
    GetFen,
    Hash,
    Empty,
    Invalid,
    Quit,
    Search,
    MoveList,
    Help,
}

/// Options a `setoption` command could carry; none is supported yet.
pub struct UciCommandOptions {}

/// Owns the game state on behalf of the protocol: the current board and the
/// engine searching it.
pub struct CommunicationManager {
    pub uci_enabled: bool,
    pub board: Board,
    pub engine: SearchEngine,
}

impl CommunicationManager {
    /// A manager holding a fresh game and a fresh engine.
    pub fn new() -> (m: CommunicationManager)
        ensures
            !m.uci_enabled,
            m.board@ == Board::start_model(),
            board_wf(m.board@),
            m.engine.nodes == 0,
            m.engine.depth == 3,
    {
        CommunicationManager { uci_enabled: false, board: Board::init(), engine: SearchEngine::new() }
    }
}

} // verus!
