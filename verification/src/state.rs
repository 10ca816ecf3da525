//! Navigation state: the position under inspection.
//!
//! A base position descriptor, the path of moves applied since it, the
//! target depth measured from the base, and the variant flag for the
//! reference engine. Commands mutate exactly what they name; `diff` reads
//! the state, asks two backends, and merges their answers.
use vstd::prelude::*;
use crate::diff::{merged_from, Diff};
use crate::engine::{Engine, QueryError};
use crate::report::Perft;
use crate::script::Script;
use crate::text::views_of;

verus! {

/// The encoding of the standard starting position.
pub open spec fn initial_fen() -> Seq<char> {
    "rnbqkbnr/pppppppp/8/8/8/8/PPPPPPPP/RNBQKBNR w KQkq - 0 1"@
}

/// The position the user is inspecting, and the command the script
/// backend is reached by.
pub struct State {
    script: Script,
    fen: String,
    moves: Vec<String>,
    depth: usize,
    chess960: bool,
}

impl State {
    /// The command name of the script under test.
    pub closed spec fn script_cmd(&self) -> Seq<char> {
        self.script.cmd_spec()
    }

    /// The base position descriptor.
    pub closed spec fn fen_spec(&self) -> Seq<char> {
        self.fen@
    }

    /// The move path applied since the base position.
    pub closed spec fn moves_spec(&self) -> Seq<Seq<char>> {
        views_of(self.moves@)
    }

    /// The target depth, measured from the base position.
    pub closed spec fn depth_spec(&self) -> usize {
        self.depth
    }

    /// The variant flag for the reference engine.
    pub closed spec fn chess960_spec(&self) -> bool {
        self.chess960
    }

    /// A fresh session: the standard starting position, an empty path,
    /// depth one, the variant flag off.
    pub fn new(cmd: String) -> (r: State)
        ensures
            r.script_cmd() == cmd@,
            r.fen_spec() == initial_fen(),
            r.moves_spec() == Seq::<Seq<char>>::empty(),
            r.depth_spec() == 1,
            !r.chess960_spec(),
    {
        let s = State {
            script: Script::new(cmd),
            fen: "rnbqkbnr/pppppppp/8/8/8/8/PPPPPPPP/RNBQKBNR w KQkq - 0 1".to_owned(),
            moves: Vec::new(),
            depth: 1,
            chess960: false,
        };
        proof {
            assert(views_of(s.moves@) =~= Seq::<Seq<char>>::empty());
        }
        s
    }

    /// The command name of the script under test.
    pub fn cmd(&self) -> (r: &str)
        ensures
            r@ == self.script_cmd(),
    {
        self.script.cmd()
    }

    /// The current position descriptor.
    pub fn fen(&self) -> (r: &str)
        ensures
            r@ == self.fen_spec(),
    {
        self.fen.as_str()
    }

    /// Replaces the base position; a new base invalidates any prior path,
    /// so the path is cleared.
    pub fn set_fen(&mut self, fen: String)
        ensures
            final (self).fen_spec() == fen@,
            final (self).moves_spec() == Seq::<Seq<char>>::empty(),
            final (self).depth_spec() == old(self).depth_spec(),
            final (self).chess960_spec() == old(self).chess960_spec(),
            final (self).script_cmd() == old(self).script_cmd(),
    {
        self.fen = fen;
        self.moves.clear();
        proof {
            assert(views_of(self.moves@) =~= Seq::<Seq<char>>::empty());
        }
    }

    /// The current move path.
    pub fn moves(&self) -> (r: &Vec<String>)
        ensures
            views_of(r@) == self.moves_spec(),
    {
        &self.moves
    }

    /// Replaces the move path wholesale.
    pub fn set_moves(&mut self, moves: Vec<String>)
        ensures
            final (self).moves_spec() == views_of(moves@),
            final (self).fen_spec() == old(self).fen_spec(),
            final (self).depth_spec() == old(self).depth_spec(),
            final (self).chess960_spec() == old(self).chess960_spec(),
            final (self).script_cmd() == old(self).script_cmd(),
    {
        self.moves = moves;
    }

    /// The target depth.
    pub fn depth(&self) -> (r: usize)
        ensures
            r == self.depth_spec(),
    {
        self.depth
    }

    /// Replaces the target depth; no validation against the path length
    /// happens here.
    pub fn set_depth(&mut self, depth: usize)
        ensures
            final (self).depth_spec() == depth,
            final (self).fen_spec() == old(self).fen_spec(),
            final (self).moves_spec() == old(self).moves_spec(),
            final (self).chess960_spec() == old(self).chess960_spec(),
            final (self).script_cmd() == old(self).script_cmd(),
    {
        self.depth = depth;
    }

    /// Returns to the base position: clears the path.
    pub fn goto_root(&mut self)
        ensures
            final (self).moves_spec() == Seq::<Seq<char>>::empty(),
            final (self).fen_spec() == old(self).fen_spec(),
            final (self).depth_spec() == old(self).depth_spec(),
            final (self).chess960_spec() == old(self).chess960_spec(),
            final (self).script_cmd() == old(self).script_cmd(),
    {
        self.moves.clear();
        proof {
            assert(views_of(self.moves@) =~= Seq::<Seq<char>>::empty());
        }
    }

    /// Removes the last move of the path; on an empty path a silent no-op.
    pub fn goto_parent(&mut self)
        ensures
            old(self).moves_spec().len() > 0 ==> final (self).moves_spec() == old(
                self,
            ).moves_spec().drop_last(),
            old(self).moves_spec().len() == 0 ==> final (self).moves_spec() == old(
                self,
            ).moves_spec(),
            final (self).fen_spec() == old(self).fen_spec(),
            final (self).depth_spec() == old(self).depth_spec(),
            final (self).chess960_spec() == old(self).chess960_spec(),
            final (self).script_cmd() == old(self).script_cmd(),
    {
        if self.moves.len() > 0 {
            self.moves.pop();
            proof {
                assert(views_of(self.moves@) =~= views_of(old(self).moves@).drop_last());
            }
        }
    }

    /// Appends a move to the path; purely navigational, no legality check.
    pub fn goto_child(&mut self, mv: String)
        ensures
            final (self).moves_spec() == old(self).moves_spec().push(mv@),
            final (self).fen_spec() == old(self).fen_spec(),
            final (self).depth_spec() == old(self).depth_spec(),
            final (self).chess960_spec() == old(self).chess960_spec(),
            final (self).script_cmd() == old(self).script_cmd(),
    {
        self.moves.push(mv);
        proof {
            assert(views_of(self.moves@) =~= views_of(old(self).moves@).push(
                self.moves@.last()@,
            ));
        }
    }

    /// Replaces the variant flag; it reaches the reference engine with the
    /// next query.
    pub fn set_chess960(&mut self, chess960: bool)
        ensures
            final (self).chess960_spec() == chess960,
            final (self).fen_spec() == old(self).fen_spec(),
            final (self).moves_spec() == old(self).moves_spec(),
            final (self).depth_spec() == old(self).depth_spec(),
            final (self).script_cmd() == old(self).script_cmd(),
    {
        self.chess960 = chess960;
    }

    /// The variant flag.
    pub fn chess960(&self) -> (r: bool)
        ensures
            r == self.chess960_spec(),
    {
        self.chess960
    }

    /// The depth the next query asks for: the target depth less the moves
    /// already applied. Undefined - and refused - when the path is already
    /// deeper than the target depth.
    pub fn relative_depth(&self) -> (r: Option<usize>)
        ensures
            self.moves_spec().len() <= self.depth_spec() ==> r == Some(
                (self.depth_spec() - self.moves_spec().len()) as usize,
            ),
            self.moves_spec().len() > self.depth_spec() ==> r is None,
    {
        if self.moves.len() <= self.depth {
            Some(self.depth - self.moves.len())
        } else {
            None
        }
    }

    /// Queries both backends at the current position and relative depth
    /// and merges their reports. A failure leaves this state untouched -
    /// it is not even mutable here - and is handed back as the error: the
    /// depth-underflow error exactly when the path is deeper than the
    /// target depth, a backend's own transport or protocol error
    /// otherwise.
    pub fn diff<A: Engine, B: Engine>(&self, script: &mut A, reference: &mut B) -> (r: Result<
        Diff,
        QueryError,
    >)
        ensures
            self.moves_spec().len() > self.depth_spec() ==> (r matches Err(e)
                && e is DepthUnderflow),
            self.moves_spec().len() <= self.depth_spec() ==> !(r matches Err(e)
                && e is DepthUnderflow),
            r matches Ok(d) ==> d.wf() && exists|pa: Perft, pb: Perft|
                pa.wf() && pb.wf() && #[trigger] merged_from(d, pa, pb),
    {
        let depth = match self.relative_depth() {
            Some(d) => d,
            None => {
                return Err(QueryError::DepthUnderflow);
            },
        };
        let lhs = match script.perft(self.fen.as_str(), &self.moves, depth) {
            Ok(p) => p,
            Err(e) => {
                return Err(e);
            },
        };
        let rhs = match reference.perft(self.fen.as_str(), &self.moves, depth) {
            Ok(p) => p,
            Err(e) => {
                return Err(e);
            },
        };
        let d = Diff::new(&lhs, &rhs);
        proof {
            assert(merged_from(d, lhs, rhs));
        }
        Ok(d)
    }
}

} // verus!
