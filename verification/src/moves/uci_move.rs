//! UCI long algebraic notation, matched against the legal moves.

use vstd::prelude::*;
use vstd::string::{StringExecFns, StringSliceAdditionalSpecFns};

use crate::board::{square_of_bytes, PieceKind, Position};
use crate::movegen::{fits, legal_move};
use crate::moves::Move;

verus! {

#[derive(Debug, Clone, PartialEq, Eq)]
pub struct MoveError(pub String);

impl MoveError {
    /// The error as text: `invalid move: ` and the reason.
    pub fn message(&self) -> (r: String)
        ensures
            r@ == "invalid move: "@ + self.0@,
    {
        let mut s = String::from_str("invalid move: ");
        s.append(self.0.as_str());
        s
    }
}

/// The promotion a UCI text asks for: `None` for four bytes, the piece
/// named by the fifth byte otherwise.
pub open spec fn uci_promotion(b: Seq<u8>) -> Option<PieceKind> {
    if b.len() == 5 { PieceKind::promotion_of(b[4] as char) } else { None }
}

/// The syntax error of a UCI move text, if it has one.
pub open spec fn uci_syntax_error(b: Seq<u8>) -> Option<Seq<char>> {
    if b.len() != 4 && b.len() != 5 {
        Some("UCI move must have four coordinates plus an optional promotion letter"@)
    } else if square_of_bytes(b.subrange(0, 2)) is None || square_of_bytes(b.subrange(2, 4)) is None {
        Some("coordinates must be lower-case squares such as e2"@)
    } else if b.len() == 5 && PieceKind::promotion_of(b[4] as char) is None {
        Some("promotion suffix must be q, r, b, or n"@)
    } else {
        None
    }
}

/// `mv` is the move a well-formed UCI text names: same squares, and a
/// promotion exactly when the text has a fifth letter naming it.
pub open spec fn names_move(b: Seq<u8>, mv: Move) -> bool {
    &&& square_of_bytes(b.subrange(0, 2)) == Some(mv.from_sq())
    &&& square_of_bytes(b.subrange(2, 4)) == Some(mv.to_sq())
    &&& mv.promotion_spec() == uci_promotion(b)
}

/// The square named by the two bytes at `i`.
fn square_at(b: &[u8], i: usize) -> (r: Option<u8>)
    requires
        i + 2 <= b@.len(),
    ensures
        r == square_of_bytes(b@.subrange(i as int, i + 2)),
{
    let f = b[i];
    let k = b[i + 1];
    let ghost t = b@.subrange(i as int, i + 2);
    proof {
        assert(t.len() == 2 && t[0] == f && t[1] == k);
    }
    if 97 <= f && f <= 104 && 49 <= k && k <= 56 {
        Some((f - 97) + 8 * (k - 49))
    } else {
        None
    }
}

fn move_error(msg: &str) -> (e: MoveError)
    ensures
        e.0@ == msg@,
{
    MoveError(String::from_str(msg))
}

/// Parses UCI long algebraic notation by matching against legal moves. This
/// is stricter than decoding coordinates alone: malformed promotion suffixes
/// and geometrically plausible but illegal moves are rejected.
pub fn parse_uci_move(position: &Position, text: &str) -> (r: Result<Move, MoveError>)
    requires
        position.wf(),
    ensures
        uci_syntax_error(text.spec_bytes()) matches Some(msg) ==> (r matches Err(e) && e.0@ == msg),
        r matches Ok(mv) ==> uci_syntax_error(text.spec_bytes()) is None && legal_move(position@, mv) && names_move(
            text.spec_bytes(),
            mv,
        ),
        fits(position@) && uci_syntax_error(text.spec_bytes()) is None ==> (r is Ok <==> exists|mv: Move|
            #[trigger] legal_move(position@, mv) && names_move(text.spec_bytes(), mv)),
        r matches Err(e) ==> (uci_syntax_error(text.spec_bytes()) is None ==> e.0@ == "`"@ + text@
            + "` is not legal in the supplied position"@),
{
    let b = text.as_bytes();
    let ghost s = b@;
    if b.len() != 4 && b.len() != 5 {
        return Err(move_error("UCI move must have four coordinates plus an optional promotion letter"));
    }
    let from = match square_at(b, 0) {
        Some(sq) => sq,
        None => return Err(move_error("coordinates must be lower-case squares such as e2")),
    };
    let to = match square_at(b, 2) {
        Some(sq) => sq,
        None => return Err(move_error("coordinates must be lower-case squares such as e2")),
    };
    let promotion = if b.len() == 5 {
        match PieceKind::from_promotion(b[4] as char) {
            Some(k) => Some(k),
            None => return Err(move_error("promotion suffix must be q, r, b, or n")),
        }
    } else {
        None
    };
    proof {
        assert(promotion == uci_promotion(s));
        assert(uci_syntax_error(s) is None);
    }
    let moves = position.legal_moves();
    let mut i: usize = 0;
    while i < moves.len()
        invariant
            i <= moves@.len(),
            s == text.spec_bytes(),
            s.len() == 4 || s.len() == 5,
            uci_syntax_error(s) is None,
            forall|mv: Move| #[trigger] moves@.contains(mv) ==> legal_move(position@, mv),
            square_of_bytes(s.subrange(0, 2)) == Some(from),
            square_of_bytes(s.subrange(2, 4)) == Some(to),
            promotion == uci_promotion(s),
            forall|j: int| 0 <= j < i ==> !names_move(s, #[trigger] moves@[j]),
        decreases moves@.len() - i,
    {
        let mv = moves.get(i);
        let same_promotion = match (mv.promotion(), promotion) {
            (Some(x), Some(y)) => x == y,
            (None, None) => true,
            _ => false,
        };
        if mv.from() == from && mv.to() == to && same_promotion {
            proof {
                assert(moves@.contains(mv));
            }
            return Ok(mv);
        }
        i = i + 1;
    }
    proof {
        if fits(position@) {
            assert forall|mv: Move| #[trigger] legal_move(position@, mv) implies !names_move(s, mv) by {
                assert(moves@.contains(mv));
                let j = moves@.index_of(mv);
                assert(moves@[j] == mv);
            }
        }
    }
    let mut msg = String::from_str("`");
    msg.append(text);
    msg.append("` is not legal in the supplied position");
    Err(MoveError(msg))
}

} // verus!
