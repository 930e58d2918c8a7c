//! Compact 16-bit move encoding.

use vstd::prelude::*;

use crate::board::{square_name_chars, PieceKind, Square};
use crate::text::{ascii_chars, string_from_ascii};

verus! {

/// Four bits fit all move classes. Capture-ness is normally derived from the
/// board, so promoted captures need no redundant flag.
#[derive(Clone, Copy, Debug, PartialEq, Eq, Hash, Structural)]
pub enum MoveKind {
    Quiet,
    Capture,
    DoublePawn,
    EnPassant,
    CastleKing,
    CastleQueen,
    PromoteKnight,
    PromoteBishop,
    PromoteRook,
    PromoteQueen,
}

impl MoveKind {
    pub open spec fn code(self) -> u16 {
        match self {
            MoveKind::Quiet => 0,
            MoveKind::Capture => 1,
            MoveKind::DoublePawn => 2,
            MoveKind::EnPassant => 3,
            MoveKind::CastleKing => 4,
            MoveKind::CastleQueen => 5,
            MoveKind::PromoteKnight => 6,
            MoveKind::PromoteBishop => 7,
            MoveKind::PromoteRook => 8,
            MoveKind::PromoteQueen => 9,
        }
    }

    pub open spec fn of_code(bits: int) -> Option<MoveKind> {
        if bits == 0 {
            Some(MoveKind::Quiet)
        } else if bits == 1 {
            Some(MoveKind::Capture)
        } else if bits == 2 {
            Some(MoveKind::DoublePawn)
        } else if bits == 3 {
            Some(MoveKind::EnPassant)
        } else if bits == 4 {
            Some(MoveKind::CastleKing)
        } else if bits == 5 {
            Some(MoveKind::CastleQueen)
        } else if bits == 6 {
            Some(MoveKind::PromoteKnight)
        } else if bits == 7 {
            Some(MoveKind::PromoteBishop)
        } else if bits == 8 {
            Some(MoveKind::PromoteRook)
        } else if bits == 9 {
            Some(MoveKind::PromoteQueen)
        } else {
            None
        }
    }

    pub proof fn lemma_code(self)
        ensures
            self.code() < 10,
            MoveKind::of_code(self.code() as int) == Some(self),
    {
    }

    pub fn from_bits(bits: u32) -> (r: Option<Self>)
        ensures
            r == MoveKind::of_code(bits as int),
    {
        match bits {
            0 => Some(MoveKind::Quiet),
            1 => Some(MoveKind::Capture),
            2 => Some(MoveKind::DoublePawn),
            3 => Some(MoveKind::EnPassant),
            4 => Some(MoveKind::CastleKing),
            5 => Some(MoveKind::CastleQueen),
            6 => Some(MoveKind::PromoteKnight),
            7 => Some(MoveKind::PromoteBishop),
            8 => Some(MoveKind::PromoteRook),
            9 => Some(MoveKind::PromoteQueen),
            _ => None,
        }
    }

    pub fn bits(self) -> (r: u16)
        ensures
            r == self.code(),
    {
        match self {
            MoveKind::Quiet => 0,
            MoveKind::Capture => 1,
            MoveKind::DoublePawn => 2,
            MoveKind::EnPassant => 3,
            MoveKind::CastleKing => 4,
            MoveKind::CastleQueen => 5,
            MoveKind::PromoteKnight => 6,
            MoveKind::PromoteBishop => 7,
            MoveKind::PromoteRook => 8,
            MoveKind::PromoteQueen => 9,
        }
    }

    pub open spec fn promoted(self) -> Option<PieceKind> {
        match self {
            MoveKind::PromoteKnight => Some(PieceKind::Knight),
            MoveKind::PromoteBishop => Some(PieceKind::Bishop),
            MoveKind::PromoteRook => Some(PieceKind::Rook),
            MoveKind::PromoteQueen => Some(PieceKind::Queen),
            _ => None,
        }
    }
}

/// A 16-bit value: from [0..5], to [6..11], and kind [12..15].
#[derive(Clone, Copy, Debug, PartialEq, Eq, Hash, Default, Structural)]
pub struct Move(u16);

impl View for Move {
    type V = u16;

    closed spec fn view(&self) -> u16 {
        self.0
    }
}

pub open spec fn encode(from: int, to: int, code: u16) -> u16 {
    (from as u16) | ((to as u16) << 6u16) | (code << 12u16)
}

proof fn lemma_encode_fields(f: u16, t: u16, k: u16)
    by (bit_vector)
    requires
        f < 64,
        t < 64,
        k < 16,
    ensures
        (f | (t << 6u16) | (k << 12u16)) & 63 == f,
        ((f | (t << 6u16) | (k << 12u16)) >> 6u16) & 63 == t,
        (f | (t << 6u16) | (k << 12u16)) >> 12u16 == k,
{
}

proof fn lemma_field_bounds(r: u16)
    by (bit_vector)
    ensures
        r & 63 < 64,
        (r >> 6u16) & 63 < 64,
        r >> 12u16 < 16,
{
}

impl Move {
    /// The null move: the all-ones encoding, which no encoded move has.
    pub fn null() -> (m: Self)
        ensures
            m.is_null_spec(),
    {
        Move(0xffff)
    }

    pub open spec fn from_sq(self) -> u8 {
        (self@ & 63) as u8
    }

    pub open spec fn to_sq(self) -> u8 {
        ((self@ >> 6u16) & 63) as u8
    }

    pub open spec fn kind_code(self) -> u16 {
        self@ >> 12u16
    }

    pub open spec fn kind_spec(self) -> MoveKind {
        match MoveKind::of_code(self.kind_code() as int) {
            Some(k) => k,
            None => MoveKind::Quiet,
        }
    }

    pub open spec fn promotion_spec(self) -> Option<PieceKind> {
        self.kind_spec().promoted()
    }

    pub open spec fn is_null_spec(self) -> bool {
        self@ == 0xffffu16
    }

    /// A move is made of its fields: two moves with equal fields and
    /// recognised kinds are the same move.
    pub proof fn lemma_fields_determine(a: Move, b: Move)
        requires
            a.from_sq() == b.from_sq(),
            a.to_sq() == b.to_sq(),
            a.kind_code() == b.kind_code(),
        ensures
            a == b,
    {
        lemma_split(a@);
        lemma_split(b@);
        lemma_field_bounds(a@);
        lemma_field_bounds(b@);
        assert(a@ == b@);
        a.lemma_view_eq(b);
    }

    proof fn lemma_view_eq(self, other: Move)
        requires
            self@ == other@,
        ensures
            self == other,
    {
    }

    /// The move `from`-`to` of kind `kind`.
    pub closed spec fn of(from: int, to: int, kind: MoveKind) -> Move {
        Move(encode(from, to, kind.code()))
    }

    pub proof fn lemma_of(from: int, to: int, kind: MoveKind)
        requires
            0 <= from < 64,
            0 <= to < 64,
        ensures
            Move::of(from, to, kind).from_sq() == from,
            Move::of(from, to, kind).to_sq() == to,
            Move::of(from, to, kind).kind_spec() == kind,
            Move::of(from, to, kind).kind_code() == kind.code(),
            !Move::of(from, to, kind).is_null_spec(),
    {
        kind.lemma_code();
        lemma_encode_fields(from as u16, to as u16, kind.code());
        lemma_not_null(from as u16, to as u16, kind.code());
    }

    pub fn new(from: Square, to: Square, kind: MoveKind) -> (m: Self)
        requires
            from < 64,
            to < 64,
        ensures
            m@ == encode(from as int, to as int, kind.code()),
            m.from_sq() == from,
            m.to_sq() == to,
            m.kind_spec() == kind,
            m.kind_code() == kind.code(),
            !m.is_null_spec(),
            m == Move::of(from as int, to as int, kind),
    {
        let k = kind.bits();
        proof {
            lemma_encode_fields(from as u16, to as u16, k);
            kind.lemma_code();
            lemma_not_null(from as u16, to as u16, k);
        }
        Move((from as u16) | ((to as u16) << 6u16) | (k << 12u16))
    }

    pub fn from(self) -> (r: Square)
        ensures
            r == self.from_sq(),
            r < 64,
    {
        proof { lemma_field_bounds(self@); }
        (self.0 & 63) as u8
    }

    pub fn to(self) -> (r: Square)
        ensures
            r == self.to_sq(),
            r < 64,
    {
        proof { lemma_field_bounds(self@); }
        ((self.0 >> 6u16) & 63) as u8
    }

    pub fn kind(self) -> (r: MoveKind)
        ensures
            r == self.kind_spec(),
    {
        match MoveKind::from_bits((self.0 >> 12u16) as u32) {
            Some(k) => k,
            None => MoveKind::Quiet,
        }
    }

    pub fn raw(self) -> (r: u16)
        ensures
            r == self@,
    {
        self.0
    }

    pub fn is_null(self) -> (r: bool)
        ensures
            r == self.is_null_spec(),
    {
        self.0 == 0xffff
    }

    pub fn is_castle(self) -> (r: bool)
        ensures
            r == (self.kind_spec() == MoveKind::CastleKing || self.kind_spec() == MoveKind::CastleQueen),
    {
        let k = self.kind();
        k == MoveKind::CastleKing || k == MoveKind::CastleQueen
    }

    pub fn is_capture_kind(self) -> (r: bool)
        ensures
            r == (self.kind_spec() == MoveKind::Capture || self.kind_spec() == MoveKind::EnPassant),
    {
        let k = self.kind();
        k == MoveKind::Capture || k == MoveKind::EnPassant
    }

    pub fn promotion(self) -> (r: Option<PieceKind>)
        ensures
            r == self.promotion_spec(),
    {
        match self.kind() {
            MoveKind::PromoteKnight => Some(PieceKind::Knight),
            MoveKind::PromoteBishop => Some(PieceKind::Bishop),
            MoveKind::PromoteRook => Some(PieceKind::Rook),
            MoveKind::PromoteQueen => Some(PieceKind::Queen),
            _ => None,
        }
    }

    pub fn is_promotion(self) -> (r: bool)
        ensures
            r == self.promotion_spec().is_some(),
    {
        self.promotion().is_some()
    }

    /// Long algebraic (UCI) text: `e2e4`, `e7e8q`, or `0000` for the null move.
    pub open spec fn uci_chars(self) -> Seq<char> {
        if self.is_null_spec() {
            seq!['0', '0', '0', '0']
        } else {
            square_name_chars(self.from_sq() as int) + square_name_chars(self.to_sq() as int) + match self.promotion_spec() {
                Some(p) => seq![p.fen_char()],
                None => Seq::<char>::empty(),
            }
        }
    }

    pub fn to_uci(self) -> (s: String)
        ensures
            s@ == self.uci_chars(),
    {
        let mut out: Vec<u8> = Vec::new();
        if self.is_null() {
            out.push(48u8);
            out.push(48u8);
            out.push(48u8);
            out.push(48u8);
            proof { assert(ascii_chars(out@) =~= self.uci_chars()); }
            return string_from_ascii(out);
        }
        let from = self.from();
        let to = self.to();
        proof {
            lemma_field_bounds(self@);
            lemma_sq_bits(from);
            lemma_sq_bits(to);
        }
        out.push(97u8 + (from & 7));
        out.push(49u8 + (from >> 3));
        out.push(97u8 + (to & 7));
        out.push(49u8 + (to >> 3));
        let promo = self.promotion();
        match promo {
            Some(p) => {
                let c: u8 = match p {
                    PieceKind::Knight => 110u8,
                    PieceKind::Bishop => 98u8,
                    PieceKind::Rook => 114u8,
                    _ => 113u8,
                };
                out.push(c);
            },
            None => {},
        }
        proof {
            lemma_sq_bits(from);
            lemma_sq_bits(to);
            assert(ascii_chars(out@) =~= self.uci_chars());
        }
        string_from_ascii(out)
    }
}

/// Move squares are board squares.
pub broadcast proof fn lemma_from_sq_bound(mv: Move)
    ensures
        #[trigger] mv.from_sq() < 64,
{
    lemma_field_bounds(mv@);
}

pub broadcast proof fn lemma_to_sq_bound(mv: Move)
    ensures
        #[trigger] mv.to_sq() < 64,
{
    lemma_field_bounds(mv@);
}

pub broadcast group group_move_bounds {
    lemma_from_sq_bound,
    lemma_to_sq_bound,
}

proof fn lemma_split(r: u16)
    by (bit_vector)
    ensures
        r == ((r & 63) | (((r >> 6u16) & 63) << 6u16) | ((r >> 12u16) << 12u16)),
{
}

proof fn lemma_not_null(f: u16, t: u16, k: u16)
    by (bit_vector)
    requires
        f < 64,
        t < 64,
        k < 10,
    ensures
        (f | (t << 6u16) | (k << 12u16)) != 0xffffu16,
{
}

proof fn lemma_sq_bits(s: u8)
    by (bit_vector)
    requires
        s < 64,
    ensures
        s & 7 == s % 8,
        s >> 3 == s / 8,
{
}

} // verus!
