use vstd::prelude::*;

verus! {

/// Side a piece belongs to.
#[derive(PartialEq, Eq, Structural, Clone, Copy, Debug)]
pub enum PieceColor {
    BLACK,
    WHITE,
}

/// Kind of a chess piece.
#[derive(PartialEq, Eq, Structural, Clone, Copy, Debug)]
pub enum PieceType {
    King,
    Queen,
    Rook,
    Bishop,
    Knight,
    Pawn,
}

/// A piece: its kind and its side. Two pieces are equal iff both match.
#[derive(PartialEq, Eq, Structural, Clone, Copy, Debug)]
pub struct Piece {
    pub piece_type: PieceType,
    pub piece_color: PieceColor,
}

/// Number of squares on the board.
pub const SIZE: usize = 64;

/// The piece that a FEN letter denotes: upper case is White, lower case Black.
pub open spec fn symbol_piece(c: char) -> Option<Piece> {
    let color = if 'A' <= c <= 'Z' { PieceColor::WHITE } else { PieceColor::BLACK };
    let kind = match c {
        'k' | 'K' => Some(PieceType::King),
        'q' | 'Q' => Some(PieceType::Queen),
        'r' | 'R' => Some(PieceType::Rook),
        'b' | 'B' => Some(PieceType::Bishop),
        'n' | 'N' => Some(PieceType::Knight),
        'p' | 'P' => Some(PieceType::Pawn),
        _ => None,
    };
    match kind {
        Some(t) => Some(Piece { piece_type: t, piece_color: color }),
        None => None,
    }
}

/// Cursor of the placement scan: the squares so far, the current rank and
/// file, and whether the placement field has ended (at the first space).
pub struct FenScan {
    pub squares: Seq<Option<Piece>>,
    pub rank: int,
    pub file: int,
    pub done: bool,
}

pub open spec fn fen_start() -> FenScan {
    FenScan { squares: Seq::new(64, |i: int| None), rank: 7, file: 0, done: false }
}

/// One character of the placement field. A separator moves to the file a of
/// the rank below; a digit skips that many files; a piece letter is written
/// at `rank * 8 + file` when that is a square of the board (a malformed field
/// can point elsewhere, and such a letter writes nothing) and moves one file
/// on; any other character is skipped.
pub open spec fn fen_step(st: FenScan, c: char) -> FenScan {
    if st.done || c == ' ' {
        FenScan { done: true, ..st }
    } else if c == '/' {
        FenScan { rank: st.rank - 1, file: 0, ..st }
    } else if '0' <= c <= '9' {
        FenScan { file: st.file + (c as int - '0' as int), ..st }
    } else if symbol_piece(c) is Some {
        let i = st.rank * 8 + st.file;
        FenScan {
            squares: if 0 <= st.rank && i < 64 { st.squares.update(i, symbol_piece(c)) } else { st.squares },
            file: st.file + 1,
            ..st
        }
    } else {
        st
    }
}

/// The scan after the first `n` characters of `s`.
pub open spec fn fen_scan(s: Seq<char>, n: nat) -> FenScan
    decreases n,
{
    if n == 0 || n > s.len() {
        fen_start()
    } else {
        fen_step(fen_scan(s, (n - 1) as nat), s[n - 1])
    }
}

/// The 64 squares that the piece-placement field of `s` describes, indexed by
/// `file + 8 * rank` with rank 0 the first rank.
pub open spec fn fen_squares(s: Seq<char>) -> Seq<Option<Piece>> {
    fen_scan(s, s.len()).squares
}

/// The piece of a FEN letter, if it names one.
fn piece_of_symbol(c: char) -> (r: Option<Piece>)
    ensures
        r == symbol_piece(c),
{
    let color = if 'A' <= c && c <= 'Z' { PieceColor::WHITE } else { PieceColor::BLACK };
    let kind = match c {
        'k' | 'K' => Some(PieceType::King),
        'q' | 'Q' => Some(PieceType::Queen),
        'r' | 'R' => Some(PieceType::Rook),
        'b' | 'B' => Some(PieceType::Bishop),
        'n' | 'N' => Some(PieceType::Knight),
        'p' | 'P' => Some(PieceType::Pawn),
        _ => None,
    };
    match kind {
        Some(t) => Some(Piece::new(t, color)),
        None => None,
    }
}

impl Piece {
    pub fn new(piece_type: PieceType, piece_color: PieceColor) -> (r: Piece)
        ensures
            r.piece_type == piece_type,
            r.piece_color == piece_color,
    {
        Piece { piece_type, piece_color }
    }

    /// Reads the piece-placement field of a FEN string (everything up to the
    /// first space), ranks 8 down to 1, files a to h. Malformed input is read
    /// best-effort: it never fails.
    pub fn from_fen(fen: &str) -> (r: [Option<Piece>; SIZE])
        ensures
            r@ == fen_squares(fen@),
    {
        let mut pieces: [Option<Piece>; SIZE] = [None; SIZE];
        // Once the rank drops below the board it stays at -1, and a file past
        // the board stays at 64: no later letter of either lands on a square.
        let mut rank: i64 = 7;
        let mut file: u64 = 0;
        let mut done = false;
        proof {
            assert(pieces@ =~= fen_start().squares);
        }
        for symbol in it: fen.chars()
            invariant
                it.seq() == fen@,
                ({
                    let st = fen_scan(fen@, it.index() as nat);
                    &&& pieces@ == st.squares
                    &&& done == st.done
                    &&& st.rank <= 7
                    &&& st.file >= 0
                    &&& rank == if st.rank < -1 { -1 } else { st.rank }
                    &&& file == if st.file > 64 { 64 } else { st.file }
                }),
        {
            proof {
                assert(fen_scan(fen@, (it.index() + 1) as nat) == fen_step(fen_scan(fen@, it.index() as nat), symbol));
            }
            if done || symbol == ' ' {
                done = true;
            } else if symbol == '/' {
                file = 0;
                if rank >= 0 {
                    rank = rank - 1;
                }
            } else if '0' <= symbol && symbol <= '9' {
                let d = (symbol as u32 - '0' as u32) as u64;
                file = if file + d > 64 { 64 } else { file + d };
            } else {
                match piece_of_symbol(symbol) {
                    Some(p) => {
                        if rank >= 0 && (rank as u64) * 8 + file < 64 {
                            pieces[((rank as u64) * 8 + file) as usize] = Some(p);
                        }
                        if file < 64 {
                            file = file + 1;
                        }
                    },
                    None => {},
                }
            }
        }
        pieces
    }
}

} // verus!
