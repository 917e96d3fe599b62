use vstd::prelude::*;
use vstd::slice::{slice_subrange, slice_to_vec};
use crate::pieces::{fen_squares, Piece, PieceColor, PieceType, SIZE};

verus! {

/// Linear index of the square at `file` (column a..h as 0..8) and `rank`
/// (row 1..8 as 0..8).
pub open spec fn index_of(file: int, rank: int) -> int {
    file + rank * 8
}

/// A square index read as (file, rank) gives the same index back.
pub proof fn lemma_index_coords_round_trip(index: int)
    requires
        0 <= index < 64,
    ensures
        index_of(index % 8, index / 8) == index,
{
}

/// (file, rank) read as a square index gives the same (file, rank) back.
pub proof fn lemma_coords_index_round_trip(file: int, rank: int)
    requires
        0 <= file < 8,
        0 <= rank < 8,
    ensures
        index_of(file, rank) % 8 == file,
        index_of(file, rank) / 8 == rank,
{
    assert((file + rank * 8) % 8 == file && (file + rank * 8) / 8 == rank) by (nonlinear_arith)
        requires
            0 <= file < 8,
            0 <= rank < 8,
    ;
}

/// Index deltas of the eight directions, as (file, rank) steps: (0, +1),
/// (0, -1), (-1, 0), (+1, 0), then the diagonals (+1, +1), (-1, -1),
/// (-1, +1), (+1, -1).
pub open spec fn direction_offsets() -> Seq<int> {
    seq![8, -8, -1, 1, 9, -9, 7, -7]
}

pub open spec fn min_of(a: int, b: int) -> int {
    if a < b { a } else { b }
}

/// How many squares lie between `(file, rank)` and the board's edge in each
/// direction of `direction_offsets`, in the same order.
pub open spec fn edge_distances(file: int, rank: int) -> Seq<int> {
    let north = 7 - rank;
    let south = rank;
    let east = file;
    let west = 7 - file;
    seq![
        north,
        south,
        east,
        west,
        min_of(north, west),
        min_of(south, east),
        min_of(north, east),
        min_of(south, west),
    ]
}

/// The square `k` steps from `origin` along `offset`.
pub open spec fn step_target(origin: int, offset: int, k: int) -> int {
    origin + offset * k
}

/// Offsets that a sliding piece of `color` at `origin` reaches along `offset`,
/// from step `k + 1` on and at most up to step `dist`: empty squares, then the
/// first occupied one only if it holds an opposing piece.
pub open spec fn ray(
    pieces: Seq<Option<Piece>>,
    origin: int,
    color: PieceColor,
    offset: int,
    k: int,
    dist: int,
) -> Seq<int>
    decreases dist - k,
{
    if k >= dist {
        seq![]
    } else {
        let m = offset * (k + 1);
        match pieces[origin + m] {
            None => seq![m] + ray(pieces, origin, color, offset, k + 1, dist),
            Some(p) => if p.piece_color == color { seq![] } else { seq![m] },
        }
    }
}

/// The rays of the first `n` directions, `dists[x]` steps long along
/// `offsets[x]`, one after the other.
pub open spec fn rays(
    pieces: Seq<Option<Piece>>,
    origin: int,
    color: PieceColor,
    dists: Seq<int>,
    offsets: Seq<int>,
    n: int,
) -> Seq<int>
    decreases n,
{
    if n <= 0 {
        seq![]
    } else {
        rays(pieces, origin, color, dists, offsets, n - 1) + ray(
            pieces,
            origin,
            color,
            offsets[n - 1],
            0,
            dists[n - 1],
        )
    }
}

/// The knight's jumps as (file, rank) deltas.
pub open spec fn knight_jumps() -> Seq<(int, int)> {
    seq![(-2, 1), (-1, 2), (2, -1), (1, -2), (1, 2), (2, 1), (-1, -2), (-2, -1)]
}

/// Offsets of the first `n` knight jumps from `(file, rank)` that land on an
/// empty square of the board.
pub open spec fn knight_moves(pieces: Seq<Option<Piece>>, file: int, rank: int, n: int) -> Seq<
    int,
>
    decreases n,
{
    if n <= 0 {
        seq![]
    } else {
        let prev = knight_moves(pieces, file, rank, n - 1);
        let (dx, dy) = knight_jumps()[n - 1];
        let x = file + dx;
        let y = rank + dy;
        if 0 <= x < 8 && 0 <= y < 8 && pieces[index_of(x, y)] is None {
            prev.push(dx + dy * 8)
        } else {
            prev
        }
    }
}

/// The pseudo-legal move offsets of `piece` standing at `(file, rank)`, in
/// the order in which they are generated.
pub open spec fn moves_of(pieces: Seq<Option<Piece>>, piece: Piece, file: int, rank: int) -> Seq<
    int,
> {
    let origin = index_of(file, rank);
    let color = piece.piece_color;
    let edges = edge_distances(file, rank);
    let offsets = direction_offsets();
    match piece.piece_type {
        PieceType::Knight => knight_moves(pieces, file, rank, 8),
        PieceType::King => offsets,
        PieceType::Queen => rays(pieces, origin, color, edges, offsets, 8),
        PieceType::Rook => rays(pieces, origin, color, edges.subrange(0, 4), offsets, 4),
        PieceType::Bishop => rays(
            pieces,
            origin,
            color,
            edges.subrange(4, 8),
            offsets.subrange(4, 8),
            4,
        ),
        PieceType::Pawn => match color {
            PieceColor::WHITE => seq![8],
            PieceColor::BLACK => seq![-8],
        },
    }
}

pub open spec fn ints_of(s: Seq<isize>) -> Seq<int> {
    s.map_values(|m: isize| m as int)
}

pub open spec fn usize_ints(s: Seq<usize>) -> Seq<int> {
    s.map_values(|d: usize| d as int)
}

/// The squares `origin + m` for the offsets `m` of `moves` that land on the
/// board, in order.
pub open spec fn targets_on_board(origin: int, moves: Seq<int>) -> Seq<int>
    decreases moves.len(),
{
    if moves.len() == 0 {
        seq![]
    } else {
        let prev = targets_on_board(origin, moves.drop_last());
        let t = origin + moves.last();
        if 0 <= t < 64 { prev.push(t) } else { prev }
    }
}

/// Whether `piece`, standing at `origin`, may move to `dest`: the delta is
/// one of its generated offsets, and `dest` is empty or holds an opposing
/// piece.
pub open spec fn move_allowed(pieces: Seq<Option<Piece>>, piece: Piece, origin: int, dest: int) -> bool {
    &&& moves_of(pieces, piece, origin % 8, origin / 8).contains(dest - origin)
    &&& match pieces[dest] {
        None => true,
        Some(q) => q.piece_color != piece.piece_color,
    }
}

/// Every step within the edge distance stays on the board.
proof fn lemma_steps_on_board(file: int, rank: int)
    requires
        0 <= file < 8,
        0 <= rank < 8,
    ensures
        forall|x: int, k: int|
            0 <= x < 8 && 1 <= k <= edge_distances(file, rank)[x] ==> 0 <= #[trigger] step_target(
                index_of(file, rank),
                direction_offsets()[x],
                k,
            ) < 64,
{
    assert forall|x: int, k: int|
        0 <= x < 8 && 1 <= k <= edge_distances(file, rank)[x] implies 0 <= #[trigger] step_target(
        index_of(file, rank),
        direction_offsets()[x],
        k,
    ) < 64 by {
        let o = direction_offsets();
        let e = edge_distances(file, rank);
        assert(o[0] == 8 && e[0] == 7 - rank);
        assert(o[1] == -8 && e[1] == rank);
        assert(o[2] == -1 && e[2] == file);
        assert(o[3] == 1 && e[3] == 7 - file);
        assert(o[4] == 9 && e[4] == min_of(7 - rank, 7 - file));
        assert(o[5] == -9 && e[5] == min_of(rank, file));
        assert(o[6] == 7 && e[6] == min_of(7 - rank, file));
        assert(o[7] == -7 && e[7] == min_of(rank, 7 - file));
        assert(0 <= index_of(file, rank) < 64);
        if x == 0 {
            assert(step_target(index_of(file, rank), o[x], k) == file + rank * 8 + (8) * k);
        } else if x == 1 {
            assert(step_target(index_of(file, rank), o[x], k) == file + rank * 8 + (-8) * k);
        } else if x == 2 {
            assert(step_target(index_of(file, rank), o[x], k) == file + rank * 8 + (-1) * k);
        } else if x == 3 {
            assert(step_target(index_of(file, rank), o[x], k) == file + rank * 8 + (1) * k);
        } else if x == 4 {
            assert(step_target(index_of(file, rank), o[x], k) == file + rank * 8 + (9) * k);
        } else if x == 5 {
            assert(step_target(index_of(file, rank), o[x], k) == file + rank * 8 + (-9) * k);
        } else if x == 6 {
            assert(step_target(index_of(file, rank), o[x], k) == file + rank * 8 + (7) * k);
        } else if x == 7 {
            assert(step_target(index_of(file, rank), o[x], k) == file + rank * 8 + (-7) * k);
        }
    }
}

/// The ray from step `k + 1` is a run of consecutive steps: its `j`-th entry
/// is step `k + j + 1`, and it ends by step `dist`.
proof fn lemma_ray_steps(
    pieces: Seq<Option<Piece>>,
    origin: int,
    color: PieceColor,
    offset: int,
    k: int,
    dist: int,
)
    ensures
        k < dist ==> ray(pieces, origin, color, offset, k, dist).len() <= dist - k,
        k >= dist ==> ray(pieces, origin, color, offset, k, dist).len() == 0,
        forall|j: int|
            0 <= j < ray(pieces, origin, color, offset, k, dist).len() ==> #[trigger] ray(
                pieces,
                origin,
                color,
                offset,
                k,
                dist,
            )[j] == offset * (k + j + 1),
    decreases dist - k,
{
    if k < dist {
        lemma_ray_steps(pieces, origin, color, offset, k + 1, dist);
        let r = ray(pieces, origin, color, offset, k, dist);
        let rest = ray(pieces, origin, color, offset, k + 1, dist);
        if pieces[origin + offset * (k + 1)] is None {
            assert forall|j: int| 0 <= j < r.len() implies #[trigger] r[j] == offset * (k + j + 1) by {
                if j > 0 {
                    assert(r[j] == rest[j - 1]);
                    assert(offset * (k + 1 + (j - 1) + 1) == offset * (k + j + 1));
                }
            }
        }
    }
}

/// Every offset in the first `n` rays is some step `s`, within its
/// direction's distance, along that direction's offset.
proof fn lemma_rays_steps(
    pieces: Seq<Option<Piece>>,
    origin: int,
    color: PieceColor,
    dists: Seq<int>,
    offsets: Seq<int>,
    n: int,
    m: int,
)
    requires
        rays(pieces, origin, color, dists, offsets, n).contains(m),
    ensures
        exists|x: int, s: int|
            0 <= x < n && 1 <= s <= dists[x] && m == #[trigger] step_target(0, offsets[x], s),
    decreases n,
{
    if n > 0 {
        let prev = rays(pieces, origin, color, dists, offsets, n - 1);
        let last = ray(pieces, origin, color, offsets[n - 1], 0, dists[n - 1]);
        let j = choose|j: int| 0 <= j < (prev + last).len() && (prev + last)[j] == m;
        if j < prev.len() {
            assert(prev[j] == m);
            lemma_rays_steps(pieces, origin, color, dists, offsets, n - 1, m);
            let (x, s) = choose|x: int, s: int|
                0 <= x < n - 1 && 1 <= s <= dists[x] && m == #[trigger] step_target(0, offsets[x], s);
            assert(m == step_target(0, offsets[x], s));
        } else {
            lemma_ray_steps(pieces, origin, color, offsets[n - 1], 0, dists[n - 1]);
            assert(last[j - prev.len()] == m);
            assert(m == step_target(0, offsets[n - 1], j - prev.len() + 1));
        }
    }
}

/// A sliding piece (queen, rook, bishop) never moves off the board: every
/// offset it is given lands on a square, with no wrap from one edge of the
/// board to the other.
pub proof fn lemma_sliding_moves_on_board(
    pieces: Seq<Option<Piece>>,
    piece: Piece,
    file: int,
    rank: int,
    m: int,
)
    requires
        0 <= file < 8,
        0 <= rank < 8,
        piece.piece_type == PieceType::Queen || piece.piece_type == PieceType::Rook
            || piece.piece_type == PieceType::Bishop,
        moves_of(pieces, piece, file, rank).contains(m),
    ensures
        0 <= index_of(file, rank) + m < 64,
{
    let origin = index_of(file, rank);
    let color = piece.piece_color;
    let edges = edge_distances(file, rank);
    let offsets = direction_offsets();
    lemma_steps_on_board(file, rank);
    match piece.piece_type {
        PieceType::Queen => {
            lemma_rays_steps(pieces, origin, color, edges, offsets, 8, m);
            let (x, s) = choose|x: int, s: int|
                0 <= x < 8 && 1 <= s <= edges[x] && m == #[trigger] step_target(0, offsets[x], s);
            assert(0 <= step_target(origin, offsets[x], s) < 64);
        },
        PieceType::Rook => {
            lemma_rays_steps(pieces, origin, color, edges.subrange(0, 4), offsets, 4, m);
            let (x, s) = choose|x: int, s: int|
                0 <= x < 4 && 1 <= s <= edges.subrange(0, 4)[x] && m == #[trigger] step_target(
                    0,
                    offsets[x],
                    s,
                );
            assert(0 <= step_target(origin, offsets[x], s) < 64);
        },
        _ => {
            lemma_rays_steps(pieces, origin, color, edges.subrange(4, 8), offsets.subrange(4, 8), 4, m);
            let (x, s) = choose|x: int, s: int|
                0 <= x < 4 && 1 <= s <= edges.subrange(4, 8)[x] && m == #[trigger] step_target(
                    0,
                    offsets.subrange(4, 8)[x],
                    s,
                );
            assert(0 <= step_target(origin, offsets[x + 4], s) < 64);
        },
    }
}

/// Whether `m` is among `moves`.
fn has_offset(moves: &Vec<isize>, m: isize) -> (r: bool)
    ensures
        r == ints_of(moves@).contains(m as int),
{
    let mut i: usize = 0;
    while i < moves.len()
        invariant
            i <= moves@.len(),
            forall|j: int| 0 <= j < i ==> moves@[j] != m,
        decreases moves@.len() - i,
    {
        if moves[i] == m {
            assert(ints_of(moves@)[i as int] == m as int);
            return true;
        }
        i = i + 1;
    }
    proof {
        if ints_of(moves@).contains(m as int) {
            let j = choose|j: int| 0 <= j < ints_of(moves@).len() && ints_of(moves@)[j] == m as int;
            assert(moves@[j] == m);
        }
    }
    false
}

/// Index deltas of the eight directions, as in `direction_offsets`.
fn offsets_table() -> (r: [isize; 8])
    ensures
        ints_of(r@) == direction_offsets(),
{
    let r: [isize; 8] = [8, -8, -1, 1, 9, -9, 7, -7];
    assert(ints_of(r@) =~= direction_offsets());
    r
}

/// The board: what stands on each of the 64 squares, whose turn it is, and
/// the square picked up and the square released by the pointer, if any.
pub struct Board {
    pub pieces: [Option<Piece>; SIZE],
    pub moving_color: PieceColor,
    pub selected: Option<usize>,
    pub released: Option<usize>,
    pub selected_piece: Option<Piece>,
}

impl Board {

    /// A board set up from the piece-placement field of `fen`, White to move,
    /// nothing picked up.
    pub fn new(fen: &str) -> (r: Board)
        ensures
            r.pieces@ == fen_squares(fen@),
            r.moving_color == PieceColor::WHITE,
            r.selected is None,
            r.released is None,
            r.selected_piece is None,
    {
        Board {
            pieces: Piece::from_fen(fen),
            moving_color: PieceColor::WHITE,
            selected: None,
            released: None,
            selected_piece: None,
        }
    }

    /// The standard starting position.
    pub fn default_board() -> (r: Self)
        ensures
            r.pieces@ == fen_squares("rnbqkbnr/pppppppp/8/8/8/8/PPPPPPPP/RNBQKBNR w KQkq - 0 1"@),
            r.moving_color == PieceColor::WHITE,
            r.selected is None,
            r.released is None,
            r.selected_piece is None,
    {
        Board::new("rnbqkbnr/pppppppp/8/8/8/8/PPPPPPPP/RNBQKBNR w KQkq - 0 1")
    }

    /// Offsets of the knight jumps from `(file, rank)` that land on an empty
    /// square of the board.
    fn knight_moves_from(&self, file: usize, rank: usize) -> (r: Vec<isize>)
        requires
            file < 8,
            rank < 8,
        ensures
            ints_of(r@) == knight_moves(self.pieces@, file as int, rank as int, 8),
    {
        let offsets: [[isize; 2]; 8] = [
            [-2, 1],
            [-1, 2],
            [2, -1],
            [1, -2],
            [1, 2],
            [2, 1],
            [-1, -2],
            [-2, -1],
        ];
        proof {
            assert forall|d: int| 0 <= d < 8 implies offsets@[d]@[0] == knight_jumps()[d].0
                && offsets@[d]@[1] == knight_jumps()[d].1 by {
                if d == 0 {
                } else if d == 1 {
                } else if d == 2 {
                } else if d == 3 {
                } else if d == 4 {
                } else if d == 5 {
                } else if d == 6 {
                } else {
                }
            }
        }
        let mut moves: Vec<isize> = Vec::new();
        let mut d: usize = 0;
        while d < 8
            invariant
                d <= 8,
                file < 8,
                rank < 8,
                forall|d: int| 0 <= d < 8 ==> offsets@[d]@[0] == knight_jumps()[d].0
                    && offsets@[d]@[1] == knight_jumps()[d].1,
                forall|d: int| 0 <= d < 8 ==> -2 <= #[trigger] knight_jumps()[d].0 <= 2
                    && -2 <= knight_jumps()[d].1 <= 2,
                ints_of(moves@) == knight_moves(self.pieces@, file as int, rank as int, d as int),
            decreases 8 - d,
        {
            let ghost before = ints_of(moves@);
            let dx: isize = offsets[d][0];
            let dy: isize = offsets[d][1];
            let x: isize = file as isize + dx;
            let y: isize = rank as isize + dy;
            if 0 <= x && x < 8 && 0 <= y && y < 8 {
                let i = Board::coords_to_index(x as usize, y as usize);
                if self.pieces[i].is_none() {
                    moves.push(dx + dy * 8);
                }
            }
            assert(ints_of(moves@) =~= knight_moves(self.pieces@, file as int, rank as int, d + 1));
            d = d + 1;
        }
        moves
    }

    /// The pseudo-legal move offsets of `piece` standing at `(file, rank)`.
    pub fn get_moves(&self, piece: Piece, file: usize, rank: usize) -> (r: Vec<isize>)
        requires
            file < 8,
            rank < 8,
        ensures
            ints_of(r@) == moves_of(self.pieces@, piece, file as int, rank as int),
    {
        let north = 7 - rank;
        let south = rank;
        let east = file;
        let west = 7 - file;
        // north, south, east, west, nw, se, ne, sw
        let direction_to_edge: [usize; 8] = [
            north,
            south,
            east,
            west,
            if north < west { north } else { west },
            if south < east { south } else { east },
            if north < east { north } else { east },
            if south < west { south } else { west },
        ];
        let offsets = offsets_table();
        let origin = Board::coords_to_index(file, rank);
        let color = piece.piece_color;
        let ghost edges = edge_distances(file as int, rank as int);
        let ghost dirs = direction_offsets();
        proof {
            lemma_steps_on_board(file as int, rank as int);
            assert(usize_ints(direction_to_edge@) =~= edges);
            assert forall|x: int| 0 <= x < 8 implies direction_to_edge@[x] <= 7 && -9 <= offsets@[x] <= 9 by {
                assert(direction_to_edge@[x] as int == edges[x]);
                assert(offsets@[x] as int == dirs[x]);
            }
        }
        match piece.piece_type {
            PieceType::Knight => self.knight_moves_from(file, rank),
            PieceType::King => {
                let v = slice_to_vec(offsets.as_slice());
                v
            },
            PieceType::Queen => {
                let edge = direction_to_edge.as_slice();
                let offs = offsets.as_slice();
                proof {
                    assert forall|x: int, k: int|
                        0 <= x < edge@.len() && 1 <= k <= edge@[x] implies 0 <= #[trigger] step_target(
                        origin as int,
                        offs@[x] as int,
                        k,
                    ) < 64 by {
                        assert(edge@[x] as int == edges[x]);
                        assert(offs@[x] as int == dirs[x]);
                        assert(0 <= step_target(origin as int, dirs[x], k) < 64);
                    }
                }
                self.sliding_piecs_moves(origin, color, edge, offs)
            },
            PieceType::Rook => {
                let edge = slice_subrange(direction_to_edge.as_slice(), 0, 4);
                let offs = offsets.as_slice();
                proof {
                    assert forall|x: int, k: int|
                        0 <= x < edge@.len() && 1 <= k <= edge@[x] implies 0 <= #[trigger] step_target(
                        origin as int,
                        offs@[x] as int,
                        k,
                    ) < 64 by {
                        assert(edge@[x] as int == edges[x]);
                        assert(offs@[x] as int == dirs[x]);
                        assert(0 <= step_target(origin as int, dirs[x], k) < 64);
                    }
                    assert(usize_ints(edge@) =~= edges.subrange(0, 4));
                }
                self.sliding_piecs_moves(origin, color, edge, offs)
            },
            PieceType::Bishop => {
                let edge = slice_subrange(direction_to_edge.as_slice(), 4, 8);
                let offs = slice_subrange(offsets.as_slice(), 4, 8);
                proof {
                    assert forall|x: int, k: int|
                        0 <= x < edge@.len() && 1 <= k <= edge@[x] implies 0 <= #[trigger] step_target(
                        origin as int,
                        offs@[x] as int,
                        k,
                    ) < 64 by {
                        assert(edge@[x] as int == edges[x + 4]);
                        assert(offs@[x] as int == dirs[x + 4]);
                        assert(0 <= step_target(origin as int, dirs[x + 4], k) < 64);
                    }
                    assert forall|x: int| 0 <= x < edge@.len() implies edge@[x] <= 7 && -9 <= offs@[x] <= 9 by {
                        assert(edge@[x] == direction_to_edge@[x + 4]);
                        assert(offs@[x] == offsets@[x + 4]);
                    }
                    assert(usize_ints(edge@) =~= edges.subrange(4, 8));
                    assert(ints_of(offs@) =~= dirs.subrange(4, 8));
                }
                self.sliding_piecs_moves(origin, color, edge, offs)
            },
            PieceType::Pawn => {
                let v = match color {
                    PieceColor::WHITE => slice_to_vec(slice_subrange(offsets.as_slice(), 0, 1)),
                    PieceColor::BLACK => slice_to_vec(slice_subrange(offsets.as_slice(), 1, 2)),
                };
                proof {
                    assert(ints_of(v@) =~= moves_of(self.pieces@, piece, file as int, rank as int));
                }
                v
            },
        }
    }
    /// (file, rank) of a square index.
    pub fn index_to_coords(index: usize) -> (r: (usize, usize))
        ensures
            r.0 == index % 8,
            r.1 == index / 8,
    {
        (index % 8, index / 8)
    }

    /// Square index of (file, rank).
    pub fn coords_to_index(file: usize, rank: usize) -> (r: usize)
        requires
            file + rank * 8 <= usize::MAX,
        ensures
            r == index_of(file as int, rank as int),
    {
        file + rank * 8
    }

    /// Offsets reached by sliding from `origin` along `offsets[x]` for at most
    /// `edge[x]` squares, for each direction `x` of `edge`.
    fn sliding_piecs_moves(&self, origin: usize, color: PieceColor, edge: &[usize], offsets: &[isize]) -> (r: Vec<isize>)
        requires
            origin < 64,
            edge@.len() <= offsets@.len(),
            forall|x: int| 0 <= x < edge@.len() ==> edge@[x] <= 7 && -9 <= offsets@[x] <= 9,
            forall|x: int, k: int|
                0 <= x < edge@.len() && 1 <= k <= edge@[x] ==> 0 <= #[trigger] step_target(
                    origin as int,
                    offsets@[x] as int,
                    k,
                ) < 64,
        ensures
            ints_of(r@) == rays(
                self.pieces@,
                origin as int,
                color,
                usize_ints(edge@),
                ints_of(offsets@),
                edge@.len() as int,
            ),
    {
        let ghost pieces = self.pieces@;
        let ghost dists = usize_ints(edge@);
        let ghost offs = ints_of(offsets@);
        let mut moves: Vec<isize> = Vec::new();
        let mut x: usize = 0;
        while x < edge.len()
            invariant
                x <= edge@.len(),
                edge@.len() <= offsets@.len(),
                pieces == self.pieces@,
                dists == usize_ints(edge@),
                offs == ints_of(offsets@),
                origin < 64,
                forall|x: int| 0 <= x < edge@.len() ==> edge@[x] <= 7 && -9 <= offsets@[x] <= 9,
                forall|x: int, k: int|
                    0 <= x < edge@.len() && 1 <= k <= edge@[x] ==> 0 <= #[trigger] step_target(
                        origin as int,
                        offsets@[x] as int,
                        k,
                    ) < 64,
                ints_of(moves@) == rays(pieces, origin as int, color, dists, offs, x as int),
            decreases edge@.len() - x,
        {
            let ghost base = ints_of(moves@);
            let ghost off = offsets@[x as int] as int;
            let ghost dist = edge@[x as int] as int;
            let mut y: usize = 0;
            let mut stop = false;
            while y < edge[x] && !stop
                invariant
                    x < edge@.len(),
                    edge@.len() <= offsets@.len(),
                    pieces == self.pieces@,
                    origin < 64,
                    off == offsets@[x as int],
                    dist == edge@[x as int],
                    dist <= 7,
                    -9 <= off <= 9,
                    y <= dist,
                    forall|k: int|
                        1 <= k <= dist ==> 0 <= #[trigger] step_target(origin as int, off, k) < 64,
                    ints_of(moves@) + (if stop {
                        seq![]
                    } else {
                        ray(pieces, origin as int, color, off, y as int, dist)
                    }) == base + ray(pieces, origin as int, color, off, 0, dist),
                decreases dist - y,
            {
                let ghost before = ints_of(moves@);
                assert(-63 <= off * (1 + y) <= 63) by (nonlinear_arith)
                    requires
                        -9 <= off <= 9,
                        0 <= y < 7,
                ;
                let m: isize = offsets[x] * (1 + y as isize);
                assert(0 <= step_target(origin as int, off, y + 1) < 64);
                let target: usize = (origin as isize + m) as usize;
                let p = self.pieces[target];
                match p {
                    None => {
                        moves.push(m);
                    },
                    Some(q) => {
                        if q.piece_color != color {
                            moves.push(m);
                        }
                        stop = true;
                    },
                }
                assert(ints_of(moves@) =~= before + (if moves@.len() > before.len() {
                    seq![m as int]
                } else {
                    seq![]
                }));
                y = y + 1;
            }
            assert(ints_of(moves@) == base + ray(pieces, origin as int, color, off, 0, dist));
            x = x + 1;
        }
        moves
    }

    /// Moves `piece`, standing at `origin`, to `dest` if that is allowed; a
    /// refused move puts `piece` back at `origin`.
    fn move_piece(&mut self, piece: Piece, origin: usize, dest: usize) -> (r: bool)
        requires
            origin < 64,
            dest < 64,
        ensures
            r == move_allowed(old(self).pieces@, piece, origin as int, dest as int),
            final(self).pieces@ == if r {
                old(self).pieces@.update(origin as int, None).update(dest as int, Some(piece))
            } else if moves_of(old(self).pieces@, piece, origin as int % 8, origin as int / 8).contains(dest - origin) {
                old(self).pieces@
            } else {
                old(self).pieces@.update(origin as int, Some(piece))
            },
            final(self).moving_color == old(self).moving_color,
            final(self).selected == old(self).selected,
            final(self).released == old(self).released,
            final(self).selected_piece == old(self).selected_piece,
    {
        let (file, rank) = Board::index_to_coords(origin);
        let moves = self.get_moves(piece, file, rank);
        let translation: isize = dest as isize - origin as isize;
        let target = self.pieces[dest];
        if !has_offset(&moves, translation) {
            self.pieces[origin] = Some(piece);
            false
        } else {
            let free = match target {
                None => true,
                Some(q) => q.piece_color != piece.piece_color,
            };
            if free {
                self.pieces[origin] = None;
                self.pieces[dest] = Some(piece);
            }
            free
        }
    }

    /// Moves the piece at `origin` to `dest` if that is one of its generated
    /// moves and `dest` is empty or holds an opposing piece; reports whether
    /// it moved. An empty `origin` moves nothing.
    pub fn commit(&mut self, origin: usize, dest: usize) -> (r: bool)
        requires
            origin < 64,
            dest < 64,
        ensures
            r == match old(self).pieces@[origin as int] {
                Some(p) => move_allowed(old(self).pieces@, p, origin as int, dest as int),
                None => false,
            },
            final(self).pieces@ == if r {
                old(self).pieces@.update(origin as int, None).update(
                    dest as int,
                    old(self).pieces@[origin as int],
                )
            } else {
                old(self).pieces@
            },
            final(self).moving_color == old(self).moving_color,
            final(self).selected == old(self).selected,
            final(self).released == old(self).released,
            final(self).selected_piece == old(self).selected_piece,
    {
        match self.pieces[origin] {
            Some(p) => {
                let r = self.move_piece(p, origin, dest);
                assert(old(self).pieces@.update(origin as int, Some(p)) =~= old(self).pieces@);
                r
            },
            None => false,
        }
    }

    /// A press on `index`: an occupied square is picked up.
    pub fn press(&mut self, index: usize)
        requires
            index < 64,
        ensures
            final(self).pieces == old(self).pieces,
            final(self).moving_color == old(self).moving_color,
            final(self).released == old(self).released,
            old(self).pieces@[index as int] is Some ==> final(self).selected == Some(index)
                && final(self).selected_piece == old(self).pieces@[index as int],
            old(self).pieces@[index as int] is None ==> final(self).selected == old(self).selected
                && final(self).selected_piece == old(self).selected_piece,
    {
        let piece = self.pieces[index];
        if piece.is_some() {
            self.selected = Some(index);
            self.selected_piece = piece;
        }
    }

    /// A release on `index`: recorded while a piece is picked up.
    pub fn release(&mut self, index: usize)
        ensures
            final(self).pieces == old(self).pieces,
            final(self).moving_color == old(self).moving_color,
            final(self).selected == old(self).selected,
            final(self).selected_piece == old(self).selected_piece,
            final(self).released == if old(self).selected_piece is Some {
                Some(index)
            } else {
                old(self).released
            },
    {
        if self.selected_piece.is_some() {
            self.released = Some(index);
        }
    }

    /// Settles a recorded release: the picked-up piece is moved from the
    /// selected square to the released one if that move is allowed, else it
    /// stays where it was; then the selection and release are cleared.
    /// Reports whether the piece moved.
    pub fn settle_release(&mut self) -> (r: bool)
        ensures
            ({
                let o = *old(self);
                match (o.released, o.selected_piece, o.selected) {
                    (Some(i), Some(p), Some(s)) => if i < 64 && s < 64 {
                        &&& r == move_allowed(o.pieces@, p, s as int, i as int)
                        &&& final(self).pieces@ == if r {
                            o.pieces@.update(s as int, None).update(i as int, Some(p))
                        } else if moves_of(o.pieces@, p, s as int % 8, s as int / 8).contains(i - s) {
                            o.pieces@
                        } else {
                            o.pieces@.update(s as int, Some(p))
                        }
                    } else {
                        !r && final(self).pieces == o.pieces
                    },
                    _ => !r && final(self).pieces == o.pieces,
                }
            }),
            final(self).moving_color == old(self).moving_color,
            old(self).released is Some ==> final(self).selected is None && final(self).released is None
                && final(self).selected_piece is None,
            old(self).released is None ==> *final(self) == *old(self),
    {
        let mut moved = false;
        if let Some(i) = self.released {
            if let (Some(p), Some(s)) = (self.selected_piece, self.selected) {
                if i < 64 && s < 64 {
                    moved = self.move_piece(p, s, i);
                }
            }
            self.selected_piece = None;
            self.selected = None;
            self.released = None;
        }
        moved
    }

    /// The squares that `piece` standing at `(file, rank)` can move to, as
    /// indices: its generated offsets that land on the board.
    pub fn move_targets(&self, piece: Piece, file: usize, rank: usize) -> (r: Vec<usize>)
        requires
            file < 8,
            rank < 8,
        ensures
            usize_ints(r@) == targets_on_board(
                index_of(file as int, rank as int),
                moves_of(self.pieces@, piece, file as int, rank as int),
            ),
    {
        let moves = self.get_moves(piece, file, rank);
        let origin = Board::coords_to_index(file, rank);
        let ghost ms = ints_of(moves@);
        let mut targets: Vec<usize> = Vec::new();
        let mut i: usize = 0;
        while i < moves.len()
            invariant
                i <= moves@.len(),
                ms == ints_of(moves@),
                origin < 64,
                usize_ints(targets@) == targets_on_board(origin as int, ms.subrange(0, i as int)),
            decreases moves@.len() - i,
        {
            let m = moves[i];
            assert(ms.subrange(0, i + 1).drop_last() =~= ms.subrange(0, i as int));
            if -(origin as isize) <= m && m < 64 - origin as isize {
                targets.push((origin as isize + m) as usize);
            }
            assert(usize_ints(targets@) =~= targets_on_board(origin as int, ms.subrange(0, i + 1)));
            i = i + 1;
        }
        assert(ms.subrange(0, ms.len() as int) =~= ms);
        targets
    }
}

} // verus!
