//! The hand-drawn look: its deterministic pseudo-random source, the seed
//! taken from a shape's geometry, and the split of SVG path data into the
//! numbers that get jittered and the commands that stay.
use vstd::prelude::*;
use crate::text::{push_char, to_chars};

verus! {

/// One xorshift32 step (shifts 13, 17, 5).
pub open spec fn xorshift32(x: u32) -> u32 {
    let a = x ^ (x << 13u32);
    let b = a ^ (a >> 17u32);
    b ^ (b << 5u32)
}

/// The xorshift32 generator; its state is never zero, so it never gets
/// stuck at zero.
pub struct HandDrawnRng {
    state: u32,
}

impl View for HandDrawnRng {
    type V = u32;

    closed spec fn view(&self) -> u32 {
        self.state
    }
}

impl HandDrawnRng {
    #[verifier::type_invariant]
    spec fn nonzero(self) -> bool {
        self.state != 0
    }

    /// A generator seeded with `seed`; a zero seed is replaced by 1.
    pub fn new(seed: u32) -> (res: Self)
        ensures
            res@ == if seed == 0 { 1 } else { seed },
            res@ != 0,
    {
        HandDrawnRng { state: if seed == 0 { 1 } else { seed } }
    }

    /// Advances the generator and returns its new state.
    pub fn next_u32(&mut self) -> (res: u32)
        ensures
            res == xorshift32(old(self)@),
            final(self)@ == res,
            res != 0,
    {
        proof {
            use_type_invariant(&*self);
            lemma_xorshift32_nonzero(self.state);
        }
        let mut x = self.state;
        x ^= x << 13u32;
        x ^= x >> 17u32;
        x ^= x << 5u32;
        self.state = x;
        x
    }
}

/// Each xorshift step maps a non-zero state to a non-zero state.
pub proof fn lemma_xorshift32_nonzero(x: u32)
    requires
        x != 0,
    ensures
        xorshift32(x) != 0,
{
    let a = x ^ (x << 13u32);
    assert(a != 0) by (bit_vector)
        requires
            x != 0,
            a == x ^ (x << 13u32),
    ;
    let b = a ^ (a >> 17u32);
    assert(b != 0) by (bit_vector)
        requires
            a != 0,
            b == a ^ (a >> 17u32),
    ;
    let c = b ^ (b << 5u32);
    assert(c != 0) by (bit_vector)
        requires
            b != 0,
            c == b ^ (b << 5u32),
    ;
}

/// One FNV-1a step over a 32-bit word.
pub open spec fn fnv_step(s: u32, v: u32) -> u32 {
    (s ^ v).wrapping_mul(16777619u32)
}

/// The FNV-1a hash of the four words from the offset basis, with 0
/// replaced by 1.
pub open spec fn seed_of(x: u32, y: u32, w: u32, h: u32) -> u32 {
    let s = fnv_step(fnv_step(fnv_step(fnv_step(2166136261u32, x), y), w), h);
    if s == 0 { 1 } else { s }
}

/// The seed of a shape whose x, y, width and height have the given IEEE-754
/// bit patterns (`f32::to_bits`); never 0.
pub fn hand_drawn_seed(x_bits: u32, y_bits: u32, w_bits: u32, h_bits: u32) -> (res: u32)
    ensures
        res == seed_of(x_bits, y_bits, w_bits, h_bits),
        res != 0,
{
    let mut s: u32 = 2166136261;
    s ^= x_bits;
    s = s.wrapping_mul(16777619);
    s ^= y_bits;
    s = s.wrapping_mul(16777619);
    s ^= w_bits;
    s = s.wrapping_mul(16777619);
    s ^= h_bits;
    s = s.wrapping_mul(16777619);
    if s == 0 { 1 } else { s }
}

/// A piece of SVG path data: a number that may be jittered, or any other
/// character (a command letter, a separator), which is kept as it is.
#[derive(Clone, Debug, PartialEq, Eq)]
pub enum PathPiece {
    Number(String),
    Other(char),
}

/// A character that starts a number: a minus sign, a dot or a digit.
pub open spec fn starts_number(c: char) -> bool {
    c == '-' || c == '.' || ('0' <= c && c <= '9')
}

/// A character that continues a number: a dot or a digit.
pub open spec fn number_char(c: char) -> bool {
    c == '.' || ('0' <= c && c <= '9')
}

/// The length of the run of number characters of `s` from `i` on.
pub open spec fn run_len(s: Seq<char>, i: int) -> int
    decreases s.len() - i,
{
    if i < 0 || i >= s.len() || !number_char(s[i]) {
        0
    } else {
        1 + run_len(s, i + 1)
    }
}

/// The length of the number that `s` starts with: an optional minus sign,
/// then the run of digits and dots.
pub open spec fn number_len(s: Seq<char>) -> int {
    let k: int = if s.len() > 0 && s[0] == '-' { 1 } else { 0 };
    k + run_len(s, k)
}

proof fn lemma_run_len_bound(s: Seq<char>, i: int)
    requires
        0 <= i <= s.len(),
    ensures
        0 <= run_len(s, i) <= s.len() - i,
    decreases s.len() - i,
{
    if i < s.len() && number_char(s[i]) {
        lemma_run_len_bound(s, i + 1);
    }
}

proof fn lemma_run_len_skip(s: Seq<char>, a: int, j: int)
    requires
        0 <= a <= s.len(),
        0 <= j,
    ensures
        run_len(s.skip(a), j) == run_len(s, a + j),
    decreases s.len() - a - j,
{
    if a + j < s.len() {
        assert(s.skip(a)[j] == s[a + j]);
        lemma_run_len_skip(s, a, j + 1);
    }
}

/// The pieces of path data `s`, read from the front: a character that
/// starts a number begins a number piece that takes the longest number
/// there; every other character is a piece of its own.
pub open spec fn path_pieces(s: Seq<char>) -> Seq<(bool, Seq<char>)>
    decreases s.len(),
{
    if s.len() == 0 {
        Seq::<(bool, Seq<char>)>::empty()
    } else if starts_number(s[0]) {
        let n = number_len(s);
        proof {
            lemma_number_len_in_range(s);
        }
        seq![(true, s.take(n))] + path_pieces(s.skip(n))
    } else {
        seq![(false, seq![s[0]])] + path_pieces(s.skip(1))
    }
}

/// A piece as a flag (is it a number) and its text.
pub open spec fn piece_view(p: PathPiece) -> (bool, Seq<char>) {
    match p {
        PathPiece::Number(t) => (true, t@),
        PathPiece::Other(c) => (false, seq![c]),
    }
}

pub open spec fn pieces_view(ps: Seq<PathPiece>) -> Seq<(bool, Seq<char>)> {
    ps.map_values(|p: PathPiece| piece_view(p))
}

/// The text of the pieces, one after the other.
pub open spec fn pieces_text(ps: Seq<(bool, Seq<char>)>) -> Seq<char>
    decreases ps.len(),
{
    if ps.len() == 0 {
        Seq::<char>::empty()
    } else {
        ps[0].1 + pieces_text(ps.skip(1))
    }
}

/// A number piece is never empty and never runs past the data.
pub proof fn lemma_number_len_in_range(s: Seq<char>)
    requires
        s.len() > 0,
        starts_number(s[0]),
    ensures
        1 <= number_len(s) <= s.len(),
{
    if s[0] == '-' {
        lemma_run_len_bound(s, 1);
    } else {
        lemma_run_len_bound(s, 1);
    }
}

proof fn lemma_pieces_view_push(ps: Seq<PathPiece>, p: PathPiece)
    ensures
        pieces_view(ps.push(p)) == pieces_view(ps).push(piece_view(p)),
{
    assert(pieces_view(ps.push(p)) =~= pieces_view(ps).push(piece_view(p)));
}

proof fn lemma_pieces_unfold_other(s: Seq<char>, i: int)
    requires
        0 <= i < s.len(),
        !starts_number(s[i]),
    ensures
        path_pieces(s.skip(i)) == seq![(false, seq![s[i]])] + path_pieces(s.skip(i + 1)),
{
    let rest = s.skip(i);
    assert(rest[0] == s[i]);
    assert(rest.skip(1) =~= s.skip(i + 1));
}

proof fn lemma_pieces_unfold_number(s: Seq<char>, i: int, n: int)
    requires
        0 <= i < s.len(),
        starts_number(s[i]),
        number_len(s.skip(i)) == n,
    ensures
        1 <= n,
        i + n <= s.len(),
        path_pieces(s.skip(i)) == seq![(true, s.subrange(i, i + n))] + path_pieces(s.skip(i + n)),
{
    let rest = s.skip(i);
    assert(rest[0] == s[i]);
    lemma_number_len_in_range(rest);
    assert(rest.take(n) =~= s.subrange(i, i + n));
    assert(rest.skip(n) =~= s.skip(i + n));
}

proof fn lemma_pieces_advance(
    s: Seq<char>,
    i: int,
    n: int,
    before: Seq<(bool, Seq<char>)>,
    piece: (bool, Seq<char>),
)
    requires
        before + path_pieces(s.skip(i)) == path_pieces(s),
        path_pieces(s.skip(i)) == seq![piece] + path_pieces(s.skip(i + n)),
    ensures
        before.push(piece) + path_pieces(s.skip(i + n)) == path_pieces(s),
{
    assert(before.push(piece) + path_pieces(s.skip(i + n)) =~= before + (seq![piece] + path_pieces(s.skip(i + n))));
}

/// Splits path data into numbers and the characters between them, as the
/// jitter of the hand-drawn look reads it.
pub fn path_pieces_of(path_d: &str) -> (res: Vec<PathPiece>)
    ensures
        pieces_view(res@) == path_pieces(path_d@),
{
    let cs = to_chars(path_d);
    let ghost s = cs@;
    let mut out: Vec<PathPiece> = Vec::new();
    let mut i: usize = 0;
    assert(s.skip(0) =~= s);
    assert(pieces_view(out@) =~= Seq::<(bool, Seq<char>)>::empty());
    while i < cs.len()
        invariant
            0 <= i <= cs.len(),
            s == cs@,
            s == path_d@,
            pieces_view(out@) + path_pieces(s.skip(i as int)) == path_pieces(s),
        decreases cs.len() - i,
    {
        let ch = cs[i];
        let ghost before = pieces_view(out@);
        let ghost old_out = out@;
        if ch == '-' || ch == '.' || ('0' <= ch && ch <= '9') {
            let start = i;
            let mut num = String::new();
            if ch == '-' {
                push_char(&mut num, ch);
                i += 1;
            }
            let run_start = i;
            assert(num@ =~= s.subrange(start as int, i as int));
            while i < cs.len() && (cs[i] == '.' || ('0' <= cs[i] && cs[i] <= '9'))
                invariant
                    start <= run_start <= i <= cs.len(),
                    s == cs@,
                    num@ == s.subrange(start as int, i as int),
                    run_len(s, run_start as int) == (i - run_start) + run_len(s, i as int),
                decreases cs.len() - i,
            {
                let c = cs[i];
                push_char(&mut num, c);
                i += 1;
                assert(num@ =~= s.subrange(start as int, i as int));
            }
            proof {
                let rest = s.skip(start as int);
                assert(rest[0] == ch);
                lemma_run_len_skip(s, start as int, run_start - start);
                assert(number_len(rest) == i - start);
                lemma_pieces_unfold_number(s, start as int, i - start);
            }
            let piece = PathPiece::Number(num);
            proof {
                lemma_pieces_view_push(old_out, piece);
                lemma_pieces_advance(s, start as int, i - start, before, piece_view(piece));
            }
            out.push(piece);
        } else {
            proof {
                lemma_pieces_unfold_other(s, i as int);
                lemma_pieces_view_push(old_out, PathPiece::Other(ch));
                lemma_pieces_advance(s, i as int, 1, before, piece_view(PathPiece::Other(ch)));
            }
            out.push(PathPiece::Other(ch));
            i += 1;
        }
    }
    assert(s.skip(i as int) =~= Seq::<char>::empty());
    assert(pieces_view(out@) + Seq::<(bool, Seq<char>)>::empty() =~= pieces_view(out@));
    out
}

/// Splitting path data loses and adds nothing: the pieces, put back
/// together, are the path data; only number pieces are jittered, so every
/// command letter and separator is kept in place.
pub proof fn lemma_path_pieces_rejoin(s: Seq<char>)
    ensures
        pieces_text(path_pieces(s)) == s,
        forall|j: int| 0 <= j < path_pieces(s).len() ==> (#[trigger] path_pieces(s)[j]).0 || (
            path_pieces(s)[j].1.len() == 1 && !starts_number(path_pieces(s)[j].1[0])),
    decreases s.len(),
{
    if s.len() > 0 {
        if starts_number(s[0]) {
            lemma_number_len_in_range(s);
            let n = number_len(s);
            lemma_path_pieces_rejoin(s.skip(n));
            let p = path_pieces(s);
            assert(p.skip(1) =~= path_pieces(s.skip(n)));
            assert(s.take(n) + s.skip(n) =~= s);
            assert forall|j: int| 0 <= j < p.len() implies (#[trigger] p[j]).0 || (
                p[j].1.len() == 1 && !starts_number(p[j].1[0])) by {
                if j > 0 {
                    assert(p[j] == path_pieces(s.skip(n))[j - 1]);
                }
            }
        } else {
            lemma_path_pieces_rejoin(s.skip(1));
            let p = path_pieces(s);
            assert(p.skip(1) =~= path_pieces(s.skip(1)));
            assert(seq![s[0]] + s.skip(1) =~= s);
            assert forall|j: int| 0 <= j < p.len() implies (#[trigger] p[j]).0 || (
                p[j].1.len() == 1 && !starts_number(p[j].1[0])) by {
                if j > 0 {
                    assert(p[j] == path_pieces(s.skip(1))[j - 1]);
                }
            }
        }
    }
}

} // verus!
