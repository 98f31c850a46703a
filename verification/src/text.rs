//! Building text: appending to strings, decimal and binary renderings of
//! unsigned integers, and text assembled from pieces whose numbers are
//! rendered from their floating-point values.

use vstd::prelude::*;
use crate::instruction::i_struct::{Angle, ComplexBits, Matrix};

verus! {

/// Appends `t` to `s`: the resulting string is the old one followed by the
/// characters of `t`.
pub fn push_str(s: &mut String, t: &str)
    ensures
        final(s)@ == old(s)@ + t@,
{
    s.append(t);
}

/// Appends the character `c` to `s` (std's `String::push`).
///
/// Trusted: the resulting string is the old one followed by `c`.
#[verifier::external_body]
pub fn push_char(s: &mut String, c: char)
    ensures
        final(s)@ == old(s)@.push(c),
{
    s.push(c);
}

/// The decimal digit character of `d`.
pub open spec fn digit_char(d: nat) -> char {
    if d == 0 { '0' }
    else if d == 1 { '1' }
    else if d == 2 { '2' }
    else if d == 3 { '3' }
    else if d == 4 { '4' }
    else if d == 5 { '5' }
    else if d == 6 { '6' }
    else if d == 7 { '7' }
    else if d == 8 { '8' }
    else { '9' }
}

/// The decimal rendering of `n`, without leading zeros (`"0"` for zero).
pub open spec fn decimal(n: nat) -> Seq<char>
    decreases n,
{
    if n < 10 {
        seq![digit_char(n)]
    } else {
        decimal(n / 10).push(digit_char(n % 10))
    }
}

/// The binary rendering of `n`, without leading zeros (`"0"` for zero).
pub open spec fn binary(n: nat) -> Seq<char>
    decreases n,
{
    if n < 2 {
        seq![if n == 0 { '0' } else { '1' }]
    } else {
        binary(n / 2).push(if n % 2 == 0 { '0' } else { '1' })
    }
}

/// `n` in binary, left-padded with zeros to at least `width` characters.
pub open spec fn bitstring(n: nat, width: nat) -> Seq<char> {
    let b = binary(n);
    if b.len() >= width {
        b
    } else {
        Seq::new((width - b.len()) as nat, |i: int| '0') + b
    }
}

fn digit(d: u64) -> (c: char)
    requires
        d < 10,
    ensures
        c == digit_char(d as nat),
{
    if d == 0 { '0' }
    else if d == 1 { '1' }
    else if d == 2 { '2' }
    else if d == 3 { '3' }
    else if d == 4 { '4' }
    else if d == 5 { '5' }
    else if d == 6 { '6' }
    else if d == 7 { '7' }
    else if d == 8 { '8' }
    else { '9' }
}

/// Appends the decimal rendering of `n` to `s`.
pub fn push_decimal(s: &mut String, n: u64)
    ensures
        final(s)@ == old(s)@ + decimal(n as nat),
    decreases n,
{
    if n < 10 {
        push_char(s, digit(n));
        assert(decimal(n as nat) == seq![digit_char(n as nat)]);
        assert(old(s)@.push(digit_char(n as nat)) =~= old(s)@ + seq![digit_char(n as nat)]);
    } else {
        push_decimal(s, n / 10);
        push_char(s, digit(n % 10));
        assert(final(s)@ =~= old(s)@ + decimal(n as nat));
    }
}

/// The binary digits of `n`.
fn binary_chars(n: u64) -> (r: Vec<char>)
    ensures
        r@ == binary(n as nat),
    decreases n,
{
    if n < 2 {
        let mut v: Vec<char> = Vec::new();
        v.push(if n == 0 { '0' } else { '1' });
        assert(v@ =~= binary(n as nat));
        v
    } else {
        let mut v = binary_chars(n / 2);
        v.push(if n % 2 == 0 { '0' } else { '1' });
        v
    }
}

/// Appends the characters of `v` to `s`.
pub fn push_chars(s: &mut String, v: &Vec<char>)
    ensures
        final(s)@ == old(s)@ + v@,
{
    let mut i: usize = 0;
    while i < v.len()
        invariant
            i <= v.len(),
            s@ == old(s)@ + v@.take(i as int),
        decreases v.len() - i,
    {
        push_char(s, v[i]);
        i += 1;
        assert(s@ =~= old(s)@ + v@.take(i as int));
    }
    assert(v@.take(i as int) =~= v@);
}

/// `n` in binary, left-padded with zeros to at least `width` characters
/// (the rendering of `format!("{:0>width$b}", n)`).
pub fn to_bitstring(n: u64, width: usize) -> (r: String)
    ensures
        r@ == bitstring(n as nat, width as nat),
{
    let b = binary_chars(n);
    let mut s = String::new();
    if b.len() < width {
        let pad = width - b.len();
        let mut i: usize = 0;
        while i < pad
            invariant
                i <= pad,
                s@ == Seq::new(i as nat, |k: int| '0'),
            decreases pad - i,
        {
            push_char(&mut s, '0');
            i += 1;
            assert(s@ =~= Seq::new(i as nat, |k: int| '0'));
        }
    }
    let ghost before = s@;
    push_chars(&mut s, &b);
    assert(s@ =~= bitstring(n as nat, width as nat));
    s
}

/// A piece of generated text: literal text, or a number written from its
/// floating-point value when the pieces are joined.
#[derive(Debug)]
pub enum Piece {
    /// Literal text.
    Text(String),
    /// An angle, written as `{}` writes its value in radians.
    Value(Angle),
    /// An angle, written with six decimals (`{:.6}`).
    Fixed(Angle),
    /// An angle plus pi, written with six decimals (`{:.6}`).
    FixedPlusPi(Angle),
    /// A single-precision number given by its bits, written as `{}` writes it.
    Single(u32),
    /// Text shown in a color on terminals that show colors.
    Colored(Color, String),
    /// A matrix, written as nalgebra writes its matrices.
    Matrix(Matrix),
}

/// The colors of colored text.
#[derive(Debug, Clone, Copy, PartialEq, Eq, Structural)]
pub enum Color {
    Cyan,
    Yellow,
    BrightGreen,
    Blue,
}

/// The model of a piece of text.
pub enum PieceModel {
    Text(Seq<char>),
    Value(Angle),
    Fixed(Angle),
    FixedPlusPi(Angle),
    Single(u32),
    Colored(Color, Seq<char>),
    Matrix(usize, Seq<ComplexBits>),
}

impl Piece {
    /// The model of the piece.
    pub open spec fn model(&self) -> PieceModel {
        match self {
            Piece::Text(s) => PieceModel::Text(s@),
            Piece::Value(a) => PieceModel::Value(*a),
            Piece::Fixed(a) => PieceModel::Fixed(*a),
            Piece::FixedPlusPi(a) => PieceModel::FixedPlusPi(*a),
            Piece::Single(b) => PieceModel::Single(*b),
            Piece::Colored(c, t) => PieceModel::Colored(*c, t@),
            Piece::Matrix(m) => PieceModel::Matrix(m.dim, m.entries@),
        }
    }
}

/// The models of a list of pieces.
pub open spec fn pieces(v: Seq<Piece>) -> Seq<PieceModel> {
    v.map_values(|p: Piece| p.model())
}

/// The piece of literal text `s`.
pub open spec fn text(s: Seq<char>) -> PieceModel {
    PieceModel::Text(s)
}

/// Appends the piece `p`.
pub fn push_piece(out: &mut Vec<Piece>, p: Piece)
    ensures
        pieces(final(out)@) == pieces(old(out)@).push(p.model()),
{
    out.push(p);
    assert(pieces(out@) =~= pieces(old(out)@).push(p.model()));
}

/// Appends the pieces of `src`.
pub fn append_pieces(out: &mut Vec<Piece>, src: Vec<Piece>)
    ensures
        pieces(final(out)@) == pieces(old(out)@) + pieces(src@),
{
    let mut s = src;
    let ghost a = out@;
    let ghost b = s@;
    out.append(&mut s);
    assert(pieces(out@) =~= pieces(a) + pieces(b));
}

/// The characters of `source`.
pub fn chars_of(source: &str) -> (r: Vec<char>)
    ensures
        r@ == source@,
{
    let mut v: Vec<char> = Vec::new();
    for c in it: source.chars()
        invariant
            v@ == it.seq().take(it.index() as int),
            it.seq() == source@,
    {
        v.push(c);
    }
    v
}

/// The text of pieces, their literal texts joined (other pieces give nothing).
pub open spec fn pieces_text(ps: Seq<PieceModel>) -> Seq<char>
    decreases ps.len(),
{
    if ps.len() == 0 {
        Seq::empty()
    } else {
        pieces_text(ps.drop_last()) + match ps.last() {
            PieceModel::Text(t) => t,
            _ => Seq::empty(),
        }
    }
}

/// The text of joined pieces is the text of each part, joined.
pub proof fn lemma_pieces_text_add(a: Seq<PieceModel>, b: Seq<PieceModel>)
    ensures
        pieces_text(a + b) == pieces_text(a) + pieces_text(b),
    decreases b.len(),
{
    if b.len() == 0 {
        assert(a + b =~= a);
    } else {
        lemma_pieces_text_add(a, b.drop_last());
        assert((a + b).drop_last() =~= a + b.drop_last());
        assert((a + b).last() == b.last());
    }
}

} // verus!
