//! Light beams and the sources that emit them.

use vstd::prelude::*;

verus! {

/// Direction a beam travels in.
#[derive(Debug, Clone, Copy, PartialEq, Eq, Structural)]
pub enum Direction {
    North,
    South,
    East,
    West,
    NorthEast,
    NorthWest,
    SouthEast,
    SouthWest,
}

/// Colors of light.
#[derive(Debug, Clone, Copy, PartialEq, Eq, Structural)]
pub enum LightColor {
    White,
    Red,
    Blue,
    Green,
    Yellow,
    Violet,
}

/// A beam of light in flight.
#[derive(Debug, Clone, Copy)]
pub struct LightBeam {
    pub x: i32,
    pub y: i32,
    pub direction: Direction,
    pub intensity: u8,
    pub color: LightColor,
    pub range: u8,
}

/// A source that can emit beams.
#[derive(Debug, Clone, Copy)]
pub struct LightSource {
    pub x: i32,
    pub y: i32,
    pub intensity: u8,
    pub color: LightColor,
    pub active: bool,
}

/// Beams lose one point of intensity a turn and vanish at zero: the beams
/// left after a turn, in order.
pub open spec fn decayed(beams: Seq<LightBeam>) -> Seq<LightBeam>
    decreases beams.len(),
{
    if beams.len() == 0 {
        beams
    } else {
        let b = beams[0];
        let rest = decayed(beams.subrange(1, beams.len() as int));
        if b.intensity > 1 {
            seq![LightBeam { intensity: (b.intensity - 1) as u8, ..b }] + rest
        } else {
            rest
        }
    }
}

/// One turn of beam decay.
pub fn decay_beams(beams: &mut Vec<LightBeam>)
    ensures
        final(beams)@ == decayed(old(beams)@),
{
    let mut kept: Vec<LightBeam> = Vec::new();
    let n = beams.len();
    let mut i: usize = n;
    let ghost orig = beams@;
    assert(orig.subrange(n as int, n as int) =~= Seq::<LightBeam>::empty());
    while i > 0
        invariant
            i <= n,
            n == orig.len(),
            beams@ == orig,
            kept@ == decayed(orig.subrange(i as int, n as int)),
        decreases i,
    {
        let b = beams[i - 1];
        let ghost tail = orig.subrange(i as int, n as int);
        assert(orig.subrange(i - 1, n as int).subrange(1, n - i + 1) =~= tail);
        assert(orig.subrange(i - 1, n as int)[0] == b);
        if b.intensity > 1 {
            let nb = LightBeam { intensity: b.intensity - 1, ..b };
            kept.insert(0, nb);
            assert(kept@ =~= seq![nb] + decayed(tail));
        }
        i = i - 1;
    }
    assert(orig.subrange(0, n as int) =~= orig);
    *beams = kept;
}

} // verus!
