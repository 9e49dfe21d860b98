//! Window state kept across the activity being destroyed and recreated, and
//! its byte encoding.
use vstd::prelude::*;

verus! {

/// Screen orientation.
#[derive(Clone, Copy, Debug, PartialEq, Eq, Structural)]
pub enum Orientation {
    Portrait,
    Landscape,
}

/// Window geometry saved when the activity goes away.
#[derive(Clone, Copy, Debug, PartialEq, Eq, Structural)]
pub struct SavedState {
    pub width_px: u32,
    pub height_px: u32,
    pub orientation: Orientation,
    pub status_bar_height_px: u32,
    pub nav_bar_height_px: u32,
}

/// Length of an encoded state: four little-endian 32-bit fields and one
/// orientation byte.
pub const SAVED_STATE_LEN: usize = 17;

/// The four little-endian bytes of `v`.
pub open spec fn le_bytes(v: u32) -> Seq<u8> {
    seq![(v % 256) as u8, ((v / 256) % 256) as u8, ((v / 65536) % 256) as u8, (v / 16777216) as u8]
}

/// The value of four little-endian bytes.
pub open spec fn le_value(b: Seq<u8>) -> int {
    b[0] + 256 * b[1] + 65536 * b[2] + 16777216 * b[3]
}

pub open spec fn orientation_byte(o: Orientation) -> u8 {
    match o {
        Orientation::Portrait => 0,
        Orientation::Landscape => 1,
    }
}

/// The encoding: width, height, orientation byte, status bar height,
/// navigation bar height.
pub open spec fn encoded(s: SavedState) -> Seq<u8> {
    le_bytes(s.width_px) + le_bytes(s.height_px) + seq![orientation_byte(s.orientation)] + le_bytes(
        s.status_bar_height_px,
    ) + le_bytes(s.nav_bar_height_px)
}

/// The state that `data` encodes: none when it is shorter than an encoding
/// or its orientation byte is neither 0 nor 1. Bytes past the encoding are
/// ignored.
pub open spec fn decoded(data: Seq<u8>) -> Option<SavedState> {
    if data.len() < SAVED_STATE_LEN || data[8] > 1 {
        None
    } else {
        Some(
            SavedState {
                width_px: le_value(data.subrange(0, 4)) as u32,
                height_px: le_value(data.subrange(4, 8)) as u32,
                orientation: if data[8] == 0 { Orientation::Portrait } else { Orientation::Landscape },
                status_bar_height_px: le_value(data.subrange(9, 13)) as u32,
                nav_bar_height_px: le_value(data.subrange(13, 17)) as u32,
            },
        )
    }
}

fn push_le(buf: &mut Vec<u8>, v: u32)
    ensures
        final(buf)@ == old(buf)@ + le_bytes(v),
{
    buf.push((v % 256) as u8);
    buf.push(((v / 256) % 256) as u8);
    buf.push(((v / 65536) % 256) as u8);
    buf.push((v / 16777216) as u8);
    assert(buf@ =~= old(buf)@ + le_bytes(v));
}

pub(crate) fn read_le(data: &[u8], at: usize) -> (r: u32)
    requires
        at + 4 <= data@.len(),
    ensures
        r == le_value(data@.subrange(at as int, at + 4)),
{
    let v: u32 = (data[at] as u32) + 256 * (data[at + 1] as u32) + 65536 * (data[at + 2] as u32)
        + 16777216 * (data[at + 3] as u32);
    v
}

proof fn lemma_le_round_trip(v: u32)
    ensures
        le_value(le_bytes(v)) == v,
{
    let b = le_bytes(v);
    assert(b[0] == v % 256);
    assert(b[1] == (v / 256) % 256);
    assert(b[2] == (v / 65536) % 256);
    assert(b[3] == v / 16777216);
    assert(v % 256 + 256 * ((v / 256) % 256) + 65536 * ((v / 65536) % 256) + 16777216 * (v
        / 16777216) == v) by (nonlinear_arith)
        requires
            v <= 0xffff_ffff,
    ;
}

impl SavedState {
    /// The bytes of this state: see [`encoded`].
    pub fn serialize(&self) -> (r: Vec<u8>)
        ensures
            r@ == encoded(*self),
    {
        let mut buf: Vec<u8> = Vec::new();
        push_le(&mut buf, self.width_px);
        push_le(&mut buf, self.height_px);
        let o: u8 = match self.orientation {
            Orientation::Portrait => 0,
            Orientation::Landscape => 1,
        };
        buf.push(o);
        push_le(&mut buf, self.status_bar_height_px);
        push_le(&mut buf, self.nav_bar_height_px);
        assert(buf@ =~= encoded(*self));
        buf
    }

    /// The state that `data` encodes, if any: see [`decoded`].
    pub fn deserialize(data: &[u8]) -> (r: Option<SavedState>)
        ensures
            r == decoded(data@),
    {
        if data.len() < SAVED_STATE_LEN {
            return None;
        }
        let orientation = match data[8] {
            0 => Orientation::Portrait,
            1 => Orientation::Landscape,
            _ => return None,
        };
        Some(
            SavedState {
                width_px: read_le(data, 0),
                height_px: read_le(data, 4),
                orientation,
                status_bar_height_px: read_le(data, 9),
                nav_bar_height_px: read_le(data, 13),
            },
        )
    }
}

/// Decoding an encoded state gives the state back.
pub proof fn lemma_state_round_trip(s: SavedState)
    ensures
        decoded(encoded(s)) == Some(s),
{
    let e = encoded(s);
    lemma_le_round_trip(s.width_px);
    lemma_le_round_trip(s.height_px);
    lemma_le_round_trip(s.status_bar_height_px);
    lemma_le_round_trip(s.nav_bar_height_px);
    assert(e.subrange(0, 4) =~= le_bytes(s.width_px));
    assert(e.subrange(4, 8) =~= le_bytes(s.height_px));
    assert(e.subrange(9, 13) =~= le_bytes(s.status_bar_height_px));
    assert(e.subrange(13, 17) =~= le_bytes(s.nav_bar_height_px));
    assert(e[8] == orientation_byte(s.orientation));
}

} // verus!
