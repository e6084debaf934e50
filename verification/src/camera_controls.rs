//! Which way the keyboard moves the camera.

use vstd::prelude::*;

verus! {

/// The keys that move the camera's focus.
#[derive(Clone, Copy, PartialEq, Eq, Structural, Debug)]
pub struct FocusKeys {
    pub w: bool,
    pub s: bool,
    pub a: bool,
    pub d: bool,
    pub e: bool,
    pub q: bool,
}

/// Direction of the focus movement along its local x, y and z axes, and of
/// its turn about the vertical axis.
#[derive(Clone, Copy, PartialEq, Eq, Structural, Debug)]
pub struct FocusInput {
    pub x: i8,
    pub y: i8,
    pub z: i8,
    pub turn: i8,
}

/// W moves forward, else S back, else A left, else D right; E turns one
/// way, else Q the other.
pub fn focus_input(keys: FocusKeys) -> (r: FocusInput)
    ensures
        r.y == 0,
        keys.w ==> r.x == 0 && r.z == 1,
        !keys.w && keys.s ==> r.x == 0 && r.z == -1,
        !keys.w && !keys.s && keys.a ==> r.x == 1 && r.z == 0,
        !keys.w && !keys.s && !keys.a && keys.d ==> r.x == -1 && r.z == 0,
        !keys.w && !keys.s && !keys.a && !keys.d ==> r.x == 0 && r.z == 0,
        r.turn == if keys.e { 1i8 } else if keys.q { -1i8 } else { 0i8 },
{
    let (x, z): (i8, i8) = if keys.w {
        (0, 1)
    } else if keys.s {
        (0, -1)
    } else if keys.a {
        (1, 0)
    } else if keys.d {
        (-1, 0)
    } else {
        (0, 0)
    };
    let turn: i8 = if keys.e {
        1
    } else if keys.q {
        -1
    } else {
        0
    };
    FocusInput { x, y: 0, z, turn }
}

/// Left shift raises and widens the camera, else left control lowers and
/// narrows it: the direction of both changes.
pub fn height_input(left_shift: bool, left_control: bool) -> (r: i8)
    ensures
        r == if left_shift { 1i8 } else if left_control { -1i8 } else { 0i8 },
{
    if left_shift {
        1
    } else if left_control {
        -1
    } else {
        0
    }
}

} // verus!
