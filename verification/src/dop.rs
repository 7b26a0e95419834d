//! Direction sets of discrete oriented polytopes.
use vstd::prelude::*;

verus! {

/// The number of slab directions of a k-DOP: k / 2.
#[derive(Clone, Copy, Debug, PartialEq, Eq, Structural)]
pub enum KdopPreset {
    K6,
    K14,
    K18,
    K26,
}

/// The slab directions of a preset, before normalisation: the three axes;
/// from K14 on the four cube diagonals; from K18 on the two xy edge
/// diagonals; for K26 also the four xz and yz edge diagonals.
pub open spec fn kdop_axes_spec(preset: KdopPreset) -> Seq<(i8, i8, i8)> {
    let axes = seq![(1i8, 0i8, 0i8), (0i8, 1i8, 0i8), (0i8, 0i8, 1i8)];
    let corners = seq![(1i8, 1i8, 1i8), (1i8, 1i8, -1i8), (1i8, -1i8, 1i8), (-1i8, 1i8, 1i8)];
    let xy_edges = seq![(1i8, 1i8, 0i8), (1i8, -1i8, 0i8)];
    let other_edges = seq![(1i8, 0i8, 1i8), (1i8, 0i8, -1i8), (0i8, 1i8, 1i8), (0i8, 1i8, -1i8)];
    match preset {
        KdopPreset::K6 => axes,
        KdopPreset::K14 => axes + corners,
        KdopPreset::K18 => axes + corners + xy_edges,
        KdopPreset::K26 => axes + corners + xy_edges + other_edges,
    }
}

/// The `k` of a preset's k-DOP: its number of faces, two per slab direction.
pub open spec fn preset_faces(preset: KdopPreset) -> int {
    match preset {
        KdopPreset::K6 => 6,
        KdopPreset::K14 => 14,
        KdopPreset::K18 => 18,
        KdopPreset::K26 => 26,
    }
}

/// `a` is `d` or `-d`.
pub open spec fn equal_up_to_sign(a: (i8, i8, i8), d: (i8, i8, i8)) -> bool {
    a == d || (a.0 as int == -(d.0 as int) && a.1 as int == -(d.1 as int) && a.2 as int == -(d.2 as int))
}

/// Every component of `d` is -1, 0 or 1.
pub open spec fn unit_components(d: (i8, i8, i8)) -> bool {
    -1 <= d.0 <= 1 && -1 <= d.1 <= 1 && -1 <= d.2 <= 1
}

/// `d` is a diagonal of the cube: every component is 1 or -1.
pub open spec fn cube_diagonal(d: (i8, i8, i8)) -> bool {
    (d.0 == 1 || d.0 == -1) && (d.1 == 1 || d.1 == -1) && (d.2 == 1 || d.2 == -1)
}

/// A number that two directions with components in {-1, 0, 1} share exactly
/// when they are equal up to sign (the balanced-ternary value, sign dropped).
spec fn slab_key(d: (i8, i8, i8)) -> int {
    let t = 9 * d.0 as int + 3 * d.1 as int + d.2 as int;
    if t < 0 {
        -t
    } else {
        t
    }
}

/// The position in the K26 list of the direction with key `key`.
spec fn slab_position(key: int) -> int {
    if key == 9 {
        0
    } else if key == 3 {
        1
    } else if key == 1 {
        2
    } else if key == 13 {
        3
    } else if key == 11 {
        4
    } else if key == 7 {
        5
    } else if key == 5 {
        6
    } else if key == 12 {
        7
    } else if key == 6 {
        8
    } else if key == 10 {
        9
    } else if key == 8 {
        10
    } else if key == 4 {
        11
    } else {
        12
    }
}

proof fn lemma_slab_key(a: (i8, i8, i8), b: (i8, i8, i8))
    requires
        unit_components(a),
        unit_components(b),
        equal_up_to_sign(a, b),
    ensures
        slab_key(a) == slab_key(b),
{
}

/// A preset gives a k-DOP: `k / 2` directions with components in
/// {-1, 0, 1}, none zero and no two equal up to sign (so no direction is a
/// multiple of another, sign included); from K14 on, every diagonal of the
/// cube is among them up to sign.
pub proof fn lemma_kdop_axes_slabs(preset: KdopPreset)
    ensures
        kdop_axes_spec(preset).len() == preset_faces(preset) / 2,
        forall|i: int|
            0 <= i < kdop_axes_spec(preset).len() ==> unit_components(#[trigger] kdop_axes_spec(preset)[i])
                && kdop_axes_spec(preset)[i] != (0i8, 0i8, 0i8),
        forall|i: int, j: int|
            0 <= i < j < kdop_axes_spec(preset).len() ==> !equal_up_to_sign(
                #[trigger] kdop_axes_spec(preset)[i],
                #[trigger] kdop_axes_spec(preset)[j],
            ),
        preset != KdopPreset::K6 ==> forall|d: (i8, i8, i8)|
            #[trigger] cube_diagonal(d) ==> exists|i: int|
                0 <= i < kdop_axes_spec(preset).len() && equal_up_to_sign(#[trigger] kdop_axes_spec(preset)[i], d),
{
    let s = kdop_axes_spec(preset);
    let full = kdop_axes_spec(KdopPreset::K26);
    assert(full[0] == (1i8, 0i8, 0i8));
    assert(full[1] == (0i8, 1i8, 0i8));
    assert(full[2] == (0i8, 0i8, 1i8));
    assert(full[3] == (1i8, 1i8, 1i8));
    assert(full[4] == (1i8, 1i8, -1i8));
    assert(full[5] == (1i8, -1i8, 1i8));
    assert(full[6] == (-1i8, 1i8, 1i8));
    assert(full[7] == (1i8, 1i8, 0i8));
    assert(full[8] == (1i8, -1i8, 0i8));
    assert(full[9] == (1i8, 0i8, 1i8));
    assert(full[10] == (1i8, 0i8, -1i8));
    assert(full[11] == (0i8, 1i8, 1i8));
    assert(full[12] == (0i8, 1i8, -1i8));
    assert(full.len() == 13);
    assert(s.len() <= 13);
    assert forall|i: int| 0 <= i < s.len() implies s[i] == full[i] by {}
    assert forall|i: int| 0 <= i < 13 implies unit_components(#[trigger] full[i]) && full[i] != (0i8, 0i8, 0i8)
        && slab_position(slab_key(full[i])) == i by {
        if i == 0 {
        } else if i == 1 {
        } else if i == 2 {
        } else if i == 3 {
        } else if i == 4 {
        } else if i == 5 {
        } else if i == 6 {
        } else if i == 7 {
        } else if i == 8 {
        } else if i == 9 {
        } else if i == 10 {
        } else if i == 11 {
        } else {
        }
    }
    assert forall|i: int| 0 <= i < s.len() implies unit_components(#[trigger] s[i]) && s[i] != (0i8, 0i8, 0i8) by {
        assert(s[i] == full[i]);
    }
    assert forall|i: int, j: int| 0 <= i < j < s.len() implies !equal_up_to_sign(#[trigger] s[i], #[trigger] s[j]) by {
        assert(s[i] == full[i] && s[j] == full[j]);
        assert(unit_components(full[i]) && unit_components(full[j]));
        if equal_up_to_sign(s[i], s[j]) {
            lemma_slab_key(s[i], s[j]);
            assert(slab_position(slab_key(full[i])) == i);
            assert(slab_position(slab_key(full[j])) == j);
        }
    }
    if preset != KdopPreset::K6 {
        assert(s[3] == (1i8, 1i8, 1i8));
        assert(s[4] == (1i8, 1i8, -1i8));
        assert(s[5] == (1i8, -1i8, 1i8));
        assert(s[6] == (-1i8, 1i8, 1i8));
        assert forall|d: (i8, i8, i8)| #[trigger] cube_diagonal(d) implies exists|i: int|
            0 <= i < s.len() && equal_up_to_sign(#[trigger] s[i], d) by {
            let i: int = if d.0 == d.1 && d.1 == d.2 {
                3
            } else if d.0 == d.1 {
                4
            } else if d.0 == d.2 {
                5
            } else {
                6
            };
            assert(equal_up_to_sign(s[i], d));
        }
    }
}

/// The slab directions of a preset, before normalisation (see
/// `kdop_axes_spec`).
pub fn kdop_axes(preset: KdopPreset) -> (r: Vec<(i8, i8, i8)>)
    ensures
        r@ == kdop_axes_spec(preset),
{
    let mut directions: Vec<(i8, i8, i8)> = vec![(1, 0, 0), (0, 1, 0), (0, 0, 1)];
    let with_corners = match preset {
        KdopPreset::K6 => false,
        _ => true,
    };
    if with_corners {
        directions.push((1, 1, 1));
        directions.push((1, 1, -1));
        directions.push((1, -1, 1));
        directions.push((-1, 1, 1));
    }
    let with_xy_edges = match preset {
        KdopPreset::K18 | KdopPreset::K26 => true,
        _ => false,
    };
    if with_xy_edges {
        directions.push((1, 1, 0));
        directions.push((1, -1, 0));
    }
    let with_other_edges = match preset {
        KdopPreset::K26 => true,
        _ => false,
    };
    if with_other_edges {
        directions.push((1, 0, 1));
        directions.push((1, 0, -1));
        directions.push((0, 1, 1));
        directions.push((0, 1, -1));
    }
    proof {
        assert(directions@ =~= kdop_axes_spec(preset));
    }
    directions
}

/// How many doubles hold `count` points of three coordinates each; `None`
/// for fewer than `min` points, or when the number does not fit in `usize`.
pub fn xyz_value_count(count: u32, min: u32) -> (r: Option<usize>)
    ensures
        r == if count < min || count * 3 > usize::MAX {
            None
        } else {
            Some((count * 3) as usize)
        },
{
    if count < min {
        return None;
    }
    (count as usize).checked_mul(3)
}

} // verus!
