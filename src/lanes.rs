use vstd::prelude::*;

verus! {

/// Width of a lane group: eight coordinates become two four-lane vectors.
pub const GROUP: usize = 8;

/// Offset within its group of the coordinate that fills slot `s` of the
/// group's layout: the even offsets first, then the odd ones.
pub open spec fn slot_source(s: int) -> int {
    if s < 4 {
        2 * s
    } else {
        2 * (s - 4) + 1
    }
}

/// The coordinate that fills position `k` of the lane layout.
pub open spec fn lane_source(k: int) -> int {
    8 * (k / 8) + slot_source(k % 8)
}

/// The order in which the coordinates of a point of `len` dimensions fill
/// the lanes: whole groups of eight only, so the last `len % 8` coordinates
/// are left out. Slots `0..4` of each group form the vector of its even
/// coordinates, slots `4..8` that of its odd ones.
pub fn lane_order(len: usize) -> (order: Vec<usize>)
    ensures
        order.len() == len - len % GROUP,
        forall|k: int| 0 <= k < order.len() ==> order[k] == lane_source(k),
        forall|k: int| 0 <= k < order.len() ==> order[k] < len,
{
    let groups = len / GROUP;
    let mut order: Vec<usize> = Vec::new();
    let mut g: usize = 0;
    while g < groups
        invariant
            groups == len / GROUP,
            g <= groups,
            order.len() == GROUP * g,
            forall|k: int| 0 <= k < order.len() ==> order[k] == lane_source(k),
        decreases groups - g,
    {
        assert(GROUP * g + GROUP <= len) by (nonlinear_arith)
            requires
                g < groups,
                groups == len / 8,
        {
            vstd::arithmetic::div_mod::lemma_fundamental_div_mod(len as int, 8);
        }
        let base = GROUP * g;
        let mut s: usize = 0;
        while s < GROUP
            invariant
                base == GROUP * g,
                base + GROUP <= len,
                s <= GROUP,
                order.len() == base + s,
                forall|k: int| 0 <= k < order.len() ==> order[k] == lane_source(k),
            decreases GROUP - s,
        {
            let offset = if s < 4 { 2 * s } else { 2 * (s - 4) + 1 };
            assert((base + s) / 8 == g && (base + s) % 8 == s) by (nonlinear_arith)
                requires
                    base == 8 * g,
                    0 <= s < 8,
            {
                vstd::arithmetic::div_mod::lemma_fundamental_div_mod_converse(
                    (base + s) as int,
                    8,
                    g as int,
                    s as int,
                );
            }
            order.push(base + offset);
            s = s + 1;
        }
        g = g + 1;
    }
    assert(order.len() == len - len % GROUP) by {
        vstd::arithmetic::div_mod::lemma_fundamental_div_mod(len as int, 8);
    }
    assert forall|k: int| 0 <= k < order.len() implies order[k] < len by {
        assert(lane_source(k) < len) by (nonlinear_arith)
            requires
                0 <= k < len - len % 8,
                lane_source(k) == 8 * (k / 8) + slot_source(k % 8),
                0 <= slot_source(k % 8) < 8,
        {
            vstd::arithmetic::div_mod::lemma_fundamental_div_mod(k, 8);
            vstd::arithmetic::div_mod::lemma_fundamental_div_mod(len as int, 8);
        }
    }
    order
}

} // verus!
