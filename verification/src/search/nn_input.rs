use vstd::prelude::*;
use vstd::arithmetic::div_mod::lemma_fundamental_div_mod_converse;
use crate::board::position_export::{plane_bit, BitPosition};
use crate::board::precompute::Precomputed;
use crate::board::types::Square;
use crate::evaluation::surround::lemma_vh_table_ok;
use crate::search::policy::NUM_PLANES;
use crate::utils::bfs::{bfs, spec_reachable};

verus! {

/// The squares below `k` that hold the king or a defender, in square order:
/// where the defenders' group starts to spread.
pub open spec fn group_seeds(planes: Seq<u8>, k: int) -> Seq<Square>
    decreases k,
{
    if k <= 0 {
        Seq::empty()
    } else if plane_bit(planes, 1, k - 1) || plane_bit(planes, 2, k - 1) {
        group_seeds(planes, k - 1).push((k - 1) as Square)
    } else {
        group_seeds(planes, k - 1)
    }
}

/// The squares the defenders' group spreads through: those without an attacker.
pub open spec fn group_pass(planes: Seq<u8>, sqs: int) -> Seq<bool> {
    Seq::new(sqs as nat, |s: int| !plane_bit(planes, 0, s))
}

/// The squares the king walks through: those without an attacker or a defender.
pub open spec fn king_pass(planes: Seq<u8>, sqs: int) -> Seq<bool> {
    Seq::new(sqs as nat, |s: int| !plane_bit(planes, 0, s) && !plane_bit(planes, 1, s))
}

/// The last square below `k` with the king bit, if any.
pub open spec fn last_king(planes: Seq<u8>, k: int) -> Option<int>
    decreases k,
{
    if k <= 0 {
        None
    } else if plane_bit(planes, 2, k - 1) {
        Some(k - 1)
    } else {
        last_king(planes, k - 1)
    }
}

/// Whether square `s` is set in input plane `plane` of the network: the three
/// piece planes, the side to move, the throne, the corners, the edges, the
/// squares the defenders' group reaches, the squares the king reaches, and two
/// planes for a position seen once and twice before.
pub open spec fn input_bit(pos: BitPosition, geom: Precomputed, plane: int, s: int) -> bool {
    let sqs = geom.board_size * geom.board_size;
    let planes = pos.planes@;
    let nb = geom.vertical_horizontal_neighbors@;
    if plane < 3 {
        plane_bit(planes, plane, s)
    } else if plane == 3 {
        pos.stm == 1
    } else if plane == 4 {
        s == geom.throne_sq
    } else if plane == 5 {
        geom.corners_sq@.contains(s as Square)
    } else if plane == 6 {
        geom.edges_sq@.contains(s as Square)
    } else if plane == 7 {
        spec_reachable(group_pass(planes, sqs), nb, group_seeds(planes, sqs), s)
    } else if plane == 8 {
        match last_king(planes, sqs) {
            Some(k) => s == k || spec_reachable(king_pass(planes, sqs), nb, seq![k as Square], s),
            None => false,
        }
    } else if plane == 9 {
        pos.rep >= 2
    } else {
        pos.rep >= 3
    }
}

/// The whole input, plane after plane, square by square within a plane.
pub open spec fn spec_input(pos: BitPosition, geom: Precomputed) -> Seq<bool> {
    let sqs = geom.board_size * geom.board_size;
    Seq::new(
        (NUM_PLANES * sqs) as nat,
        |i: int| input_bit(pos, geom, i / (sqs as int), i % (sqs as int)),
    )
}

fn contains_square(list: &Vec<Square>, s: Square) -> (b: bool)
    ensures
        b == list@.contains(s),
{
    let mut i: usize = 0;
    while i < list.len()
        invariant
            i <= list@.len(),
            forall|k: int| 0 <= k < i ==> #[trigger] list@[k] != s,
        decreases list@.len() - i,
    {
        if list[i] == s {
            proof {
                assert(list@[i as int] == s);
            }
            return true;
        }
        i += 1;
    }
    false
}

fn seeds_of_group(pos: &BitPosition, sqs: usize) -> (v: Vec<Square>)
    requires
        pos.wf(),
        sqs <= 128,
    ensures
        v@ == group_seeds(pos.planes@, sqs as int),
        forall|k: int| 0 <= k < v@.len() ==> #[trigger] v@[k] < sqs,
{
    let mut v: Vec<Square> = Vec::new();
    let mut idx: usize = 0;
    while idx < sqs
        invariant
            pos.wf(),
            sqs <= 128,
            idx <= sqs,
            v@ == group_seeds(pos.planes@, idx as int),
            forall|k: int| 0 <= k < v@.len() ==> #[trigger] v@[k] < idx,
        decreases sqs - idx,
    {
        if pos.bit_at(1, idx) || pos.bit_at(2, idx) {
            v.push(idx);
        }
        idx += 1;
    }
    v
}

fn king_square(pos: &BitPosition, sqs: usize) -> (r: Option<Square>)
    requires
        pos.wf(),
        sqs <= 128,
    ensures
        match r {
            Some(k) => last_king(pos.planes@, sqs as int) == Some(k as int),
            None => last_king(pos.planes@, sqs as int) is None,
        },
        r matches Some(k) ==> k < sqs,
{
    let mut r: Option<Square> = None;
    let mut idx: usize = 0;
    while idx < sqs
        invariant
            pos.wf(),
            sqs <= 128,
            idx <= sqs,
            match r {
                Some(k) => last_king(pos.planes@, idx as int) == Some(k as int),
                None => last_king(pos.planes@, idx as int) is None,
            },
            r matches Some(k) ==> k < idx,
        decreases sqs - idx,
    {
        if pos.bit_at(2, idx) {
            r = Some(idx);
        }
        idx += 1;
    }
    r
}

/// The input planes of the network for a packed position, on the board that
/// `geom` describes: one flag per plane and square, plane after plane.
pub fn input_planes(pos: &BitPosition, geom: &Precomputed) -> (v: Vec<bool>)
    requires
        pos.wf(),
        geom.wf(geom.board_size as int),
    ensures
        v@ == spec_input(*pos, *geom),
{
    let n = geom.board_size;
    proof {
        assert(n * n <= 121) by (nonlinear_arith)
            requires
                3 <= n <= 11,
        ;
        assert(n * n >= 9) by (nonlinear_arith)
            requires
                3 <= n <= 11,
        ;
        lemma_vh_table_ok(geom, n as int);
    }
    let sqs = n * n;
    let ghost nb = geom.vertical_horizontal_neighbors@;
    let ghost planes = pos.planes@;

    let mut group_mask: Vec<bool> = Vec::new();
    let mut king_mask: Vec<bool> = Vec::new();
    let mut s: usize = 0;
    while s < sqs
        invariant
            pos.wf(),
            planes == pos.planes@,
            sqs <= 121,
            s <= sqs,
            group_mask@ == group_pass(planes, s as int),
            king_mask@ == king_pass(planes, s as int),
        decreases sqs - s,
    {
        let attacker = pos.bit_at(0, s);
        let defender = pos.bit_at(1, s);
        group_mask.push(!attacker);
        king_mask.push(!attacker && !defender);
        s += 1;
        proof {
            assert(group_mask@ =~= group_pass(planes, s as int));
            assert(king_mask@ =~= king_pass(planes, s as int));
        }
    }
    let seeds = seeds_of_group(pos, sqs);
    let group_reach = bfs(&group_mask, &geom.vertical_horizontal_neighbors, &seeds);
    let king = king_square(pos, sqs);
    let king_reach: Vec<bool> = match king {
        Some(k) => {
            let start = vec![k];
            proof {
                assert(start@ =~= seq![k]);
            }
            bfs(&king_mask, &geom.vertical_horizontal_neighbors, &start)
        },
        None => Vec::new(),
    };

    let mut v: Vec<bool> = Vec::new();
    let mut plane: usize = 0;
    while plane < NUM_PLANES
        invariant
            pos.wf(),
            geom.wf(n as int),
            n == geom.board_size,
            planes == pos.planes@,
            nb == geom.vertical_horizontal_neighbors@,
            sqs == n * n,
            9 <= sqs <= 121,
            plane <= NUM_PLANES,
            v@.len() == plane * sqs,
            forall|i: int| 0 <= i < v@.len() ==> #[trigger] v@[i] == spec_input(*pos, *geom)[i],
            group_mask@ == group_pass(planes, sqs as int),
            king_mask@ == king_pass(planes, sqs as int),
            seeds@ == group_seeds(planes, sqs as int),
            group_reach@.len() == sqs,
            forall|t: int|
                0 <= t < sqs ==> (#[trigger] group_reach@[t] <==> spec_reachable(group_mask@, nb, seeds@, t)),
            match king {
                Some(k) => last_king(planes, sqs as int) == Some(k as int) && king_reach@.len() == sqs && forall|t: int|
                    0 <= t < sqs ==> (#[trigger] king_reach@[t] <==> spec_reachable(king_mask@, nb, seq![k], t)),
                None => last_king(planes, sqs as int) is None,
            },
        decreases NUM_PLANES - plane,
    {
        let mut s: usize = 0;
        while s < sqs
            invariant
                pos.wf(),
                geom.wf(n as int),
                n == geom.board_size,
                planes == pos.planes@,
                nb == geom.vertical_horizontal_neighbors@,
                sqs == n * n,
                9 <= sqs <= 121,
                plane < NUM_PLANES,
                s <= sqs,
                v@.len() == plane * sqs + s,
                forall|i: int| 0 <= i < v@.len() ==> #[trigger] v@[i] == spec_input(*pos, *geom)[i],
                group_mask@ == group_pass(planes, sqs as int),
                king_mask@ == king_pass(planes, sqs as int),
                seeds@ == group_seeds(planes, sqs as int),
                group_reach@.len() == sqs,
                forall|t: int|
                    0 <= t < sqs ==> (#[trigger] group_reach@[t] <==> spec_reachable(group_mask@, nb, seeds@, t)),
                match king {
                    Some(k) => last_king(planes, sqs as int) == Some(k as int) && king_reach@.len() == sqs && forall|t: int|
                        0 <= t < sqs ==> (#[trigger] king_reach@[t] <==> spec_reachable(king_mask@, nb, seq![k], t)),
                    None => last_king(planes, sqs as int) is None,
                },
            decreases sqs - s,
        {
            let bit = if plane < 3 {
                pos.bit_at(plane, s)
            } else if plane == 3 {
                pos.stm == 1
            } else if plane == 4 {
                s == geom.throne_sq
            } else if plane == 5 {
                contains_square(&geom.corners_sq, s)
            } else if plane == 6 {
                contains_square(&geom.edges_sq, s)
            } else if plane == 7 {
                group_reach[s]
            } else if plane == 8 {
                match king {
                    Some(k) => s == k || king_reach[s],
                    None => false,
                }
            } else if plane == 9 {
                pos.rep >= 2
            } else {
                pos.rep >= 3
            };
            proof {
                let i = plane * sqs + s;
                assert(i == plane * sqs + s);
                assert(plane * sqs + s < NUM_PLANES * sqs) by (nonlinear_arith)
                    requires
                        plane < NUM_PLANES,
                        s < sqs,
                ;
                lemma_fundamental_div_mod_converse(i as int, sqs as int, plane as int, s as int);
                assert(bit == input_bit(*pos, *geom, plane as int, s as int));
                assert(spec_input(*pos, *geom)[i as int] == bit);
            }
            v.push(bit);
            s += 1;
            proof {
                assert(v@.len() == plane * sqs + s);
            }
        }
        plane += 1;
        proof {
            assert(v@.len() == plane * sqs) by (nonlinear_arith)
                requires
                    v@.len() == (plane - 1) * sqs + sqs,
            ;
        }
    }
    proof {
        assert(v@ =~= spec_input(*pos, *geom));
    }
    v
}

} // verus!
