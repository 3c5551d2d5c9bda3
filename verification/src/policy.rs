use vstd::prelude::*;
use vstd::arithmetic::div_mod::lemma_fundamental_div_mod_converse;
use crate::grid::Grid;
use crate::neighborhood::Neighborhood;
use crate::random::random_below;
use crate::random::random_chance;

verus! {

/// The movement policies that need nothing but the movement window.
pub struct Movements;

/// `delta` is a step that a random walk may take in the window: one of the
/// offsets that the window admits, and no step where it admits none.
pub open spec fn random_step(neighborhood_mvt: &Neighborhood, delta: (isize, isize)) -> bool {
    if neighborhood_mvt.all_offsets().len() == 0 {
        delta == (0isize, 0isize)
    } else {
        exists|k: int| 0 <= k < neighborhood_mvt.all_offsets().len() && delta == neighborhood_mvt.all_offsets()[k]
    }
}

/// A random step goes to a position that counts wherever there is one, and
/// nowhere otherwise.
pub proof fn lemma_random_step_admitted(neighborhood_mvt: &Neighborhood, delta: (isize, isize))
    requires
        neighborhood_mvt.wf(),
        random_step(neighborhood_mvt, delta),
    ensures
        neighborhood_mvt.offers_any() ==> neighborhood_mvt.admits(delta.0 as int, delta.1 as int),
        !neighborhood_mvt.offers_any() ==> delta == (0isize, 0isize),
{
    let n = neighborhood_mvt.width * neighborhood_mvt.height;
    assert(n >= 0) by (nonlinear_arith)
        requires
            n == neighborhood_mvt.width * neighborhood_mvt.height,
    ;
    neighborhood_mvt.lemma_offsets_empty();
    neighborhood_mvt.lemma_offsets_admitted(n);
}

/// The offset with a given number in the list is a random step.
proof fn lemma_random_step(neighborhood_mvt: &Neighborhood, pick: int)
    requires
        neighborhood_mvt.all_offsets().len() > 0 ==> 0 <= pick < neighborhood_mvt.all_offsets().len(),
    ensures
        random_step(
            neighborhood_mvt,
            if neighborhood_mvt.all_offsets().len() == 0 {
                (0isize, 0isize)
            } else {
                neighborhood_mvt.all_offsets()[pick]
            },
        ),
{
}

/// The policy looks at nothing but the movement window.
pub open spec fn window_only(movement: Movement) -> bool {
    movement == Movement::Static || movement == Movement::Random || movement == Movement::LevyFlight
}

impl Movements {
    /// No movement: every agent stays where it is.
    pub fn static_movement<T: Copy>(
        _row: usize,
        _col: usize,
        _neighborhood_mvt: &Neighborhood,
        _grid: &Grid<T>,
    ) -> (delta: (isize, isize))
        ensures
            delta == (0isize, 0isize),
    {
        (0, 0)
    }

    /// The offsets of the window positions that count, row by row.
    pub fn valid_moves(neighborhood_mvt: &Neighborhood) -> (moves: Vec<(isize, isize)>)
        requires
            neighborhood_mvt.wf(),
        ensures
            moves@ == neighborhood_mvt.all_offsets(),
    {
        let mut moves: Vec<(isize, isize)> = Vec::new();
        let center_row: usize = neighborhood_mvt.center_row;
        let center_col: usize = neighborhood_mvt.center_col;
        let mut mask_r: usize = 0;
        assert(0 * neighborhood_mvt.width == 0) by (nonlinear_arith);
        while mask_r < neighborhood_mvt.height
            invariant
                neighborhood_mvt.wf(),
                center_row == neighborhood_mvt.center_row,
                center_col == neighborhood_mvt.center_col,
                mask_r <= neighborhood_mvt.height,
                moves@ == neighborhood_mvt.offsets(mask_r * neighborhood_mvt.width),
            decreases neighborhood_mvt.height - mask_r,
        {
            let mut mask_c: usize = 0;
            while mask_c < neighborhood_mvt.width
                invariant
                    neighborhood_mvt.wf(),
                    center_row == neighborhood_mvt.center_row,
                    center_col == neighborhood_mvt.center_col,
                    mask_r < neighborhood_mvt.height,
                    mask_c <= neighborhood_mvt.width,
                    moves@ == neighborhood_mvt.offsets(mask_r * neighborhood_mvt.width + mask_c),
                decreases neighborhood_mvt.width - mask_c,
            {
                let ghost k = mask_r * neighborhood_mvt.width + mask_c;
                proof {
                    assert(0 <= mask_r * neighborhood_mvt.width) by (nonlinear_arith)
                        requires
                            mask_r >= 0,
                            neighborhood_mvt.width >= 0,
                    ;
                    assert(mask_r * neighborhood_mvt.width == neighborhood_mvt.width * mask_r) by (nonlinear_arith);
                    lemma_fundamental_div_mod_converse(k, neighborhood_mvt.width as int, mask_r as int, mask_c as int);
                }
                if neighborhood_mvt.is_valid(mask_r, mask_c) != 0 {
                    let delta: (isize, isize) = (
                        mask_r as isize - center_row as isize,
                        mask_c as isize - center_col as isize,
                    );
                    assert(delta == neighborhood_mvt.offset_at(k));
                    moves.push(delta);
                }
                assert(moves@ == neighborhood_mvt.offsets(k + 1));
                mask_c += 1;
            }
            assert((mask_r + 1) * neighborhood_mvt.width == mask_r * neighborhood_mvt.width + neighborhood_mvt.width)
                by (nonlinear_arith);
            mask_r += 1;
        }
        assert(neighborhood_mvt.height * neighborhood_mvt.width == neighborhood_mvt.width * neighborhood_mvt.height)
            by (nonlinear_arith);
        moves
    }

    /// The step that a draw stands for: the offset with that number in the
    /// list, and no step where the list is empty.
    pub fn pick_move(moves: &Vec<(isize, isize)>, pick: usize) -> (delta: (isize, isize))
        requires
            moves@.len() > 0 ==> pick < moves@.len(),
        ensures
            delta == if moves@.len() == 0 {
                (0isize, 0isize)
            } else {
                moves@[pick as int]
            },
    {
        if moves.len() == 0 {
            (0, 0)
        } else {
            moves[pick]
        }
    }

    /// Random walk: a step to a window position that counts, picked at
    /// random among all of them; no step where none counts.
    pub fn random_movement<T: Copy>(
        _row: usize,
        _col: usize,
        neighborhood_mvt: &Neighborhood,
        _grid: &Grid<T>,
    ) -> (delta: (isize, isize))
        requires
            neighborhood_mvt.wf(),
        ensures
            random_step(neighborhood_mvt, delta),
    {
        let moves: Vec<(isize, isize)> = Self::valid_moves(neighborhood_mvt);
        let pick: usize = if moves.len() == 0 {
            0
        } else {
            random_below(moves.len())
        };
        proof {
            lemma_random_step(neighborhood_mvt, pick as int);
        }
        Self::pick_move(&moves, pick)
    }

    /// The step of a policy that looks at nothing but the movement window;
    /// no answer for a policy that looks at the channels.
    pub fn builtin<T: Copy>(
        movement: Movement,
        row: usize,
        col: usize,
        neighborhood_mvt: &Neighborhood,
        grid: &Grid<T>,
    ) -> (step: Option<(isize, isize)>)
        requires
            neighborhood_mvt.wf(),
        ensures
            step.is_some() == window_only(movement),
            movement == Movement::Static ==> step == Some((0isize, 0isize)),
            movement != Movement::Static ==> (step matches Some(delta) ==> random_step(neighborhood_mvt, delta)),
    {
        match movement {
            Movement::Static => Some(Self::static_movement(row, col, neighborhood_mvt, grid)),
            Movement::Random => Some(Self::random_movement(row, col, neighborhood_mvt, grid)),
            Movement::LevyFlight => Some(Self::levy_flight(row, col, neighborhood_mvt, grid)),
            _ => None,
        }
    }

    /// Levy flight: nine times in ten a local random step, else a jump over
    /// the full extent of the window.  Either way the step is one of the
    /// offsets that the window admits, and there is no step where it admits
    /// none.
    pub fn levy_flight<T: Copy>(
        row: usize,
        col: usize,
        neighborhood_mvt: &Neighborhood,
        grid: &Grid<T>,
    ) -> (delta: (isize, isize))
        requires
            neighborhood_mvt.wf(),
        ensures
            random_step(neighborhood_mvt, delta),
    {
        if random_chance(9, 10) {
            Self::random_movement(row, col, neighborhood_mvt, grid)
        } else {
            let moves: Vec<(isize, isize)> = Self::valid_moves(neighborhood_mvt);
            let pick: usize = if moves.len() == 0 {
                0
            } else {
                random_below(moves.len())
            };
            proof {
                lemma_random_step(neighborhood_mvt, pick as int);
            }
            Self::pick_move(&moves, pick)
        }
    }
}

/// The movement policies that a configuration can name.
#[derive(Clone, Copy, Debug, PartialEq, Eq, Structural)]
pub enum Movement {
    Static,
    Random,
    Gradient,
    AvoidCrowding,
    Chemotaxis,
    LevyFlight,
    MultiTrait,
}

impl Movement {
    /// The name that a configuration uses for the policy.
    pub open spec fn name_spec(self) -> Seq<char> {
        match self {
            Movement::Static => "static"@,
            Movement::Random => "random"@,
            Movement::Gradient => "gradient"@,
            Movement::AvoidCrowding => "avoid crowding"@,
            Movement::Chemotaxis => "chemotaxis"@,
            Movement::LevyFlight => "levy flight"@,
            Movement::MultiTrait => "multi trait"@,
        }
    }

    /// All policies, in the order of the name table.
    pub open spec fn all_spec() -> Seq<Movement> {
        seq![
            Movement::Static,
            Movement::Random,
            Movement::Gradient,
            Movement::AvoidCrowding,
            Movement::Chemotaxis,
            Movement::LevyFlight,
            Movement::MultiTrait,
        ]
    }

    /// The name that a configuration uses for the policy.
    pub fn name(&self) -> (text: &'static str)
        ensures
            text@ == self.name_spec(),
    {
        match self {
            Movement::Static => "static",
            Movement::Random => "random",
            Movement::Gradient => "gradient",
            Movement::AvoidCrowding => "avoid crowding",
            Movement::Chemotaxis => "chemotaxis",
            Movement::LevyFlight => "levy flight",
            Movement::MultiTrait => "multi trait",
        }
    }

    /// All policies, in the order of the name table.
    pub fn all() -> (list: Vec<Movement>)
        ensures
            list@ == Self::all_spec(),
    {
        let mut list: Vec<Movement> = Vec::with_capacity(7);
        list.push(Movement::Static);
        list.push(Movement::Random);
        list.push(Movement::Gradient);
        list.push(Movement::AvoidCrowding);
        list.push(Movement::Chemotaxis);
        list.push(Movement::LevyFlight);
        list.push(Movement::MultiTrait);
        assert(list@ =~= Self::all_spec());
        list
    }

    /// No two policies share a name.
    pub proof fn lemma_names_distinct(a: Movement, b: Movement)
        requires
            a.name_spec() == b.name_spec(),
        ensures
            a == b,
    {
        reveal_strlit("static");
        reveal_strlit("random");
        reveal_strlit("gradient");
        reveal_strlit("avoid crowding");
        reveal_strlit("chemotaxis");
        reveal_strlit("levy flight");
        reveal_strlit("multi trait");
        assert("static"@.len() == 6 && "static"@[0] == 's');
        assert("random"@.len() == 6 && "random"@[0] == 'r');
        assert("gradient"@.len() == 8);
        assert("avoid crowding"@.len() == 14);
        assert("chemotaxis"@.len() == 10);
        assert("levy flight"@.len() == 11 && "levy flight"@[0] == 'l');
        assert("multi trait"@.len() == 11 && "multi trait"@[0] == 'm');
    }

    /// The policy that goes by `name`, and none where the table has no such
    /// name.
    pub fn from_name(name: &str) -> (found: Option<Movement>)
        ensures
            match found {
                Some(movement) => movement.name_spec() == name@,
                None => forall|movement: Movement| movement.name_spec() != name@,
            },
            forall|movement: Movement| movement.name_spec() == name@ ==> found == Some(movement),
    {
        let wanted: String = name.to_string();
        let list: Vec<Movement> = Self::all();
        let mut i: usize = 0;
        while i < list.len()
            invariant
                wanted@ == name@,
                list@ == Self::all_spec(),
                i <= list@.len(),
                forall|k: int| 0 <= k < i ==> (#[trigger] list@[k]).name_spec() != name@,
            decreases list@.len() - i,
        {
            let candidate: String = list[i].name().to_string();
            if candidate == wanted {
                proof {
                    assert forall|movement: Movement| movement.name_spec() == name@ implies list@[i as int] == movement by {
                        Self::lemma_names_distinct(list@[i as int], movement);
                    }
                }
                return Some(list[i]);
            }
            i += 1;
        }
        assert forall|movement: Movement| movement.name_spec() != name@ by {
            assert(list@[0] == Movement::Static);
            assert(list@[1] == Movement::Random);
            assert(list@[2] == Movement::Gradient);
            assert(list@[3] == Movement::AvoidCrowding);
            assert(list@[4] == Movement::Chemotaxis);
            assert(list@[5] == Movement::LevyFlight);
            assert(list@[6] == Movement::MultiTrait);
        }
        None
    }

    /// The names of all policies, in the order of the table.
    pub fn names() -> (list: Vec<&'static str>)
        ensures
            list@.len() == Self::all_spec().len(),
            forall|k: int| 0 <= k < list@.len() ==> (#[trigger] list@[k])@ == Self::all_spec()[k].name_spec(),
    {
        let all: Vec<Movement> = Self::all();
        let mut list: Vec<&'static str> = Vec::with_capacity(all.len());
        let mut i: usize = 0;
        while i < all.len()
            invariant
                all@ == Self::all_spec(),
                i <= all@.len(),
                list@.len() == i,
                forall|k: int| 0 <= k < i ==> (#[trigger] list@[k])@ == Self::all_spec()[k].name_spec(),
            decreases all@.len() - i,
        {
            list.push(all[i].name());
            i += 1;
        }
        list
    }
}

} // verus!
