use vstd::prelude::*;
use crate::grid::filled_with;
use crate::grid::Grid;
use crate::neighborhood::Neighborhood;

verus! {

/// The update rules that need nothing but the grid.
pub struct Rules;

impl Rules {
    /// No change: the cell keeps the value that the channel has.
    pub fn static_rule<T: Copy>(
        trait_index: usize,
        row: usize,
        col: usize,
        _neighborhood_traits: &Neighborhood,
        grid: &Grid<T>,
    ) -> (value: T)
        requires
            grid.wf(),
            row < grid.height,
            col < grid.width,
            trait_index < grid.channels(),
        ensures
            value == grid.value(trait_index as int, grid.flat(row as int, col as int)),
    {
        grid.get_cell_trait(row, col, trait_index)
    }

    /// The value under a rule that needs nothing but the grid; no answer
    /// for a rule that computes with the channel values.
    pub fn builtin<T: Copy>(
        rule: Rule,
        trait_index: usize,
        row: usize,
        col: usize,
        neighborhood_traits: &Neighborhood,
        grid: &Grid<T>,
    ) -> (value: Option<T>)
        requires
            grid.wf(),
            row < grid.height,
            col < grid.width,
            trait_index < grid.channels(),
        ensures
            value == if rule == Rule::Static {
                Some(grid.value(trait_index as int, grid.flat(row as int, col as int)))
            } else {
                None::<T>
            },
    {
        match rule {
            Rule::Static => Some(Self::static_rule(trait_index, row, col, neighborhood_traits, grid)),
            _ => None,
        }
    }

    /// The life-and-death step of the game of life: a live cell lives on
    /// with two or three live neighbours, and a dead cell comes to life with
    /// exactly three.
    pub fn conway_next(alive: bool, alive_neighbors: usize) -> (lives: bool)
        ensures
            lives == if alive {
                alive_neighbors == 2 || alive_neighbors == 3
            } else {
                alive_neighbors == 3
            },
    {
        if alive {
            alive_neighbors == 2 || alive_neighbors == 3
        } else {
            alive_neighbors == 3
        }
    }

    /// The fullest bin of a histogram: the last one among those with the
    /// highest count, and bin 0 for a histogram without bins.
    pub fn majority_bin(bins: &Vec<u32>) -> (best: usize)
        ensures
            bins@.len() == 0 ==> best == 0,
            bins@.len() > 0 ==> {
                &&& best < bins@.len()
                &&& forall|j: int| 0 <= j < bins@.len() ==> bins@[j] <= bins@[best as int]
                &&& forall|j: int| best < j < bins@.len() ==> bins@[j] < bins@[best as int]
            },
    {
        let mut best: usize = 0;
        let mut i: usize = 1;
        while i < bins.len()
            invariant
                1 <= i,
                bins@.len() > 0 ==> i <= bins@.len(),
                bins@.len() > 0 ==> best < i,
                bins@.len() == 0 ==> best == 0,
                forall|j: int| 0 <= j < i && j < bins@.len() ==> bins@[j] <= bins@[best as int],
                forall|j: int| best < j < i && j < bins@.len() ==> bins@[j] < bins@[best as int],
            decreases bins@.len() - i,
        {
            if bins[i] >= bins[best] {
                best = i;
            }
            i += 1;
        }
        best
    }
}

/// The update rules that a configuration can name.
#[derive(Clone, Copy, Debug, PartialEq, Eq, Structural)]
pub enum Rule {
    Static,
    Average,
    Conway,
    Diffusion,
    Maximum,
    Minimum,
    WeightedAverage,
    Majority,
}

impl Rule {
    /// The name that a configuration uses for the rule.
    pub open spec fn name_spec(self) -> Seq<char> {
        match self {
            Rule::Static => "static"@,
            Rule::Average => "average"@,
            Rule::Conway => "conway"@,
            Rule::Diffusion => "diffusion"@,
            Rule::Maximum => "maximum"@,
            Rule::Minimum => "minimum"@,
            Rule::WeightedAverage => "weighted_average"@,
            Rule::Majority => "majority"@,
        }
    }

    /// All rules, in the order of the name table.
    pub open spec fn all_spec() -> Seq<Rule> {
        seq![
            Rule::Static,
            Rule::Average,
            Rule::Conway,
            Rule::Diffusion,
            Rule::Maximum,
            Rule::Minimum,
            Rule::WeightedAverage,
            Rule::Majority,
        ]
    }

    /// The name that a configuration uses for the rule.
    pub fn name(&self) -> (text: &'static str)
        ensures
            text@ == self.name_spec(),
    {
        match self {
            Rule::Static => "static",
            Rule::Average => "average",
            Rule::Conway => "conway",
            Rule::Diffusion => "diffusion",
            Rule::Maximum => "maximum",
            Rule::Minimum => "minimum",
            Rule::WeightedAverage => "weighted_average",
            Rule::Majority => "majority",
        }
    }

    /// All rules, in the order of the name table.
    pub fn all() -> (list: Vec<Rule>)
        ensures
            list@ == Self::all_spec(),
    {
        let mut list: Vec<Rule> = Vec::with_capacity(8);
        list.push(Rule::Static);
        list.push(Rule::Average);
        list.push(Rule::Conway);
        list.push(Rule::Diffusion);
        list.push(Rule::Maximum);
        list.push(Rule::Minimum);
        list.push(Rule::WeightedAverage);
        list.push(Rule::Majority);
        assert(list@ =~= Self::all_spec());
        list
    }

    /// No two rules share a name.
    pub proof fn lemma_names_distinct(a: Rule, b: Rule)
        requires
            a.name_spec() == b.name_spec(),
        ensures
            a == b,
    {
        reveal_strlit("static");
        reveal_strlit("average");
        reveal_strlit("conway");
        reveal_strlit("diffusion");
        reveal_strlit("maximum");
        reveal_strlit("minimum");
        reveal_strlit("weighted_average");
        reveal_strlit("majority");
        assert("static"@.len() == 6 && "static"@[0] == 's');
        assert("average"@.len() == 7 && "average"@[0] == 'a');
        assert("conway"@.len() == 6 && "conway"@[0] == 'c');
        assert("diffusion"@.len() == 9);
        assert("maximum"@.len() == 7 && "maximum"@[0] == 'm' && "maximum"@[1] == 'a');
        assert("minimum"@.len() == 7 && "minimum"@[0] == 'm' && "minimum"@[1] == 'i');
        assert("weighted_average"@.len() == 16);
        assert("majority"@.len() == 8);
    }

    /// The rule that goes by `name`, and none where the table has no such
    /// name.
    pub fn from_name(name: &str) -> (found: Option<Rule>)
        ensures
            match found {
                Some(rule) => rule.name_spec() == name@,
                None => forall|rule: Rule| rule.name_spec() != name@,
            },
            forall|rule: Rule| rule.name_spec() == name@ ==> found == Some(rule),
    {
        let wanted: String = name.to_string();
        let list: Vec<Rule> = Self::all();
        let mut i: usize = 0;
        while i < list.len()
            invariant
                wanted@ == name@,
                list@ == Self::all_spec(),
                i <= list@.len(),
                forall|k: int| 0 <= k < i ==> (#[trigger] list@[k]).name_spec() != name@,
            decreases list@.len() - i,
        {
            let candidate: String = list[i].name().to_string();
            if candidate == wanted {
                proof {
                    assert forall|rule: Rule| rule.name_spec() == name@ implies list@[i as int] == rule by {
                        Self::lemma_names_distinct(list@[i as int], rule);
                    }
                }
                return Some(list[i]);
            }
            i += 1;
        }
        assert forall|rule: Rule| rule.name_spec() != name@ by {
            assert(list@[0] == Rule::Static);
            assert(list@[1] == Rule::Average);
            assert(list@[2] == Rule::Conway);
            assert(list@[3] == Rule::Diffusion);
            assert(list@[4] == Rule::Maximum);
            assert(list@[5] == Rule::Minimum);
            assert(list@[6] == Rule::WeightedAverage);
            assert(list@[7] == Rule::Majority);
        }
        None
    }

    /// The names of all rules, in the order of the table.
    pub fn names() -> (list: Vec<&'static str>)
        ensures
            list@.len() == Self::all_spec().len(),
            forall|k: int| 0 <= k < list@.len() ==> (#[trigger] list@[k])@ == Self::all_spec()[k].name_spec(),
    {
        let all: Vec<Rule> = Self::all();
        let mut list: Vec<&'static str> = Vec::with_capacity(all.len());
        let mut i: usize = 0;
        while i < all.len()
            invariant
                all@ == Self::all_spec(),
                i <= all@.len(),
                list@.len() == i,
                forall|k: int| 0 <= k < i ==> (#[trigger] list@[k])@ == Self::all_spec()[k].name_spec(),
            decreases all@.len() - i,
        {
            list.push(all[i].name());
            i += 1;
        }
        list
    }
}

/// The rule of every active channel can be asked about every agent.
pub open spec fn rules_ready<T: Copy, E: Fn(Rule, usize, usize, usize, &Neighborhood, &Grid<T>) -> T>(
    evaluate: &E,
    rules: Seq<Rule>,
    active_mask: Seq<u8>,
    nb: &Neighborhood,
    grid: &Grid<T>,
) -> bool {
    forall|t: usize, row: usize, col: usize|
        t < rules.len() && active_mask[t as int] != 0 && row < grid.height && col < grid.width && grid.occupied(
            grid.flat(row as int, col as int),
        ) ==> call_requires(*evaluate, (rules[t as int], t, row, col, nb, grid))
}

/// `value` is what the update leaves in channel `t` of cell `i`: a value
/// that the channel's rule may give for the cell where the channel is
/// active and an agent sits on the cell, and the old value otherwise.
pub open spec fn cell_updated_to<T: Copy, E: Fn(Rule, usize, usize, usize, &Neighborhood, &Grid<T>) -> T>(
    evaluate: &E,
    rules: Seq<Rule>,
    active_mask: Seq<u8>,
    nb: &Neighborhood,
    grid: &Grid<T>,
    t: int,
    i: int,
    value: T,
) -> bool {
    if active_mask[t] != 0 && grid.occupied(i) {
        call_ensures(
            *evaluate,
            (rules[t], t as usize, (i / (grid.width as int)) as usize, (i % (grid.width as int)) as usize, nb, grid),
            value,
        )
    } else {
        value == grid.value(t, i)
    }
}

/// Channel `t` of cell `i` in `next` is what the update leaves there.
pub open spec fn cell_updated<T: Copy, E: Fn(Rule, usize, usize, usize, &Neighborhood, &Grid<T>) -> T>(
    evaluate: &E,
    rules: Seq<Rule>,
    active_mask: Seq<u8>,
    nb: &Neighborhood,
    grid: &Grid<T>,
    next: &Grid<T>,
    t: int,
    i: int,
) -> bool {
    cell_updated_to(evaluate, rules, active_mask, nb, grid, t, i, next.value(t, i))
}

/// `next` is `grid` after one update of the attribute channels: the same
/// agents on the same cells, every channel of every cell as the update
/// leaves it.
pub open spec fn traits_updated<T: Copy, E: Fn(Rule, usize, usize, usize, &Neighborhood, &Grid<T>) -> T>(
    evaluate: &E,
    rules: Seq<Rule>,
    active_mask: Seq<u8>,
    nb: &Neighborhood,
    grid: &Grid<T>,
    next: &Grid<T>,
) -> bool {
    &&& next.is_empty@ == grid.is_empty@
    &&& forall|t: int, i: int|
        0 <= t < grid.channels() && 0 <= i < grid.cells() ==> #[trigger] cell_updated(
            evaluate,
            rules,
            active_mask,
            nb,
            grid,
            next,
            t,
            i,
        )
}

/// The number of channels of a registry that nobody has configured.
pub const DEFAULT_TRAITS: usize = 9;

/// One update rule per attribute channel.
#[derive(Clone, Debug)]
pub struct RulesRegistry {
    pub rules: Vec<Rule>,
}

impl RulesRegistry {
    /// A registry of nine channels that all average.
    pub fn default() -> (registry: Self)
        ensures
            registry.rules@.len() == DEFAULT_TRAITS,
            forall|t: int| 0 <= t < registry.rules@.len() ==> registry.rules@[t] == Rule::Average,
    {
        Self { rules: filled_with(Rule::Average, DEFAULT_TRAITS) }
    }

    /// A registry with the given rules, the first for channel 0.
    pub fn custom(rules: Vec<Rule>) -> (registry: Self)
        ensures
            registry.rules == rules,
    {
        Self { rules }
    }

    /// Makes `rule_fn` the rule of one channel.
    pub fn set_rule(&mut self, trait_idx: usize, rule_fn: Rule)
        requires
            trait_idx < old(self).rules@.len(),
        ensures
            final(self).rules@ == old(self).rules@.update(trait_idx as int, rule_fn),
    {
        self.rules[trait_idx] = rule_fn;
    }

    /// The name of the rule of one channel.
    pub fn get_rule_name(&self, trait_index: usize) -> (text: &'static str)
        requires
            trait_index < self.rules@.len(),
        ensures
            text@ == self.rules@[trait_index as int].name_spec(),
    {
        self.rules[trait_index].name()
    }

    /// Whether `function` is the rule of one channel.
    pub fn is_stored_function(&self, trait_index: usize, function: Rule) -> (stored: bool)
        requires
            trait_index < self.rules@.len(),
        ensures
            stored == (self.rules@[trait_index as int] == function),
    {
        self.rules[trait_index] == function
    }

    /// The name that a configuration uses for a rule.
    pub fn get_name_for_rule(rule: Rule) -> (text: &'static str)
        ensures
            text@ == rule.name_spec(),
    {
        rule.name()
    }

    /// The rule that goes by `rule_name`, if there is one.
    pub fn get_rule_by_name(rule_name: &str) -> (found: Option<Rule>)
        ensures
            match found {
                Some(rule) => rule.name_spec() == rule_name@,
                None => forall|rule: Rule| rule.name_spec() != rule_name@,
            },
            forall|rule: Rule| rule.name_spec() == rule_name@ ==> found == Some(rule),
    {
        Rule::from_name(rule_name)
    }

    /// The names of all rules, in the order of the table.
    pub fn get_all_names() -> (list: Vec<&'static str>)
        ensures
            list@.len() == Rule::all_spec().len(),
            forall|k: int| 0 <= k < list@.len() ==> (#[trigger] list@[k])@ == Rule::all_spec()[k].name_spec(),
    {
        Rule::names()
    }

    /// Asks for the next value of channel `trait_index` on cell
    /// `(row, col)` under the rule of that channel.
    pub fn apply_rule<T: Copy, E>(
        &self,
        evaluate: &E,
        trait_index: usize,
        row: usize,
        col: usize,
        neighborhood: &Neighborhood,
        grid: &Grid<T>,
    ) -> (value: T) where E: Fn(Rule, usize, usize, usize, &Neighborhood, &Grid<T>) -> T
        requires
            trait_index < self.rules@.len(),
            call_requires(*evaluate, (self.rules@[trait_index as int], trait_index, row, col, neighborhood, grid)),
        ensures
            call_ensures(
                *evaluate,
                (self.rules@[trait_index as int], trait_index, row, col, neighborhood, grid),
                value,
            ),
    {
        evaluate(self.rules[trait_index], trait_index, row, col, neighborhood, grid)
    }

    /// The next value of channel `trait_index` on the cell with flat index
    /// `cell`: what the channel's rule gives where the channel is active
    /// and an agent sits on the cell, and the old value otherwise.
    pub fn updated_value<T: Copy, E>(
        &self,
        evaluate: &E,
        active_mask: &Vec<u8>,
        trait_index: usize,
        cell: usize,
        neighborhood_traits: &Neighborhood,
        grid: &Grid<T>,
    ) -> (value: T) where E: Fn(Rule, usize, usize, usize, &Neighborhood, &Grid<T>) -> T
        requires
            grid.wf(),
            self.rules@.len() == grid.channels(),
            active_mask@.len() == grid.channels(),
            trait_index < grid.channels(),
            cell < grid.cells(),
            rules_ready(evaluate, self.rules@, active_mask@, neighborhood_traits, grid),
        ensures
            cell_updated_to(evaluate, self.rules@, active_mask@, neighborhood_traits, grid, trait_index as int, cell as int, value),
    {
        if active_mask[trait_index] != 0 && grid.is_empty[cell] == 0 {
            let (row, col) = grid.coords(cell);
            self.apply_rule(evaluate, trait_index, row, col, neighborhood_traits, grid)
        } else {
            grid.traits[trait_index][cell]
        }
    }

    /// Updates the attribute channels.  Every active channel of every agent
    /// gets the value that the channel's rule gives for it, computed from
    /// `grid` alone; inactive channels, vacant cells and the occupancy are
    /// copied to `next_grid` as they are.
    pub fn apply_rules<T: Copy, E>(
        &self,
        evaluate: &E,
        active_mask: &Vec<u8>,
        neighborhood_traits: &Neighborhood,
        grid: &Grid<T>,
        next_grid: &mut Grid<T>,
    ) where E: Fn(Rule, usize, usize, usize, &Neighborhood, &Grid<T>) -> T
        requires
            grid.wf(),
            old(next_grid).wf(),
            grid.same_shape(old(next_grid)),
            self.rules@.len() == grid.channels(),
            active_mask@.len() == grid.channels(),
            rules_ready(evaluate, self.rules@, active_mask@, neighborhood_traits, grid),
        ensures
            final(next_grid).wf(),
            grid.same_shape(final(next_grid)),
            final(next_grid).blank == old(next_grid).blank,
            traits_updated(evaluate, self.rules@, active_mask@, neighborhood_traits, grid, final(next_grid)),
    {
        let len: usize = grid.is_empty.len();
        let channels: usize = grid.traits.len();
        let mut i: usize = 0;
        while i < len
            invariant
                grid.wf(),
                next_grid.wf(),
                grid.same_shape(next_grid),
                next_grid.blank == old(next_grid).blank,
                len == grid.cells(),
                i <= len,
                forall|k: int| 0 <= k < i ==> #[trigger] next_grid.is_empty@[k] == grid.is_empty@[k],
            decreases len - i,
        {
            next_grid.is_empty[i] = grid.is_empty[i];
            i += 1;
        }
        assert(next_grid.is_empty@ =~= grid.is_empty@);
        let mut t: usize = 0;
        while t < channels
            invariant
                grid.wf(),
                next_grid.wf(),
                grid.same_shape(next_grid),
                next_grid.blank == old(next_grid).blank,
                next_grid.is_empty@ == grid.is_empty@,
                len == grid.cells(),
                channels == grid.channels(),
                self.rules@.len() == channels,
                active_mask@.len() == channels,
                rules_ready(evaluate, self.rules@, active_mask@, neighborhood_traits, grid),
                t <= channels,
                forall|u: int, k: int|
                    0 <= u < t && 0 <= k < len ==> #[trigger] cell_updated(
                        evaluate,
                        self.rules@,
                        active_mask@,
                        neighborhood_traits,
                        grid,
                        next_grid,
                        u,
                        k,
                    ),
            decreases channels - t,
        {
            let mut i: usize = 0;
            while i < len
                invariant
                    grid.wf(),
                    next_grid.wf(),
                    grid.same_shape(next_grid),
                    next_grid.blank == old(next_grid).blank,
                    next_grid.is_empty@ == grid.is_empty@,
                    len == grid.cells(),
                    channels == grid.channels(),
                    self.rules@.len() == channels,
                    active_mask@.len() == channels,
                    rules_ready(evaluate, self.rules@, active_mask@, neighborhood_traits, grid),
                    t < channels,
                    i <= len,
                    forall|u: int, k: int|
                        0 <= u < t && 0 <= k < len ==> #[trigger] cell_updated(
                            evaluate,
                            self.rules@,
                            active_mask@,
                            neighborhood_traits,
                            grid,
                            next_grid,
                            u,
                            k,
                        ),
                    forall|k: int|
                        0 <= k < i ==> #[trigger] cell_updated(
                            evaluate,
                            self.rules@,
                            active_mask@,
                            neighborhood_traits,
                            grid,
                            next_grid,
                            t as int,
                            k,
                        ),
                decreases len - i,
            {
                let value: T = self.updated_value(evaluate, active_mask, t, i, neighborhood_traits, grid);
                let ghost before = *next_grid;
                next_grid.set_flat(t, i, value);
                assert forall|u: int, k: int| 0 <= u < t && 0 <= k < len implies #[trigger] cell_updated(
                    evaluate,
                    self.rules@,
                    active_mask@,
                    neighborhood_traits,
                    grid,
                    next_grid,
                    u,
                    k,
                ) by {
                    assert(cell_updated(evaluate, self.rules@, active_mask@, neighborhood_traits, grid, &before, u, k));
                    assert(next_grid.value(u, k) == before.value(u, k));
                }
                assert forall|k: int| 0 <= k < i + 1 implies #[trigger] cell_updated(
                    evaluate,
                    self.rules@,
                    active_mask@,
                    neighborhood_traits,
                    grid,
                    next_grid,
                    t as int,
                    k,
                ) by {
                    if k < i {
                        assert(cell_updated(evaluate, self.rules@, active_mask@, neighborhood_traits, grid, &before, t as int, k));
                        assert(next_grid.value(t as int, k) == before.value(t as int, k));
                    } else {
                        assert(next_grid.value(t as int, i as int) == value);
                    }
                }
                i += 1;
            }
            t += 1;
        }
    }
}

} // verus!
