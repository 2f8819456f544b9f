use std::collections::HashMap;
use vstd::prelude::*;

verus! {

broadcast use vstd::std_specs::hash::group_hash_axioms;

/// What a `ColorManager` holds: the round-robin counter, the color that
/// each mapped lane was given, and the palette.
pub struct ColorState {
    pub counter: nat,
    pub assigned: Map<usize, usize>,
    pub palette: Seq<u32>,
}

/// The color that the next unmapped lane is given: the one after
/// `counter`, or the first one when the palette is used up. Colors count
/// from 1; 0 stands for "no color".
pub open spec fn next_color(counter: nat, size: nat) -> nat {
    if counter < size {
        counter + 1
    } else {
        1
    }
}

/// The counter after a request for a lane that has its color already: one
/// more, but never beyond the palette size, from where the next unmapped
/// lane starts the palette over in any case.
pub open spec fn advance(counter: nat, size: nat) -> nat {
    if counter < size {
        counter + 1
    } else {
        size
    }
}

/// The color that a request for `lane` returns.
pub open spec fn color_for(state: ColorState, lane: usize) -> nat {
    if state.assigned.contains_key(lane) {
        state.assigned[lane] as nat
    } else {
        next_color(state.counter, state.palette.len())
    }
}

/// The state after a request for `lane`.
pub open spec fn after_request(state: ColorState, lane: usize) -> ColorState {
    if state.assigned.contains_key(lane) {
        ColorState { counter: advance(state.counter, state.palette.len()), ..state }
    } else {
        let color = next_color(state.counter, state.palette.len());
        ColorState {
            counter: color,
            assigned: state.assigned.insert(lane, color as usize),
            palette: state.palette,
        }
    }
}

/// The state after `lane` is retired.
pub open spec fn after_removal(state: ColorState, lane: usize) -> ColorState {
    ColorState { assigned: state.assigned.remove(lane), ..state }
}

/// The state after every lane from `len` on is retired.
pub open spec fn after_retiring(state: ColorState, len: nat) -> ColorState {
    ColorState { assigned: state.assigned.restrict(Set::new(|lane: usize| lane < len)), ..state }
}

/// The state of a manager over `palette` that has served no lane yet.
pub open spec fn fresh(palette: Seq<u32>) -> ColorState {
    ColorState { counter: 0, assigned: Map::<usize, usize>::empty(), palette }
}

/// What holds of every state: the palette has at least two colors, the
/// counter is within it, and every mapped lane has a color of it.
pub open spec fn valid(state: ColorState) -> bool {
    &&& 2 <= state.palette.len() <= usize::MAX
    &&& state.counter <= state.palette.len()
    &&& forall|lane: usize| #[trigger]
        state.assigned.contains_key(lane) ==> 1 <= state.assigned[lane] <= state.palette.len()
}

/// Every color handed out is a color of the palette, never 0, and the
/// state stays valid.
pub proof fn lemma_color_in_palette(state: ColorState, lane: usize)
    requires
        valid(state),
    ensures
        1 <= color_for(state, lane) <= state.palette.len(),
        valid(after_request(state, lane)),
        after_request(state, lane).assigned.contains_key(lane),
        after_request(state, lane).assigned[lane] == color_for(state, lane),
{
}

/// Retiring a lane keeps the state valid, and touches neither the counter
/// nor the color of any other lane.
pub proof fn lemma_removal_keeps_others(state: ColorState, lane: usize, other: usize)
    requires
        valid(state),
        other != lane,
    ensures
        valid(after_removal(state, lane)),
        !after_removal(state, lane).assigned.contains_key(lane),
        after_removal(state, lane).counter == state.counter,
        after_removal(state, lane).assigned.contains_key(other) == state.assigned.contains_key(
            other,
        ),
        color_for(after_removal(state, lane), other) == color_for(state, other),
{
}

/// Retiring the lanes from `len` on keeps the state valid, leaves a color
/// to no lane from `len` on, and touches neither the counter nor the
/// color of any lane below `len`.
pub proof fn lemma_retiring(state: ColorState, len: nat, lane: usize)
    requires
        valid(state),
    ensures
        valid(after_retiring(state, len)),
        after_retiring(state, len).counter == state.counter,
        after_retiring(state, len).palette == state.palette,
        after_retiring(state, len).assigned.contains_key(lane) == (state.assigned.contains_key(lane)
            && lane < len),
        lane < len ==> color_for(after_retiring(state, len), lane) == color_for(state, lane),
{
}

/// The counter need not count beyond the palette size: whatever it has
/// reached from there on, the next unmapped lane gets the first color.
pub proof fn lemma_counter_beyond_palette(counter: nat, size: nat)
    requires
        counter >= size,
    ensures
        next_color(counter, size) == 1,
        next_color(advance(counter, size), size) == 1,
{
}

/// Two requests for one lane in a row return the same color.
pub proof fn lemma_same_lane_same_color(state: ColorState, lane: usize)
    requires
        valid(state),
    ensures
        color_for(after_request(state, lane), lane) == color_for(state, lane),
{
}

/// A lane keeps its color for as long as it is mapped, whatever is
/// requested in between.
pub proof fn lemma_mapped_lane_keeps_color(state: ColorState, lane: usize, other: usize)
    requires
        state.assigned.contains_key(lane),
    ensures
        after_request(state, other).assigned.contains_key(lane),
        color_for(after_request(state, other), lane) == color_for(state, lane),
{
}

/// Unmapped lanes are served round robin: the color of the second of two
/// new lanes in a row is the one after the color of the first, and the
/// first color of the palette after its last.
pub proof fn lemma_round_robin(state: ColorState, first: usize, second: usize)
    requires
        valid(state),
        !state.assigned.contains_key(first),
        !state.assigned.contains_key(second),
        first != second,
    ensures
        color_for(after_request(state, first), second) == (if color_for(state, first)
            < state.palette.len() {
            color_for(state, first) + 1
        } else {
            1
        }),
{
}

/// The entry of `palette` that the color `color` stands for: colors
/// count from 1, so the first entry belongs to color 1; 0 and what lies
/// beyond the palette stand for nothing.
pub open spec fn palette_entry(palette: Seq<u32>, color: usize) -> Option<u32> {
    if 1 <= color <= palette.len() {
        Some(palette[color - 1])
    } else {
        None
    }
}

/// The entry of `palette` that the color `color` stands for.
pub fn palette_color(palette: &[u32], color: usize) -> (entry: Option<u32>)
    ensures
        entry == palette_entry(palette@, color),
{
    if 1 <= color && color <= palette.len() {
        Some(palette[color - 1])
    } else {
        None
    }
}

/// Hands out a color of a fixed palette to each lane, round robin.
pub struct ColorManager {
    count_color: usize,
    map_color: HashMap<usize, usize>,
    colors: Vec<u32>,
}

impl View for ColorManager {
    type V = ColorState;

    closed spec fn view(&self) -> ColorState {
        ColorState {
            counter: self.count_color as nat,
            assigned: self.map_color@,
            palette: self.colors@,
        }
    }
}

impl ColorManager {
    #[verifier::type_invariant]
    spec fn inv(self) -> bool {
        valid(self@)
    }

    /// A manager over the palette `colors`, with no lane mapped.
    pub fn new(colors: Vec<u32>) -> (manager: Self)
        requires
            colors@.len() >= 2,
        ensures
            manager@ == fresh(colors@),
            valid(manager@),
    {
        let size = colors.len();
        let map_color: HashMap<usize, usize> = HashMap::new();
        assert(map_color@ =~= Map::<usize, usize>::empty());
        assert(colors@.len() == size <= usize::MAX);
        ColorManager { count_color: 0, map_color, colors }
    }

    /// The color of `lane`: the one it has, or else the next of the
    /// palette, which it then keeps until it is removed. The counter moves
    /// on either way.
    pub fn get_color(&mut self, lane: &usize) -> (color: usize)
        ensures
            valid(old(self)@),
            color == color_for(old(self)@, *lane),
            final(self)@ == after_request(old(self)@, *lane),
            1 <= color <= old(self)@.palette.len(),
            valid(final(self)@),
    {
        proof {
            use_type_invariant(&*self);
            lemma_color_in_palette(self@, *lane);
        }
        let size = self.colors.len();
        let known = match self.map_color.get(lane) {
            Some(color) => Some(*color),
            None => None,
        };
        match known {
            Some(color) => {
                if self.count_color < size {
                    self.count_color = self.count_color + 1;
                }
                color
            },
            None => {
                let color: usize = if self.count_color < size {
                    self.count_color + 1
                } else {
                    1
                };
                let mut map: HashMap<usize, usize> = HashMap::new();
                std::mem::swap(&mut map, &mut self.map_color);
                map.insert(*lane, color);
                self.count_color = color;
                self.map_color = map;
                color
            },
        }
    }

    /// Forgets the color of `lane`.
    pub fn remove_lane_color(&mut self, lane: &usize)
        ensures
            final(self)@ == after_removal(old(self)@, *lane),
            valid(final(self)@),
    {
        proof {
            use_type_invariant(&*self);
        }
        let mut map: HashMap<usize, usize> = HashMap::new();
        std::mem::swap(&mut map, &mut self.map_color);
        map.remove(lane);
        assert(map@ == old(self)@.assigned.remove(*lane));
        self.map_color = map;
    }
}

} // verus!
