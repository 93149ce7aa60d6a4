use vstd::prelude::*;

verus! {

/// The three kinds of agent.
#[derive(Clone, Copy, Debug, PartialEq, Eq, Structural)]
pub enum Shape {
    Scissors,
    Paper,
    Rock,
}

/// The dominance cycle: scissors beat paper, paper beats rock, rock beats scissors.
pub open spec fn spec_beats(a: Shape, b: Shape) -> bool {
    match (a, b) {
        (Shape::Scissors, Shape::Paper) => true,
        (Shape::Paper, Shape::Rock) => true,
        (Shape::Rock, Shape::Scissors) => true,
        _ => false,
    }
}

/// The one shape that beats `s`.
pub open spec fn spec_predator(s: Shape) -> Shape {
    match s {
        Shape::Scissors => Shape::Rock,
        Shape::Paper => Shape::Scissors,
        Shape::Rock => Shape::Paper,
    }
}

/// Whether `a` dominates `b` in the cycle.
pub fn beats(a: Shape, b: Shape) -> (r: bool)
    ensures
        r == spec_beats(a, b),
{
    match (a, b) {
        (Shape::Scissors, Shape::Paper) => true,
        (Shape::Paper, Shape::Rock) => true,
        (Shape::Rock, Shape::Scissors) => true,
        _ => false,
    }
}

/// The shape that beats `s`.
pub fn predator_of(s: Shape) -> (r: Shape)
    ensures
        r == spec_predator(s),
        spec_beats(r, s),
{
    match s {
        Shape::Scissors => Shape::Rock,
        Shape::Paper => Shape::Scissors,
        Shape::Rock => Shape::Paper,
    }
}

impl Shape {
    /// The shape numbered `i`: 0 scissors, 1 paper, 2 rock.
    pub fn from_index(i: u32) -> (r: Shape)
        requires
            i < 3,
        ensures
            i == 0 ==> r == Shape::Scissors,
            i == 1 ==> r == Shape::Paper,
            i == 2 ==> r == Shape::Rock,
    {
        if i == 0 {
            Shape::Scissors
        } else if i == 1 {
            Shape::Paper
        } else {
            Shape::Rock
        }
    }
}

/// The dominance relation is a strict three-cycle: each of scissors, paper and
/// rock beats the next, none beats the one before it, and no shape beats itself.
pub proof fn lemma_dominance_cycle(s: Shape)
    ensures
        spec_beats(Shape::Scissors, Shape::Paper),
        spec_beats(Shape::Paper, Shape::Rock),
        spec_beats(Shape::Rock, Shape::Scissors),
        !spec_beats(Shape::Paper, Shape::Scissors),
        !spec_beats(Shape::Rock, Shape::Paper),
        !spec_beats(Shape::Scissors, Shape::Rock),
        !spec_beats(s, s),
{
}

/// Exactly one shape beats any given shape, and the relation is antisymmetric.
pub proof fn lemma_unique_predator(a: Shape, b: Shape)
    ensures
        spec_beats(a, b) <==> a == spec_predator(b),
        spec_beats(a, b) ==> !spec_beats(b, a),
{
}

} // verus!
