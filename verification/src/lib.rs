//! Search in a space of states: given a start, the actions open in each state,
//! where they lead, what they cost and which states are goals, find actions that
//! lead from the start to a goal.
//!
//! `problem` holds what a search is given and the model that its results are
//! stated over. `search` holds the nodes of the search tree and the two
//! searches: breadth first, which finds a goal in the fewest actions, and by
//! cost, which finds a cheapest one.

pub mod problem;
pub mod search;
