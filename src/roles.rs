//! Robots built for one role, with the module and behavior that role needs.
use crate::robot::{Behavior, Module, Robot};
use crate::station::INITIAL_ROBOT_ENERGY;
use vstd::prelude::*;

verus! {

/// A robot that collects resources: it mines and wanders.
pub struct Collect {
    pub robot: Robot,
}

impl Collect {
    pub fn new(id: usize, position: (usize, usize)) -> (c: Collect)
        ensures
            c.robot.id == id,
            c.robot.position == position,
            c.robot.energy == INITIAL_ROBOT_ENERGY,
            c.robot.module == Module::Mining,
            c.robot.behavior == Behavior::ResourceCollection,
            c.robot.known_tiles@.len() == 0,
    {
        Collect { robot: Robot::new(id, position, INITIAL_ROBOT_ENERGY, Module::Mining, Behavior::ResourceCollection) }
    }
}

/// A robot that explores: it images the cells it reaches.
pub struct ExploreRobot {
    pub robot: Robot,
}

impl ExploreRobot {
    pub fn new(id: usize, position: (usize, usize)) -> (e: ExploreRobot)
        ensures
            e.robot.id == id,
            e.robot.position == position,
            e.robot.energy == INITIAL_ROBOT_ENERGY,
            e.robot.module == Module::Imaging,
            e.robot.behavior == Behavior::Exploration,
            e.robot.known_tiles@.len() == 0,
    {
        ExploreRobot { robot: Robot::new(id, position, INITIAL_ROBOT_ENERGY, Module::Imaging, Behavior::Exploration) }
    }
}

} // verus!
