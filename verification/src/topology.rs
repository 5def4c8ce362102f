use vstd::prelude::*;

verus! {

/// A link of the topology between two vertex indices.
///
/// Capacities, demands and flows are non-negative integers in a fixed-point unit of the
/// caller's choice (for instance thousandths of a unit of traffic); costs are in
/// billionths of a unit of delay per unit of flow.
#[derive(Debug, Clone, Copy)]
pub struct Link {
    pub source: i32,
    pub target: i32,
    pub capacity: u32,
    pub cost: u64,
}

/// A traffic request: `demand_value` units to carry from `source` to `target`.
#[derive(Debug, Clone, Copy)]
pub struct Demand {
    pub source: i32,
    pub target: i32,
    pub demand_value: u64,
}

/// A topology with its demands, vertices already resolved to the indices `0..node_count`.
#[derive(Debug)]
pub struct Network {
    pub node_count: usize,
    pub links: Vec<Link>,
    pub demands: Vec<Demand>,
}

impl Link {
    /// The vertex at one end of the link.
    pub fn get_source(&self) -> (r: i32)
        ensures
            r == self.source,
    {
        self.source
    }

    /// The vertex at the other end of the link.
    pub fn get_target(&self) -> (r: i32)
        ensures
            r == self.target,
    {
        self.target
    }

    /// The cost of the link before it carries flow.
    pub fn get_cost(&self) -> (r: u64)
        ensures
            r == self.cost,
    {
        self.cost
    }

    /// The capacity of the link.
    pub fn get_capacity(&self) -> (r: u32)
        ensures
            r == self.capacity,
    {
        self.capacity
    }
}

impl Demand {
    /// The vertex the traffic starts from.
    pub fn get_source(&self) -> (r: i32)
        ensures
            r == self.source,
    {
        self.source
    }

    /// The vertex the traffic is meant for.
    pub fn get_target(&self) -> (r: i32)
        ensures
            r == self.target,
    {
        self.target
    }

    /// The amount of traffic to carry.
    pub fn get_demand_vale(&self) -> (r: u64)
        ensures
            r == self.demand_value,
    {
        self.demand_value
    }
}

impl Network {
    /// The number of vertices.
    pub fn get_node_count(&self) -> (r: usize)
        ensures
            r == self.node_count,
    {
        self.node_count
    }

    /// The number of links.
    pub fn get_link_count(&self) -> (r: usize)
        ensures
            r == self.links@.len(),
    {
        self.links.len()
    }

    /// The number of demands.
    pub fn get_demands_count(&self) -> (r: usize)
        ensures
            r == self.demands@.len(),
    {
        self.demands.len()
    }
}

} // verus!
