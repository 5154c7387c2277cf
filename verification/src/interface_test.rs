use vstd::prelude::*;
use crate::dijkstra::{calculate_ospf_cost, spec_ospf_cost};
use crate::read_config::InterfaceConfig;

verus! {

/// The capacities, in Mbps, of the cost table.
pub open spec fn table_capacities() -> Seq<u32> {
    seq![10u32, 100, 500, 1000, 10000]
}

/// The table of OSPF costs by capacity, for 10, 100, 500, 1000 and 10000
/// Mbps: costs 10, 1, 1, 1 and 1.
pub fn display_all_interface_costs() -> (table: Vec<(u32, u32)>)
    ensures
        table@.len() == 5,
        forall|k: int|
            0 <= k < 5 ==> #[trigger] table@[k] == (table_capacities()[k], spec_ospf_cost(table_capacities()[k], true)),
        table@ == seq![(10u32, 10u32), (100, 1), (500, 1), (1000, 1), (10000, 1)],
{
    let capacities: Vec<u32> = vec![10, 100, 500, 1000, 10000];
    let mut table: Vec<(u32, u32)> = Vec::new();
    let mut i: usize = 0;
    assert(capacities@ == table_capacities());
    while i < capacities.len()
        invariant
            i <= capacities.len(),
            capacities@ == table_capacities(),
            table@.len() == i,
            forall|k: int| 0 <= k < i ==> #[trigger] table@[k] == (table_capacities()[k], spec_ospf_cost(table_capacities()[k], true)),
        decreases capacities.len() - i,
    {
        let c = capacities[i];
        table.push((c, calculate_ospf_cost(c, true)));
        i += 1;
    }
    assert(100_000_000int / 10_000_000int == 10) by (nonlinear_arith);
    assert(100_000_000int / 100_000_000int == 1) by (nonlinear_arith);
    assert(100_000_000int / 500_000_000int == 0) by (nonlinear_arith);
    assert(100_000_000int / 1_000_000_000int == 0) by (nonlinear_arith);
    assert(100_000_000int / 10_000_000_000int == 0) by (nonlinear_arith);
    assert(spec_ospf_cost(10, true) == 10);
    assert(spec_ospf_cost(100, true) == 1);
    assert(spec_ospf_cost(500, true) == 1);
    assert(spec_ospf_cost(1000, true) == 1);
    assert(spec_ospf_cost(10000, true) == 1);
    assert(table@ =~= seq![(10u32, 10u32), (100, 1), (500, 1), (1000, 1), (10000, 1)]);
    table
}

/// The state of each configured interface, in order: its name and, when it
/// is up, its OSPF cost (routing is unavailable through one that is down).
pub fn interface_states(interfaces: &Vec<InterfaceConfig>) -> (r: Vec<(String, Option<u32>)>)
    ensures
        r@.len() == interfaces@.len(),
        forall|k: int|
            0 <= k < r@.len() ==> r@[k].0@ == interfaces@[k].name@ && r@[k].1 == if interfaces@[k].link_active {
                Some(spec_ospf_cost(interfaces@[k].capacity_mbps, true))
            } else {
                None
            },
{
    let mut r: Vec<(String, Option<u32>)> = Vec::new();
    let mut i: usize = 0;
    while i < interfaces.len()
        invariant
            i <= interfaces@.len(),
            r@.len() == i,
            forall|k: int|
                0 <= k < i ==> r@[k].0@ == interfaces@[k].name@ && r@[k].1 == if interfaces@[k].link_active {
                    Some(spec_ospf_cost(interfaces@[k].capacity_mbps, true))
                } else {
                    None
                },
        decreases interfaces.len() - i,
    {
        let iface = &interfaces[i];
        let cost = if iface.link_active {
            Some(calculate_ospf_cost(iface.capacity_mbps, true))
        } else {
            None
        };
        r.push((iface.name.clone(), cost));
        i += 1;
    }
    r
}

} // verus!
