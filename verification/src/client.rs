//! What the web client decides without drawing: the sound ids shared with the
//! page, the labels and colours it shows, and the orders a player's plan turns
//! into.
use vstd::prelude::*;

use crate::battle::{spec_index, AiLevel, Arena, Command, Faction, Orders, TrainKind};

verus! {

/// The sound effects the game can request.
#[derive(Clone, Copy, Debug, PartialEq, Eq, Structural)]
pub enum Sfx {
    Good,
    Bad,
    Ugly,
    Switch,
    Win,
    Lose,
}

/// The stable id of each sound, shared with the page's audio shim.
pub open spec fn spec_sfx_id(s: Sfx) -> u32 {
    match s {
        Sfx::Good => 0,
        Sfx::Bad => 1,
        Sfx::Ugly => 2,
        Sfx::Switch => 3,
        Sfx::Win => 4,
        Sfx::Lose => 5,
    }
}

impl Sfx {
    /// Stable id shared with the page. Do not renumber.
    pub fn id(self) -> (r: u32)
        ensures
            r == spec_sfx_id(self),
    {
        match self {
            Sfx::Good => 0,
            Sfx::Bad => 1,
            Sfx::Ugly => 2,
            Sfx::Switch => 3,
            Sfx::Win => 4,
            Sfx::Lose => 5,
        }
    }
}

/// Different sounds never share an id.
pub proof fn lemma_sfx_ids_distinct(a: Sfx, b: Sfx)
    requires
        a != b,
    ensures
        spec_sfx_id(a) != spec_sfx_id(b),
{
}

/// A faction's (deep, main) colours.
pub fn faction_colors(f: Faction) -> (r: (&'static str, &'static str))
    ensures
        f == Faction::A ==> r.0@ == "#2f8fb8"@ && r.1@ == "#4fc1e9"@,
        f == Faction::B ==> r.0@ == "#c2384a"@ && r.1@ == "#ed5565"@,
{
    match f {
        Faction::A => ("#2f8fb8", "#4fc1e9"),
        Faction::B => ("#c2384a", "#ed5565"),
    }
}

/// The one-letter badge drawn on a train.
pub fn kind_glyph(k: TrainKind) -> (r: &'static str)
    ensures
        k == TrainKind::Express ==> r@ == "E"@,
        k == TrainKind::Armored ==> r@ == "A"@,
        k == TrainKind::Rocket ==> r@ == "R"@,
{
    match k {
        TrainKind::Express => "E",
        TrainKind::Armored => "A",
        TrainKind::Rocket => "R",
    }
}

/// A train kind's display name.
pub fn kind_name(k: TrainKind) -> (r: &'static str)
    ensures
        k == TrainKind::Express ==> r@ == "Express"@,
        k == TrainKind::Armored ==> r@ == "Armored"@,
        k == TrainKind::Rocket ==> r@ == "Rocket"@,
{
    match k {
        TrainKind::Express => "Express",
        TrainKind::Armored => "Armored",
        TrainKind::Rocket => "Rocket",
    }
}

/// A difficulty's display name.
pub fn level_name(l: AiLevel) -> (r: &'static str)
    ensures
        l == AiLevel::Easy ==> r@ == "Easy"@,
        l == AiLevel::Normal ==> r@ == "Normal"@,
        l == AiLevel::Hard ==> r@ == "Hard"@,
{
    match l {
        AiLevel::Easy => "Easy",
        AiLevel::Normal => "Normal",
        AiLevel::Hard => "Hard",
    }
}

/// A difficulty's one-line description.
pub fn level_blurb(l: AiLevel) -> (r: &'static str)
    ensures
        l == AiLevel::Easy ==> r@ == "one cheap unit a turn"@,
        l == AiLevel::Normal ==> r@ == "counters & defends"@,
        l == AiLevel::Hard ==> r@ == "counters, defends, routes"@,
{
    match l {
        AiLevel::Easy => "one cheap unit a turn",
        AiLevel::Normal => "counters & defends",
        AiLevel::Hard => "counters, defends, routes",
    }
}

/// The route choice after a tap on a junction with `count` exits: the next
/// one, wrapping around.
pub fn next_route(cur: u8, count: u8) -> (r: u8)
    requires
        count > 0,
        cur < 255,
    ensures
        r == (cur + 1) % (count as int),
        r < count,
{
    (cur + 1) % count
}

/// The switch commands of a plan: one for each of faction A's junctions among
/// the first `k` nodes, in node order, with the chosen route.
pub open spec fn switch_commands(a: Arena, sw: Seq<u8>, k: int) -> Seq<Command>
    decreases k,
{
    if k <= 0 {
        Seq::empty()
    } else {
        let p = switch_commands(a, sw, k - 1);
        if a.nodes@[k - 1].exits[0]@.len() >= 2 {
            p.push(Command::SetSwitch { node: (k - 1) as usize, choice: sw[k - 1] })
        } else {
            p
        }
    }
}

/// The deploy commands of a plan, in order.
pub open spec fn deploy_commands(plan: Seq<(TrainKind, usize)>) -> Seq<Command> {
    Seq::new(plan.len(), |i: int| Command::Deploy { kind: plan[i].0, lane: plan[i].1 })
}

/// The orders a player's plan commits: switches first, so that deploys read
/// the chosen routes, then the deploys in the order they were planned.
pub fn plan_orders(arena: &Arena, switches_a: &Vec<u8>, plan: &Vec<(TrainKind, usize)>) -> (r: Orders)
    requires
        switches_a@.len() >= arena.nodes@.len(),
    ensures
        r.commands@ == switch_commands(*arena, switches_a@, arena.nodes@.len() as int) + deploy_commands(plan@),
{
    let mut orders = Orders::new();
    let mut node: usize = 0;
    while node < arena.nodes.len()
        invariant
            node <= arena.nodes@.len(),
            switches_a@.len() >= arena.nodes@.len(),
            orders.commands@ == switch_commands(*arena, switches_a@, node as int),
        decreases arena.nodes@.len() - node,
    {
        proof {
            assert(spec_index(Faction::A) == 0);
        }
        if arena.is_switch(Faction::A, node) {
            orders = orders.switch(node, switches_a[node]);
        }
        node = node + 1;
    }
    let ghost sw = orders.commands@;
    let mut i: usize = 0;
    while i < plan.len()
        invariant
            i <= plan@.len(),
            orders.commands@ == sw + deploy_commands(plan@.subrange(0, i as int)),
        decreases plan@.len() - i,
    {
        let (kind, lane) = plan[i];
        orders = orders.deploy(kind, lane);
        i = i + 1;
        proof {
            assert(deploy_commands(plan@.subrange(0, i as int)) =~= deploy_commands(plan@.subrange(0, i - 1)).push(
                Command::Deploy { kind, lane },
            ));
        }
    }
    proof {
        assert(plan@.subrange(0, plan@.len() as int) =~= plan@);
    }
    orders
}

} // verus!
