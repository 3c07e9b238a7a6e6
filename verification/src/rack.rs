//! The cable state of a modular rack: dragging a cable from a port and
//! dropping it on another, disconnecting a port, selecting modules. Each
//! action is one step from state to state, with the events that the
//! persistent history records. Where a pointer lands is worked out by the
//! caller, which hands in the port found there.
use vstd::prelude::*;
use crate::text::key_equal;

verus! {

/// The number of cable colours; a cable's colour is an index below it.
pub const CABLE_PALETTE_LEN: usize = 7;

/// A cable being dragged from a port.
#[derive(Debug, Clone, PartialEq)]
pub struct DraggingCable {
    pub from_module: usize,
    pub from_port: String,
    pub is_from_output: bool,
}

pub struct DraggingCableV {
    pub from_module: usize,
    pub from_port: Seq<char>,
    pub is_from_output: bool,
}

impl View for DraggingCable {
    type V = DraggingCableV;

    open spec fn view(&self) -> DraggingCableV {
        DraggingCableV { from_module: self.from_module, from_port: self.from_port@, is_from_output: self.is_from_output }
    }
}

/// A cable from an output port of one module to an input port of another.
#[derive(Debug, Clone, PartialEq)]
pub struct RackCable {
    pub from_module: usize,
    pub from_port: String,
    pub to_module: usize,
    pub to_port: String,
    /// Index of the cable's colour in the palette.
    pub color: usize,
    pub channels: u8,
}

pub struct RackCableV {
    pub from_module: usize,
    pub from_port: Seq<char>,
    pub to_module: usize,
    pub to_port: Seq<char>,
    pub color: usize,
    pub channels: u8,
}

impl View for RackCable {
    type V = RackCableV;

    open spec fn view(&self) -> RackCableV {
        RackCableV {
            from_module: self.from_module,
            from_port: self.from_port@,
            to_module: self.to_module,
            to_port: self.to_port@,
            color: self.color,
            channels: self.channels,
        }
    }
}

/// What the cable logic knows of a module: its stable identifier and its
/// ports, each with the most channels it carries.
#[derive(Debug, Clone, PartialEq)]
pub struct RackModule {
    pub stable_id: u64,
    pub ports: Vec<(String, u8)>,
}

pub struct RackModuleV {
    pub stable_id: u64,
    pub ports: Seq<(Seq<char>, u8)>,
}

impl View for RackModule {
    type V = RackModuleV;

    open spec fn view(&self) -> RackModuleV {
        RackModuleV { stable_id: self.stable_id, ports: self.ports@.map_values(|p: (String, u8)| (p.0@, p.1)) }
    }
}

/// The modules (by position), the cables, the cable being dragged and the
/// selected modules (by stable identifier).
#[derive(Debug, Clone, PartialEq)]
pub struct CableRack {
    pub modules: Vec<RackModule>,
    pub cables: Vec<RackCable>,
    pub dragging: Option<DraggingCable>,
    pub selection: Vec<u64>,
}

pub struct CableRackV {
    pub modules: Seq<RackModuleV>,
    pub cables: Seq<RackCableV>,
    pub dragging: Option<DraggingCableV>,
    pub selection: Seq<u64>,
}

impl View for CableRack {
    type V = CableRackV;

    open spec fn view(&self) -> CableRackV {
        CableRackV {
            modules: self.modules@.map_values(|m: RackModule| m@),
            cables: self.cables@.map_values(|c: RackCable| c@),
            dragging: match self.dragging {
                Some(d) => Some(d@),
                None => None,
            },
            selection: self.selection@,
        }
    }
}

/// An action on the rack's cables or selection.
#[derive(Debug, Clone, PartialEq)]
pub enum RackAction {
    /// Starts dragging a cable from a port.
    StartDrag { module_idx: usize, port_name: String, is_output: bool },
    /// Drops the dragged cable; `target` is the port under the pointer, if
    /// any: module, port name, whether it is an output.
    EndDrag { target: Option<(usize, String, bool)> },
    /// Removes every cable at a port.
    DisconnectPort { module_idx: usize, port_name: String },
    /// Selects a module; an additive selection toggles it.
    SelectModule { stable_id: u64, additive: bool },
}

pub enum RackActionV {
    StartDrag { module_idx: usize, port_name: Seq<char>, is_output: bool },
    EndDrag { target: Option<(usize, Seq<char>, bool)> },
    DisconnectPort { module_idx: usize, port_name: Seq<char> },
    SelectModule { stable_id: u64, additive: bool },
}

impl View for RackAction {
    type V = RackActionV;

    open spec fn view(&self) -> RackActionV {
        match self {
            RackAction::StartDrag { module_idx, port_name, is_output } => RackActionV::StartDrag {
                module_idx: *module_idx,
                port_name: port_name@,
                is_output: *is_output,
            },
            RackAction::EndDrag { target } => RackActionV::EndDrag {
                target: match target {
                    Some(t) => Some((t.0, t.1@, t.2)),
                    None => None,
                },
            },
            RackAction::DisconnectPort { module_idx, port_name } => RackActionV::DisconnectPort {
                module_idx: *module_idx,
                port_name: port_name@,
            },
            RackAction::SelectModule { stable_id, additive } => RackActionV::SelectModule {
                stable_id: *stable_id,
                additive: *additive,
            },
        }
    }
}

/// A change that the persistent history records.
#[derive(Debug, Clone, PartialEq)]
pub enum RackEvent {
    CableConnected { from_id: u64, from_port: String, to_id: u64, to_port: String },
    CableDisconnected { to_id: u64, to_port: String },
}

pub enum RackEventV {
    CableConnected { from_id: u64, from_port: Seq<char>, to_id: u64, to_port: Seq<char> },
    CableDisconnected { to_id: u64, to_port: Seq<char> },
}

impl View for RackEvent {
    type V = RackEventV;

    open spec fn view(&self) -> RackEventV {
        match self {
            RackEvent::CableConnected { from_id, from_port, to_id, to_port } => RackEventV::CableConnected {
                from_id: *from_id,
                from_port: from_port@,
                to_id: *to_id,
                to_port: to_port@,
            },
            RackEvent::CableDisconnected { to_id, to_port } => RackEventV::CableDisconnected { to_id: *to_id, to_port: to_port@ },
        }
    }
}

/// The channels of the first port named `name`, or 1 when there is none.
pub open spec fn port_channels(ports: Seq<(Seq<char>, u8)>, name: Seq<char>) -> u8
    decreases ports.len(),
{
    if ports.len() == 0 {
        1
    } else if ports[0].0 == name {
        ports[0].1
    } else {
        port_channels(ports.drop_first(), name)
    }
}

/// The position of the first `x` in `s` (its length when there is none).
pub open spec fn first_index(s: Seq<u64>, x: u64) -> int
    decreases s.len(),
{
    if s.len() == 0 {
        0
    } else if s[0] == x {
        0
    } else {
        1 + first_index(s.drop_first(), x)
    }
}

/// Whether cable `c` ends at port `p` of module `m`.
pub open spec fn at_port(c: RackCableV, m: usize, p: Seq<char>) -> bool {
    (c.from_module == m && c.from_port == p) || (c.to_module == m && c.to_port == p)
}

/// The cables that do not end at port `p` of module `m`, in order.
pub open spec fn cables_kept(cs: Seq<RackCableV>, m: usize, p: Seq<char>) -> Seq<RackCableV>
    decreases cs.len(),
{
    if cs.len() == 0 {
        Seq::empty()
    } else {
        cables_kept(cs.drop_last(), m, p) + if at_port(cs.last(), m, p) { Seq::empty() } else { seq![cs.last()] }
    }
}

/// One disconnection event for each cable that ends at port `p` of module
/// `m`, in order.
pub open spec fn cables_cut(mods: Seq<RackModuleV>, cs: Seq<RackCableV>, m: usize, p: Seq<char>) -> Seq<RackEventV>
    decreases cs.len(),
{
    if cs.len() == 0 {
        Seq::empty()
    } else {
        cables_cut(mods, cs.drop_last(), m, p) + if at_port(cs.last(), m, p) {
            seq![RackEventV::CableDisconnected { to_id: mods[cs.last().to_module as int].stable_id, to_port: cs.last().to_port }]
        } else {
            Seq::empty()
        }
    }
}

/// Dropping cable `d` on port `t`: a cable from the output end to the input
/// end, when the two ends face opposite ways and lie on different modules.
pub open spec fn connect(r: CableRackV, d: DraggingCableV, t: (usize, Seq<char>, bool)) -> (CableRackV, Seq<RackEventV>) {
    let (to_mod, to_port, is_to_output) = t;
    if d.is_from_output == is_to_output {
        (r, Seq::empty())
    } else {
        let src_mod = if d.is_from_output { d.from_module } else { to_mod };
        let src_port = if d.is_from_output { d.from_port } else { to_port };
        let dst_mod = if d.is_from_output { to_mod } else { d.from_module };
        let dst_port = if d.is_from_output { to_port } else { d.from_port };
        if src_mod == dst_mod {
            (r, Seq::empty())
        } else {
            let cable = RackCableV {
                from_module: src_mod,
                from_port: src_port,
                to_module: dst_mod,
                to_port: dst_port,
                color: (r.cables.len() % (CABLE_PALETTE_LEN as nat)) as usize,
                channels: port_channels(r.modules[src_mod as int].ports, src_port),
            };
            (
                CableRackV { cables: r.cables.push(cable), ..r },
                seq![RackEventV::CableConnected {
                    from_id: r.modules[src_mod as int].stable_id,
                    from_port: src_port,
                    to_id: r.modules[dst_mod as int].stable_id,
                    to_port: dst_port,
                }],
            )
        }
    }
}

/// Whether dropping cable `d` on port `t` makes a cable.
pub open spec fn connects(d: DraggingCableV, t: (usize, Seq<char>, bool)) -> bool {
    d.is_from_output != t.2 && d.from_module != t.0
}

/// The state after an action, and the events it records.
pub open spec fn rack_step_spec(r: CableRackV, a: RackActionV) -> (CableRackV, Seq<RackEventV>) {
    match a {
        RackActionV::StartDrag { module_idx, port_name, is_output } => (
            CableRackV { dragging: Some(DraggingCableV { from_module: module_idx, from_port: port_name, is_from_output: is_output }), ..r },
            Seq::empty(),
        ),
        RackActionV::EndDrag { target } => match r.dragging {
            None => (r, Seq::empty()),
            Some(d) => {
                let r2 = CableRackV { dragging: None, ..r };
                match target {
                    None => (r2, Seq::empty()),
                    Some(t) => connect(r2, d, t),
                }
            },
        },
        RackActionV::DisconnectPort { module_idx, port_name } => (
            CableRackV { cables: cables_kept(r.cables, module_idx, port_name), ..r },
            cables_cut(r.modules, r.cables, module_idx, port_name),
        ),
        RackActionV::SelectModule { stable_id, additive } => (
            CableRackV {
                selection: if !additive {
                    seq![stable_id]
                } else if r.selection.contains(stable_id) {
                    r.selection.remove(first_index(r.selection, stable_id))
                } else {
                    r.selection.push(stable_id)
                },
                ..r
            },
            Seq::empty(),
        ),
    }
}

/// What an action needs of the state: the modules that a new cable joins,
/// the module of a port being disconnected and the modules that its cables
/// lead to exist.
pub open spec fn step_allowed(r: CableRackV, a: RackActionV) -> bool {
    match a {
        RackActionV::EndDrag { target } => match (r.dragging, target) {
            (Some(d), Some(t)) => connects(d, t) ==> d.from_module < r.modules.len() && t.0 < r.modules.len(),
            _ => true,
        },
        RackActionV::DisconnectPort { module_idx, port_name } => module_idx < r.modules.len() && forall|i: int|
            0 <= i < r.cables.len() && at_port(#[trigger] r.cables[i], module_idx, port_name) ==> r.cables[i].to_module
                < r.modules.len(),
        _ => true,
    }
}

/// Every cable joins two different modules that exist, with a colour of the
/// palette.
pub open spec fn rack_wf(r: CableRackV) -> bool {
    forall|i: int| 0 <= i < r.cables.len() ==> {
        let c = #[trigger] r.cables[i];
        &&& c.from_module < r.modules.len()
        &&& c.to_module < r.modules.len()
        &&& c.from_module != c.to_module
        &&& c.color < CABLE_PALETTE_LEN
    }
}

proof fn lemma_kept_from(cs: Seq<RackCableV>, m: usize, p: Seq<char>)
    ensures
        forall|i: int| 0 <= i < cables_kept(cs, m, p).len() ==> cs.contains(#[trigger] cables_kept(cs, m, p)[i]),
    decreases cs.len(),
{
    if cs.len() > 0 {
        let init = cs.drop_last();
        lemma_kept_from(init, m, p);
        let k = cables_kept(cs, m, p);
        let ki = cables_kept(init, m, p);
        assert forall|i: int| 0 <= i < k.len() implies cs.contains(#[trigger] k[i]) by {
            if i < ki.len() {
                assert(k[i] == ki[i]);
                assert(init.contains(ki[i]));
                let j = choose|j: int| 0 <= j < init.len() && init[j] == ki[i];
                assert(cs[j] == init[j]);
            } else {
                assert(k[i] == cs.last());
                assert(cs[cs.len() - 1] == cs.last());
            }
        }
    }
}

/// Every action keeps every cable between two different existing modules,
/// with a colour of the palette.
pub proof fn lemma_rack_step_keeps_wf(r: CableRackV, a: RackActionV)
    requires
        rack_wf(r),
        step_allowed(r, a),
    ensures
        rack_wf(rack_step_spec(r, a).0),
        rack_step_spec(r, a).0.modules == r.modules,
{
    match a {
        RackActionV::DisconnectPort { module_idx, port_name } => {
            lemma_kept_from(r.cables, module_idx, port_name);
            let k = cables_kept(r.cables, module_idx, port_name);
            assert forall|i: int| 0 <= i < k.len() implies {
                let c = #[trigger] k[i];
                &&& c.from_module < r.modules.len()
                &&& c.to_module < r.modules.len()
                &&& c.from_module != c.to_module
                &&& c.color < CABLE_PALETTE_LEN
            } by {
                assert(r.cables.contains(k[i]));
                let j = choose|j: int| 0 <= j < r.cables.len() && r.cables[j] == k[i];
                assert(r.cables[j] == k[i]);
            }
        },
        RackActionV::EndDrag { target } => {
            if r.dragging is Some && target is Some {
                let r2 = CableRackV { dragging: None, ..r };
                let n = rack_step_spec(r, a).0;
                assert forall|i: int| 0 <= i < n.cables.len() implies {
                    let c = #[trigger] n.cables[i];
                    &&& c.from_module < n.modules.len()
                    &&& c.to_module < n.modules.len()
                    &&& c.from_module != c.to_module
                    &&& c.color < CABLE_PALETTE_LEN
                } by {
                    if i < r.cables.len() {
                        assert(n.cables[i] == r.cables[i]);
                    }
                }
            }
        },
        _ => {},
    }
}

proof fn lemma_first_index(s: Seq<u64>, x: u64, i: int)
    requires
        0 <= i < s.len(),
        s[i] == x,
        forall|j: int| 0 <= j < i ==> s[j] != x,
    ensures
        first_index(s, x) == i,
    decreases i,
{
    if i > 0 {
        assert forall|j: int| 0 <= j < i - 1 implies s.drop_first()[j] != x by {
            assert(s.drop_first()[j] == s[j + 1]);
        }
        lemma_first_index(s.drop_first(), x, i - 1);
    }
}

proof fn lemma_port_channels(ports: Seq<(Seq<char>, u8)>, name: Seq<char>, i: int)
    requires
        0 <= i <= ports.len(),
        forall|j: int| 0 <= j < i ==> ports[j].0 != name,
    ensures
        port_channels(ports, name) == (if i < ports.len() && ports[i].0 == name { ports[i].1 } else { port_channels(ports.skip(i), name) }),
    decreases i,
{
    if i > 0 {
        assert forall|j: int| 0 <= j < i - 1 implies ports.drop_first()[j].0 != name by {
            assert(ports.drop_first()[j] == ports[j + 1]);
        }
        lemma_port_channels(ports.drop_first(), name, i - 1);
        assert(ports.drop_first().skip(i - 1) =~= ports.skip(i));
        if i < ports.len() {
            assert(ports.drop_first()[i - 1] == ports[i]);
        }
    } else {
        assert(ports.skip(0) =~= ports);
    }
}

/// The channels of the first port named `name`, or 1.
fn channels_of(ports: &Vec<(String, u8)>, name: &String) -> (c: u8)
    ensures
        c == port_channels(ports@.map_values(|p: (String, u8)| (p.0@, p.1)), name@),
{
    let ghost ps = ports@.map_values(|p: (String, u8)| (p.0@, p.1));
    let mut i: usize = 0;
    while i < ports.len()
        invariant
            i <= ports@.len(),
            ps == ports@.map_values(|p: (String, u8)| (p.0@, p.1)),
            forall|j: int| 0 <= j < i ==> ps[j].0 != name@,
        decreases ports@.len() - i,
    {
        if key_equal(ports[i].0.as_str(), name.as_str()) {
            proof {
                lemma_port_channels(ps, name@, i as int);
            }
            return ports[i].1;
        }
        i += 1;
    }
    proof {
        lemma_port_channels(ps, name@, i as int);
        assert(ps.skip(i as int).len() == 0);
    }
    1
}

/// Removes the cables at port `port` of module `m`, with an event for each.
fn disconnect(modules: &Vec<RackModule>, cables: &mut Vec<RackCable>, m: usize, port: &String) -> (events: Vec<RackEvent>)
    requires
        forall|i: int| 0 <= i < old(cables)@.len() && at_port(#[trigger] old(cables)@[i]@, m, port@) ==> old(cables)@[i].to_module
            < modules@.len(),
    ensures
        final(cables)@.map_values(|c: RackCable| c@) == cables_kept(old(cables)@.map_values(|c: RackCable| c@), m, port@),
        events@.map_values(|e: RackEvent| e@) == cables_cut(
            modules@.map_values(|x: RackModule| x@),
            old(cables)@.map_values(|c: RackCable| c@),
            m,
            port@,
        ),
{
    let ghost cs = old(cables)@.map_values(|c: RackCable| c@);
    let ghost mods = modules@.map_values(|x: RackModule| x@);
    let mut kept: Vec<RackCable> = Vec::new();
    let mut events: Vec<RackEvent> = Vec::new();
    let mut i: usize = 0;
    while i < cables.len()
        invariant
            cables@.map_values(|c: RackCable| c@) == cs,
            mods == modules@.map_values(|x: RackModule| x@),
            forall|j: int| 0 <= j < cables@.len() && at_port(#[trigger] cables@[j]@, m, port@) ==> cables@[j].to_module < modules@.len(),
            i <= cables@.len(),
            kept@.map_values(|c: RackCable| c@) == cables_kept(cs.take(i as int), m, port@),
            events@.map_values(|e: RackEvent| e@) == cables_cut(mods, cs.take(i as int), m, port@),
        decreases cables@.len() - i,
    {
        let c = &cables[i];
        let ghost pre = cs.take(i as int);
        proof {
            assert(cs.take(i + 1).drop_last() =~= pre);
            assert(cs.take(i + 1).last() == c@);
        }
        let touches = (c.from_module == m && key_equal(c.from_port.as_str(), port.as_str())) || (c.to_module == m && key_equal(
            c.to_port.as_str(),
            port.as_str(),
        ));
        if touches {
            assert(at_port(cables@[i as int]@, m, port@));
            let ev = RackEvent::CableDisconnected { to_id: modules[c.to_module].stable_id, to_port: c.to_port.clone() };
            let ghost before = events@;
            events.push(ev);
            proof {
                assert(events@.map_values(|e: RackEvent| e@) =~= before.map_values(|e: RackEvent| e@).push(ev@));
                assert(events@.map_values(|e: RackEvent| e@) =~= cables_cut(mods, cs.take(i + 1), m, port@));
                assert(kept@.map_values(|c: RackCable| c@) =~= cables_kept(cs.take(i + 1), m, port@));
            }
        } else {
            let ghost before = kept@;
            kept.push(RackCable {
                from_module: c.from_module,
                from_port: c.from_port.clone(),
                to_module: c.to_module,
                to_port: c.to_port.clone(),
                color: c.color,
                channels: c.channels,
            });
            proof {
                assert(kept@.map_values(|c: RackCable| c@) =~= before.map_values(|c: RackCable| c@).push(c@));
                assert(kept@.map_values(|c: RackCable| c@) =~= cables_kept(cs.take(i + 1), m, port@));
                assert(events@.map_values(|e: RackEvent| e@) =~= cables_cut(mods, cs.take(i + 1), m, port@));
            }
        }
        i += 1;
    }
    proof {
        assert(cs.take(cables@.len() as int) =~= cs);
    }
    *cables = kept;
    events
}

/// Applies one action to the rack and returns the events it records.
pub fn rack_step(rack: &mut CableRack, action: RackAction) -> (events: Vec<RackEvent>)
    requires
        step_allowed(old(rack)@, action@),
    ensures
        (final(rack)@, events@.map_values(|e: RackEvent| e@)) == rack_step_spec(old(rack)@, action@),
{
    match action {
        RackAction::StartDrag { module_idx, port_name, is_output } => {
            rack.dragging = Some(DraggingCable { from_module: module_idx, from_port: port_name, is_from_output: is_output });
            let events: Vec<RackEvent> = Vec::new();
            proof {
                assert(events@.map_values(|e: RackEvent| e@) =~= Seq::<RackEventV>::empty());
            }
            events
        },
        RackAction::EndDrag { target } => {
            let mut events: Vec<RackEvent> = Vec::new();
            proof {
                assert(events@.map_values(|e: RackEvent| e@) =~= Seq::<RackEventV>::empty());
            }
            let dragged = rack.dragging.take();
            if let Some(d) = dragged {
                if let Some(t) = target {
                    let (to_mod, to_port, is_to_output) = t;
                    if d.is_from_output != is_to_output {
                        let (src_mod, src_port, dst_mod, dst_port) = if d.is_from_output {
                            (d.from_module, d.from_port, to_mod, to_port)
                        } else {
                            (to_mod, to_port, d.from_module, d.from_port)
                        };
                        if src_mod != dst_mod {
                            let color = rack.cables.len() % CABLE_PALETTE_LEN;
                            let channels = channels_of(&rack.modules[src_mod].ports, &src_port);
                            let from_id = rack.modules[src_mod].stable_id;
                            let to_id = rack.modules[dst_mod].stable_id;
                            let ghost before = rack.cables@;
                            rack.cables.push(RackCable {
                                from_module: src_mod,
                                from_port: src_port.clone(),
                                to_module: dst_mod,
                                to_port: dst_port.clone(),
                                color,
                                channels,
                            });
                            let ev = RackEvent::CableConnected { from_id, from_port: src_port, to_id, to_port: dst_port };
                            events.push(ev);
                            proof {
                                assert(rack.cables@.map_values(|c: RackCable| c@) =~= before.map_values(|c: RackCable| c@).push(
                                    rack.cables@[before.len() as int]@,
                                ));
                                assert(events@.map_values(|e: RackEvent| e@) =~= seq![ev@]);
                            }
                        }
                    }
                }
            }
            events
        },
        RackAction::DisconnectPort { module_idx, port_name } => {
            proof {
                assert forall|i: int| 0 <= i < rack.cables@.len() && at_port(#[trigger] rack.cables@[i]@, module_idx, port_name@)
                    implies rack.cables@[i].to_module < rack.modules@.len() by {
                    assert(rack@.cables[i] == rack.cables@[i]@);
                }
            }
            disconnect(&rack.modules, &mut rack.cables, module_idx, &port_name)
        },
        RackAction::SelectModule { stable_id, additive } => {
            if !additive {
                rack.selection.clear();
                rack.selection.push(stable_id);
                proof {
                    assert(rack.selection@ =~= seq![stable_id]);
                }
            } else {
                let mut i: usize = 0;
                let mut found = false;
                while i < rack.selection.len()
                    invariant_except_break
                        !found,
                        forall|j: int| 0 <= j < i ==> rack.selection@[j] != stable_id,
                    invariant
                        i <= rack.selection@.len(),
                        forall|j: int| 0 <= j < i ==> rack.selection@[j] != stable_id,
                        found ==> i < rack.selection@.len() && rack.selection@[i as int] == stable_id,
                    ensures
                        forall|j: int| 0 <= j < i ==> rack.selection@[j] != stable_id,
                        found ==> i < rack.selection@.len() && rack.selection@[i as int] == stable_id,
                        !found ==> i == rack.selection@.len(),
                    decreases rack.selection@.len() - i,
                {
                    if rack.selection[i] == stable_id {
                        found = true;
                        break;
                    }
                    i += 1;
                }
                if found {
                    proof {
                        lemma_first_index(rack.selection@, stable_id, i as int);
                        assert(rack.selection@.contains(stable_id));
                    }
                    rack.selection.remove(i);
                } else {
                    proof {
                        assert(!rack.selection@.contains(stable_id));
                    }
                    rack.selection.push(stable_id);
                }
            }
            let events: Vec<RackEvent> = Vec::new();
            proof {
                assert(events@.map_values(|e: RackEvent| e@) =~= Seq::<RackEventV>::empty());
            }
            events
        },
    }
}

// ── The processing order of a rack ──────────────────

/// How many entries of `s` are true.
pub open spec fn count_true(s: Seq<bool>) -> nat
    decreases s.len(),
{
    if s.len() == 0 {
        0
    } else {
        count_true(s.drop_last()) + if s.last() { 1nat } else { 0nat }
    }
}

/// At most every entry is true.
pub proof fn lemma_count_true_bound(s: Seq<bool>)
    ensures
        count_true(s) <= s.len(),
    decreases s.len(),
{
    if s.len() > 0 {
        lemma_count_true_bound(s.drop_last());
    }
}

/// Setting a false entry adds one to the count.
pub proof fn lemma_count_true_set(s: Seq<bool>, i: int)
    requires
        0 <= i < s.len(),
        !s[i],
    ensures
        count_true(s.update(i, true)) == count_true(s) + 1,
        count_true(s.update(i, true)) <= s.len(),
    decreases s.len(),
{
    let t = s.update(i, true);
    lemma_count_true_bound(t);
    if i < s.len() - 1 {
        assert(t.drop_last() =~= s.drop_last().update(i, true));
        lemma_count_true_set(s.drop_last(), i);
    } else {
        assert(t.drop_last() =~= s.drop_last());
    }
}

/// The depth-first visit of module `idx` over the wires `ws` (pairs of
/// source module, target module): first, in wire order, each source that
/// feeds `idx` and is neither visited nor on the current path (`visiting`),
/// then `idx` itself. The state is the visited marks and the order so far.
pub open spec fn dfs_visit(idx: usize, ws: Seq<(usize, usize)>, visiting: Seq<bool>, st: (Seq<bool>, Seq<usize>)) -> (Seq<bool>, Seq<usize>)
    decreases visiting.len() - count_true(visiting), 0int,
{
    if idx >= visiting.len() || idx >= st.0.len() || st.0[idx as int] || visiting[idx as int] {
        st
    } else {
        proof {
            lemma_count_true_set(visiting, idx as int);
        }
        let r = dfs_inputs(idx, ws, 0, visiting.update(idx as int, true), st);
        (r.0.update(idx as int, true), r.1.push(idx))
    }
}

/// The visits of the sources feeding `idx` through wires `j` onwards.
pub open spec fn dfs_inputs(idx: usize, ws: Seq<(usize, usize)>, j: int, visiting: Seq<bool>, st: (Seq<bool>, Seq<usize>)) -> (Seq<bool>, Seq<usize>)
    decreases visiting.len() - count_true(visiting), ws.len() - j + 1,
{
    if j < 0 || j >= ws.len() {
        st
    } else {
        proof {
            lemma_count_true_bound(visiting);
        }
        let a = ws[j].0;
        let st2 = if ws[j].1 == idx && a < st.0.len() && !st.0[a as int] && a < visiting.len() && !visiting[a as int] {
            dfs_visit(a, ws, visiting, st)
        } else {
            st
        };
        dfs_inputs(idx, ws, j + 1, visiting, st2)
    }
}

/// `n` marks, all unset.
pub open spec fn no_marks(n: nat) -> Seq<bool> {
    Seq::new(n, |i: int| false)
}

/// Visits from each start in turn.
pub open spec fn dfs_all(starts: Seq<usize>, ws: Seq<(usize, usize)>, n: nat, st: (Seq<bool>, Seq<usize>)) -> (Seq<bool>, Seq<usize>)
    decreases starts.len(),
{
    if starts.len() == 0 {
        st
    } else {
        dfs_visit(starts.last(), ws, no_marks(n), dfs_all(starts.drop_last(), ws, n, st))
    }
}

/// The order in which the modules run: the depth-first order from each start
/// in turn, every module after the modules that feed it (but along a loop).
pub open spec fn snapshot_order_spec(n: nat, starts: Seq<usize>, ws: Seq<(usize, usize)>) -> Seq<usize> {
    dfs_all(starts, ws, n, (no_marks(n), Seq::empty())).1
}

fn dfs(idx: usize, ws: &Vec<(usize, usize)>, visited: &mut Vec<bool>, visiting: &mut Vec<bool>, order: &mut Vec<usize>)
    requires
        old(visited)@.len() == old(visiting)@.len(),
        idx < old(visited)@.len(),
        !old(visiting)@[idx as int],
        forall|j: int| 0 <= j < ws@.len() ==> #[trigger] ws@[j].0 < old(visited)@.len(),
    ensures
        (final(visited)@, final(order)@) == dfs_visit(idx, ws@, old(visiting)@, (old(visited)@, old(order)@)),
        final(visiting)@ == old(visiting)@,
        final(visited)@.len() == old(visited)@.len(),
    decreases old(visiting)@.len() - count_true(old(visiting)@),
{
    if visited[idx] {
        return;
    }
    let ghost vis0 = visiting@;
    let ghost st0 = (visited@, order@);
    proof {
        lemma_count_true_set(vis0, idx as int);
    }
    visiting.set(idx, true);
    let ghost vis1 = visiting@;
    let mut j: usize = 0;
    while j < ws.len()
        invariant
            visiting@ == vis1,
            vis0 == old(visiting)@,
            vis1 == vis0.update(idx as int, true),
            count_true(vis1) == count_true(vis0) + 1,
            count_true(vis1) <= vis1.len(),
            visited@.len() == vis0.len(),
            idx < vis0.len(),
            forall|k: int| 0 <= k < ws@.len() ==> #[trigger] ws@[k].0 < vis0.len(),
            j <= ws@.len(),
            dfs_inputs(idx, ws@, 0, vis1, st0) == dfs_inputs(idx, ws@, j as int, vis1, (visited@, order@)),
        decreases ws@.len() - j,
    {
        let (a, b) = ws[j];
        if b == idx && !visited[a] && !visiting[a] {
            dfs(a, ws, visited, visiting, order);
        }
        j += 1;
    }
    visiting.set(idx, false);
    visited.set(idx, true);
    order.push(idx);
    proof {
        assert(visiting@ =~= vis0);
    }
}

/// The order in which `n` modules run, from the start order `starts` (the
/// modules left to right) and the wires `ws` (source module, target module).
pub fn snapshot_order(n: usize, starts: &Vec<usize>, ws: &Vec<(usize, usize)>) -> (order: Vec<usize>)
    requires
        forall|i: int| 0 <= i < starts@.len() ==> #[trigger] starts@[i] < n,
        forall|j: int| 0 <= j < ws@.len() ==> #[trigger] ws@[j].0 < n,
    ensures
        order@ == snapshot_order_spec(n as nat, starts@, ws@),
{
    let mut visited: Vec<bool> = Vec::new();
    let mut visiting: Vec<bool> = Vec::new();
    let mut k: usize = 0;
    while k < n
        invariant
            k <= n,
            visited@ == Seq::new(k as nat, |i: int| false),
            visiting@ == Seq::new(k as nat, |i: int| false),
        decreases n - k,
    {
        visited.push(false);
        visiting.push(false);
        proof {
            assert(visited@ =~= Seq::new((k + 1) as nat, |i: int| false));
            assert(visiting@ =~= Seq::new((k + 1) as nat, |i: int| false));
        }
        k += 1;
    }
    let mut order: Vec<usize> = Vec::new();
    let ghost st0 = (visited@, order@);
    let mut i: usize = 0;
    while i < starts.len()
        invariant
            i <= starts@.len(),
            visiting@ == Seq::new(n as nat, |q: int| false),
            visited@.len() == n,
            forall|q: int| 0 <= q < starts@.len() ==> #[trigger] starts@[q] < n,
            forall|j: int| 0 <= j < ws@.len() ==> #[trigger] ws@[j].0 < n,
            st0 == (Seq::new(n as nat, |q: int| false), Seq::<usize>::empty()),
            (visited@, order@) == dfs_all(starts@.take(i as int), ws@, n as nat, st0),
        decreases starts@.len() - i,
    {
        let s = starts[i];
        proof {
            assert(starts@.take(i + 1).drop_last() =~= starts@.take(i as int));
            assert(starts@.take(i + 1).last() == s);
        }
        dfs(s, ws, &mut visited, &mut visiting, &mut order);
        i += 1;
    }
    proof {
        assert(starts@.take(starts@.len() as int) =~= starts@);
    }
    order
}

/// The order holds exactly the visited modules, each once.
pub open spec fn order_matches(st: (Seq<bool>, Seq<usize>)) -> bool {
    &&& st.1.no_duplicates()
    &&& forall|x: usize| #[trigger] st.1.contains(x) <==> (x < st.0.len() && st.0[x as int])
}

/// What a visit keeps: the order matches the marks, marks only grow, a module
/// on the current path stays unvisited, and the module visited is marked.
pub open spec fn visit_keeps(visiting: Seq<bool>, st: (Seq<bool>, Seq<usize>), r: (Seq<bool>, Seq<usize>)) -> bool {
    &&& order_matches(r)
    &&& r.0.len() == st.0.len()
    &&& forall|x: int| 0 <= x < st.0.len() && st.0[x] ==> #[trigger] r.0[x]
    &&& forall|x: int| 0 <= x < st.0.len() && visiting[x] && !st.0[x] ==> !#[trigger] r.0[x]
}

proof fn lemma_dfs_visit_keeps(idx: usize, ws: Seq<(usize, usize)>, visiting: Seq<bool>, st: (Seq<bool>, Seq<usize>))
    requires
        order_matches(st),
        st.0.len() == visiting.len(),
    ensures
        visit_keeps(visiting, st, dfs_visit(idx, ws, visiting, st)),
        idx < st.0.len() && !visiting[idx as int] ==> dfs_visit(idx, ws, visiting, st).0[idx as int],
    decreases visiting.len() - count_true(visiting), 0int,
{
    if idx >= visiting.len() || idx >= st.0.len() || st.0[idx as int] || visiting[idx as int] {
    } else {
        lemma_count_true_set(visiting, idx as int);
        let v2 = visiting.update(idx as int, true);
        lemma_dfs_inputs_keeps(idx, ws, 0, v2, st);
        let r = dfs_inputs(idx, ws, 0, v2, st);
        assert(v2[idx as int]);
        assert(!r.0[idx as int]);
        assert(!r.1.contains(idx));
        let out = (r.0.update(idx as int, true), r.1.push(idx));
        assert forall|i: int, k: int| 0 <= i < out.1.len() && 0 <= k < out.1.len() && i != k implies out.1[i] != out.1[k] by {
            if i < r.1.len() && k < r.1.len() {
            } else if i < r.1.len() {
                assert(r.1.contains(out.1[i]));
            } else if k < r.1.len() {
                assert(r.1.contains(out.1[k]));
            }
        }
        assert forall|x: usize| #[trigger] out.1.contains(x) <==> (x < out.0.len() && out.0[x as int]) by {
            if x == idx {
                assert(out.1[out.1.len() - 1] == idx);
            } else {
                if out.1.contains(x) {
                    let q = choose|q: int| 0 <= q < out.1.len() && out.1[q] == x;
                    assert(r.1[q] == x);
                    assert(r.1.contains(x));
                }
                if r.1.contains(x) {
                    let q = choose|q: int| 0 <= q < r.1.len() && r.1[q] == x;
                    assert(out.1[q] == x);
                }
            }
        }
        assert forall|x: int| 0 <= x < st.0.len() && visiting[x] && !st.0[x] implies !#[trigger] out.0[x] by {
            assert(v2[x]);
            assert(!r.0[x]);
        }
        assert forall|x: int| 0 <= x < st.0.len() && st.0[x] implies #[trigger] out.0[x] by {
            assert(r.0[x]);
        }
    }
}

proof fn lemma_dfs_inputs_keeps(idx: usize, ws: Seq<(usize, usize)>, j: int, visiting: Seq<bool>, st: (Seq<bool>, Seq<usize>))
    requires
        order_matches(st),
        st.0.len() == visiting.len(),
    ensures
        visit_keeps(visiting, st, dfs_inputs(idx, ws, j, visiting, st)),
    decreases visiting.len() - count_true(visiting), ws.len() - j + 1,
{
    lemma_count_true_bound(visiting);
    if j < 0 || j >= ws.len() {
    } else {
        let a = ws[j].0;
        let st2 = if ws[j].1 == idx && a < st.0.len() && !st.0[a as int] && a < visiting.len() && !visiting[a as int] {
            lemma_dfs_visit_keeps(a, ws, visiting, st);
            dfs_visit(a, ws, visiting, st)
        } else {
            st
        };
        lemma_dfs_inputs_keeps(idx, ws, j + 1, visiting, st2);
        let r = dfs_inputs(idx, ws, j + 1, visiting, st2);
        assert forall|x: int| 0 <= x < st.0.len() && st.0[x] implies #[trigger] r.0[x] by {
            assert(st2.0[x]);
        }
        assert forall|x: int| 0 <= x < st.0.len() && visiting[x] && !st.0[x] implies !#[trigger] r.0[x] by {
            assert(!st2.0[x]);
        }
    }
}

proof fn lemma_dfs_all(starts: Seq<usize>, ws: Seq<(usize, usize)>, n: nat)
    ensures
        order_matches(dfs_all(starts, ws, n, (no_marks(n), Seq::empty()))),
        dfs_all(starts, ws, n, (no_marks(n), Seq::empty())).0.len() == n,
        forall|i: int| 0 <= i < starts.len() && starts[i] < n ==> #[trigger] dfs_all(starts, ws, n, (no_marks(n), Seq::empty())).0[starts[i] as int],
    decreases starts.len(),
{
    let st0 = (no_marks(n), Seq::<usize>::empty());
    if starts.len() == 0 {
        assert forall|x: usize| #[trigger] st0.1.contains(x) <==> (x < st0.0.len() && st0.0[x as int]) by {}
    } else {
        let init = starts.drop_last();
        lemma_dfs_all(init, ws, n);
        let p = dfs_all(init, ws, n, st0);
        let none = no_marks(n);
        lemma_dfs_visit_keeps(starts.last(), ws, none, p);
        let r = dfs_all(starts, ws, n, st0);
        assert forall|i: int| 0 <= i < starts.len() && starts[i] < n implies #[trigger] r.0[starts[i] as int] by {
            if i < starts.len() - 1 {
                assert(init[i] == starts[i]);
                assert(p.0[init[i] as int]);
            } else {
                assert(starts[i] == starts.last());
                assert(!none[starts.last() as int]);
            }
        }
    }
}

/// From a start order that holds every module, the processing order holds
/// every module exactly once.
pub proof fn lemma_snapshot_order_permutation(n: nat, starts: Seq<usize>, ws: Seq<(usize, usize)>)
    requires
        forall|x: usize| x < n ==> #[trigger] starts.contains(x),
    ensures
        snapshot_order_spec(n, starts, ws).no_duplicates(),
        forall|x: usize| #[trigger] snapshot_order_spec(n, starts, ws).contains(x) <==> x < n,
{
    lemma_dfs_all(starts, ws, n);
    let r = dfs_all(starts, ws, n, (no_marks(n), Seq::empty()));
    assert forall|x: usize| #[trigger] r.1.contains(x) <==> x < n by {
        if x < n {
            assert(starts.contains(x));
            let i = choose|i: int| 0 <= i < starts.len() && starts[i] == x;
            assert(r.0[starts[i] as int]);
        }
    }
}

/// The last position of module `x` in `order`, or 0 when it is absent.
pub open spec fn placed_at(order: Seq<usize>, x: usize) -> usize
    decreases order.len(),
{
    if order.len() == 0 {
        0
    } else if order.last() == x {
        (order.len() - 1) as usize
    } else {
        placed_at(order.drop_last(), x)
    }
}

/// A connection (source module, source port, target module, target port)
/// with both modules renumbered by their place in `order`.
pub open spec fn remapped(order: Seq<usize>, c: (usize, usize, usize, usize)) -> (usize, usize, usize, usize) {
    (placed_at(order, c.0), c.1, placed_at(order, c.2), c.3)
}

/// Renumbers the modules of each connection by their place in `order`.
pub fn remap_connections(n: usize, order: &Vec<usize>, connections: &Vec<(usize, usize, usize, usize)>) -> (r: Vec<(usize, usize, usize, usize)>)
    requires
        forall|i: int| 0 <= i < order@.len() ==> #[trigger] order@[i] < n,
        forall|j: int| 0 <= j < connections@.len() ==> #[trigger] connections@[j].0 < n && connections@[j].2 < n,
    ensures
        r@ == connections@.map_values(|c: (usize, usize, usize, usize)| remapped(order@, c)),
{
    let mut index_map: Vec<usize> = Vec::new();
    let mut k: usize = 0;
    while k < n
        invariant
            k <= n,
            index_map@ == Seq::new(k as nat, |x: int| 0usize),
        decreases n - k,
    {
        index_map.push(0);
        proof {
            assert(index_map@ =~= Seq::new((k + 1) as nat, |x: int| 0usize));
        }
        k += 1;
    }
    let mut i: usize = 0;
    while i < order.len()
        invariant
            i <= order@.len(),
            index_map@.len() == n,
            forall|q: int| 0 <= q < order@.len() ==> #[trigger] order@[q] < n,
            forall|x: int| 0 <= x < n ==> #[trigger] index_map@[x] == placed_at(order@.take(i as int), x as usize),
        decreases order@.len() - i,
    {
        let old_idx = order[i];
        index_map.set(old_idx, i);
        proof {
            let t = order@.take(i + 1);
            assert(t.drop_last() =~= order@.take(i as int));
            assert(t.last() == old_idx);
            assert forall|x: int| 0 <= x < n implies #[trigger] index_map@[x] == placed_at(order@.take(i + 1), x as usize) by {
                if x != old_idx {
                    assert(index_map@[x] == placed_at(order@.take(i as int), x as usize));
                }
            }
        }
        i += 1;
    }
    proof {
        assert(order@.take(order@.len() as int) =~= order@);
    }
    let mut r: Vec<(usize, usize, usize, usize)> = Vec::new();
    let mut j: usize = 0;
    while j < connections.len()
        invariant
            j <= connections@.len(),
            index_map@.len() == n,
            forall|q: int| 0 <= q < connections@.len() ==> #[trigger] connections@[q].0 < n && connections@[q].2 < n,
            forall|x: int| 0 <= x < n ==> #[trigger] index_map@[x] == placed_at(order@, x as usize),
            r@ == connections@.take(j as int).map_values(|c: (usize, usize, usize, usize)| remapped(order@, c)),
        decreases connections@.len() - j,
    {
        let c = connections[j];
        let mapped = (index_map[c.0], c.1, index_map[c.2], c.3);
        r.push(mapped);
        proof {
            assert(connections@.take(j + 1) =~= connections@.take(j as int).push(c));
            assert(r@ =~= connections@.take(j + 1).map_values(|c: (usize, usize, usize, usize)| remapped(order@, c)));
        }
        j += 1;
    }
    proof {
        assert(connections@.take(connections@.len() as int) =~= connections@);
    }
    r
}

/// In an order that holds each module once, a module's place is its
/// position: renumbering follows the order.
pub proof fn lemma_placed_at(order: Seq<usize>, q: int)
    requires
        order.no_duplicates(),
        0 <= q < order.len(),
        order.len() <= usize::MAX + 1,
    ensures
        placed_at(order, order[q]) == q,
    decreases order.len(),
{
    if q < order.len() - 1 {
        let init = order.drop_last();
        assert(init[q] == order[q]);
        assert(order.last() != order[q]) by {
            assert(order[order.len() - 1] == order.last());
        }
        lemma_placed_at(init, q);
    }
}

// ── Feeders run first ──────────────────

/// Whether `(p[i], p[i + 1])` is a wire.
pub open spec fn wire_step(ws: Seq<(usize, usize)>, p: Seq<usize>, i: int) -> bool {
    ws.contains((p[i], p[i + 1]))
}

/// Whether `x` feeds `y` through one or more wires.
pub open spec fn feeds_to(ws: Seq<(usize, usize)>, x: usize, y: usize) -> bool {
    exists|p: Seq<usize>|
        #![trigger p[0], p.last()]
        p.len() >= 2 && p[0] == x && p.last() == y && forall|i: int| 0 <= i < p.len() - 1 ==> #[trigger] wire_step(ws, p, i)
}

/// Whether `a` comes before `b` in `s`.
pub open spec fn runs_before(s: Seq<usize>, a: usize, b: usize) -> bool {
    exists|i: int, j: int| 0 <= i < j < s.len() && s[i] == a && s[j] == b
}

/// Whether `t` begins with `s`.
pub open spec fn extends(s: Seq<usize>, t: Seq<usize>) -> bool {
    s.len() <= t.len() && forall|i: int| 0 <= i < s.len() ==> #[trigger] t[i] == s[i]
}

/// Wire `k` of a visited module: its source is visited and placed before it,
/// or the module feeds its source (they are on one loop).
pub open spec fn placed_or_looped(ws: Seq<(usize, usize)>, st: (Seq<bool>, Seq<usize>), k: int) -> bool {
    (st.0[ws[k].0 as int] && runs_before(st.1, ws[k].0, ws[k].1)) || feeds_to(ws, ws[k].1, ws[k].0)
}

/// Every wire into a visited module is placed or on a loop.
pub open spec fn feeders_placed(ws: Seq<(usize, usize)>, st: (Seq<bool>, Seq<usize>)) -> bool {
    forall|k: int|
        0 <= k < ws.len() && ws[k].0 < st.0.len() && ws[k].1 < st.0.len() && st.0[ws[k].1 as int] ==> #[trigger] placed_or_looped(
            ws,
            st,
            k,
        )
}

proof fn lemma_one_wire(ws: Seq<(usize, usize)>, k: int)
    requires
        0 <= k < ws.len(),
    ensures
        feeds_to(ws, ws[k].0, ws[k].1),
{
    let p = seq![ws[k].0, ws[k].1];
    assert(ws[k] == (p[0], p[1]));
    assert(wire_step(ws, p, 0));
    assert(p.last() == ws[k].1);
}

proof fn lemma_feeds_prepend(ws: Seq<(usize, usize)>, k: int, y: usize)
    requires
        0 <= k < ws.len(),
        feeds_to(ws, ws[k].1, y),
    ensures
        feeds_to(ws, ws[k].0, y),
{
    let p = choose|p: Seq<usize>|
        #![trigger p[0], p.last()]
        p.len() >= 2 && p[0] == ws[k].1 && p.last() == y && forall|i: int| 0 <= i < p.len() - 1 ==> #[trigger] wire_step(ws, p, i);
    let q = seq![ws[k].0] + p;
    assert forall|i: int| 0 <= i < q.len() - 1 implies #[trigger] wire_step(ws, q, i) by {
        if i == 0 {
            assert(q[0] == ws[k].0 && q[1] == p[0]);
            assert(ws[k] == (q[0], q[1]));
        } else {
            assert(wire_step(ws, p, i - 1));
            assert(q[i] == p[i - 1] && q[i + 1] == p[i]);
        }
    }
    assert(q[0] == ws[k].0);
    assert(q.last() == p.last());
}

proof fn lemma_placed_grows(ws: Seq<(usize, usize)>, st: (Seq<bool>, Seq<usize>), r: (Seq<bool>, Seq<usize>), k: int)
    requires
        0 <= k < ws.len(),
        ws[k].0 < st.0.len(),
        placed_or_looped(ws, st, k),
        extends(st.1, r.1),
        r.0.len() == st.0.len(),
        forall|x: int| 0 <= x < st.0.len() && st.0[x] ==> #[trigger] r.0[x],
    ensures
        placed_or_looped(ws, r, k),
{
    if st.0[ws[k].0 as int] && runs_before(st.1, ws[k].0, ws[k].1) {
        let (i, j) = choose|i: int, j: int| 0 <= i < j < st.1.len() && st.1[i] == ws[k].0 && st.1[j] == ws[k].1;
        assert(r.1[i] == st.1[i] && r.1[j] == st.1[j]);
        assert(r.0[ws[k].0 as int]);
    }
}

proof fn lemma_dfs_visit_order(idx: usize, ws: Seq<(usize, usize)>, visiting: Seq<bool>, st: (Seq<bool>, Seq<usize>))
    requires
        order_matches(st),
        st.0.len() == visiting.len(),
        feeders_placed(ws, st),
        forall|x: int| 0 <= x < visiting.len() && visiting[x] ==> feeds_to(ws, idx, x as usize),
    ensures
        feeders_placed(ws, dfs_visit(idx, ws, visiting, st)),
        extends(st.1, dfs_visit(idx, ws, visiting, st).1),
    decreases visiting.len() - count_true(visiting), 0int,
{
    if idx >= visiting.len() || idx >= st.0.len() || st.0[idx as int] || visiting[idx as int] {
    } else {
        lemma_count_true_set(visiting, idx as int);
        let v2 = visiting.update(idx as int, true);
        assert forall|x: int| 0 <= x < v2.len() && v2[x] implies x == idx || feeds_to(ws, idx, x as usize) by {
            if x != idx {
                assert(visiting[x]);
            }
        }
        lemma_dfs_inputs_order(idx, ws, 0, v2, st);
        lemma_dfs_inputs_keeps(idx, ws, 0, v2, st);
        let r = dfs_inputs(idx, ws, 0, v2, st);
        assert(!r.0[idx as int]);
        let out = (r.0.update(idx as int, true), r.1.push(idx));
        assert forall|k: int|
            0 <= k < ws.len() && ws[k].0 < out.0.len() && ws[k].1 < out.0.len() && out.0[ws[k].1 as int] implies #[trigger] placed_or_looped(
            ws,
            out,
            k,
        ) by {
            let a = ws[k].0;
            let b = ws[k].1;
            if b == idx {
                if r.0[a as int] {
                    assert(r.1.contains(a));
                    let i = choose|i: int| 0 <= i < r.1.len() && r.1[i] == a;
                    assert(out.1[i] == a && out.1[r.1.len() as int] == idx);
                    assert(runs_before(out.1, a, b));
                } else {
                    assert(v2[a as int]);
                    if a == idx {
                        lemma_one_wire(ws, k);
                    }
                }
            } else {
                assert(r.0[b as int]);
                assert(placed_or_looped(ws, r, k));
                lemma_placed_grows(ws, r, out, k);
            }
        }
    }
}

proof fn lemma_dfs_inputs_order(idx: usize, ws: Seq<(usize, usize)>, j: int, visiting: Seq<bool>, st: (Seq<bool>, Seq<usize>))
    requires
        order_matches(st),
        st.0.len() == visiting.len(),
        feeders_placed(ws, st),
        idx < visiting.len(),
        0 <= j,
        forall|x: int| 0 <= x < visiting.len() && visiting[x] ==> x == idx || feeds_to(ws, idx, x as usize),
    ensures
        feeders_placed(ws, dfs_inputs(idx, ws, j, visiting, st)),
        extends(st.1, dfs_inputs(idx, ws, j, visiting, st).1),
        forall|k: int|
            j <= k < ws.len() && ws[k].1 == idx && ws[k].0 < visiting.len() ==> #[trigger] dfs_inputs(idx, ws, j, visiting, st).0[ws[k].0 as int]
                || visiting[ws[k].0 as int],
    decreases visiting.len() - count_true(visiting), ws.len() - j + 1,
{
    lemma_count_true_bound(visiting);
    if j < 0 || j >= ws.len() {
    } else {
        let a = ws[j].0;
        let call = ws[j].1 == idx && a < st.0.len() && !st.0[a as int] && a < visiting.len() && !visiting[a as int];
        let st2 = if call {
            dfs_visit(a, ws, visiting, st)
        } else {
            st
        };
        if call {
            assert forall|x: int| 0 <= x < visiting.len() && visiting[x] implies feeds_to(ws, a, x as usize) by {
                if x == idx {
                    lemma_one_wire(ws, j);
                } else {
                    lemma_feeds_prepend(ws, j, x as usize);
                }
            }
            lemma_dfs_visit_order(a, ws, visiting, st);
            lemma_dfs_visit_keeps(a, ws, visiting, st);
        }
        lemma_dfs_inputs_order(idx, ws, j + 1, visiting, st2);
        lemma_dfs_inputs_keeps(idx, ws, j + 1, visiting, st2);
        let r = dfs_inputs(idx, ws, j + 1, visiting, st2);
        assert(st2.0.len() == st.0.len());
        assert(r.0.len() == st.0.len());
        if ws[j].1 == idx && a < visiting.len() && !visiting[a as int] {
            assert(st2.0[a as int]);
            assert(r.0[a as int]);
        }
        assert(extends(st.1, r.1)) by {
            assert forall|i: int| 0 <= i < st.1.len() implies #[trigger] r.1[i] == st.1[i] by {
                assert(st2.1[i] == st.1[i]);
            }
        }
        assert(dfs_inputs(idx, ws, j, visiting, st) == r);
        assert forall|k: int| j <= k < ws.len() && ws[k].1 == idx && ws[k].0 < visiting.len() implies #[trigger] r.0[ws[k].0 as int]
            || visiting[ws[k].0 as int] by {
            if k > j {
                assert(r.0[ws[k].0 as int] || visiting[ws[k].0 as int]);
            }
        }
    }
}

proof fn lemma_dfs_all_order(starts: Seq<usize>, ws: Seq<(usize, usize)>, n: nat)
    ensures
        feeders_placed(ws, dfs_all(starts, ws, n, (no_marks(n), Seq::empty()))),
    decreases starts.len(),
{
    if starts.len() > 0 {
        let init = starts.drop_last();
        lemma_dfs_all_order(init, ws, n);
        lemma_dfs_all(init, ws, n);
        let p = dfs_all(init, ws, n, (no_marks(n), Seq::empty()));
        lemma_dfs_visit_order(starts.last(), ws, no_marks(n), p);
    }
}

/// Every module runs after every module that feeds it, except where the two
/// lie on one loop (the module also feeds its feeder, through wires): for
/// a start order that holds every module and a wire from `a` into `b`,
/// `a` comes before `b` unless `b` feeds `a`.
pub proof fn lemma_snapshot_feeders_first(n: nat, starts: Seq<usize>, ws: Seq<(usize, usize)>, k: int)
    requires
        forall|x: usize| x < n ==> #[trigger] starts.contains(x),
        0 <= k < ws.len(),
        ws[k].0 < n,
        ws[k].1 < n,
        !feeds_to(ws, ws[k].1, ws[k].0),
    ensures
        runs_before(snapshot_order_spec(n, starts, ws), ws[k].0, ws[k].1),
{
    lemma_dfs_all(starts, ws, n);
    lemma_dfs_all_order(starts, ws, n);
    let r = dfs_all(starts, ws, n, (no_marks(n), Seq::empty()));
    let b = ws[k].1;
    assert(starts.contains(b));
    let i = choose|i: int| 0 <= i < starts.len() && starts[i] == b;
    assert(r.0[starts[i] as int]);
    assert(placed_or_looped(ws, r, k));
}

} // verus!
