//! The vocabulary shared by the graph, patches and validation.
use vstd::prelude::*;
use crate::keyed::{Keyed, Model};
use crate::ir::EdgeKind;

verus! {

/// Execution domains.
#[derive(Debug, Clone, Copy, PartialEq, Eq, Structural, Hash)]
pub enum ExecutionDomain {
    /// Hard real-time: DSP / audio thread.
    Sample,
    /// Soft real-time: FFT / loudness / analysis.
    Block,
    /// Build semantics: render / stem export / incremental rebuild.
    Timeline,
    /// Asynchronous heavy computation.
    Background,
}

/// Classification of a node.
#[derive(Debug, Clone, PartialEq, Eq, Hash)]
pub enum NodeKind {
    Source,
    Processor,
    Analyzer,
    Sink,
    Junction,
    /// External plugin.
    Foreign(String),
    Intent,
    SubGraph,
    InputProxy,
    OutputProxy,
    Metadata,
    Boundary,
}

pub enum NodeKindV {
    Source,
    Processor,
    Analyzer,
    Sink,
    Junction,
    Foreign(Seq<char>),
    Intent,
    SubGraph,
    InputProxy,
    OutputProxy,
    Metadata,
    Boundary,
}

impl View for NodeKind {
    type V = NodeKindV;

    open spec fn view(&self) -> NodeKindV {
        match self {
            NodeKind::Source => NodeKindV::Source,
            NodeKind::Processor => NodeKindV::Processor,
            NodeKind::Analyzer => NodeKindV::Analyzer,
            NodeKind::Sink => NodeKindV::Sink,
            NodeKind::Junction => NodeKindV::Junction,
            NodeKind::Foreign(s) => NodeKindV::Foreign(s@),
            NodeKind::Intent => NodeKindV::Intent,
            NodeKind::SubGraph => NodeKindV::SubGraph,
            NodeKind::InputProxy => NodeKindV::InputProxy,
            NodeKind::OutputProxy => NodeKindV::OutputProxy,
            NodeKind::Metadata => NodeKindV::Metadata,
            NodeKind::Boundary => NodeKindV::Boundary,
        }
    }
}

impl Model for NodeKind {
    fn duplicate(&self) -> (r: Self) {
        match self {
            NodeKind::Source => NodeKind::Source,
            NodeKind::Processor => NodeKind::Processor,
            NodeKind::Analyzer => NodeKind::Analyzer,
            NodeKind::Sink => NodeKind::Sink,
            NodeKind::Junction => NodeKind::Junction,
            NodeKind::Foreign(s) => NodeKind::Foreign(s.clone()),
            NodeKind::Intent => NodeKind::Intent,
            NodeKind::SubGraph => NodeKind::SubGraph,
            NodeKind::InputProxy => NodeKind::InputProxy,
            NodeKind::OutputProxy => NodeKind::OutputProxy,
            NodeKind::Metadata => NodeKind::Metadata,
            NodeKind::Boundary => NodeKind::Boundary,
        }
    }

    fn same(&self, other: &Self) -> (r: bool) {
        match (self, other) {
            (NodeKind::Source, NodeKind::Source) => true,
            (NodeKind::Processor, NodeKind::Processor) => true,
            (NodeKind::Analyzer, NodeKind::Analyzer) => true,
            (NodeKind::Sink, NodeKind::Sink) => true,
            (NodeKind::Junction, NodeKind::Junction) => true,
            (NodeKind::Foreign(a), NodeKind::Foreign(b)) => *a == *b,
            (NodeKind::Intent, NodeKind::Intent) => true,
            (NodeKind::SubGraph, NodeKind::SubGraph) => true,
            (NodeKind::InputProxy, NodeKind::InputProxy) => true,
            (NodeKind::OutputProxy, NodeKind::OutputProxy) => true,
            (NodeKind::Metadata, NodeKind::Metadata) => true,
            (NodeKind::Boundary, NodeKind::Boundary) => true,
            _ => false,
        }
    }
}

#[derive(Debug, Clone, Copy, PartialEq, Eq, Structural, Hash)]
pub enum PortDirection {
    Input,
    Output,
}

/// Data type flowing through ports.
#[derive(Debug, Clone, Copy, PartialEq, Eq, Structural, Hash)]
pub enum DataType {
    Audio { channels: u32 },
    Control,
    Midi,
    Spectral { bins: u32 },
    Blob,
    Meta,
}

/// Typed port on a node.
#[derive(Debug, Clone, PartialEq, Eq, Hash)]
pub struct TypedPort {
    pub name: String,
    pub direction: PortDirection,
    pub domain: ExecutionDomain,
    pub data_type: DataType,
}

pub struct TypedPortV {
    pub name: Seq<char>,
    pub direction: PortDirection,
    pub domain: ExecutionDomain,
    pub data_type: DataType,
}

impl View for TypedPort {
    type V = TypedPortV;

    open spec fn view(&self) -> TypedPortV {
        TypedPortV { name: self.name@, direction: self.direction, domain: self.domain, data_type: self.data_type }
    }
}

impl Model for TypedPort {
    fn duplicate(&self) -> (r: Self) {
        TypedPort { name: self.name.clone(), direction: self.direction, domain: self.domain, data_type: self.data_type }
    }

    fn same(&self, other: &Self) -> (r: bool) {
        self.name == other.name && self.direction == other.direction && self.domain == other.domain
            && self.data_type == other.data_type
    }
}

/// Reference to a port on a node.
#[derive(Debug, Clone, PartialEq, Eq, Hash)]
pub struct PortRef {
    pub node_id: crate::ids::StableId,
    pub port_name: String,
}

pub struct PortRefV {
    pub node_id: u128,
    pub port_name: Seq<char>,
}

impl View for PortRef {
    type V = PortRefV;

    open spec fn view(&self) -> PortRefV {
        PortRefV { node_id: self.node_id.0, port_name: self.port_name@ }
    }
}

impl Model for PortRef {
    fn duplicate(&self) -> (r: Self) {
        PortRef { node_id: self.node_id, port_name: self.port_name.clone() }
    }

    fn same(&self, other: &Self) -> (r: bool) {
        self.node_id.0 == other.node_id.0 && self.port_name == other.port_name
    }
}

/// Configuration value. A floating-point value is held as the bit pattern
/// of an IEEE-754 double (`f64::to_bits`).
#[derive(Debug, PartialEq)]
pub enum ConfigValue {
    Float(u64),
    Int(i64),
    Bool(bool),
    String(String),
    List(Vec<ConfigValue>),
    /// A nested table, entries in key order.
    Table(Vec<(String, ConfigValue)>),
}

pub enum ConfigValueV {
    Float(u64),
    Int(i64),
    Bool(bool),
    Str(Seq<char>),
    List(Seq<ConfigValueV>),
    Table(Seq<(Seq<char>, ConfigValueV)>),
}

pub open spec fn config_model(v: ConfigValue) -> ConfigValueV
    decreases v,
{
    match v {
        ConfigValue::Float(f) => ConfigValueV::Float(f),
        ConfigValue::Int(i) => ConfigValueV::Int(i),
        ConfigValue::Bool(b) => ConfigValueV::Bool(b),
        ConfigValue::String(s) => ConfigValueV::Str(s@),
        ConfigValue::List(l) => ConfigValueV::List(config_list_model(l)),
        ConfigValue::Table(t) => ConfigValueV::Table(config_table_model(t)),
    }
}

pub open spec fn config_list_model(l: Vec<ConfigValue>) -> Seq<ConfigValueV>
    decreases l,
{
    Seq::new(l@.len(), |i: int| if 0 <= i < l@.len() { config_model(l@[i]) } else { ConfigValueV::Int(0) })
}

pub open spec fn config_table_model(t: Vec<(String, ConfigValue)>) -> Seq<(Seq<char>, ConfigValueV)>
    decreases t,
{
    Seq::new(
        t@.len(),
        |i: int| if 0 <= i < t@.len() { (t@[i].0@, config_model(t@[i].1)) } else { (Seq::empty(), ConfigValueV::Int(0)) },
    )
}

proof fn lemma_list_model(x: Vec<ConfigValue>, y: Vec<ConfigValue>)
    ensures
        (config_list_model(x) == config_list_model(y)) <==> (x@.len() == y@.len() && forall|j: int| 0 <= j < x@.len() ==> config_model(x@[j]) == config_model(y@[j])),
{
    let s1 = config_list_model(x);
    let s2 = config_list_model(y);
    if x@.len() == y@.len() && forall|j: int| 0 <= j < x@.len() ==> config_model(x@[j]) == config_model(y@[j]) {
        assert(s1 =~= s2);
    }
    if s1 == s2 {
        assert(s1.len() == x@.len() && s2.len() == y@.len());
        assert forall|j: int| 0 <= j < x@.len() implies config_model(x@[j]) == config_model(y@[j]) by {
            assert(s1[j] == s2[j]);
        }
    }
}

proof fn lemma_table_model(x: Vec<(String, ConfigValue)>, y: Vec<(String, ConfigValue)>)
    ensures
        (config_table_model(x) == config_table_model(y)) <==> (x@.len() == y@.len() && forall|j: int| 0 <= j < x@.len() ==> x@[j].0@ == y@[j].0@ && config_model(x@[j].1) == config_model(y@[j].1)),
{
    let s1 = config_table_model(x);
    let s2 = config_table_model(y);
    if x@.len() == y@.len() && forall|j: int| 0 <= j < x@.len() ==> x@[j].0@ == y@[j].0@ && config_model(x@[j].1) == config_model(y@[j].1) {
        assert(s1 =~= s2);
    }
    if s1 == s2 {
        assert(s1.len() == x@.len() && s2.len() == y@.len());
        assert forall|j: int| 0 <= j < x@.len() implies x@[j].0@ == y@[j].0@ && config_model(x@[j].1) == config_model(y@[j].1) by {
            assert(s1[j] == s2[j]);
        }
    }
}

proof fn lemma_config_model_unfold(v: ConfigValue)
    ensures
        match v {
            ConfigValue::Float(f) => config_model(v) == ConfigValueV::Float(f),
            ConfigValue::Int(i) => config_model(v) == ConfigValueV::Int(i),
            ConfigValue::Bool(b) => config_model(v) == ConfigValueV::Bool(b),
            ConfigValue::String(s) => config_model(v) == ConfigValueV::Str(s@),
            ConfigValue::List(l) => config_model(v) == ConfigValueV::List(config_list_model(l)),
            ConfigValue::Table(t) => config_model(v) == ConfigValueV::Table(config_table_model(t)),
        },
{
}

impl View for ConfigValue {
    type V = ConfigValueV;

    open spec fn view(&self) -> ConfigValueV {
        config_model(*self)
    }
}

fn config_duplicate(v: &ConfigValue) -> (r: ConfigValue)
    ensures
        config_model(r) == config_model(*v),
    decreases v,
{
    proof {
        lemma_config_model_unfold(*v);
    }
    match v {
        ConfigValue::Float(f) => ConfigValue::Float(*f),
        ConfigValue::Int(i) => ConfigValue::Int(*i),
        ConfigValue::Bool(b) => ConfigValue::Bool(*b),
        ConfigValue::String(s) => ConfigValue::String(s.clone()),
        ConfigValue::List(l) => {
            let mut out: Vec<ConfigValue> = Vec::new();
            let mut i: usize = 0;
            while i < l.len()
                invariant
                    *v == ConfigValue::List(*l),
                    i <= l@.len(),
                    out@.len() == i,
                    forall|j: int| 0 <= j < i ==> config_model(#[trigger] out@[j]) == config_model(l@[j]),
                decreases l@.len() - i,
            {
                proof {
                    let ghost vv = *v;
                    assert(vv == ConfigValue::List(*l));
                    assert(decreases_to!(vv => vv->List_0));
                    assert(decreases_to!(*l => l@));
                    assert(decreases_to!(l@ => l@[i as int]));
                }
                let c = config_duplicate(&l[i]);
                out.push(c);
                i += 1;
            }
            proof {
                lemma_list_model(out, *l);
                lemma_config_model_unfold(ConfigValue::List(out));
            }
            ConfigValue::List(out)
        },
        ConfigValue::Table(t) => {
            let mut out: Vec<(String, ConfigValue)> = Vec::new();
            let mut i: usize = 0;
            while i < t.len()
                invariant
                    *v == ConfigValue::Table(*t),
                    i <= t@.len(),
                    out@.len() == i,
                    forall|j: int| 0 <= j < i ==> (#[trigger] out@[j]).0@ == t@[j].0@ && config_model(out@[j].1) == config_model(t@[j].1),
                decreases t@.len() - i,
            {
                proof {
                    let ghost vv = *v;
                    assert(vv == ConfigValue::Table(*t));
                    assert(decreases_to!(vv => vv->Table_0));
                    assert(decreases_to!(*t => t@));
                    assert(decreases_to!(t@ => t@[i as int]));
                    assert(decreases_to!(t@[i as int] => t@[i as int].1));
                }
                let c = config_duplicate(&t[i].1);
                out.push((t[i].0.clone(), c));
                i += 1;
            }
            proof {
                lemma_table_model(out, *t);
                lemma_config_model_unfold(ConfigValue::Table(out));
            }
            ConfigValue::Table(out)
        },
    }
}

fn config_same(a: &ConfigValue, b: &ConfigValue) -> (r: bool)
    ensures
        r == (config_model(*a) == config_model(*b)),
    decreases a,
{
    proof {
        lemma_config_model_unfold(*a);
        lemma_config_model_unfold(*b);
    }
    match a {
        ConfigValue::Float(x) => match b {
            ConfigValue::Float(y) => *x == *y,
            _ => false,
        },
        ConfigValue::Int(x) => match b {
            ConfigValue::Int(y) => *x == *y,
            _ => false,
        },
        ConfigValue::Bool(x) => match b {
            ConfigValue::Bool(y) => *x == *y,
            _ => false,
        },
        ConfigValue::String(x) => match b {
            ConfigValue::String(y) => *x == *y,
            _ => false,
        },
        ConfigValue::List(x) => match b {
            ConfigValue::List(y) => {
                proof {
                    lemma_list_model(*x, *y);
                }
                if x.len() != y.len() {
                    return false;
                }
                let mut i: usize = 0;
                while i < x.len()
                    invariant
                        i <= x.len(),
                        x.len() == y.len(),
                        *a == ConfigValue::List(*x),
                        *b == ConfigValue::List(*y),
                        forall|j: int| 0 <= j < i ==> config_model(x@[j]) == config_model(y@[j]),
                    decreases x.len() - i,
                {
                    proof {
                        assert(decreases_to!(*a => *x));
                        assert(decreases_to!(*x => x@));
                        assert(decreases_to!(x@ => x@[i as int]));
                    }
                    if !config_same(&x[i], &y[i]) {
                        proof {
                            lemma_list_model(*x, *y);
                        }
                        return false;
                    }
                    i += 1;
                }
                proof {
                    lemma_list_model(*x, *y);
                }
                true
            },
            _ => false,
        },
        ConfigValue::Table(x) => match b {
            ConfigValue::Table(y) => {
                proof {
                    lemma_table_model(*x, *y);
                }
                if x.len() != y.len() {
                    return false;
                }
                let mut i: usize = 0;
                while i < x.len()
                    invariant
                        i <= x.len(),
                        x.len() == y.len(),
                        *a == ConfigValue::Table(*x),
                        *b == ConfigValue::Table(*y),
                        forall|j: int| 0 <= j < i ==> x@[j].0@ == y@[j].0@ && config_model(x@[j].1) == config_model(y@[j].1),
                    decreases x.len() - i,
                {
                    proof {
                        assert(decreases_to!(*a => *x));
                        assert(decreases_to!(*x => x@));
                        assert(decreases_to!(x@ => x@[i as int]));
                        assert(decreases_to!(x@[i as int] => x@[i as int].1));
                    }
                    if x[i].0 != y[i].0 || !config_same(&x[i].1, &y[i].1) {
                        proof {
                            lemma_table_model(*x, *y);
                        }
                        return false;
                    }
                    i += 1;
                }
                proof {
                    lemma_table_model(*x, *y);
                }
                true
            },
            _ => false,
        },
    }
}

/// Whether the bits of a double are a NaN: all exponent bits set and a
/// non-zero fraction.
pub open spec fn is_nan_bits(x: u64) -> bool {
    (x & 0x7ff0_0000_0000_0000u64) == 0x7ff0_0000_0000_0000u64 && (x & 0x000f_ffff_ffff_ffffu64) != 0
}

/// Whether the bits of a double are a zero of either sign.
pub open spec fn is_zero_bits(x: u64) -> bool {
    (x & 0x7fff_ffff_ffff_ffffu64) == 0
}

/// IEEE-754 equality of two doubles given by their bits: a NaN equals
/// nothing, the two zeros are equal, other values are equal when their bits are.
pub open spec fn float_eq(x: u64, y: u64) -> bool {
    !is_nan_bits(x) && !is_nan_bits(y) && (x == y || (is_zero_bits(x) && is_zero_bits(y)))
}

/// Equality of configuration values as `==` compares them: floats by
/// IEEE-754, lists and tables element by element, others by value.
pub open spec fn value_eq(a: ConfigValueV, b: ConfigValueV) -> bool
    decreases a,
{
    match a {
        ConfigValueV::Float(x) => match b {
            ConfigValueV::Float(y) => float_eq(x, y),
            _ => false,
        },
        ConfigValueV::Int(x) => b == ConfigValueV::Int(x),
        ConfigValueV::Bool(x) => b == ConfigValueV::Bool(x),
        ConfigValueV::Str(x) => b == ConfigValueV::Str(x),
        ConfigValueV::List(l) => match b {
            ConfigValueV::List(m) => list_eq(l, m),
            _ => false,
        },
        ConfigValueV::Table(t) => match b {
            ConfigValueV::Table(u) => table_eq(t, u),
            _ => false,
        },
    }
}

/// Element-wise `value_eq` of two lists of the same length.
pub open spec fn list_eq(l: Seq<ConfigValueV>, m: Seq<ConfigValueV>) -> bool
    decreases l,
{
    if l.len() == 0 {
        m.len() == 0
    } else {
        m.len() == l.len() && list_eq(l.subrange(0, l.len() - 1), m.subrange(0, m.len() - 1)) && value_eq(
            l[l.len() - 1],
            m[m.len() - 1],
        )
    }
}

/// Equality of two table entries: the same key, `value_eq` values.
pub open spec fn entry_eq(p: (Seq<char>, ConfigValueV), q: (Seq<char>, ConfigValueV)) -> bool
    decreases p,
{
    p.0 == q.0 && value_eq(p.1, q.1)
}

/// Entry-wise equality of two tables of the same length.
pub open spec fn table_eq(t: Seq<(Seq<char>, ConfigValueV)>, u: Seq<(Seq<char>, ConfigValueV)>) -> bool
    decreases t,
{
    if t.len() == 0 {
        u.len() == 0
    } else {
        u.len() == t.len() && table_eq(t.subrange(0, t.len() - 1), u.subrange(0, u.len() - 1)) && entry_eq(
            t[t.len() - 1],
            u[u.len() - 1],
        )
    }
}

proof fn lemma_list_eq(l: Seq<ConfigValueV>, m: Seq<ConfigValueV>)
    ensures
        list_eq(l, m) == (l.len() == m.len() && forall|j: int| 0 <= j < l.len() ==> #[trigger] value_eq(l[j], m[j])),
    decreases l.len(),
{
    if l.len() > 0 && m.len() == l.len() {
        let l2 = l.subrange(0, l.len() - 1);
        let m2 = m.subrange(0, m.len() - 1);
        lemma_list_eq(l2, m2);
        if forall|j: int| 0 <= j < l.len() ==> #[trigger] value_eq(l[j], m[j]) {
            assert forall|j: int| 0 <= j < l2.len() implies #[trigger] value_eq(l2[j], m2[j]) by {
                assert(l2[j] == l[j] && m2[j] == m[j]);
                assert(value_eq(l[j], m[j]));
            }
            assert(value_eq(l[l.len() - 1], m[m.len() - 1]));
        }
        if list_eq(l, m) {
            assert forall|j: int| 0 <= j < l.len() implies #[trigger] value_eq(l[j], m[j]) by {
                if j < l.len() - 1 {
                    assert(l2[j] == l[j] && m2[j] == m[j]);
                    assert(value_eq(l2[j], m2[j]));
                }
            }
        }
    }
}

proof fn lemma_table_eq(t: Seq<(Seq<char>, ConfigValueV)>, u: Seq<(Seq<char>, ConfigValueV)>)
    ensures
        table_eq(t, u) == (t.len() == u.len() && forall|j: int| 0 <= j < t.len() ==> #[trigger] entry_eq(t[j], u[j])),
    decreases t.len(),
{
    if t.len() > 0 && u.len() == t.len() {
        let t2 = t.subrange(0, t.len() - 1);
        let u2 = u.subrange(0, u.len() - 1);
        lemma_table_eq(t2, u2);
        if forall|j: int| 0 <= j < t.len() ==> #[trigger] entry_eq(t[j], u[j]) {
            assert forall|j: int| 0 <= j < t2.len() implies #[trigger] entry_eq(t2[j], u2[j]) by {
                assert(t2[j] == t[j] && u2[j] == u[j]);
                assert(entry_eq(t[j], u[j]));
            }
            assert(entry_eq(t[t.len() - 1], u[u.len() - 1]));
        }
        if table_eq(t, u) {
            assert forall|j: int| 0 <= j < t.len() implies #[trigger] entry_eq(t[j], u[j]) by {
                if j < t.len() - 1 {
                    assert(t2[j] == t[j] && u2[j] == u[j]);
                    assert(entry_eq(t2[j], u2[j]));
                }
            }
        }
    }
}

/// Whether a value holds no NaN, at any depth.
pub open spec fn nan_free(v: ConfigValueV) -> bool
    decreases v,
{
    match v {
        ConfigValueV::Float(x) => !is_nan_bits(x),
        ConfigValueV::List(l) => list_nan_free(l),
        ConfigValueV::Table(t) => table_nan_free(t),
        _ => true,
    }
}

/// Whether no element of a list holds a NaN.
pub open spec fn list_nan_free(l: Seq<ConfigValueV>) -> bool
    decreases l,
{
    if l.len() == 0 {
        true
    } else {
        list_nan_free(l.subrange(0, l.len() - 1)) && nan_free(l[l.len() - 1])
    }
}

/// Whether no value of a table holds a NaN.
pub open spec fn table_nan_free(t: Seq<(Seq<char>, ConfigValueV)>) -> bool
    decreases t,
{
    if t.len() == 0 {
        true
    } else {
        table_nan_free(t.subrange(0, t.len() - 1)) && nan_free(t[t.len() - 1].1)
    }
}

/// A value without NaN equals itself.
pub proof fn lemma_value_eq_refl(v: ConfigValueV)
    requires
        nan_free(v),
    ensures
        value_eq(v, v),
    decreases v, 2nat,
{
    match v {
        ConfigValueV::List(l) => lemma_list_eq_refl(l),
        ConfigValueV::Table(t) => lemma_table_eq_refl(t),
        _ => {},
    }
}

proof fn lemma_list_eq_refl(l: Seq<ConfigValueV>)
    requires
        list_nan_free(l),
    ensures
        list_eq(l, l),
    decreases l, 1nat,
{
    if l.len() > 0 {
        lemma_list_eq_refl(l.subrange(0, l.len() - 1));
        lemma_value_eq_refl(l[l.len() - 1]);
    }
}

proof fn lemma_table_eq_refl(t: Seq<(Seq<char>, ConfigValueV)>)
    requires
        table_nan_free(t),
    ensures
        table_eq(t, t),
    decreases t, 1nat,
{
    if t.len() > 0 {
        assert(decreases_to!(t => t[t.len() - 1]));
        lemma_table_eq_refl(t.subrange(0, t.len() - 1));
        lemma_value_eq_refl(t[t.len() - 1].1);
        assert(entry_eq(t[t.len() - 1], t[t.len() - 1]));
    }
}

/// `value_eq` is symmetric.
pub proof fn lemma_value_eq_symm(a: ConfigValueV, b: ConfigValueV)
    ensures
        value_eq(a, b) == value_eq(b, a),
    decreases a, 2nat,
{
    match (a, b) {
        (ConfigValueV::List(l), ConfigValueV::List(m)) => lemma_list_eq_symm(l, m),
        (ConfigValueV::Table(t), ConfigValueV::Table(u)) => lemma_table_eq_symm(t, u),
        _ => {},
    }
}

proof fn lemma_list_eq_symm(l: Seq<ConfigValueV>, m: Seq<ConfigValueV>)
    ensures
        list_eq(l, m) == list_eq(m, l),
    decreases l, 1nat,
{
    if l.len() > 0 && m.len() == l.len() {
        lemma_list_eq_symm(l.subrange(0, l.len() - 1), m.subrange(0, m.len() - 1));
        lemma_value_eq_symm(l[l.len() - 1], m[m.len() - 1]);
    }
}

proof fn lemma_table_eq_symm(t: Seq<(Seq<char>, ConfigValueV)>, u: Seq<(Seq<char>, ConfigValueV)>)
    ensures
        table_eq(t, u) == table_eq(u, t),
    decreases t, 1nat,
{
    if t.len() > 0 && u.len() == t.len() {
        assert(decreases_to!(t => t[t.len() - 1]));
        lemma_table_eq_symm(t.subrange(0, t.len() - 1), u.subrange(0, u.len() - 1));
        lemma_value_eq_symm(t[t.len() - 1].1, u[u.len() - 1].1);
        assert(entry_eq(t[t.len() - 1], u[u.len() - 1]) == entry_eq(u[u.len() - 1], t[t.len() - 1]));
    }
}

fn float_equal(x: u64, y: u64) -> (r: bool)
    ensures
        r == float_eq(x, y),
{
    let x_nan = (x & 0x7ff0_0000_0000_0000u64) == 0x7ff0_0000_0000_0000u64 && (x & 0x000f_ffff_ffff_ffffu64) != 0;
    let y_nan = (y & 0x7ff0_0000_0000_0000u64) == 0x7ff0_0000_0000_0000u64 && (y & 0x000f_ffff_ffff_ffffu64) != 0;
    !x_nan && !y_nan && (x == y || ((x & 0x7fff_ffff_ffff_ffffu64) == 0 && (y & 0x7fff_ffff_ffff_ffffu64) == 0))
}

/// Compares two configuration values as `==` does (floats by IEEE-754).
pub(crate) fn config_value_eq(a: &ConfigValue, b: &ConfigValue) -> (r: bool)
    ensures
        r == value_eq(a@, b@),
    decreases a,
{
    proof {
        lemma_config_model_unfold(*a);
        lemma_config_model_unfold(*b);
    }
    match a {
        ConfigValue::Float(x) => match b {
            ConfigValue::Float(y) => float_equal(*x, *y),
            _ => false,
        },
        ConfigValue::Int(x) => match b {
            ConfigValue::Int(y) => *x == *y,
            _ => false,
        },
        ConfigValue::Bool(x) => match b {
            ConfigValue::Bool(y) => *x == *y,
            _ => false,
        },
        ConfigValue::String(x) => match b {
            ConfigValue::String(y) => crate::text::key_equal(x.as_str(), y.as_str()),
            _ => false,
        },
        ConfigValue::List(x) => match b {
            ConfigValue::List(y) => {
                                                if x.len() != y.len() {
                    proof {
                        lemma_list_eq(config_list_model(*x), config_list_model(*y));
                    }
                    return false;
                }
                let mut i: usize = 0;
                while i < x.len()
                    invariant
                        i <= x.len(),
                        x.len() == y.len(),
                        *a == ConfigValue::List(*x),
                        *b == ConfigValue::List(*y),
                                                                        forall|j: int| 0 <= j < i ==> #[trigger] value_eq(config_list_model(*x)[j], config_list_model(*y)[j]),
                    decreases x.len() - i,
                {
                    proof {
                        let ghost aa = *a;
                        assert(aa == ConfigValue::List(*x));
                        assert(decreases_to!(aa => aa->List_0));
                        assert(decreases_to!(*x => x@));
                        assert(decreases_to!(x@ => x@[i as int]));
                    }
                    assert(config_list_model(*x)[i as int] == x@[i as int]@);
                    assert(config_list_model(*y)[i as int] == y@[i as int]@);
                    if !config_value_eq(&x[i], &y[i]) {
                        assert(!value_eq(config_list_model(*x)[i as int], config_list_model(*y)[i as int]));
                        proof {
                            lemma_list_eq(config_list_model(*x), config_list_model(*y));
                        }
                        return false;
                    }
                    i += 1;
                }
                proof {
                    lemma_list_eq(config_list_model(*x), config_list_model(*y));
                }
                true
            },
            _ => false,
        },
        ConfigValue::Table(x) => match b {
            ConfigValue::Table(y) => {
                                                if x.len() != y.len() {
                    proof {
                        lemma_table_eq(config_table_model(*x), config_table_model(*y));
                    }
                    return false;
                }
                let mut i: usize = 0;
                while i < x.len()
                    invariant
                        i <= x.len(),
                        x.len() == y.len(),
                        *a == ConfigValue::Table(*x),
                        *b == ConfigValue::Table(*y),
                                                                        forall|j: int| 0 <= j < i ==> #[trigger] entry_eq(config_table_model(*x)[j], config_table_model(*y)[j]),
                    decreases x.len() - i,
                {
                    proof {
                        let ghost aa = *a;
                        assert(aa == ConfigValue::Table(*x));
                        assert(decreases_to!(aa => aa->Table_0));
                        assert(decreases_to!(*x => x@));
                        assert(decreases_to!(x@ => x@[i as int]));
                        assert(decreases_to!(x@[i as int] => x@[i as int].1));
                    }
                    assert(config_table_model(*x)[i as int] == (x@[i as int].0@, x@[i as int].1@));
                    assert(config_table_model(*y)[i as int] == (y@[i as int].0@, y@[i as int].1@));
                    if !crate::text::key_equal(x[i].0.as_str(), y[i].0.as_str()) || !config_value_eq(&x[i].1, &y[i].1) {
                        assert(!entry_eq(config_table_model(*x)[i as int], config_table_model(*y)[i as int]));
                        proof {
                            lemma_table_eq(config_table_model(*x), config_table_model(*y));
                        }
                        return false;
                    }
                    i += 1;
                }
                proof {
                    lemma_table_eq(config_table_model(*x), config_table_model(*y));
                }
                true
            },
            _ => false,
        },
    }
}

impl Model for ConfigValue {
    fn duplicate(&self) -> (r: Self) {
        config_duplicate(self)
    }

    fn same(&self, other: &Self) -> (r: bool) {
        config_same(self, other)
    }
}

impl Clone for ConfigValue {
    fn clone(&self) -> Self {
        config_duplicate(self)
    }
}

impl ConfigValue {
    pub fn as_string(&self) -> (r: Option<&String>)
        ensures
            match *self {
                ConfigValue::String(s) => r == Some(&s),
                _ => r is None,
            },
    {
        match self {
            ConfigValue::String(s) => Some(s),
            _ => None,
        }
    }

    /// The bit pattern of a floating-point value.
    pub fn as_float(&self) -> (r: Option<u64>)
        ensures
            match *self {
                ConfigValue::Float(f) => r == Some(f),
                _ => r is None,
            },
    {
        match self {
            ConfigValue::Float(f) => Some(*f),
            _ => None,
        }
    }

    pub fn as_list(&self) -> (r: Option<&Vec<ConfigValue>>)
        ensures
            match *self {
                ConfigValue::List(l) => r == Some(&l),
                _ => r is None,
            },
    {
        match self {
            ConfigValue::List(l) => Some(l),
            _ => None,
        }
    }

    pub fn as_bool(&self) -> (r: Option<bool>)
        ensures
            match *self {
                ConfigValue::Bool(b) => r == Some(b),
                _ => r is None,
            },
    {
        match self {
            ConfigValue::Bool(b) => Some(*b),
            _ => None,
        }
    }
}

/// Configuration snapshot of a node, walked in key order.
pub type ConfigSnapshot = Keyed<ConfigValue>;

/// A change of one configuration key.
#[derive(Debug, Clone, PartialEq)]
pub struct ConfigChange {
    pub old: Option<ConfigValue>,
    pub new: Option<ConfigValue>,
}

pub struct ConfigChangeV {
    pub old: Option<ConfigValueV>,
    pub new: Option<ConfigValueV>,
}

pub open spec fn option_model<T: View>(o: Option<T>) -> Option<T::V> {
    match o {
        Some(v) => Some(v@),
        None => None,
    }
}

impl View for ConfigChange {
    type V = ConfigChangeV;

    open spec fn view(&self) -> ConfigChangeV {
        ConfigChangeV { old: option_model(self.old), new: option_model(self.new) }
    }
}

pub fn option_duplicate<T: Model>(o: &Option<T>) -> (r: Option<T>)
    ensures
        option_model(r) == option_model(*o),
{
    match o {
        Some(v) => Some(v.duplicate()),
        None => None,
    }
}

pub fn option_same<T: Model>(a: &Option<T>, b: &Option<T>) -> (r: bool)
    ensures
        r == (option_model(*a) == option_model(*b)),
{
    match (a, b) {
        (Some(x), Some(y)) => x.same(y),
        (None, None) => true,
        _ => false,
    }
}

impl Model for ConfigChange {
    fn duplicate(&self) -> (r: Self) {
        ConfigChange { old: option_duplicate(&self.old), new: option_duplicate(&self.new) }
    }

    fn same(&self, other: &Self) -> (r: bool) {
        option_same(&self.old, &other.old) && option_same(&self.new, &other.new)
    }
}

/// Delta between two configurations, keyed like a configuration.
pub type ConfigDelta = Keyed<ConfigChange>;

/// Reference to a metadata node.
#[derive(Debug, Clone, Copy, PartialEq, Eq, Structural, Hash)]
pub struct MetadataRef(pub Option<crate::ids::StableId>);

/// Delta for an edge modification.
#[derive(Debug, Clone, PartialEq)]
pub struct EdgeDelta {
    pub source: Option<PortRef>,
    pub target: Option<PortRef>,
    pub kind: Option<EdgeKind>,
}

pub struct EdgeDeltaV {
    pub source: Option<PortRefV>,
    pub target: Option<PortRefV>,
    pub kind: Option<EdgeKind>,
}

impl View for EdgeDelta {
    type V = EdgeDeltaV;

    open spec fn view(&self) -> EdgeDeltaV {
        EdgeDeltaV { source: option_model(self.source), target: option_model(self.target), kind: self.kind }
    }
}

impl Model for EdgeDelta {
    fn duplicate(&self) -> (r: Self) {
        EdgeDelta { source: option_duplicate(&self.source), target: option_duplicate(&self.target), kind: self.kind }
    }

    fn same(&self, other: &Self) -> (r: bool) {
        option_same(&self.source, &other.source) && option_same(&self.target, &other.target) && self.kind
            == other.kind
    }
}

/// Trust level of a patch.
#[derive(Debug, Clone, Copy, PartialEq, Eq, Structural, Hash)]
pub enum TrustLevel {
    Trusted,
    Untrusted,
    Quarantined,
    ReviewRequired,
}

/// Where a patch came from.
#[derive(Debug, Clone, PartialEq, Eq, Hash)]
pub enum PatchSource {
    UserDirect,
    UserDsl,
    Script(String),
    AiGenerated(String),
    Extension(String),
    System,
}

pub enum PatchSourceV {
    UserDirect,
    UserDsl,
    Script(Seq<char>),
    AiGenerated(Seq<char>),
    Extension(Seq<char>),
    System,
}

impl View for PatchSource {
    type V = PatchSourceV;

    open spec fn view(&self) -> PatchSourceV {
        match self {
            PatchSource::UserDirect => PatchSourceV::UserDirect,
            PatchSource::UserDsl => PatchSourceV::UserDsl,
            PatchSource::Script(s) => PatchSourceV::Script(s@),
            PatchSource::AiGenerated(s) => PatchSourceV::AiGenerated(s@),
            PatchSource::Extension(s) => PatchSourceV::Extension(s@),
            PatchSource::System => PatchSourceV::System,
        }
    }
}

impl Model for PatchSource {
    fn duplicate(&self) -> (r: Self) {
        match self {
            PatchSource::UserDirect => PatchSource::UserDirect,
            PatchSource::UserDsl => PatchSource::UserDsl,
            PatchSource::Script(s) => PatchSource::Script(s.clone()),
            PatchSource::AiGenerated(s) => PatchSource::AiGenerated(s.clone()),
            PatchSource::Extension(s) => PatchSource::Extension(s.clone()),
            PatchSource::System => PatchSource::System,
        }
    }

    fn same(&self, other: &Self) -> (r: bool) {
        match (self, other) {
            (PatchSource::UserDirect, PatchSource::UserDirect) => true,
            (PatchSource::UserDsl, PatchSource::UserDsl) => true,
            (PatchSource::Script(a), PatchSource::Script(b)) => *a == *b,
            (PatchSource::AiGenerated(a), PatchSource::AiGenerated(b)) => *a == *b,
            (PatchSource::Extension(a), PatchSource::Extension(b)) => *a == *b,
            (PatchSource::System, PatchSource::System) => true,
            _ => false,
        }
    }
}

/// Constraint-based intent expression.
#[derive(Debug, Clone, PartialEq, Eq, Hash)]
pub enum IntentConstraint {
    Must(String),
    Prefer(String),
    Avoid(String),
    Never(String),
}

pub enum IntentConstraintV {
    Must(Seq<char>),
    Prefer(Seq<char>),
    Avoid(Seq<char>),
    Never(Seq<char>),
}

impl View for IntentConstraint {
    type V = IntentConstraintV;

    open spec fn view(&self) -> IntentConstraintV {
        match self {
            IntentConstraint::Must(s) => IntentConstraintV::Must(s@),
            IntentConstraint::Prefer(s) => IntentConstraintV::Prefer(s@),
            IntentConstraint::Avoid(s) => IntentConstraintV::Avoid(s@),
            IntentConstraint::Never(s) => IntentConstraintV::Never(s@),
        }
    }
}

/// Intent lifecycle status.
#[derive(Debug, Clone, Copy, PartialEq, Eq, Structural, Hash)]
pub enum IntentStatus {
    Proposal,
    Attached,
    Resolved,
    Discarded,
    Exploratory,
}

/// Confidence in an observed state.
#[derive(Debug, Clone, Copy, PartialEq, Eq, Structural, PartialOrd, Ord, Hash)]
pub enum ConfidenceScore {
    Unknown,
    Suspicious,
    Inferred,
    Verified,
}

impl ConfidenceScore {
    /// The numeric score: 0, 30, 70 or 100.
    pub open spec fn spec_score(self) -> u32 {
        match self {
            ConfidenceScore::Unknown => 0,
            ConfidenceScore::Suspicious => 30,
            ConfidenceScore::Inferred => 70,
            ConfidenceScore::Verified => 100,
        }
    }

    pub fn score(&self) -> (r: u32)
        ensures
            r == self.spec_score(),
    {
        match self {
            ConfidenceScore::Unknown => 0,
            ConfidenceScore::Suspicious => 30,
            ConfidenceScore::Inferred => 70,
            ConfidenceScore::Verified => 100,
        }
    }
}

} // verus!
