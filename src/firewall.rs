use vstd::prelude::*;

use crate::addr::IpAddress;

verus! {

/// Name of the single table shared by all rules of the enforcer.
pub const TABLE_NAME: &'static str = "namib";

/// Name of the dispatch chain hooked at inbound traffic.
pub const BASE_CHAIN_NAME: &'static str = "base_chain";

/// Transport protocol a rule matches on.
#[derive(Clone, Copy, Debug, PartialEq, Eq, Structural)]
pub enum Protocol {
    Tcp,
    Udp,
    Other,
}

/// What a rule does with the traffic it matches.
#[derive(Clone, Copy, Debug, PartialEq, Eq, Structural)]
pub enum Target {
    Accept,
    Reject,
    Drop,
}

/// One end of a rule: a literal address or a host name.
#[derive(Clone, Debug)]
pub enum NetworkHost {
    Ip(IpAddress),
    Hostname(String),
}

/// A rule of a device: which traffic it matches and what happens to it.
#[derive(Clone, Debug)]
pub struct FirewallRule {
    pub src: Option<NetworkHost>,
    pub dst: Option<NetworkHost>,
    pub protocol: Protocol,
    pub target: Target,
}

/// A device with its address and its ordered rules.
#[derive(Clone, Debug)]
pub struct FirewallDevice {
    pub id: String,
    pub ip: IpAddress,
    pub rules: Vec<FirewallRule>,
}

/// The configuration handed to the enforcer: its devices, in order.
#[derive(Clone, Debug)]
pub struct FirewallConfig {
    pub devices: Vec<FirewallDevice>,
}

impl FirewallConfig {
    pub fn devices(&self) -> (r: &Vec<FirewallDevice>)
        ensures
            r == &self.devices,
    {
        &self.devices
    }
}

/// Address family of a match.
#[derive(Clone, Copy, Debug, PartialEq, Eq, Structural)]
pub enum AddressFamily {
    Ipv4,
    Ipv6,
}

/// Which address of a packet a match reads.
#[derive(Clone, Copy, Debug, PartialEq, Eq, Structural)]
pub enum AddressField {
    Source,
    Destination,
}

/// One match expression of a kernel rule.
#[derive(Clone, Copy, Debug, PartialEq, Eq, Structural)]
pub enum MatchExpr {
    /// Load the network protocol family of the packet.
    MetaNfproto,
    /// Compare the loaded family.
    CmpFamily(AddressFamily),
    /// Load the source or destination address of the packet.
    PayloadAddress(AddressFamily, AddressField),
    /// Compare the loaded address.
    CmpAddress(IpAddress),
    /// Load the transport protocol of the packet.
    PayloadTransport(AddressFamily),
    /// Compare the loaded transport protocol.
    CmpTransport(Protocol),
}

/// The terminal action of a kernel rule.
#[derive(Clone, Debug)]
pub enum Verdict {
    Accept,
    Drop,
    Jump(String),
}

/// Default policy of a chain.
#[derive(Clone, Copy, Debug, PartialEq, Eq, Structural)]
pub enum Policy {
    Accept,
    Drop,
}

/// Whether an instruction creates or removes its object.
#[derive(Clone, Copy, Debug, PartialEq, Eq, Structural)]
pub enum MsgType {
    Add,
    Del,
}

/// A table, chain or rule of the kernel packet filter.
#[derive(Clone, Debug)]
pub enum KernelObject {
    Table { name: String },
    Chain { name: String, inbound_hook: bool, policy: Policy },
    Rule { chain: String, matches: Vec<MatchExpr>, verdict: Verdict },
}

/// One instruction of a batch.
#[derive(Clone, Debug)]
pub struct Instruction {
    pub msg: MsgType,
    pub object: KernelObject,
}

pub ghost enum VerdictModel {
    Accept,
    Drop,
    Jump(Seq<char>),
}

pub ghost enum ObjectModel {
    Table { name: Seq<char> },
    Chain { name: Seq<char>, inbound_hook: bool, policy: Policy },
    Rule { chain: Seq<char>, matches: Seq<MatchExpr>, verdict: VerdictModel },
}

pub ghost struct InstructionModel {
    pub msg: MsgType,
    pub object: ObjectModel,
}

impl View for Verdict {
    type V = VerdictModel;

    open spec fn view(&self) -> VerdictModel {
        match self {
            Verdict::Accept => VerdictModel::Accept,
            Verdict::Drop => VerdictModel::Drop,
            Verdict::Jump(c) => VerdictModel::Jump(c@),
        }
    }
}

impl View for KernelObject {
    type V = ObjectModel;

    open spec fn view(&self) -> ObjectModel {
        match self {
            KernelObject::Table { name } => ObjectModel::Table { name: name@ },
            KernelObject::Chain { name, inbound_hook, policy } => ObjectModel::Chain {
                name: name@,
                inbound_hook: *inbound_hook,
                policy: *policy,
            },
            KernelObject::Rule { chain, matches, verdict } => ObjectModel::Rule {
                chain: chain@,
                matches: matches@,
                verdict: verdict@,
            },
        }
    }
}

impl View for Instruction {
    type V = InstructionModel;

    open spec fn view(&self) -> InstructionModel {
        InstructionModel { msg: self.msg, object: self.object@ }
    }
}

/// The abstract value of a batch: its instructions, in order.
pub open spec fn batch_view(b: Seq<Instruction>) -> Seq<InstructionModel> {
    b.map_values(|i: Instruction| i@)
}

pub open spec fn add_of(object: ObjectModel) -> InstructionModel {
    InstructionModel { msg: MsgType::Add, object }
}

pub open spec fn family_of(ip: IpAddress) -> AddressFamily {
    match ip {
        IpAddress::V4(_) => AddressFamily::Ipv4,
        IpAddress::V6(_) => AddressFamily::Ipv6,
    }
}

/// Matches a packet whose source or destination address is `ip`.
pub open spec fn address_match_spec(ip: IpAddress, field: AddressField) -> Seq<MatchExpr> {
    seq![
        MatchExpr::MetaNfproto,
        MatchExpr::CmpFamily(family_of(ip)),
        MatchExpr::PayloadAddress(family_of(ip), field),
        MatchExpr::CmpAddress(ip),
    ]
}

/// Matches the transport protocol `p`, for a packet addressed to `ip`.
pub open spec fn protocol_match_spec(ip: IpAddress, p: Protocol) -> Seq<MatchExpr> {
    match p {
        Protocol::Other => seq![],
        _ => seq![MatchExpr::PayloadTransport(family_of(ip)), MatchExpr::CmpTransport(p)],
    }
}

/// The matches of a rule: its literal source, then its literal destination
/// with the protocol; host names are not matched.
pub open spec fn rule_matches_spec(r: FirewallRule) -> Seq<MatchExpr> {
    let src = match r.src {
        Some(NetworkHost::Ip(a)) => address_match_spec(a, AddressField::Source),
        _ => seq![],
    };
    let dst = match r.dst {
        Some(NetworkHost::Ip(a)) => address_match_spec(a, AddressField::Destination)
            + protocol_match_spec(a, r.protocol),
        _ => seq![],
    };
    src + dst
}

/// Accept stays accept; reject and drop both drop.
pub open spec fn verdict_spec(t: Target) -> VerdictModel {
    match t {
        Target::Accept => VerdictModel::Accept,
        _ => VerdictModel::Drop,
    }
}

pub open spec fn rule_instruction_spec(chain: Seq<char>, r: FirewallRule) -> InstructionModel {
    add_of(
        ObjectModel::Rule { chain, matches: rule_matches_spec(r), verdict: verdict_spec(r.target) },
    )
}

pub open spec fn jump_instruction_spec(d: FirewallDevice, field: AddressField) -> InstructionModel {
    add_of(
        ObjectModel::Rule {
            chain: BASE_CHAIN_NAME@,
            matches: address_match_spec(d.ip, field),
            verdict: VerdictModel::Jump(d.id@),
        },
    )
}

pub open spec fn rule_instructions(chain: Seq<char>, rules: Seq<FirewallRule>) -> Seq<InstructionModel> {
    rules.map_values(|r: FirewallRule| rule_instruction_spec(chain, r))
}

/// The instructions for one device: its chain, the two dispatch rules of
/// the base chain, then one rule per rule of the device, in order.
pub open spec fn device_instructions(d: FirewallDevice) -> Seq<InstructionModel> {
    seq![
        add_of(ObjectModel::Chain { name: d.id@, inbound_hook: false, policy: Policy::Drop }),
        jump_instruction_spec(d, AddressField::Source),
        jump_instruction_spec(d, AddressField::Destination),
    ] + rule_instructions(d.id@, d.rules@)
}

pub open spec fn devices_instructions(ds: Seq<FirewallDevice>) -> Seq<InstructionModel>
    decreases ds.len(),
{
    if ds.len() == 0 {
        seq![]
    } else {
        devices_instructions(ds.drop_last()) + device_instructions(ds.last())
    }
}

/// The whole ruleset for a configuration: the table, the base chain, then
/// each device in order.
pub open spec fn config_instructions(c: FirewallConfig) -> Seq<InstructionModel> {
    seq![
        add_of(ObjectModel::Table { name: TABLE_NAME@ }),
        add_of(ObjectModel::Chain { name: BASE_CHAIN_NAME@, inbound_hook: true, policy: Policy::Accept }),
    ] + devices_instructions(c.devices@)
}

proof fn lemma_batch_view_push(b: Seq<Instruction>, i: Instruction)
    ensures
        batch_view(b.push(i)) == batch_view(b).push(i@),
{
    assert(batch_view(b.push(i)) =~= batch_view(b).push(i@));
}

fn push_instruction(batch: &mut Vec<Instruction>, msg: MsgType, object: KernelObject)
    ensures
        batch_view(final(batch)@) == batch_view(old(batch)@).push(
            InstructionModel { msg, object: object@ },
        ),
{
    let ins = Instruction { msg, object };
    proof {
        lemma_batch_view_push(batch@, ins);
    }
    batch.push(ins);
}

fn family_of_exec(ip: IpAddress) -> (r: AddressFamily)
    ensures
        r == family_of(ip),
{
    match ip {
        IpAddress::V4(_) => AddressFamily::Ipv4,
        IpAddress::V6(_) => AddressFamily::Ipv6,
    }
}

fn push_address_match(m: &mut Vec<MatchExpr>, ip: IpAddress, field: AddressField)
    ensures
        final(m)@ == old(m)@ + address_match_spec(ip, field),
{
    let fam = family_of_exec(ip);
    m.push(MatchExpr::MetaNfproto);
    m.push(MatchExpr::CmpFamily(fam));
    m.push(MatchExpr::PayloadAddress(fam, field));
    m.push(MatchExpr::CmpAddress(ip));
    assert(m@ =~= old(m)@ + address_match_spec(ip, field));
}

fn rule_matches(r: &FirewallRule) -> (m: Vec<MatchExpr>)
    ensures
        m@ == rule_matches_spec(*r),
{
    let mut m: Vec<MatchExpr> = Vec::new();
    if let Some(NetworkHost::Ip(a)) = &r.src {
        push_address_match(&mut m, *a, AddressField::Source);
    }
    if let Some(NetworkHost::Ip(a)) = &r.dst {
        push_address_match(&mut m, *a, AddressField::Destination);
        match r.protocol {
            Protocol::Other => {},
            _ => {
                m.push(MatchExpr::PayloadTransport(family_of_exec(*a)));
                m.push(MatchExpr::CmpTransport(r.protocol));
            },
        }
    }
    assert(m@ =~= rule_matches_spec(*r));
    m
}

fn verdict_for(t: Target) -> (v: Verdict)
    ensures
        v@ == verdict_spec(t),
{
    match t {
        Target::Accept => Verdict::Accept,
        Target::Reject => Verdict::Drop,
        Target::Drop => Verdict::Drop,
    }
}

fn jump_rule(d: &FirewallDevice, field: AddressField) -> (o: KernelObject)
    ensures
        add_of(o@) == jump_instruction_spec(*d, field),
{
    let mut m: Vec<MatchExpr> = Vec::new();
    push_address_match(&mut m, d.ip, field);
    assert(m@ =~= address_match_spec(d.ip, field));
    KernelObject::Rule {
        chain: String::from_str(BASE_CHAIN_NAME),
        matches: m,
        verdict: Verdict::Jump(d.id.clone()),
    }
}

/// Appends the instructions of one device: its private chain with a
/// dropping policy, the two dispatch rules that jump to it from the base
/// chain, and its rules in order.
fn add_device_instructions(batch: &mut Vec<Instruction>, d: &FirewallDevice)
    ensures
        batch_view(final(batch)@) == batch_view(old(batch)@) + device_instructions(*d),
{
    let ghost start = batch_view(batch@);
    push_instruction(
        batch,
        MsgType::Add,
        KernelObject::Chain { name: d.id.clone(), inbound_hook: false, policy: Policy::Drop },
    );
    push_instruction(batch, MsgType::Add, jump_rule(d, AddressField::Source));
    push_instruction(batch, MsgType::Add, jump_rule(d, AddressField::Destination));
    let ghost head = batch_view(batch@);
    let mut j: usize = 0;
    while j < d.rules.len()
        invariant
            0 <= j <= d.rules@.len(),
            batch_view(batch@) == head + rule_instructions(d.id@, d.rules@.subrange(0, j as int)),
        decreases d.rules@.len() - j,
    {
        let r = &d.rules[j];
        let ghost before = batch_view(batch@);
        let obj = KernelObject::Rule {
            chain: d.id.clone(),
            matches: rule_matches(r),
            verdict: verdict_for(r.target),
        };
        push_instruction(batch, MsgType::Add, obj);
        assert(batch_view(batch@) == before.push(rule_instruction_spec(d.id@, *r)));
        assert(rule_instructions(d.id@, d.rules@.subrange(0, j + 1)) =~= rule_instructions(
            d.id@,
            d.rules@.subrange(0, j as int),
        ).push(rule_instruction_spec(d.id@, *r)));
        assert(batch_view(batch@) =~= head + rule_instructions(d.id@, d.rules@.subrange(0, j + 1)));
        j += 1;
    }
    assert(d.rules@.subrange(0, d.rules@.len() as int) =~= d.rules@);
    assert(batch_view(batch@) =~= start + device_instructions(*d));
}

/// Appends the ruleset of `config` to `batch`: the shared table, the base
/// chain hooked at inbound traffic with an accepting policy, then the
/// instructions of each device in order.
pub fn convert_config_to_nftnl_commands(batch: &mut Vec<Instruction>, config: &FirewallConfig)
    ensures
        batch_view(final(batch)@) == batch_view(old(batch)@) + config_instructions(*config),
{
    push_instruction(batch, MsgType::Add, KernelObject::Table { name: String::from_str(TABLE_NAME) });
    push_instruction(
        batch,
        MsgType::Add,
        KernelObject::Chain {
            name: String::from_str(BASE_CHAIN_NAME),
            inbound_hook: true,
            policy: Policy::Accept,
        },
    );
    let ghost head = batch_view(batch@);
    let devices = config.devices();
    let mut i: usize = 0;
    while i < devices.len()
        invariant
            0 <= i <= devices@.len(),
            devices == &config.devices,
            batch_view(batch@) == head + devices_instructions(devices@.subrange(0, i as int)),
        decreases devices@.len() - i,
    {
        add_device_instructions(batch, &devices[i]);
        proof {
            let s = devices@.subrange(0, i + 1);
            assert(s.drop_last() =~= devices@.subrange(0, i as int));
            assert(head + devices_instructions(s) =~= head + devices_instructions(
                devices@.subrange(0, i as int),
            ) + device_instructions(devices@[i as int]));
        }
        i += 1;
    }
    assert(devices@.subrange(0, devices@.len() as int) =~= devices@);
    assert(batch_view(batch@) =~= batch_view(old(batch)@) + config_instructions(*config));
}

/// The instructions that remove what `prev` created: one deletion for each
/// addition of `prev`, latest first, so that rules go before their chains
/// and chains before their table.
pub open spec fn deletions_for(prev: Seq<InstructionModel>) -> Seq<InstructionModel>
    decreases prev.len(),
{
    if prev.len() == 0 {
        seq![]
    } else {
        let rest = deletions_for(prev.drop_first());
        if prev.first().msg == MsgType::Add {
            rest.push(InstructionModel { msg: MsgType::Del, object: prev.first().object })
        } else {
            rest
        }
    }
}

fn copy_verdict(v: &Verdict) -> (r: Verdict)
    ensures
        r@ == v@,
{
    match v {
        Verdict::Accept => Verdict::Accept,
        Verdict::Drop => Verdict::Drop,
        Verdict::Jump(c) => Verdict::Jump(c.clone()),
    }
}

fn copy_object(o: &KernelObject) -> (r: KernelObject)
    ensures
        r@ == o@,
{
    match o {
        KernelObject::Table { name } => KernelObject::Table { name: name.clone() },
        KernelObject::Chain { name, inbound_hook, policy } => KernelObject::Chain {
            name: name.clone(),
            inbound_hook: *inbound_hook,
            policy: *policy,
        },
        KernelObject::Rule { chain, matches, verdict } => {
            let m = matches.clone();
            assert(m@ =~= matches@);
            KernelObject::Rule { chain: chain.clone(), matches: m, verdict: copy_verdict(verdict) }
        },
    }
}

/// Appends to `batch` the deletions of every object that `previous`, the
/// batch applied last, created.
pub fn add_old_config_deletion_instructions(batch: &mut Vec<Instruction>, previous: &Vec<Instruction>)
    ensures
        batch_view(final(batch)@) == batch_view(old(batch)@) + deletions_for(batch_view(previous@)),
{
    let ghost head = batch_view(batch@);
    let ghost pv = batch_view(previous@);
    let mut k: usize = previous.len();
    assert(pv.subrange(k as int, pv.len() as int) =~= seq![]);
    while k > 0
        invariant
            0 <= k <= previous@.len(),
            pv == batch_view(previous@),
            batch_view(batch@) == head + deletions_for(pv.subrange(k as int, pv.len() as int)),
        decreases k,
    {
        k -= 1;
        let ghost tail = pv.subrange(k as int, pv.len() as int);
        assert(tail.drop_first() =~= pv.subrange(k + 1, pv.len() as int));
        assert(tail.first() == previous@[k as int]@);
        let ins = &previous[k];
        match ins.msg {
            MsgType::Add => {
                push_instruction(batch, MsgType::Del, copy_object(&ins.object));
                assert(batch_view(batch@) =~= head + deletions_for(tail));
            },
            MsgType::Del => {},
        }
    }
    assert(pv.subrange(0, pv.len() as int) =~= pv);
}

/// Builds the batch that replaces the ruleset `previous` by the one of
/// `config`: first the deletions of what `previous` created, then the new
/// ruleset. The batch is meant to be applied as one transaction.
pub fn handle_new_config(previous: &Vec<Instruction>, config: &FirewallConfig) -> (batch: Vec<
    Instruction,
>)
    ensures
        batch_view(batch@) == deletions_for(batch_view(previous@)) + config_instructions(*config),
{
    let mut batch: Vec<Instruction> = Vec::new();
    add_old_config_deletion_instructions(&mut batch, previous);
    convert_config_to_nftnl_commands(&mut batch, config);
    assert(batch_view(Seq::<Instruction>::empty()) =~= seq![]);
    assert(batch_view(batch@) =~= deletions_for(batch_view(previous@)) + config_instructions(*config));
    batch
}

} // verus!
