//! Service groups, the applied state, and the operations that bring one state to another.

use crate::service::{ServiceConfiguration, ServiceModel};
use vstd::prelude::*;

verus! {

/// A service group, as values.
pub struct GroupModel {
    pub name: Seq<char>,
    pub services: Seq<ServiceModel>,
}

/// The replicas of one logical backend: descriptors sharing a name.
#[derive(Debug, Clone, PartialEq, Eq)]
pub struct ServiceGroup {
    pub name: String,
    pub services: Vec<ServiceConfiguration>,
}

/// The values of a sequence of descriptors.
pub open spec fn services_view(v: Seq<ServiceConfiguration>) -> Seq<ServiceModel> {
    v.map_values(|d: ServiceConfiguration| d@)
}

impl View for ServiceGroup {
    type V = GroupModel;

    open spec fn view(&self) -> GroupModel {
        GroupModel { name: self.name@, services: services_view(self.services@) }
    }
}

/// The service topology last written: one group per name.
#[derive(Debug, Clone, PartialEq, Eq)]
pub struct AppliedState {
    pub groups: Vec<ServiceGroup>,
}

/// The values of a sequence of groups.
pub open spec fn groups_view(v: Seq<ServiceGroup>) -> Seq<GroupModel> {
    v.map_values(|g: ServiceGroup| g@)
}

impl View for AppliedState {
    type V = Seq<GroupModel>;

    open spec fn view(&self) -> Seq<GroupModel> {
        groups_view(self.groups@)
    }
}

/// A group has at least one replica, and every replica carries the group's name.
pub open spec fn group_wf(g: GroupModel) -> bool {
    &&& g.services.len() > 0
    &&& forall|i: int| 0 <= i < g.services.len() ==> (#[trigger] g.services[i]).name == g.name
}

/// No two groups share a name.
pub open spec fn names_unique(s: Seq<GroupModel>) -> bool {
    forall|i: int, j: int|
        0 <= i < s.len() && 0 <= j < s.len() && i != j ==> (#[trigger] s[i]).name != (#[trigger] s[j]).name
}

/// A state whose groups are well formed and keyed by name.
pub open spec fn state_wf(s: Seq<GroupModel>) -> bool {
    &&& forall|i: int| 0 <= i < s.len() ==> group_wf(#[trigger] s[i])
    &&& names_unique(s)
}

/// Some group of `s` is named `name`.
pub open spec fn has_name(s: Seq<GroupModel>, name: Seq<char>) -> bool {
    exists|i: int| 0 <= i < s.len() && (#[trigger] s[i]).name == name
}

/// The descriptors of `ds` named `name`, in order.
pub open spec fn members_named(ds: Seq<ServiceModel>, name: Seq<char>) -> Seq<ServiceModel>
    decreases ds.len(),
{
    if ds.len() == 0 {
        Seq::empty()
    } else if ds.last().name == name {
        members_named(ds.drop_last(), name).push(ds.last())
    } else {
        members_named(ds.drop_last(), name)
    }
}

proof fn lemma_members_named_absent(ds: Seq<ServiceModel>, name: Seq<char>)
    requires
        forall|i: int| 0 <= i < ds.len() ==> (#[trigger] ds[i]).name != name,
    ensures
        members_named(ds, name) == Seq::<ServiceModel>::empty(),
    decreases ds.len(),
{
    if ds.len() > 0 {
        lemma_members_named_absent(ds.drop_last(), name);
    }
}

impl ServiceGroup {
    /// A copy with the same name and replicas.
    pub fn duplicate(&self) -> (r: Self)
        ensures
            r@ == self@,
    {
        let mut services: Vec<ServiceConfiguration> = Vec::new();
        let mut i: usize = 0;
        while i < self.services.len()
            invariant
                i <= self.services@.len(),
                services@.len() == i,
                forall|j: int| 0 <= j < i ==> (#[trigger] services@[j])@ == self.services@[j]@,
            decreases self.services.len() - i,
        {
            services.push(self.services[i].duplicate());
            i = i + 1;
        }
        assert(services_view(services@) =~= services_view(self.services@));
        ServiceGroup { name: self.name.clone(), services }
    }
}

/// Finds the group named `name`.
pub fn find_group(groups: &Vec<ServiceGroup>, name: &String) -> (r: Option<usize>)
    ensures
        r matches Some(k) ==> k < groups@.len() && groups@[k as int].name@ == name@,
        r is None ==> !has_name(groups_view(groups@), name@),
{
    let mut k: usize = 0;
    while k < groups.len()
        invariant
            k <= groups@.len(),
            forall|j: int| 0 <= j < k ==> (#[trigger] groups@[j]).name@ != name@,
        decreases groups.len() - k,
    {
        if groups[k].name == *name {
            return Some(k);
        }
        k = k + 1;
    }
    assert forall|j: int| 0 <= j < groups_view(groups@).len() implies (#[trigger] groups_view(
        groups@,
    )[j]).name != name@ by {
        assert(groups@[j].name@ != name@);
    }
    None
}

/// Groups the descriptors by name, one group per name in order of first appearance.
pub fn group_services(services: &Vec<ServiceConfiguration>) -> (r: AppliedState)
    ensures
        state_wf(r@),
        forall|k: int|
            0 <= k < r@.len() ==> (#[trigger] r@[k]).services == members_named(
                services_view(services@),
                r@[k].name,
            ),
        forall|i: int|
            0 <= i < services@.len() ==> has_name(r@, (#[trigger] services@[i])@.name),
{
    let ghost ds = services_view(services@);
    let mut groups: Vec<ServiceGroup> = Vec::new();
    let mut i: usize = 0;
    while i < services.len()
        invariant
            i <= services@.len(),
            ds == services_view(services@),
            state_wf(groups_view(groups@)),
            forall|k: int|
                0 <= k < groups@.len() ==> (#[trigger] groups_view(groups@)[k]).services
                    == members_named(ds.subrange(0, i as int), groups_view(groups@)[k].name),
            forall|j: int| 0 <= j < i ==> has_name(groups_view(groups@), (#[trigger] ds[j]).name),
        decreases services.len() - i,
    {
        let d = &services[i];
        let ghost before = groups_view(groups@);
        let ghost prefix = ds.subrange(0, i as int);
        let ghost next = ds.subrange(0, i + 1);
        assert(next.drop_last() =~= prefix);
        assert(next.last() == d@);
        match find_group(&groups, &d.name) {
            Some(k) => {
                groups[k].services.push(d.duplicate());
                assert(services_view(groups@[k as int].services@) =~= before[k as int].services.push(d@));
                assert(groups_view(groups@) =~= before.update(k as int, GroupModel { name: before[k as int].name, services: before[k as int].services.push(d@) }));
                assert(groups_view(groups@)[k as int].name == d@.name);
            },
            None => {
                proof {
                    assert forall|j: int| 0 <= j < prefix.len() implies (#[trigger] prefix[j]).name != d@.name by {
                        assert(prefix[j] == ds[j]);
                        if prefix[j].name == d@.name {
                            assert(has_name(before, ds[j].name));
                        }
                    }
                    lemma_members_named_absent(prefix, d@.name);
                }
                let mut members: Vec<ServiceConfiguration> = Vec::new();
                members.push(d.duplicate());
                groups.push(ServiceGroup { name: d.name.clone(), services: members });
                assert(services_view(members@) =~= seq![d@]);
                assert(groups_view(groups@) =~= before.push(GroupModel { name: d@.name, services: seq![d@] }));
                assert(groups_view(groups@)[before.len() as int].name == d@.name);
            },
        }
        proof {
            let after = groups_view(groups@);
            assert forall|j: int| 0 <= j < i + 1 implies has_name(after, (#[trigger] ds[j]).name) by {
                if j < i {
                    let w = choose|w: int| 0 <= w < before.len() && (#[trigger] before[w]).name == ds[j].name;
                    assert(after[w].name == ds[j].name);
                } else {
                    assert(ds[j] == d@);
                }
            }
        }
        i = i + 1;
    }
    assert(ds.subrange(0, i as int) =~= ds);
    assert forall|j: int| 0 <= j < services@.len() implies has_name(groups_view(groups@), (#[trigger] services@[j])@.name) by {
        assert(ds[j] == services@[j]@);
    }
    AppliedState { groups }
}

/// Every descriptor of `x` occurs in `y`.
pub open spec fn members_within(x: Seq<ServiceModel>, y: Seq<ServiceModel>) -> bool {
    forall|i: int| 0 <= i < x.len() ==> y.contains(#[trigger] x[i])
}

/// The two replica lists hold the same descriptors, in any order.
pub open spec fn same_members(x: Seq<ServiceModel>, y: Seq<ServiceModel>) -> bool {
    members_within(x, y) && members_within(y, x)
}

/// Some group of `b` has the name and the members of `g`.
pub open spec fn has_match(b: Seq<GroupModel>, g: GroupModel) -> bool {
    exists|j: int| 0 <= j < b.len() && b[j].name == g.name && same_members(g.services, #[trigger] b[j].services)
}

/// Every group of `a` has a group of the same name and members in `b`.
pub open spec fn covers(a: Seq<GroupModel>, b: Seq<GroupModel>) -> bool {
    forall|i: int| 0 <= i < a.len() ==> has_match(b, #[trigger] a[i])
}

/// The two states describe the same services: the same names, each with the
/// same replicas.
pub open spec fn same_state(a: Seq<GroupModel>, b: Seq<GroupModel>) -> bool {
    covers(a, b) && covers(b, a)
}

/// An instruction to the renderer.
#[derive(Debug, Clone, PartialEq, Eq)]
pub enum ServiceOperation {
    /// Drop the service of this name.
    Remove(String),
    /// Install this group, replacing any of the same name.
    Add(ServiceGroup),
}

/// An operation, as values.
pub enum OperationModel {
    Remove(Seq<char>),
    Add(GroupModel),
}

impl View for ServiceOperation {
    type V = OperationModel;

    open spec fn view(&self) -> OperationModel {
        match self {
            ServiceOperation::Remove(name) => OperationModel::Remove(name@),
            ServiceOperation::Add(group) => OperationModel::Add(group@),
        }
    }
}

impl ServiceOperation {
    /// A copy of the operation.
    pub fn duplicate(&self) -> (r: Self)
        ensures
            r@ == self@,
    {
        match self {
            ServiceOperation::Remove(name) => ServiceOperation::Remove(name.clone()),
            ServiceOperation::Add(group) => ServiceOperation::Add(group.duplicate()),
        }
    }
}

/// The values of a sequence of operations.
pub open spec fn operations_view(v: Seq<ServiceOperation>) -> Seq<OperationModel> {
    v.map_values(|o: ServiceOperation| o@)
}

/// A `Remove` for each group of `previous`, in order, whose name `observed` lacks.
pub open spec fn removals(previous: Seq<GroupModel>, observed: Seq<GroupModel>) -> Seq<OperationModel>
    decreases previous.len(),
{
    if previous.len() == 0 {
        Seq::empty()
    } else if has_name(observed, previous.last().name) {
        removals(previous.drop_last(), observed)
    } else {
        removals(previous.drop_last(), observed).push(OperationModel::Remove(previous.last().name))
    }
}

/// An `Add` for each observed group, in order.
pub open spec fn additions(observed: Seq<GroupModel>) -> Seq<OperationModel> {
    observed.map_values(|g: GroupModel| OperationModel::Add(g))
}

/// The operations that take `previous` to `observed`: none when the two
/// describe the same services; else the removals, then an `Add` per observed group.
pub open spec fn spec_reconcile(observed: Seq<GroupModel>, previous: Seq<GroupModel>) -> Seq<
    OperationModel,
> {
    if same_state(observed, previous) {
        Seq::empty()
    } else {
        removals(previous, observed) + additions(observed)
    }
}

/// Compares two descriptors field by field.
pub fn same_service(a: &ServiceConfiguration, b: &ServiceConfiguration) -> (r: bool)
    ensures
        r == (a@ == b@),
{
    let same_path = match (&a.path, &b.path) {
        (Some(x), Some(y)) => *x == *y,
        (None, None) => true,
        _ => false,
    };
    let same_port = match (a.port, b.port) {
        (Some(x), Some(y)) => x == y,
        (None, None) => true,
        _ => false,
    };
    a.id == b.id && a.state == b.state && a.name == b.name && a.host == b.host && same_port
        && same_path
}

/// Whether every descriptor of `x` occurs in `y`.
fn all_members_within(x: &Vec<ServiceConfiguration>, y: &Vec<ServiceConfiguration>) -> (r: bool)
    ensures
        r == members_within(services_view(x@), services_view(y@)),
{
    let ghost xs = services_view(x@);
    let ghost ys = services_view(y@);
    let mut i: usize = 0;
    while i < x.len()
        invariant
            i <= x@.len(),
            xs == services_view(x@),
            ys == services_view(y@),
            forall|k: int| 0 <= k < i ==> ys.contains(#[trigger] xs[k]),
        decreases x.len() - i,
    {
        let mut j: usize = 0;
        let mut found = false;
        while j < y.len()
            invariant
                i < x@.len(),
                j <= y@.len(),
                ys == services_view(y@),
                xs == services_view(x@),
                found ==> ys.contains(xs[i as int]),
                !found ==> forall|k: int| 0 <= k < j ==> ys[k] != xs[i as int],
            decreases y.len() - j,
        {
            if !found && same_service(&x[i], &y[j]) {
                found = true;
                assert(ys[j as int] == xs[i as int]);
            }
            j = j + 1;
        }
        if !found {
            assert(!ys.contains(xs[i as int]));
            return false;
        }
        i = i + 1;
    }
    true
}

/// Whether every group of `a` has a group of the same name and members in `b`.
fn all_covered(a: &Vec<ServiceGroup>, b: &Vec<ServiceGroup>) -> (r: bool)
    ensures
        r == covers(groups_view(a@), groups_view(b@)),
{
    let ghost av = groups_view(a@);
    let ghost bv = groups_view(b@);
    let mut i: usize = 0;
    while i < a.len()
        invariant
            i <= a@.len(),
            av == groups_view(a@),
            bv == groups_view(b@),
            forall|k: int| 0 <= k < i ==> has_match(bv, #[trigger] av[k]),
        decreases a.len() - i,
    {
        let mut j: usize = 0;
        let mut found = false;
        while j < b.len()
            invariant
                i < a@.len(),
                j <= b@.len(),
                av == groups_view(a@),
                bv == groups_view(b@),
                found ==> has_match(bv, av[i as int]),
                !found ==> forall|w: int|
                    0 <= w < j ==> !(bv[w].name == av[i as int].name && same_members(
                        av[i as int].services,
                        #[trigger] bv[w].services,
                    )),
            decreases b.len() - j,
        {
            assert(av[i as int] == a@[i as int]@);
            assert(bv[j as int] == b@[j as int]@);
            if !found && a[i].name == b[j].name && all_members_within(&a[i].services, &b[j].services)
                && all_members_within(&b[j].services, &a[i].services) {
                found = true;
                assert(bv[j as int].name == av[i as int].name);
                assert(same_members(av[i as int].services, bv[j as int].services));
                assert(has_match(bv, av[i as int]));
            }
            j = j + 1;
        }
        if !found {
            assert(!has_match(bv, av[i as int]));
            return false;
        }
        i = i + 1;
    }
    true
}

impl AppliedState {
    /// The state with no services: what holds before anything was written.
    pub fn empty() -> (r: Self)
        ensures
            r@ == Seq::<GroupModel>::empty(),
    {
        AppliedState { groups: Vec::new() }
    }

    /// Whether the groups are well formed and no two share a name.
    pub fn is_well_formed(&self) -> (r: bool)
        ensures
            r == state_wf(self@),
    {
        let ghost sv = self@;
        let mut i: usize = 0;
        while i < self.groups.len()
            invariant
                i <= self.groups@.len(),
                sv == self@,
                forall|k: int| 0 <= k < i ==> group_wf(#[trigger] sv[k]),
                forall|a: int, b: int| 0 <= a < i && 0 <= b < i && a != b ==> (#[trigger] sv[a]).name != (#[trigger] sv[b]).name,
            decreases self.groups.len() - i,
        {
            let g = &self.groups[i];
            assert(sv[i as int] == g@);
            if g.services.len() == 0 {
                return false;
            }
            let mut j: usize = 0;
            while j < g.services.len()
                invariant
                    j <= g.services@.len(),
                    i < sv.len(),
                    sv == self@,
                    sv[i as int] == g@,
                    forall|k: int| 0 <= k < j ==> (#[trigger] g@.services[k]).name == g@.name,
                decreases g.services.len() - j,
            {
                assert(g@.services[j as int] == g.services@[j as int]@);
                if g.services[j].name != g.name {
                    assert(!group_wf(sv[i as int]));
                    return false;
                }
                j = j + 1;
            }
            let mut k: usize = 0;
            while k < i
                invariant
                    k <= i < sv.len(),
                    sv == self@,
                    sv[i as int] == g@,
                    forall|b: int| 0 <= b < k ==> (#[trigger] sv[b]).name != g@.name,
                decreases i - k,
            {
                assert(sv[k as int] == self.groups@[k as int]@);
                if self.groups[k].name == g.name {
                    return false;
                }
                k = k + 1;
            }
            i = i + 1;
        }
        true
    }

    /// Whether the two states describe the same services.
    pub fn same_as(&self, other: &AppliedState) -> (r: bool)
        ensures
            r == same_state(self@, other@),
    {
        all_covered(&self.groups, &other.groups) && all_covered(&other.groups, &self.groups)
    }
}

/// The operations that take `previous` to `observed`: none when both describe
/// the same services; else a `Remove` for each previous name no longer
/// observed, then an `Add` carrying the full replica list of each observed group.
pub fn reconcile(observed: &AppliedState, previous: &AppliedState) -> (r: Vec<ServiceOperation>)
    ensures
        operations_view(r@) == spec_reconcile(observed@, previous@),
{
    let mut ops: Vec<ServiceOperation> = Vec::new();
    if observed.same_as(previous) {
        assert(operations_view(ops@) =~= Seq::<OperationModel>::empty());
        return ops;
    }
    let ghost pv = previous@;
    let ghost ov = observed@;
    let mut i: usize = 0;
    while i < previous.groups.len()
        invariant
            i <= previous.groups@.len(),
            pv == previous@,
            ov == observed@,
            operations_view(ops@) == removals(pv.subrange(0, i as int), ov),
        decreases previous.groups.len() - i,
    {
        let ghost before = ops@;
        assert(pv.subrange(0, i + 1).drop_last() =~= pv.subrange(0, i as int));
        match find_group(&observed.groups, &previous.groups[i].name) {
            Some(k) => {
                assert(ov[k as int].name == pv[i as int].name);
            },
            None => {
                ops.push(ServiceOperation::Remove(previous.groups[i].name.clone()));
                assert(operations_view(ops@) =~= operations_view(before).push(
                    OperationModel::Remove(pv[i as int].name),
                ));
            },
        }
        i = i + 1;
    }
    assert(pv.subrange(0, i as int) =~= pv);
    let ghost removed = ops@;
    let mut j: usize = 0;
    while j < observed.groups.len()
        invariant
            j <= observed.groups@.len(),
            ov == observed@,
            operations_view(ops@) == removals(pv, ov) + additions(ov.subrange(0, j as int)),
        decreases observed.groups.len() - j,
    {
        let ghost before = ops@;
        ops.push(ServiceOperation::Add(observed.groups[j].duplicate()));
        assert(additions(ov.subrange(0, j + 1)) =~= additions(ov.subrange(0, j as int)).push(
            OperationModel::Add(ov[j as int]),
        ));
        assert(operations_view(ops@) =~= operations_view(before).push(
            OperationModel::Add(ov[j as int]),
        ));
        j = j + 1;
    }
    assert(ov.subrange(0, j as int) =~= ov);
    ops
}

/// `s` without its groups named `name`.
pub open spec fn without_name(s: Seq<GroupModel>, name: Seq<char>) -> Seq<GroupModel>
    decreases s.len(),
{
    if s.len() == 0 {
        s
    } else if s.last().name == name {
        without_name(s.drop_last(), name)
    } else {
        without_name(s.drop_last(), name).push(s.last())
    }
}

/// The state after one operation: `Remove` drops the name; `Add` drops it and
/// appends the new group.
pub open spec fn apply_one(s: Seq<GroupModel>, op: OperationModel) -> Seq<GroupModel> {
    match op {
        OperationModel::Remove(name) => without_name(s, name),
        OperationModel::Add(g) => without_name(s, g.name).push(g),
    }
}

/// The state after the operations, applied in order.
pub open spec fn spec_apply(s: Seq<GroupModel>, ops: Seq<OperationModel>) -> Seq<GroupModel>
    decreases ops.len(),
{
    if ops.len() == 0 {
        s
    } else {
        apply_one(spec_apply(s, ops.drop_last()), ops.last())
    }
}

/// The groups of `groups` not named `name`.
fn groups_without(groups: &Vec<ServiceGroup>, name: &String) -> (r: Vec<ServiceGroup>)
    ensures
        groups_view(r@) == without_name(groups_view(groups@), name@),
{
    let ghost gv = groups_view(groups@);
    let mut kept: Vec<ServiceGroup> = Vec::new();
    let mut i: usize = 0;
    while i < groups.len()
        invariant
            i <= groups@.len(),
            gv == groups_view(groups@),
            groups_view(kept@) == without_name(gv.subrange(0, i as int), name@),
        decreases groups.len() - i,
    {
        let ghost before = kept@;
        assert(gv.subrange(0, i + 1).drop_last() =~= gv.subrange(0, i as int));
        assert(gv[i as int] == groups@[i as int]@);
        if groups[i].name != *name {
            kept.push(groups[i].duplicate());
            assert(groups_view(kept@) =~= groups_view(before).push(gv[i as int]));
        }
        i = i + 1;
    }
    assert(gv.subrange(0, i as int) =~= gv);
    kept
}

/// Applies the operations, in order, to the state.
pub fn apply_operations(state: &mut AppliedState, operations: Vec<ServiceOperation>)
    ensures
        final(state)@ == spec_apply(old(state)@, operations_view(operations@)),
{
    let ghost start = state@;
    let ghost ov = operations_view(operations@);
    let mut i: usize = 0;
    while i < operations.len()
        invariant
            i <= operations@.len(),
            ov == operations_view(operations@),
            state@ == spec_apply(start, ov.subrange(0, i as int)),
        decreases operations.len() - i,
    {
        assert(ov.subrange(0, i + 1).drop_last() =~= ov.subrange(0, i as int));
        assert(ov[i as int] == operations@[i as int]@);
        let ghost before = state@;
        match &operations[i] {
            ServiceOperation::Remove(name) => {
                state.groups = groups_without(&state.groups, name);
            },
            ServiceOperation::Add(group) => {
                let mut groups = groups_without(&state.groups, &group.name);
                groups.push(group.duplicate());
                state.groups = groups;
                assert(state@ =~= without_name(before, group@.name).push(group@));
            },
        }
        i = i + 1;
    }
    assert(ov.subrange(0, i as int) =~= ov);
}

/// A state describes the same services as itself.
pub proof fn lemma_same_state_reflexive(s: Seq<GroupModel>)
    ensures
        same_state(s, s),
{
    assert forall|i: int| 0 <= i < s.len() implies has_match(s, #[trigger] s[i]) by {
        let m = s[i].services;
        assert forall|k: int| 0 <= k < m.len() implies m.contains(#[trigger] m[k]) by {}
        assert(same_members(m, s[i].services));
    }
}

/// Reconciling a state against itself yields no operation.
pub proof fn lemma_reconcile_unchanged(s: Seq<GroupModel>)
    ensures
        spec_reconcile(s, s) == Seq::<OperationModel>::empty(),
{
    lemma_same_state_reflexive(s);
}

proof fn lemma_removals_shape(previous: Seq<GroupModel>, observed: Seq<GroupModel>)
    ensures
        forall|k: int|
            0 <= k < removals(previous, observed).len() ==> (#[trigger] removals(
                previous,
                observed,
            )[k]) is Remove && has_name(previous, removals(previous, observed)[k]->Remove_0),
    decreases previous.len(),
{
    if previous.len() > 0 {
        let rest = previous.drop_last();
        lemma_removals_shape(rest, observed);
        let r = removals(previous, observed);
        assert forall|k: int| 0 <= k < r.len() implies (#[trigger] r[k]) is Remove && has_name(
            previous,
            r[k]->Remove_0,
        ) by {
            if k < removals(rest, observed).len() {
                assert(r[k] == removals(rest, observed)[k]);
                let w = choose|w: int| 0 <= w < rest.len() && (#[trigger] rest[w]).name == r[k]->Remove_0;
                assert(previous[w] == rest[w]);
            } else {
                assert(previous[previous.len() - 1].name == r[k]->Remove_0);
            }
        }
    }
}

proof fn lemma_removals_once(previous: Seq<GroupModel>, observed: Seq<GroupModel>, name: Seq<char>)
    requires
        names_unique(previous),
        has_name(previous, name),
        !has_name(observed, name),
    ensures
        exists|k: int|
            0 <= k < removals(previous, observed).len() && removals(previous, observed)[k]
                == OperationModel::Remove(name) && forall|j: int|
                0 <= j < removals(previous, observed).len() && #[trigger] removals(
                    previous,
                    observed,
                )[j] == OperationModel::Remove(name) ==> j == k,
    decreases previous.len(),
{
    let rest = previous.drop_last();
    let r = removals(previous, observed);
    let rr = removals(rest, observed);
    assert forall|i: int, j: int|
        0 <= i < rest.len() && 0 <= j < rest.len() && i != j implies (#[trigger] rest[i]).name != (
        #[trigger] rest[j]).name by {
        assert(rest[i] == previous[i] && rest[j] == previous[j]);
    }
    if previous.last().name == name {
        lemma_removals_shape(rest, observed);
        assert(!has_name(rest, name)) by {
            if has_name(rest, name) {
                let w = choose|w: int| 0 <= w < rest.len() && (#[trigger] rest[w]).name == name;
                assert(previous[w].name == previous[previous.len() - 1].name);
            }
        }
        assert(r == rr.push(OperationModel::Remove(name)));
        assert forall|j: int|
            0 <= j < r.len() && #[trigger] r[j] == OperationModel::Remove(name) implies j == rr.len() by {
            if j < rr.len() {
                assert(rr[j] == r[j]);
            }
        }
        assert(r[rr.len() as int] == OperationModel::Remove(name));
    } else {
        let w = choose|w: int| 0 <= w < previous.len() && (#[trigger] previous[w]).name == name;
        assert(rest[w].name == name);
        lemma_removals_once(rest, observed, name);
        let k = choose|k: int|
            0 <= k < rr.len() && rr[k] == OperationModel::Remove(name) && forall|j: int|
                0 <= j < rr.len() && #[trigger] rr[j] == OperationModel::Remove(name) ==> j == k;
        assert(r[k] == rr[k]);
        assert forall|j: int|
            0 <= j < r.len() && #[trigger] r[j] == OperationModel::Remove(name) implies j == k by {
            if j < rr.len() {
                assert(rr[j] == r[j]);
            }
        }
    }
}

/// When a name of the previous state is observed no more, the operations hold
/// exactly one `Remove` for it, and it comes before every `Add`.
pub proof fn lemma_disappeared_name_removed_once(
    observed: Seq<GroupModel>,
    previous: Seq<GroupModel>,
    name: Seq<char>,
)
    requires
        state_wf(previous),
        has_name(previous, name),
        !has_name(observed, name),
    ensures
        exists|k: int|
            0 <= k < spec_reconcile(observed, previous).len() && spec_reconcile(observed, previous)[k]
                == OperationModel::Remove(name) && (forall|j: int|
                0 <= j < spec_reconcile(observed, previous).len() && #[trigger] spec_reconcile(
                    observed,
                    previous,
                )[j] == OperationModel::Remove(name) ==> j == k) && (forall|j: int|
                0 <= j < spec_reconcile(observed, previous).len() && (#[trigger] spec_reconcile(
                    observed,
                    previous,
                )[j]) is Add ==> k < j),
{
    let w = choose|w: int| 0 <= w < previous.len() && (#[trigger] previous[w]).name == name;
    assert(!has_match(observed, previous[w]));
    assert(!same_state(observed, previous));
    let r = removals(previous, observed);
    let a = additions(observed);
    let ops = spec_reconcile(observed, previous);
    assert(ops == r + a);
    lemma_removals_shape(previous, observed);
    lemma_removals_once(previous, observed, name);
    let k = choose|k: int|
        0 <= k < r.len() && r[k] == OperationModel::Remove(name) && forall|j: int|
            0 <= j < r.len() && #[trigger] r[j] == OperationModel::Remove(name) ==> j == k;
    assert(ops[k] == r[k]);
    assert forall|j: int| 0 <= j < ops.len() && #[trigger] ops[j] == OperationModel::Remove(name) implies j == k by {
        if j < r.len() {
            assert(r[j] == ops[j]);
        } else {
            assert(ops[j] == a[j - r.len()]);
        }
    }
    assert forall|j: int| 0 <= j < ops.len() && (#[trigger] ops[j]) is Add implies k < j by {
        if j < r.len() {
            assert(r[j] == ops[j]);
        }
    }
}

proof fn lemma_without_name_members(s: Seq<GroupModel>, name: Seq<char>)
    ensures
        forall|g: GroupModel| #[trigger]
            without_name(s, name).contains(g) <==> s.contains(g) && g.name != name,
    decreases s.len(),
{
    if s.len() > 0 {
        let rest = s.drop_last();
        let r = without_name(rest, name);
        let ws = without_name(s, name);
        lemma_without_name_members(rest, name);
        assert forall|g: GroupModel| #[trigger] ws.contains(g) implies s.contains(g) && g.name != name by {
            let w = choose|w: int| 0 <= w < ws.len() && ws[w] == g;
            if w < r.len() {
                assert(r[w] == g);
                assert(r.contains(g));
                let v = choose|v: int| 0 <= v < rest.len() && rest[v] == g;
                assert(s[v] == g);
            } else {
                assert(s.last().name != name);
                assert(g == s.last());
                assert(s[s.len() - 1] == g);
            }
        }
        assert forall|g: GroupModel| s.contains(g) && g.name != name implies #[trigger] ws.contains(g) by {
            let w = choose|w: int| 0 <= w < s.len() && s[w] == g;
            if w < rest.len() {
                assert(rest[w] == g);
                assert(rest.contains(g));
                assert(r.contains(g));
                let v = choose|v: int| 0 <= v < r.len() && r[v] == g;
                if s.last().name != name {
                    assert(ws[v] == g);
                }
            } else {
                assert(ws.last() == g);
                assert(ws[ws.len() - 1] == g);
            }
        }
    }
}

proof fn lemma_without_name_wf(s: Seq<GroupModel>, name: Seq<char>)
    requires
        state_wf(s),
    ensures
        state_wf(without_name(s, name)),
    decreases s.len(),
{
    if s.len() > 0 {
        let rest = s.drop_last();
        assert(state_wf(rest)) by {
            assert forall|i: int| 0 <= i < rest.len() implies group_wf(#[trigger] rest[i]) by {
                assert(rest[i] == s[i]);
            }
            assert forall|i: int, j: int|
                0 <= i < rest.len() && 0 <= j < rest.len() && i != j implies (#[trigger] rest[i]).name
                != (#[trigger] rest[j]).name by {
                assert(rest[i] == s[i] && rest[j] == s[j]);
            }
        }
        lemma_without_name_wf(rest, name);
        lemma_without_name_members(rest, name);
        let r = without_name(rest, name);
        let g = s.last();
        if g.name != name {
            let w = r.push(g);
            assert(w == without_name(s, name));
            assert(group_wf(g)) by {
                assert(group_wf(s[s.len() - 1]));
            }
            assert forall|i: int| 0 <= i < r.len() implies (#[trigger] r[i]).name != g.name by {
                assert(r.contains(r[i]));
                assert(rest.contains(r[i]));
                let v = choose|v: int| 0 <= v < rest.len() && rest[v] == r[i];
                assert(s[v] == r[i]);
                assert(s[v].name != s[s.len() - 1].name);
            }
            assert forall|i: int| 0 <= i < w.len() implies group_wf(#[trigger] w[i]) by {
                if i < r.len() {
                    assert(w[i] == r[i]);
                }
            }
            assert forall|i: int, j: int|
                0 <= i < w.len() && 0 <= j < w.len() && i != j implies (#[trigger] w[i]).name
                != (#[trigger] w[j]).name by {
                if i < r.len() && j < r.len() {
                    assert(w[i] == r[i] && w[j] == r[j]);
                } else if i < r.len() {
                    assert(w[i] == r[i]);
                } else {
                    assert(w[j] == r[j]);
                }
            }
        }
    }
}

/// Every `Add` of the operations carries a well-formed group.
pub open spec fn adds_wf(ops: Seq<OperationModel>) -> bool {
    forall|k: int| 0 <= k < ops.len() ==> ((#[trigger] ops[k]) matches OperationModel::Add(g) ==> group_wf(g))
}

/// Operations whose groups are well formed keep a state well formed.
pub proof fn lemma_apply_wf(s: Seq<GroupModel>, ops: Seq<OperationModel>)
    requires
        state_wf(s),
        adds_wf(ops),
    ensures
        state_wf(spec_apply(s, ops)),
    decreases ops.len(),
{
    if ops.len() > 0 {
        let rest = ops.drop_last();
        assert(adds_wf(rest)) by {
            assert forall|k: int| 0 <= k < rest.len() implies ((#[trigger] rest[k]) matches OperationModel::Add(g) ==> group_wf(g)) by {
                assert(rest[k] == ops[k]);
            }
        }
        lemma_apply_wf(s, rest);
        let t = spec_apply(s, rest);
        match ops.last() {
            OperationModel::Remove(name) => {
                lemma_without_name_wf(t, name);
            },
            OperationModel::Add(g) => {
                lemma_without_name_wf(t, g.name);
                lemma_without_name_members(t, g.name);
                let r = without_name(t, g.name);
                let w = r.push(g);
                assert(group_wf(g)) by {
                    assert(ops[ops.len() - 1] == ops.last());
                }
                assert forall|i: int| 0 <= i < r.len() implies (#[trigger] r[i]).name != g.name by {
                    assert(r.contains(r[i]));
                }
                assert forall|i: int| 0 <= i < w.len() implies group_wf(#[trigger] w[i]) by {
                    if i < r.len() {
                        assert(w[i] == r[i]);
                    }
                }
                assert forall|i: int, j: int|
                    0 <= i < w.len() && 0 <= j < w.len() && i != j implies (#[trigger] w[i]).name
                    != (#[trigger] w[j]).name by {
                    if i < r.len() && j < r.len() {
                        assert(w[i] == r[i] && w[j] == r[j]);
                    } else if i < r.len() {
                        assert(w[i] == r[i]);
                    } else {
                        assert(w[j] == r[j]);
                    }
                }
            },
        }
    }
}

/// The operations that reconciliation yields between well-formed states add
/// only well-formed groups.
pub proof fn lemma_reconcile_adds_wf(observed: Seq<GroupModel>, previous: Seq<GroupModel>)
    requires
        state_wf(observed),
    ensures
        adds_wf(spec_reconcile(observed, previous)),
{
    let ops = spec_reconcile(observed, previous);
    if !same_state(observed, previous) {
        let r = removals(previous, observed);
        lemma_removals_shape(previous, observed);
        assert forall|k: int| 0 <= k < ops.len() implies ((#[trigger] ops[k]) matches OperationModel::Add(g) ==> group_wf(g)) by {
            if k < r.len() {
                assert(ops[k] == r[k]);
            } else {
                assert(ops[k] == additions(observed)[k - r.len()]);
            }
        }
    }
}

proof fn lemma_apply_push(s: Seq<GroupModel>, ops: Seq<OperationModel>, op: OperationModel)
    ensures
        spec_apply(s, ops.push(op)) == apply_one(spec_apply(s, ops), op),
{
    assert(ops.push(op).drop_last() =~= ops);
}

proof fn lemma_apply_append(s: Seq<GroupModel>, x: Seq<OperationModel>, y: Seq<OperationModel>)
    ensures
        spec_apply(s, x + y) == spec_apply(spec_apply(s, x), y),
    decreases y.len(),
{
    if y.len() == 0 {
        assert(x + y =~= x);
    } else {
        lemma_apply_append(s, x, y.drop_last());
        assert((x + y).drop_last() =~= x + y.drop_last());
        assert((x + y).last() == y.last());
    }
}

proof fn lemma_apply_removes(s: Seq<GroupModel>, ops: Seq<OperationModel>)
    requires
        forall|k: int| 0 <= k < ops.len() ==> (#[trigger] ops[k]) is Remove,
    ensures
        forall|g: GroupModel| #[trigger]
            spec_apply(s, ops).contains(g) ==> s.contains(g) && forall|k: int|
                0 <= k < ops.len() ==> g.name != (#[trigger] ops[k])->Remove_0,
    decreases ops.len(),
{
    if ops.len() > 0 {
        let rest = ops.drop_last();
        lemma_apply_removes(s, rest);
        let t = spec_apply(s, rest);
        lemma_without_name_members(t, ops.last()->Remove_0);
        assert forall|g: GroupModel| #[trigger] spec_apply(s, ops).contains(g) implies s.contains(g)
            && forall|k: int| 0 <= k < ops.len() ==> g.name != (#[trigger] ops[k])->Remove_0 by {
            assert(t.contains(g));
            assert forall|k: int| 0 <= k < ops.len() implies g.name != (#[trigger] ops[k])->Remove_0 by {
                if k < rest.len() {
                    assert(rest[k] == ops[k]);
                }
            }
        }
    }
}

proof fn lemma_apply_adds(t: Seq<GroupModel>, obs: Seq<GroupModel>, m: int)
    requires
        names_unique(obs),
        0 <= m <= obs.len(),
    ensures
        forall|g: GroupModel| #[trigger]
            spec_apply(t, additions(obs.take(m))).contains(g) ==> (t.contains(g) && forall|j: int|
                0 <= j < m ==> g.name != (#[trigger] obs[j]).name) || exists|j: int| 0 <= j < m && g == obs[j],
        forall|j: int| 0 <= j < m ==> spec_apply(t, additions(obs.take(m))).contains(#[trigger] obs[j]),
    decreases m,
{
    if m > 0 {
        lemma_apply_adds(t, obs, m - 1);
        let prev = additions(obs.take(m - 1));
        assert(additions(obs.take(m)) =~= prev.push(OperationModel::Add(obs[m - 1])));
        lemma_apply_push(t, prev, OperationModel::Add(obs[m - 1]));
        let u0 = spec_apply(t, prev);
        let n = obs[m - 1].name;
        lemma_without_name_members(u0, n);
        let w = without_name(u0, n);
        let u = spec_apply(t, additions(obs.take(m)));
        assert(u == w.push(obs[m - 1]));
        assert forall|g: GroupModel| #[trigger] u.contains(g) implies (t.contains(g) && forall|j: int|
            0 <= j < m ==> g.name != (#[trigger] obs[j]).name) || exists|j: int| 0 <= j < m && g == obs[j] by {
            let k = choose|k: int| 0 <= k < u.len() && u[k] == g;
            if k == w.len() {
                assert(g == obs[m - 1]);
            } else {
                assert(w[k] == g);
                assert(w.contains(g));
                assert(u0.contains(g) && g.name != n);
            }
        }
        assert forall|j: int| 0 <= j < m implies u.contains(#[trigger] obs[j]) by {
            if j == m - 1 {
                assert(u[w.len() as int] == obs[j]);
            } else {
                assert(u0.contains(obs[j]));
                assert(obs[j].name != n);
                assert(w.contains(obs[j]));
                let k = choose|k: int| 0 <= k < w.len() && w[k] == obs[j];
                assert(u[k] == obs[j]);
            }
        }
    }
}

proof fn lemma_same_members_reflexive(x: Seq<ServiceModel>)
    ensures
        same_members(x, x),
{
    assert forall|k: int| 0 <= k < x.len() implies x.contains(#[trigger] x[k]) by {}
}

/// Applying to the previous state the operations that reconciliation yields
/// gives a state that describes the observed services.
pub proof fn lemma_apply_reconcile(observed: Seq<GroupModel>, previous: Seq<GroupModel>)
    requires
        state_wf(observed),
        state_wf(previous),
    ensures
        same_state(spec_apply(previous, spec_reconcile(observed, previous)), observed),
{
    if same_state(observed, previous) {
        assert(spec_reconcile(observed, previous) =~= Seq::<OperationModel>::empty());
    } else {
        let r = removals(previous, observed);
        let a = additions(observed);
        lemma_apply_append(previous, r, a);
        lemma_removals_shape(previous, observed);
        lemma_apply_removes(previous, r);
        let t = spec_apply(previous, r);
        assert forall|g: GroupModel| #[trigger] t.contains(g) implies has_name(observed, g.name) by {
            if !has_name(observed, g.name) {
                let w = choose|w: int| 0 <= w < previous.len() && previous[w] == g;
                assert(has_name(previous, g.name));
                lemma_removals_once(previous, observed, g.name);
                let k = choose|k: int| 0 <= k < r.len() && r[k] == OperationModel::Remove(g.name) && forall|j: int|
                    0 <= j < r.len() && #[trigger] r[j] == OperationModel::Remove(g.name) ==> j == k;
                assert(g.name != r[k]->Remove_0);
            }
        }
        lemma_apply_adds(t, observed, observed.len() as int);
        assert(observed.take(observed.len() as int) =~= observed);
        let u = spec_apply(t, a);
        assert forall|i: int| 0 <= i < u.len() implies has_match(observed, #[trigger] u[i]) by {
            let g = u[i];
            assert(u.contains(g));
            if t.contains(g) && forall|j: int| 0 <= j < observed.len() ==> g.name != (#[trigger] observed[j]).name {
                assert(has_name(observed, g.name));
                let j = choose|j: int| 0 <= j < observed.len() && (#[trigger] observed[j]).name == g.name;
                assert(false);
            }
            let j = choose|j: int| 0 <= j < observed.len() && g == observed[j];
            lemma_same_members_reflexive(g.services);
        }
        assert forall|i: int| 0 <= i < observed.len() implies has_match(u, #[trigger] observed[i]) by {
            assert(u.contains(observed[i]));
            let k = choose|k: int| 0 <= k < u.len() && u[k] == observed[i];
            lemma_same_members_reflexive(observed[i].services);
        }
    }
}

} // verus!
