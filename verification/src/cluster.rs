//! Horizontal scaling: which node owns which instrument, and how a category of
//! instruments moves from one replication group to another.

use std::collections::HashMap;

use vstd::prelude::*;

use crate::types::InstrumentId;

verus! {

broadcast use vstd::std_specs::hash::group_hash_axioms;

/// A static instrument to node routing table. Pins take precedence over ranges,
/// and those over the remainder of the instrument's number.
#[derive(Debug)]
pub struct ClusterMap {
    nodes: Vec<String>,
    pinned: Vec<(InstrumentId, usize)>,
    ranges: Vec<(InstrumentId, InstrumentId, usize)>,
}

/// The first pin of an instrument.
pub open spec fn pin_of(pins: Seq<(InstrumentId, usize)>, instrument: InstrumentId) -> Option<usize>
    decreases pins.len(),
{
    if pins.len() == 0 {
        None
    } else if pins[0].0 == instrument {
        Some(pins[0].1)
    } else {
        pin_of(pins.skip(1), instrument)
    }
}

/// The first range that holds an instrument.
pub open spec fn range_of(
    ranges: Seq<(InstrumentId, InstrumentId, usize)>,
    instrument: InstrumentId,
) -> Option<usize>
    decreases ranges.len(),
{
    if ranges.len() == 0 {
        None
    } else if ranges[0].0.0 <= instrument.0 <= ranges[0].1.0 {
        Some(ranges[0].2)
    } else {
        range_of(ranges.skip(1), instrument)
    }
}

/// Two ranges share an instrument.
pub open spec fn overlap(
    a: (InstrumentId, InstrumentId, usize),
    b: (InstrumentId, InstrumentId, usize),
) -> bool {
    a.0.0 <= b.1.0 && b.0.0 <= a.1.0
}

impl ClusterMap {
    /// Addresses of the nodes.
    pub closed spec fn addresses(self) -> Seq<String> {
        self.nodes@
    }

    /// The pins, in order.
    pub closed spec fn pins(self) -> Seq<(InstrumentId, usize)> {
        self.pinned@
    }

    /// The ranges, in order.
    pub closed spec fn spans(self) -> Seq<(InstrumentId, InstrumentId, usize)> {
        self.ranges@
    }

    /// The map's invariant: there are nodes, every assignment is to one of them,
    /// and no two ranges overlap.
    pub closed spec fn wf(self) -> bool {
        &&& self.nodes@.len() > 0
        &&& forall|i: int|
            0 <= i < self.pinned@.len() ==> (#[trigger] self.pinned@[i]).1 < self.nodes@.len()
        &&& forall|i: int|
            0 <= i < self.ranges@.len() ==> (#[trigger] self.ranges@[i]).2 < self.nodes@.len()
        &&& forall|i: int, j: int|
            0 <= i < j < self.ranges@.len() ==> !overlap(
                #[trigger] self.ranges@[i],
                #[trigger] self.ranges@[j],
            )
    }

    /// The node that owns an instrument.
    pub open spec fn owner(self, instrument: InstrumentId) -> int {
        match pin_of(self.pins(), instrument) {
            Some(node) => node as int,
            None => match range_of(self.spans(), instrument) {
                Some(node) => node as int,
                None => (instrument.0 as int) % (self.addresses().len() as int),
            },
        }
    }

    /// A cluster of `nodes` without assignments.
    pub fn new(nodes: Vec<String>) -> (r: ClusterMap)
        requires
            nodes@.len() > 0,
        ensures
            r.wf(),
            r.addresses() == nodes@,
            r.pins() == Seq::<(InstrumentId, usize)>::empty(),
            r.spans() == Seq::<(InstrumentId, InstrumentId, usize)>::empty(),
    {
        ClusterMap { nodes, pinned: Vec::new(), ranges: Vec::new() }
    }

    /// Pins an instrument to a node.
    pub fn pin(self, instrument: InstrumentId, node: usize) -> (r: ClusterMap)
        requires
            self.wf(),
            node < self.addresses().len(),
        ensures
            r.wf(),
            r.addresses() == self.addresses(),
            r.pins() == self.pins().push((instrument, node)),
            r.spans() == self.spans(),
    {
        let mut out = self;
        out.pinned.push((instrument, node));
        out
    }

    /// Assigns an inclusive range of instruments, which no other range may
    /// overlap, to a node.
    pub fn pin_range(self, start: InstrumentId, end: InstrumentId, node: usize) -> (r: ClusterMap)
        requires
            self.wf(),
            start.0 <= end.0,
            node < self.addresses().len(),
            forall|i: int|
                0 <= i < self.spans().len() ==> !overlap(
                    #[trigger] self.spans()[i],
                    (start, end, node),
                ),
        ensures
            r.wf(),
            r.addresses() == self.addresses(),
            r.pins() == self.pins(),
            r.spans() == self.spans().push((start, end, node)),
    {
        let mut out = self;
        out.ranges.push((start, end, node));
        assert forall|i: int, j: int| 0 <= i < j < out.ranges@.len() implies !overlap(
            #[trigger] out.ranges@[i],
            #[trigger] out.ranges@[j],
        ) by {
            assert(!overlap(self.spans()[i], (start, end, node)));
        }
        out
    }

    /// Whether a range can be assigned: it is not reversed, the node exists, and
    /// no other range overlaps it.
    pub fn accepts_range(&self, start: InstrumentId, end: InstrumentId, node: usize) -> (r: bool)
        ensures
            r == (start.0 <= end.0 && node < self.addresses().len() && forall|i: int|
                0 <= i < self.spans().len() ==> !overlap(
                    #[trigger] self.spans()[i],
                    (start, end, node),
                )),
    {
        if start.0 > end.0 || node >= self.nodes.len() {
            return false;
        }
        let mut i: usize = 0;
        while i < self.ranges.len()
            invariant
                i <= self.ranges@.len(),
                forall|j: int|
                    0 <= j < i ==> !overlap(#[trigger] self.ranges@[j], (start, end, node)),
            decreases self.ranges@.len() - i,
        {
            let (lo, hi, _) = self.ranges[i];
            if start.0 <= hi.0 && lo.0 <= end.0 {
                assert(overlap(self.spans()[i as int], (start, end, node)));
                return false;
            }
            i += 1;
        }
        true
    }

    /// Number of nodes.
    pub fn len(&self) -> (r: usize)
        ensures
            r == self.addresses().len(),
    {
        self.nodes.len()
    }

    /// Whether there are no nodes: never.
    pub fn is_empty(&self) -> (r: bool)
        requires
            self.wf(),
        ensures
            !r,
    {
        self.nodes.len() == 0
    }

    /// The node that owns an instrument.
    pub fn node_for(&self, instrument: InstrumentId) -> (r: usize)
        requires
            self.wf(),
        ensures
            r == self.owner(instrument),
            r < self.addresses().len(),
    {
        let mut i: usize = 0;
        assert(self.pinned@.skip(0) =~= self.pinned@);
        while i < self.pinned.len()
            invariant
                self.wf(),
                i <= self.pinned@.len(),
                pin_of(self.pinned@.skip(i as int), instrument) == pin_of(self.pinned@, instrument),
            decreases self.pinned@.len() - i,
        {
            assert(self.pinned@.skip(i as int).skip(1) =~= self.pinned@.skip(i + 1));
            if self.pinned[i].0 == instrument {
                return self.pinned[i].1;
            }
            i += 1;
        }
        let mut j: usize = 0;
        assert(self.ranges@.skip(0) =~= self.ranges@);
        while j < self.ranges.len()
            invariant
                self.wf(),
                j <= self.ranges@.len(),
                pin_of(self.pinned@, instrument) is None,
                range_of(self.ranges@.skip(j as int), instrument) == range_of(
                    self.ranges@,
                    instrument,
                ),
            decreases self.ranges@.len() - j,
        {
            assert(self.ranges@.skip(j as int).skip(1) =~= self.ranges@.skip(j + 1));
            let (start, end, node) = self.ranges[j];
            if start.0 <= instrument.0 && instrument.0 <= end.0 {
                return node;
            }
            j += 1;
        }
        instrument.0 as usize % self.nodes.len()
    }

    /// The address of the node that owns an instrument.
    pub fn addr_for(&self, instrument: InstrumentId) -> (r: &str)
        requires
            self.wf(),
        ensures
            r@ == self.addresses()[self.owner(instrument)]@,
    {
        let node: usize = self.node_for(instrument);
        self.nodes[node].as_str()
    }

    /// All addresses.
    pub fn addrs(&self) -> (r: &Vec<String>)
        ensures
            r@ == self.addresses(),
    {
        &self.nodes
    }
}

proof fn lemma_range_of(
    ranges: Seq<(InstrumentId, InstrumentId, usize)>,
    instrument: InstrumentId,
    i: int,
)
    requires
        0 <= i < ranges.len(),
        ranges[i].0.0 <= instrument.0 <= ranges[i].1.0,
        forall|a: int, b: int|
            0 <= a < b < ranges.len() ==> !overlap(#[trigger] ranges[a], #[trigger] ranges[b]),
    ensures
        range_of(ranges, instrument) == Some(ranges[i].2),
    decreases ranges.len(),
{
    if i > 0 {
        assert(!overlap(ranges[0], ranges[i]));
        let rest = ranges.skip(1);
        assert forall|a: int, b: int| 0 <= a < b < rest.len() implies !overlap(
            #[trigger] rest[a],
            #[trigger] rest[b],
        ) by {
            assert(!overlap(ranges[a + 1], ranges[b + 1]));
        }
        lemma_range_of(rest, instrument, i - 1);
    }
}

impl ClusterMap {
    /// Every instrument of a range belongs to the range's node, unless it is
    /// pinned.
    pub proof fn law_ranges_own_their_instruments(&self, instrument: InstrumentId, i: int)
        requires
            self.wf(),
            0 <= i < self.spans().len(),
            self.spans()[i].0.0 <= instrument.0 <= self.spans()[i].1.0,
            pin_of(self.pins(), instrument) is None,
        ensures
            self.owner(instrument) == self.spans()[i].2,
    {
        lemma_range_of(self.ranges@, instrument, i);
    }
}

/// Replaceable routing configuration. Each replacement gets the next version.
pub struct ClusterRouter {
    map: ClusterMap,
    version: u64,
}

impl ClusterRouter {
    /// The map in force.
    pub closed spec fn current(self) -> ClusterMap {
        self.map
    }

    /// The version in force.
    pub closed spec fn revision(self) -> u64 {
        self.version
    }

    /// A router with its first map, version 1.
    pub fn new(map: ClusterMap) -> (r: ClusterRouter)
        ensures
            r.current() == map,
            r.revision() == 1,
    {
        ClusterRouter { map, version: 1 }
    }

    /// The version in force.
    pub fn version(&self) -> (r: u64)
        ensures
            r == self.revision(),
    {
        self.version
    }

    /// The node that owns an instrument, and the version that says so.
    pub fn node_for(&self, instrument: InstrumentId) -> (r: (usize, u64))
        requires
            self.current().wf(),
        ensures
            r.0 == self.current().owner(instrument),
            r.1 == self.revision(),
    {
        (self.map.node_for(instrument), self.version)
    }

    /// Installs another map and returns its version.
    pub fn replace(&mut self, map: ClusterMap) -> (r: u64)
        requires
            old(self).revision() < u64::MAX,
        ensures
            final(self).current() == map,
            final(self).revision() == r,
            r == old(self).revision() + 1,
    {
        self.map = map;
        self.version = self.version + 1;
        self.version
    }
}

/// How far a migration has got.
#[derive(Clone, Copy, Debug, PartialEq, Eq, Structural)]
pub enum MigrationState {
    Freezing,
    CatchingUp,
    Verified,
}

/// The migration of one category.
#[derive(Clone, Copy, Debug, PartialEq, Eq, Structural)]
pub struct CategoryMigration {
    pub category_id: u32,
    pub route_version: u64,
    pub from_group: usize,
    pub to_group: usize,
    pub state: MigrationState,
    pub frozen_index: u64,
    pub target_index: u64,
    pub fingerprint: u64,
}

/// Why a migration step is refused.
#[derive(Clone, Copy, Debug, PartialEq, Eq, Structural)]
pub enum MigrationError {
    /// The target group does not exist.
    TargetOutOfRange,
    /// The category is in the target group already.
    AlreadyThere,
    /// The category is being migrated already.
    AlreadyActive,
    /// The category is not being migrated.
    NotActive,
    /// The migration does not wait for this freeze index.
    NotFreezing,
    /// The target is not at the freeze index yet.
    NotCaughtUp,
    /// Source and target differ.
    FingerprintsDiffer,
    /// Source and target have not been found equal.
    NotVerified,
}

/// Fenced migration of categories between groups: a destination is activated
/// only once both sides report the same state at or after the freeze index.
pub struct RouteControlPlane {
    group_count: usize,
    pins: HashMap<u32, usize>,
    migrations: HashMap<u32, CategoryMigration>,
    version: u64,
}

/// The control plane's state.
#[verifier::ext_equal]
pub struct RouteView {
    pub groups: usize,
    pub pins: Map<u32, usize>,
    pub migrations: Map<u32, CategoryMigration>,
    pub version: u64,
}

impl RouteView {
    /// The group of a category.
    pub open spec fn group(self, category: u32) -> int {
        if self.pins.contains_key(category) {
            self.pins[category] as int
        } else {
            (category as int) % (self.groups as int)
        }
    }

    /// The invariant: there is a group, every pin is to one, and a migration is
    /// filed under its category, between groups that exist, and verified only
    /// once the target was at the freeze index.
    pub open spec fn wf(self) -> bool {
        &&& self.groups > 0
        &&& forall|c: u32| #[trigger] self.pins.contains_key(c) ==> self.pins[c] < self.groups
        &&& forall|c: u32| #[trigger]
            self.migrations.contains_key(c) ==> {
                let m = self.migrations[c];
                &&& m.category_id == c
                &&& m.to_group < self.groups
                &&& m.to_group != self.group(c)
                &&& m.from_group == self.group(c)
                &&& m.state is Verified ==> 0 < m.frozen_index <= m.target_index
                &&& m.state is CatchingUp ==> m.frozen_index > 0
            }
    }
}

impl View for RouteControlPlane {
    type V = RouteView;

    closed spec fn view(&self) -> RouteView {
        RouteView {
            groups: self.group_count,
            pins: self.pins@,
            migrations: self.migrations@,
            version: self.version,
        }
    }
}

impl RouteControlPlane {
    /// A control plane over `group_count` groups with the given pins.
    pub fn new(group_count: usize, pins: HashMap<u32, usize>) -> (r: RouteControlPlane)
        requires
            group_count > 0,
            forall|c: u32| #[trigger] pins@.contains_key(c) ==> pins@[c] < group_count,
        ensures
            r@.wf(),
            r@ == (RouteView {
                groups: group_count,
                pins: pins@,
                migrations: Map::empty(),
                version: 1,
            }),
    {
        let r = RouteControlPlane { group_count, pins, migrations: HashMap::new(), version: 1 };
        assert(r@.migrations =~= Map::<u32, CategoryMigration>::empty());
        r
    }

    /// The version in force.
    pub fn version(&self) -> (r: u64)
        ensures
            r == self@.version,
    {
        self.version
    }

    /// The group of a category.
    pub fn group_for(&self, category_id: u32) -> (r: usize)
        requires
            self@.wf(),
        ensures
            r == self@.group(category_id),
            r < self@.groups,
    {
        match self.pins.get(&category_id) {
            Some(group) => {
                assert(self@.pins.contains_key(category_id));
                *group
            },
            None => category_id as usize % self.group_count,
        }
    }

    /// Whether commands of a category are accepted: not while it is migrated.
    pub fn accepts(&self, category_id: u32) -> (r: bool)
        ensures
            r == !self@.migrations.contains_key(category_id),
    {
        !self.migrations.contains_key(&category_id)
    }

    /// Starts a migration: from now on the category is frozen.
    pub fn begin(&mut self, category_id: u32, to_group: usize) -> (r: Result<
        CategoryMigration,
        MigrationError,
    >)
        requires
            old(self)@.wf(),
            old(self)@.version < u64::MAX,
        ensures
            final(self)@.wf(),
            match r {
                Ok(migration) => {
                    &&& to_group < old(self)@.groups
                    &&& to_group != old(self)@.group(category_id)
                    &&& !old(self)@.migrations.contains_key(category_id)
                    &&& migration == (CategoryMigration {
                        category_id,
                        route_version: (old(self)@.version + 1) as u64,
                        from_group: old(self)@.group(category_id) as usize,
                        to_group,
                        state: MigrationState::Freezing,
                        frozen_index: 0,
                        target_index: 0,
                        fingerprint: 0,
                    })
                    &&& final(self)@ == (RouteView {
                        migrations: old(self)@.migrations.insert(category_id, migration),
                        version: migration.route_version,
                        ..old(self)@
                    })
                },
                Err(error) => {
                    &&& final(self)@ == old(self)@
                    &&& error == if to_group >= old(self)@.groups {
                        MigrationError::TargetOutOfRange
                    } else if to_group == old(self)@.group(category_id) {
                        MigrationError::AlreadyThere
                    } else {
                        MigrationError::AlreadyActive
                    }
                    &&& error is AlreadyActive ==> old(self)@.migrations.contains_key(category_id)
                },
            },
    {
        if to_group >= self.group_count {
            return Err(MigrationError::TargetOutOfRange);
        }
        let from_group: usize = self.group_for(category_id);
        if from_group == to_group {
            return Err(MigrationError::AlreadyThere);
        }
        if self.migrations.contains_key(&category_id) {
            return Err(MigrationError::AlreadyActive);
        }
        self.version = self.version + 1;
        let migration = CategoryMigration {
            category_id,
            route_version: self.version,
            from_group,
            to_group,
            state: MigrationState::Freezing,
            frozen_index: 0,
            target_index: 0,
            fingerprint: 0,
        };
        self.migrations.insert(category_id, migration);
        Ok(migration)
    }

    /// The source has stopped at `index`.
    pub fn frozen(&mut self, category_id: u32, index: u64) -> (r: Result<
        CategoryMigration,
        MigrationError,
    >)
        requires
            old(self)@.wf(),
        ensures
            final(self)@.wf(),
            ({
                let active = old(self)@.migrations.contains_key(category_id);
                let m = old(self)@.migrations[category_id];
                match r {
                    Ok(migration) => {
                        &&& active && m.state is Freezing && index > 0
                        &&& migration == (CategoryMigration {
                            frozen_index: index,
                            state: MigrationState::CatchingUp,
                            ..m
                        })
                        &&& final(self)@ == (RouteView {
                            migrations: old(self)@.migrations.insert(category_id, migration),
                            ..old(self)@
                        })
                    },
                    Err(error) => {
                        &&& final(self)@ == old(self)@
                        &&& match error {
                            MigrationError::NotActive => !active,
                            MigrationError::NotFreezing => active && !(m.state is Freezing && index
                                > 0),
                            _ => false,
                        }
                    },
                }
            }),
    {
        let mut migration = match self.migrations.get(&category_id) {
            Some(migration) => *migration,
            None => {
                return Err(MigrationError::NotActive);
            },
        };
        if migration.state != MigrationState::Freezing || index == 0 {
            return Err(MigrationError::NotFreezing);
        }
        migration.frozen_index = index;
        migration.state = MigrationState::CatchingUp;
        self.migrations.insert(category_id, migration);
        Ok(migration)
    }

    /// The target has reached `target_index`; both sides report their state.
    pub fn caught_up(
        &mut self,
        category_id: u32,
        target_index: u64,
        source_fingerprint: u64,
        target_fingerprint: u64,
    ) -> (r: Result<CategoryMigration, MigrationError>)
        requires
            old(self)@.wf(),
        ensures
            final(self)@.wf(),
            ({
                let active = old(self)@.migrations.contains_key(category_id);
                let m = old(self)@.migrations[category_id];
                let there = m.state is CatchingUp && target_index >= m.frozen_index;
                match r {
                    Ok(migration) => {
                        &&& active && there && source_fingerprint == target_fingerprint
                        &&& migration == (CategoryMigration {
                            target_index,
                            fingerprint: source_fingerprint,
                            state: MigrationState::Verified,
                            ..m
                        })
                        &&& final(self)@ == (RouteView {
                            migrations: old(self)@.migrations.insert(category_id, migration),
                            ..old(self)@
                        })
                    },
                    Err(error) => {
                        &&& final(self)@ == old(self)@
                        &&& match error {
                            MigrationError::NotActive => !active,
                            MigrationError::NotCaughtUp => active && !there,
                            MigrationError::FingerprintsDiffer => active && there
                                && source_fingerprint != target_fingerprint,
                            _ => false,
                        }
                    },
                }
            }),
    {
        let mut migration = match self.migrations.get(&category_id) {
            Some(migration) => *migration,
            None => {
                return Err(MigrationError::NotActive);
            },
        };
        if migration.state != MigrationState::CatchingUp || target_index < migration.frozen_index {
            return Err(MigrationError::NotCaughtUp);
        }
        if source_fingerprint != target_fingerprint {
            return Err(MigrationError::FingerprintsDiffer);
        }
        migration.target_index = target_index;
        migration.fingerprint = source_fingerprint;
        migration.state = MigrationState::Verified;
        self.migrations.insert(category_id, migration);
        Ok(migration)
    }

    /// Routes the category to its new group and lifts the fence.
    pub fn activate(&mut self, category_id: u32) -> (r: Result<u64, MigrationError>)
        requires
            old(self)@.wf(),
            old(self)@.version < u64::MAX,
        ensures
            final(self)@.wf(),
            ({
                let active = old(self)@.migrations.contains_key(category_id);
                let m = old(self)@.migrations[category_id];
                match r {
                    Ok(version) => {
                        &&& active && m.state is Verified
                        &&& version == old(self)@.version + 1
                        &&& final(self)@ == (RouteView {
                            pins: old(self)@.pins.insert(category_id, m.to_group),
                            migrations: old(self)@.migrations.remove(category_id),
                            version,
                            ..old(self)@
                        })
                    },
                    Err(error) => {
                        &&& final(self)@ == old(self)@
                        &&& match error {
                            MigrationError::NotActive => !active,
                            MigrationError::NotVerified => active && !(m.state is Verified),
                            _ => false,
                        }
                    },
                }
            }),
    {
        let migration = match self.migrations.get(&category_id) {
            Some(migration) => *migration,
            None => {
                return Err(MigrationError::NotActive);
            },
        };
        if migration.state != MigrationState::Verified {
            return Err(MigrationError::NotVerified);
        }
        self.pins.insert(category_id, migration.to_group);
        self.migrations.remove(&category_id);
        self.version = self.version + 1;
        proof {
            let v = self@;
            assert forall|c: u32| #[trigger] v.migrations.contains_key(c) implies ({
                let m = v.migrations[c];
                &&& m.category_id == c
                &&& m.to_group < v.groups
                &&& m.to_group != v.group(c)
                &&& m.from_group == v.group(c)
                &&& m.state is Verified ==> 0 < m.frozen_index <= m.target_index
                &&& m.state is CatchingUp ==> m.frozen_index > 0
            }) by {
                assert(old(self)@.migrations.contains_key(c));
            }
        }
        Ok(self.version)
    }

    /// Gives a migration up; `true` if there was one.
    pub fn abort(&mut self, category_id: u32) -> (r: bool)
        requires
            old(self)@.wf(),
        ensures
            final(self)@.wf(),
            r == old(self)@.migrations.contains_key(category_id),
            final(self)@ == (RouteView {
                migrations: old(self)@.migrations.remove(category_id),
                ..old(self)@
            }),
    {
        let gone = self.migrations.remove(&category_id);
        proof {
            assert(self@.migrations =~= old(self)@.migrations.remove(category_id));
            assert forall|c: u32| #[trigger] self@.migrations.contains_key(c) implies
                old(self)@.migrations.contains_key(c) by {}
        }
        gone.is_some()
    }
}

/// The state after a migration was activated.
pub open spec fn activated(before: RouteView, category: u32) -> RouteView {
    RouteView {
        pins: before.pins.insert(category, before.migrations[category].to_group),
        migrations: before.migrations.remove(category),
        version: (before.version + 1) as u64,
        ..before
    }
}

/// Activating a migration moves its category to the target group and no other
/// category anywhere; it is possible only once the target was found equal to the
/// source at or after the freeze index.
pub proof fn law_activation_moves_one_category(before: RouteView, category: u32, other: u32)
    requires
        before.wf(),
        before.migrations.contains_key(category),
        before.migrations[category].state is Verified,
        other != category,
    ensures
        activated(before, category).group(category) == before.migrations[category].to_group,
        activated(before, category).group(other) == before.group(other),
        0 < before.migrations[category].frozen_index <= before.migrations[category].target_index,
        before.migrations[category].from_group == before.group(category),
{
}

impl ClusterMap {
    /// An instrument that is pinned belongs to the node it was first pinned to; one that is
    /// neither pinned nor in a range belongs to the node that its number gives by remainder,
    /// so that as many instruments in a row as there are nodes belong to different nodes.
    pub proof fn law_pins_come_first(&self, instrument: InstrumentId, k: int)
        requires
            self.wf(),
        ensures
            0 <= k < self.pins().len() && self.pins()[k].0 == instrument && (forall|j: int|
                0 <= j < k ==> (#[trigger] self.pins()[j]).0 != instrument) ==> self.owner(
                instrument,
            ) == self.pins()[k].1,
            (forall|j: int|
                0 <= j < self.pins().len() ==> (#[trigger] self.pins()[j]).0 != instrument) && (
            forall|j: int|
                0 <= j < self.spans().len() ==> !((#[trigger] self.spans()[j]).0.0 <= instrument.0
                    <= self.spans()[j].1.0)) ==> self.owner(instrument) == instrument.0 as int % (
            self.addresses().len() as int),
    {
        if 0 <= k < self.pins().len() && self.pins()[k].0 == instrument && (forall|j: int|
            0 <= j < k ==> (#[trigger] self.pins()[j]).0 != instrument) {
            lemma_first_pin(self.pins(), instrument, k);
        }
        if forall|j: int|
            0 <= j < self.pins().len() ==> (#[trigger] self.pins()[j]).0 != instrument {
            lemma_no_pin(self.pins(), instrument);
        }
        if forall|j: int|
            0 <= j < self.spans().len() ==> !((#[trigger] self.spans()[j]).0.0 <= instrument.0
                <= self.spans()[j].1.0) {
            lemma_no_range(self.spans(), instrument);
        }
    }
}

proof fn lemma_first_pin(pins: Seq<(InstrumentId, usize)>, instrument: InstrumentId, k: int)
    requires
        0 <= k < pins.len(),
        pins[k].0 == instrument,
        forall|j: int| 0 <= j < k ==> (#[trigger] pins[j]).0 != instrument,
    ensures
        pin_of(pins, instrument) == Some(pins[k].1),
    decreases k,
{
    if k > 0 {
        assert(pins[0].0 != instrument);
        let rest = pins.skip(1);
        assert forall|j: int| 0 <= j < k - 1 implies (#[trigger] rest[j]).0 != instrument by {
            assert(rest[j] == pins[j + 1]);
        }
        assert(rest[k - 1] == pins[k]);
        lemma_first_pin(rest, instrument, k - 1);
    }
}

proof fn lemma_no_pin(pins: Seq<(InstrumentId, usize)>, instrument: InstrumentId)
    requires
        forall|j: int| 0 <= j < pins.len() ==> (#[trigger] pins[j]).0 != instrument,
    ensures
        pin_of(pins, instrument) is None,
    decreases pins.len(),
{
    if pins.len() > 0 {
        let rest = pins.skip(1);
        assert(pins[0].0 != instrument);
        assert forall|j: int| 0 <= j < rest.len() implies (#[trigger] rest[j]).0 != instrument by {
            assert(rest[j] == pins[j + 1]);
        }
        lemma_no_pin(rest, instrument);
    }
}

proof fn lemma_no_range(
    ranges: Seq<(InstrumentId, InstrumentId, usize)>,
    instrument: InstrumentId,
)
    requires
        forall|j: int|
            0 <= j < ranges.len() ==> !((#[trigger] ranges[j]).0.0 <= instrument.0
                <= ranges[j].1.0),
    ensures
        range_of(ranges, instrument) is None,
    decreases ranges.len(),
{
    if ranges.len() > 0 {
        let rest = ranges.skip(1);
        assert(!(ranges[0].0.0 <= instrument.0 <= ranges[0].1.0));
        assert forall|j: int| 0 <= j < rest.len() implies !((#[trigger] rest[j]).0.0
            <= instrument.0 <= rest[j].1.0) by {
            assert(rest[j] == ranges[j + 1]);
        }
        lemma_no_range(rest, instrument);
    }
}

} // verus!
