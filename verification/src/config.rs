//! The configuration of a broker, and which cluster it describes.

use vstd::prelude::*;

use crate::cluster::Node;
use crate::sorted;
use crate::sorted::{Key, SortedMap};
use crate::text;

verus! {

#[derive(Debug, Clone, Copy, PartialEq, Eq, Structural)]
pub enum ConfigError {
    InvalidCluster,
    LocalBrokerMissing,
    InvalidReplicationPolicy,
}

impl ConfigError {
    /// What the error says.
    pub open spec fn text(self) -> Seq<char> {
        match self {
            ConfigError::InvalidCluster =>
                "cluster nodes contain an invalid or duplicate id/address"@,
            ConfigError::LocalBrokerMissing =>
                "local broker_id is not present in cluster nodes"@,
            ConfigError::InvalidReplicationPolicy =>
                "replication_factor and min_in_sync_replicas do not fit cluster membership"@,
        }
    }

    /// The error in words.
    pub fn message(&self) -> (message: String)
        ensures
            message@ == self.text(),
    {
        match self {
            ConfigError::InvalidCluster => {
                "cluster nodes contain an invalid or duplicate id/address".to_owned()
            },
            ConfigError::LocalBrokerMissing => {
                "local broker_id is not present in cluster nodes".to_owned()
            },
            ConfigError::InvalidReplicationPolicy => {
                "replication_factor and min_in_sync_replicas do not fit cluster membership".to_owned()
            },
        }
    }
}

#[derive(Debug, PartialEq, Eq)]
pub struct Config {
    pub broker: BrokerConfig,
    pub admin: AdminConfig,
    pub logging: LoggingConfig,
    pub cluster: ClusterConfig,
}

#[derive(Debug, PartialEq, Eq)]
pub struct ClusterConfig {
    pub broker_id: u32,
    pub replication_factor: usize,
    pub min_in_sync_replicas: usize,
    pub nodes: Vec<ClusterNodeConfig>,
}

pub fn default_replication_factor() -> (factor: usize)
    ensures
        factor == 1,
{
    1
}

pub fn default_min_in_sync_replicas() -> (replicas: usize)
    ensures
        replicas == 1,
{
    1
}

impl Default for ClusterConfig {
    fn default() -> (config: Self)
        ensures
            config.broker_id == 1,
            config.replication_factor == 1,
            config.min_in_sync_replicas == 1,
            config.nodes@.len() == 0,
    {
        ClusterConfig {
            broker_id: 1,
            replication_factor: default_replication_factor(),
            min_in_sync_replicas: default_min_in_sync_replicas(),
            nodes: Vec::new(),
        }
    }
}

#[derive(Debug, PartialEq, Eq)]
pub struct ClusterNodeConfig {
    pub id: u32,
    pub host: String,
    pub port: u16,
    pub admin_port: u16,
    pub replication_port: u16,
}

impl View for ClusterNodeConfig {
    type V = Node;

    open spec fn view(&self) -> Node {
        Node {
            id: self.id,
            host: self.host@,
            port: self.port,
            admin_port: self.admin_port,
            replication_port: self.replication_port,
        }
    }
}

impl Clone for ClusterNodeConfig {
    fn clone(&self) -> (copy: Self)
        ensures
            copy@ == self@,
    {
        ClusterNodeConfig {
            id: self.id,
            host: self.host.clone(),
            port: self.port,
            admin_port: self.admin_port,
            replication_port: self.replication_port,
        }
    }
}

#[derive(Debug, Clone, Copy, PartialEq, Eq, Structural)]
pub struct LoggingConfig {
    pub json: bool,
}

impl Default for LoggingConfig {
    fn default() -> (config: Self)
        ensures
            !config.json,
    {
        LoggingConfig { json: false }
    }
}

#[derive(Debug, PartialEq, Eq)]
pub struct AdminConfig {
    pub host: String,
    pub port: u16,
}

impl Default for AdminConfig {
    fn default() -> (config: Self)
        ensures
            config.host@ == "127.0.0.1"@,
            config.port == 7401,
    {
        AdminConfig { host: "127.0.0.1".to_owned(), port: 7401 }
    }
}

#[derive(Debug, PartialEq, Eq)]
pub struct BrokerConfig {
    pub host: String,
    pub port: u16,
    pub data_dir: String,
    pub max_segment_bytes: u64,
    pub index_interval_bytes: u64,
    pub default_partition_count: u32,
    pub group_session_timeout_ms: u64,
    pub retention_bytes: u64,
    pub retention_ms: u64,
    pub storage_queue_capacity: usize,
    pub storage_enqueue_timeout_ms: u64,
    pub auto_create_topics: bool,
}

/// A host and a port as they are written.
pub open spec fn address_text(host: Seq<char>, port: u16) -> Seq<char> {
    host + ":"@ + text::decimal(port as nat)
}

pub fn socket_address(host: &str, port: u16) -> (address: String)
    ensures
        address@ == address_text(host@, port),
{
    let mut out = host.to_owned();
    out.append(":");
    text::push_decimal(&mut out, port as u64);
    out
}

impl BrokerConfig {
    /// Where the broker listens.
    pub fn socket_addr(&self) -> (address: String)
        ensures
            address@ == address_text(self.host@, self.port),
    {
        socket_address(self.host.as_str(), self.port)
    }
}

impl AdminConfig {
    /// Where the administrative page is served.
    pub fn socket_addr(&self) -> (address: String)
        ensures
            address@ == address_text(self.host@, self.port),
    {
        socket_address(self.host.as_str(), self.port)
    }
}

/// Several brokers as values.
pub open spec fn config_views(nodes: Seq<ClusterNodeConfig>) -> Seq<Node> {
    nodes.map_values(|node: ClusterNodeConfig| node@)
}

/// The ids of some brokers.
pub open spec fn ids_of(nodes: Seq<Node>) -> Seq<u32> {
    nodes.map_values(|node: Node| node.id)
}

/// The three endpoints of each broker: host and port.
pub open spec fn endpoints_of(nodes: Seq<Node>) -> Seq<(Seq<char>, u32)>
    decreases nodes.len(),
{
    if nodes.len() == 0 {
        Seq::empty()
    } else {
        let last = nodes.last();
        endpoints_of(nodes.drop_last()) + seq![
            (last.host, last.port as u32),
            (last.host, last.admin_port as u32),
            (last.host, last.replication_port as u32),
        ]
    }
}

/// Whether brokers can make a cluster: ids that are not zero and do not repeat, endpoints that
/// do not repeat and can be addressed.
pub open spec fn is_cluster(nodes: Seq<Node>, addressable: Seq<bool>) -> bool {
    &&& forall|i: int| 0 <= i < nodes.len() ==> (#[trigger] nodes[i]).id != 0
    &&& ids_of(nodes).no_duplicates()
    &&& endpoints_of(nodes).no_duplicates()
    &&& forall|i: int| 0 <= i < addressable.len() ==> #[trigger] addressable[i]
}

impl Config {
    /// The brokers that the configuration names; where it names none, the local one alone, whose
    /// replication port lies one hundred above its port.
    pub open spec fn named_nodes(self) -> Option<Seq<Node>> {
        if self.cluster.nodes@.len() > 0 {
            Some(config_views(self.cluster.nodes@))
        } else if self.broker.port + 100 > u16::MAX {
            None
        } else {
            Some(
                seq![
                    Node {
                        id: self.cluster.broker_id,
                        host: self.broker.host@,
                        port: self.broker.port,
                        admin_port: self.admin.port,
                        replication_port: (self.broker.port + 100) as u16,
                    },
                ],
            )
        }
    }

    /// Why the brokers do not make a cluster that the local one can work in, or `None`.
    pub open spec fn cluster_refusal(self, nodes: Seq<Node>, addressable: Seq<bool>) -> Option<
        ConfigError,
    > {
        if !is_cluster(nodes, addressable) {
            Some(ConfigError::InvalidCluster)
        } else if !ids_of(nodes).contains(self.cluster.broker_id) {
            Some(ConfigError::LocalBrokerMissing)
        } else if self.cluster.replication_factor == 0 || self.cluster.replication_factor
            > nodes.len() || self.cluster.min_in_sync_replicas == 0
            || self.cluster.min_in_sync_replicas > self.cluster.replication_factor {
            Some(ConfigError::InvalidReplicationPolicy)
        } else {
            None
        }
    }

    /// The brokers that the configuration names.
    pub fn configured_nodes(&self) -> (nodes: Result<Vec<ClusterNodeConfig>, ConfigError>)
        ensures
            match self.named_nodes() {
                None => nodes matches Err(error) && error == ConfigError::InvalidCluster,
                Some(expected) => nodes matches Ok(found) && config_views(found@) == expected,
            },
    {
        let mut nodes: Vec<ClusterNodeConfig> = Vec::new();
        if self.cluster.nodes.len() == 0 {
            let replication_port: u16 = match self.broker.port.checked_add(100) {
                Some(port) => port,
                None => return Err(ConfigError::InvalidCluster),
            };
            nodes.push(
                ClusterNodeConfig {
                    id: self.cluster.broker_id,
                    host: self.broker.host.clone(),
                    port: self.broker.port,
                    admin_port: self.admin.port,
                    replication_port,
                },
            );
            assert(config_views(nodes@) =~= self.named_nodes()->0);
            return Ok(nodes);
        }
        let ghost all = config_views(self.cluster.nodes@);
        for i in 0..self.cluster.nodes.len()
            invariant
                all == config_views(self.cluster.nodes@),
                config_views(nodes@) == all.take(i as int),
        {
            let ghost before = config_views(nodes@);
            nodes.push(self.cluster.nodes[i].clone());
            proof {
                assert(config_views(nodes@) =~= before.push(self.cluster.nodes@[i as int]@));
                assert(all.take(i + 1) =~= before.push(self.cluster.nodes@[i as int]@));
            }
        }
        assert(all.take(all.len() as int) =~= all);
        Ok(nodes)
    }

    /// The brokers of the cluster by id. `addressable` tells of each configured broker whether
    /// its endpoints can be addressed.
    pub fn cluster_nodes(&self, addressable: &Vec<bool>) -> (nodes: Result<
        Vec<ClusterNodeConfig>,
        ConfigError,
    >)
        requires
            self.named_nodes() matches Some(named) ==> addressable@.len() == named.len(),
        ensures
            match self.named_nodes() {
                None => nodes matches Err(error) && error == ConfigError::InvalidCluster,
                Some(named) => match self.cluster_refusal(named, addressable@) {
                    Some(error) => nodes matches Err(found) && found == error,
                    None => {
                        &&& nodes matches Ok(found)
                        &&& sorted::strictly_ascending::<u32>(ids_of(config_views(found@)))
                        &&& forall|node: Node| #[trigger]
                            config_views(found@).contains(node) <==> named.contains(node)
                    },
                },
            },
    {
        let named = match self.configured_nodes() {
            Ok(named) => named,
            Err(error) => return Err(error),
        };
        let ghost views = config_views(named@);
        if !valid_nodes(&named, addressable) {
            return Err(ConfigError::InvalidCluster);
        }
        let mut by_id: SortedMap<u32, ClusterNodeConfig> = SortedMap::new();
        let mut i: usize = 0;
        while i < named.len()
            invariant
                i <= named@.len(),
                views == config_views(named@),
                ids_of(views).no_duplicates(),
                by_id.wf(),
                forall|id: u32| #[trigger]
                    by_id@.dom().contains(id) ==> by_id@[id]@.id == id && views.take(
                        i as int,
                    ).contains(by_id@[id]@),
                forall|j: int|
                    0 <= j < i ==> by_id@.dom().contains((#[trigger] views[j]).id)
                        && by_id@[views[j].id]@ == views[j],
            decreases named@.len() - i,
        {
            let node = named[i].clone();
            let ghost before = by_id@;
            let ghost added = node@;
            assert(views[i as int] == added);
            by_id.insert(node.id, node);
            proof {
                let now = views.take(i + 1);
                assert(now[i as int] == added);
                assert forall|id: u32| #[trigger] by_id@.dom().contains(id) implies by_id@[id]@.id
                    == id && now.contains(by_id@[id]@) by {
                    if id != added.id {
                        assert(before.dom().contains(id));
                        let k = choose|k: int|
                            0 <= k < views.take(i as int).len() && views.take(i as int)[k]
                                == by_id@[id]@;
                        assert(views.take(i as int).contains(by_id@[id]@));
                        assert(now[k] == by_id@[id]@);
                    }
                }
                assert forall|j: int| 0 <= j < i + 1 implies by_id@.dom().contains(
                    (#[trigger] views[j]).id,
                ) && by_id@[views[j].id]@ == views[j] by {
                    if j < i {
                        assert(ids_of(views)[j] == views[j].id);
                        assert(ids_of(views)[i as int] == added.id);
                    }
                }
            }
            i = i + 1;
        }
        assert(views.take(i as int) =~= views);
        if !by_id.contains_key(&self.cluster.broker_id) {
            proof {
                if ids_of(views).contains(self.cluster.broker_id) {
                    let k = choose|k: int|
                        0 <= k < ids_of(views).len() && ids_of(views)[k]
                            == self.cluster.broker_id;
                    assert(views[k].id == self.cluster.broker_id);
                }
            }
            return Err(ConfigError::LocalBrokerMissing);
        }
        proof {
            let local = by_id@[self.cluster.broker_id]@;
            let k = choose|k: int| 0 <= k < views.len() && views[k] == local;
            assert(ids_of(views)[k] == self.cluster.broker_id);
        }
        if self.cluster.replication_factor == 0 || self.cluster.replication_factor > named.len()
            || self.cluster.min_in_sync_replicas == 0 || self.cluster.min_in_sync_replicas
            > self.cluster.replication_factor {
            return Err(ConfigError::InvalidReplicationPolicy);
        }
        let nodes = by_id.values;
        proof {
            let found = config_views(nodes@);
            let map = by_id;
            assert forall|a: int, b: int|
                #![trigger ids_of(found)[a], ids_of(found)[b]]
                0 <= a < b < ids_of(found).len() implies ids_of(found)[a] < ids_of(found)[b] by {
                map.lemma_at(a);
                map.lemma_at(b);
                assert(u32::before(map.keys@[a].value(), map.keys@[b].value()));
            }
            assert forall|node: Node| #[trigger] found.contains(node) <==> views.contains(
                node,
            ) by {
                if found.contains(node) {
                    let a = choose|a: int| 0 <= a < found.len() && found[a] == node;
                    map.lemma_at(a);
                }
                if views.contains(node) {
                    let k = choose|k: int| 0 <= k < views.len() && views[k] == node;
                    let a = map.lemma_place(node.id);
                    map.lemma_at(a);
                    assert(views[k].id == node.id);
                    assert(found[a] == node);
                }
            }
        }
        Ok(nodes)
    }
}

/// Whether brokers can make a cluster.
fn valid_nodes(nodes: &Vec<ClusterNodeConfig>, addressable: &Vec<bool>) -> (valid: bool)
    requires
        addressable@.len() == nodes@.len(),
    ensures
        valid == is_cluster(config_views(nodes@), addressable@),
{
    let ghost views = config_views(nodes@);
    let mut ids: Vec<u32> = Vec::new();
    let mut endpoints: Vec<(String, u32)> = Vec::new();
    let mut i: usize = 0;
    assert(sorted::values_of(ids@) =~= ids_of(views.take(0)));
    assert(sorted::values_of(endpoints@) =~= endpoints_of(views.take(0)));
    while i < nodes.len()
        invariant
            i <= nodes@.len(),
            addressable@.len() == nodes@.len(),
            views == config_views(nodes@),
            sorted::values_of(ids@) == ids_of(views.take(i as int)),
            sorted::values_of(endpoints@) == endpoints_of(views.take(i as int)),
            forall|j: int| 0 <= j < i ==> (#[trigger] views[j]).id != 0,
            forall|j: int| 0 <= j < i ==> #[trigger] addressable@[j],
        decreases nodes@.len() - i,
    {
        let node = &nodes[i];
        assert(views[i as int] == node@);
        if node.id == 0 || !addressable[i] {
            return false;
        }
        let ghost known = sorted::values_of(endpoints@);
        let ghost known_ids = sorted::values_of(ids@);
        ids.push(node.id);
        endpoints.push((node.host.clone(), node.port as u32));
        endpoints.push((node.host.clone(), node.admin_port as u32));
        endpoints.push((node.host.clone(), node.replication_port as u32));
        proof {
            let now = views.take(i + 1);
            assert(now.drop_last() =~= views.take(i as int));
            assert(now.last() == node@);
            assert(sorted::values_of(ids@) =~= known_ids.push(node.id));
            assert(ids_of(now) =~= known_ids.push(node.id));
            assert(sorted::values_of(endpoints@) =~= known + seq![
                (node.host@, node.port as u32),
                (node.host@, node.admin_port as u32),
                (node.host@, node.replication_port as u32),
            ]);
        }
        i = i + 1;
    }
    assert(views.take(i as int) =~= views);
    sorted::all_distinct(&ids) && sorted::all_distinct(&endpoints)
}

proof fn lemma_endpoints(nodes: Seq<Node>, place: int)
    requires
        0 <= place < nodes.len(),
    ensures
        endpoints_of(nodes).len() == 3 * nodes.len(),
        endpoints_of(nodes)[3 * place] == (nodes[place].host, nodes[place].port as u32),
        endpoints_of(nodes)[3 * place + 1] == (nodes[place].host, nodes[place].admin_port as u32),
        endpoints_of(nodes)[3 * place + 2] == (
            nodes[place].host,
            nodes[place].replication_port as u32,
        ),
    decreases nodes.len(),
{
    reveal_with_fuel(endpoints_of, 2);
    let fewer = nodes.drop_last();
    if fewer.len() > 0 {
        lemma_endpoints(fewer, 0);
    }
    if place < fewer.len() {
        lemma_endpoints(fewer, place);
        assert(fewer[place] == nodes[place]);
    }
}

/// The brokers of a cluster can be told apart and reached: no id is zero or is used twice, a broker
/// has three different ports, and two brokers on one host share none.
pub proof fn brokers_are_told_apart(nodes: Seq<Node>, addressable: Seq<bool>, a: int, b: int)
    requires
        is_cluster(nodes, addressable),
        0 <= a < nodes.len(),
        0 <= b < nodes.len(),
    ensures
        nodes[a].id != 0,
        a != b ==> nodes[a].id != nodes[b].id,
        nodes[a].port != nodes[a].admin_port,
        nodes[a].port != nodes[a].replication_port,
        nodes[a].admin_port != nodes[a].replication_port,
        a != b && nodes[a].host == nodes[b].host ==> {
            &&& nodes[a].port != nodes[b].port
            &&& nodes[a].port != nodes[b].admin_port
            &&& nodes[a].port != nodes[b].replication_port
            &&& nodes[a].admin_port != nodes[b].admin_port
            &&& nodes[a].admin_port != nodes[b].replication_port
            &&& nodes[a].replication_port != nodes[b].replication_port
        },
        a < addressable.len() ==> addressable[a],
{
    lemma_endpoints(nodes, a);
    lemma_endpoints(nodes, b);
    let all = endpoints_of(nodes);
    assert(ids_of(nodes)[a] == nodes[a].id);
    assert(ids_of(nodes)[b] == nodes[b].id);
    assert(all[3 * a] != all[3 * a + 1]);
    assert(all[3 * a] != all[3 * a + 2]);
    assert(all[3 * a + 1] != all[3 * a + 2]);
    if a != b {
        assert(all[3 * a] != all[3 * b]);
        assert(all[3 * a] != all[3 * b + 1]);
        assert(all[3 * a] != all[3 * b + 2]);
        assert(all[3 * a + 1] != all[3 * b + 1]);
        assert(all[3 * a + 1] != all[3 * b + 2]);
        assert(all[3 * a + 2] != all[3 * b + 2]);
    }
}

/// A lone broker with an id and three different ports makes a cluster.
pub proof fn lone_broker_is_cluster(node: Node)
    requires
        node.id != 0,
        node.port != node.admin_port,
        node.port != node.replication_port,
        node.admin_port != node.replication_port,
    ensures
        is_cluster(seq![node], seq![true]),
{
    let nodes = seq![node];
    lemma_endpoints(nodes, 0);
    assert(nodes.drop_last() =~= Seq::empty());
}

/// A configuration is accepted exactly where its brokers make a cluster, the local one is among
/// them, and no more replicas are asked for than there are brokers, nor more of them in sync than
/// there are replicas, and at least one of each.
pub proof fn configuration_is_checked(config: Config, nodes: Seq<Node>, addressable: Seq<bool>)
    ensures
        ({
            let refusal = config.cluster_refusal(nodes, addressable);
            let local = exists|i: int|
                0 <= i < nodes.len() && (#[trigger] nodes[i]).id == config.cluster.broker_id;
            let policy = 1 <= config.cluster.min_in_sync_replicas
                <= config.cluster.replication_factor <= nodes.len();
            &&& refusal is None <==> is_cluster(nodes, addressable) && local && policy
            &&& !is_cluster(nodes, addressable) ==> refusal == Some(ConfigError::InvalidCluster)
            &&& is_cluster(nodes, addressable) && !local ==> refusal == Some(
                ConfigError::LocalBrokerMissing,
            )
            &&& is_cluster(nodes, addressable) && local && !policy ==> refusal == Some(
                ConfigError::InvalidReplicationPolicy,
            )
        }),
{
    let ids = ids_of(nodes);
    if ids.contains(config.cluster.broker_id) {
        let i = choose|i: int| 0 <= i < ids.len() && ids[i] == config.cluster.broker_id;
        assert(nodes[i].id == config.cluster.broker_id);
    }
    if exists|i: int|
        0 <= i < nodes.len() && (#[trigger] nodes[i]).id == config.cluster.broker_id {
        let i = choose|i: int|
            0 <= i < nodes.len() && (#[trigger] nodes[i]).id == config.cluster.broker_id;
        assert(ids[i] == config.cluster.broker_id);
    }
}

/// The brokers of a cluster are those that are configured. Where none are, the local broker is
/// alone, and takes records one hundred ports above its own.
pub proof fn lone_broker_is_local(config: Config)
    ensures
        config.cluster.nodes@.len() > 0 ==> config.named_nodes() == Some(
            config_views(config.cluster.nodes@),
        ),
        config.cluster.nodes@.len() == 0 && config.broker.port <= 65_435 ==> (
        config.named_nodes() matches Some(nodes) && nodes.len() == 1 && nodes[0].id
            == config.cluster.broker_id && nodes[0].host == config.broker.host@ && nodes[0].port
            == config.broker.port && nodes[0].admin_port == config.admin.port
            && nodes[0].replication_port == config.broker.port + 100),
        config.cluster.nodes@.len() == 0 && config.broker.port > 65_435 ==> config.named_nodes()
            is None,
{
}

} // verus!
