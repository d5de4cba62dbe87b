//! Routing decisions of the distributed operators: distribution functions,
//! what an exchange does with a record, and the shape of the distributed join
//! plans.

use vstd::prelude::*;

use super::{Record, Value};

verus! {

/// How an exchange distributes records over the peers.
#[derive(Clone, Copy, Debug, PartialEq, Eq, Structural)]
pub enum Distribution {
    /// Record goes to peer `record[join_key] mod peers` (Euclidean).
    Repartition { join_key: usize },
    /// Record goes to every peer.
    Replicate,
}

/// The peer that a key is hashed to: `key mod peers`, never negative.
pub open spec fn repartition_peer(key: i32, peers: u16) -> int {
    (key as int) % (peers as int)
}

/// The peers a record goes to under `d`.
pub open spec fn targets_spec(d: Distribution, record: Seq<Value>, peers: u16) -> Seq<u16> {
    match d {
        Distribution::Repartition { join_key } => seq![
            repartition_peer(record[join_key as int]->Int_0, peers) as u16,
        ],
        Distribution::Replicate => Seq::new(peers as nat, |i: int| i as u16),
    }
}

/// Creates a hash distribution on column `join_key`, whose values are `Int`s.
pub fn create_repartitioning_distribution(join_key: usize) -> (d: Distribution)
    ensures
        d == (Distribution::Repartition { join_key }),
{
    Distribution::Repartition { join_key }
}

/// Creates a distribution that sends every record to every peer.
pub fn create_replication_distribution() -> (d: Distribution)
    ensures
        d == Distribution::Replicate,
{
    Distribution::Replicate
}

impl Distribution {
    /// The peers `record` goes to among `peers` peers.
    pub fn targets(&self, record: &Record, peers: u16) -> (r: Vec<u16>)
        requires
            peers > 0,
            self matches Distribution::Repartition { join_key } ==> join_key < record@.len()
                && record@[join_key as int] is Int,
        ensures
            r@ == targets_spec(*self, record@, peers),
    {
        match self {
            Distribution::Repartition { join_key } => {
                let number = match record[*join_key] {
                    Value::Int(x) => x,
                    _ => 0,
                };
                let p = peers as u64;
                let peer: u64 = if number >= 0 {
                    (number as u64) % p
                } else {
                    let a = (-(number as i64)) as u64;
                    let rem = a % p;
                    proof {
                        let q = (a / p) as int;
                        vstd::arithmetic::div_mod::lemma_fundamental_div_mod(a as int, p as int);
                        assert(a as int == p * q + rem);
                        if rem == 0 {
                            assert(number as int == (-q) * p + 0) by (nonlinear_arith)
                                requires
                                    a as int == p * q + rem,
                                    rem == 0,
                                    a as int == -(number as int),
                            ;
                            vstd::arithmetic::div_mod::lemma_fundamental_div_mod_converse_mod(
                                number as int,
                                p as int,
                                -q,
                                0,
                            );
                        } else {
                            assert(number as int == (-q - 1) * p + (p - rem)) by (nonlinear_arith)
                                requires
                                    a as int == p * q + rem,
                                    a as int == -(number as int),
                            ;
                            vstd::arithmetic::div_mod::lemma_fundamental_div_mod_converse_mod(
                                number as int,
                                p as int,
                                -q - 1,
                                p - rem,
                            );
                        }
                    }
                    if rem == 0 {
                        0
                    } else {
                        p - rem
                    }
                };
                proof {
                    assert(peer == repartition_peer(number, peers));
                }
                let mut r: Vec<u16> = Vec::new();
                r.push(peer as u16);
                proof {
                    assert(r@ =~= targets_spec(*self, record@, peers));
                }
                r
            },
            Distribution::Replicate => {
                let mut r: Vec<u16> = Vec::new();
                let mut i: u16 = 0;
                while i < peers
                    invariant
                        i <= peers,
                        r@ =~= Seq::new(i as nat, |k: int| k as u16),
                    decreases peers - i,
                {
                    r.push(i);
                    i = i + 1;
                }
                r
            },
        }
    }
}

/// Routing laws: a repartitioned record goes to exactly one peer, which lies
/// below `peers` and differs from the record's key by a multiple of `peers`,
/// so that equal keys meet on one peer; a replicated record goes to every
/// peer once, in increasing order.
pub proof fn lemma_targets(record: Seq<Value>, join_key: usize, peers: u16, p: int)
    requires
        peers > 0,
        join_key < record.len(),
        record[join_key as int] is Int,
    ensures
        ({
            let t = targets_spec(Distribution::Repartition { join_key }, record, peers);
            &&& t.len() == 1
            &&& 0 <= t[0] < peers
            &&& exists|q: int| record[join_key as int]->Int_0 == #[trigger] (q * peers) + t[0]
        }),
        targets_spec(Distribution::Replicate, record, peers).len() == peers,
        0 <= p < peers ==> targets_spec(Distribution::Replicate, record, peers)[p] == p,
{
    let key = record[join_key as int]->Int_0 as int;
    vstd::arithmetic::div_mod::lemma_fundamental_div_mod(key, peers as int);
    vstd::arithmetic::div_mod::lemma_mod_bound(key, peers as int);
    let t = targets_spec(Distribution::Repartition { join_key }, record, peers);
    assert(t[0] == key % (peers as int));
    vstd::arithmetic::mul::lemma_mul_is_commutative(key / (peers as int), peers as int);
    assert(key == (key / (peers as int)) * peers + t[0]);
}

/// What an exchange does with one record of its child: the other peers it
/// sends the record to (in order) and whether it keeps the record itself.
pub struct Dispatch {
    pub remote: Vec<u16>,
    pub local: bool,
}

/// The routing part of an exchange operator of peer `peer_id`.
pub struct Exchange {
    pub peer_id: u16,
    pub distribution: Distribution,
}

impl Exchange {
    /// An exchange for peer `peer_id` distributing by `distribution`.
    pub fn new(peer_id: u16, distribution: Distribution) -> (e: Self)
        ensures
            e.peer_id == peer_id,
            e.distribution == distribution,
    {
        Exchange { peer_id, distribution }
    }

    /// Routes `record`: every target other than this peer receives a copy,
    /// and this peer keeps the record when it is itself a target.
    pub fn dispatch(&self, record: &Record, peers: u16) -> (d: Dispatch)
        requires
            peers > 0,
            self.distribution matches Distribution::Repartition { join_key } ==> join_key
                < record@.len() && record@[join_key as int] is Int,
        ensures
            d.remote@ == targets_spec(self.distribution, record@, peers).filter(
                |p: u16| p != self.peer_id,
            ),
            d.local == targets_spec(self.distribution, record@, peers).contains(self.peer_id),
    {
        let targets = self.distribution.targets(record, peers);
        let mut remote: Vec<u16> = Vec::new();
        let mut local = false;
        let mut i: usize = 0;
        while i < targets.len()
            invariant
                i <= targets@.len(),
                remote@ == targets@.take(i as int).filter(|p: u16| p != self.peer_id),
                local == targets@.take(i as int).contains(self.peer_id),
            decreases targets.len() - i,
        {
            proof {
                reveal_with_fuel(Seq::filter, 1);
                assert(targets@.take(i + 1).drop_last() =~= targets@.take(i as int));
                if targets@.take(i as int).contains(self.peer_id) {
                    let k = choose|k: int| 0 <= k < i && #[trigger] targets@.take(i as int)[k] == self.peer_id;
                    assert(targets@.take(i + 1)[k] == self.peer_id);
                }
                if targets@.take(i + 1).contains(self.peer_id) && targets@[i as int] != self.peer_id {
                    let k = choose|k: int| 0 <= k < i + 1 && #[trigger] targets@.take(i + 1)[k] == self.peer_id;
                    assert(targets@.take(i as int)[k] == self.peer_id);
                }
                assert(targets@.take(i + 1)[i as int] == targets@[i as int]);
            }
            if targets[i] == self.peer_id {
                local = true;
            } else {
                remote.push(targets[i]);
            }
            i = i + 1;
        }
        proof {
            assert(targets@.take(targets@.len() as int) =~= targets@);
        }
        Dispatch { remote, local }
    }
}

/// Which input of a join a plan leaf stands for.
#[derive(Clone, Copy, Debug, PartialEq, Eq, Structural)]
pub enum Side {
    Left,
    Right,
}

/// A distributed join plan built from the operators that a plan builder
/// provides.
pub enum JoinPlan {
    /// The left or right child handed to the plan function.
    Input(Side),
    /// An exchange over `input` with the given distribution.
    Exchange { input: Box<JoinPlan>, distribution: Distribution },
    /// Projection of `input` onto one column.
    Projection { input: Box<JoinPlan>, column: usize },
    /// Equi-hash join, building its table from the left input.
    EquiHashJoinLeft { left: Box<JoinPlan>, right: Box<JoinPlan>, left_key: usize, right_key: usize },
    /// Left semi join.
    LeftSemiJoin { left: Box<JoinPlan>, right: Box<JoinPlan>, left_key: usize, right_key: usize },
}

/// Symmetric repartitioning join: both inputs are shuffled on their join keys.
pub fn create_symmetric_repartitioning_join(left_join_key: usize, right_join_key: usize) -> (p:
    JoinPlan)
    ensures
        p == (JoinPlan::EquiHashJoinLeft {
            left: Box::new(
                JoinPlan::Exchange {
                    input: Box::new(JoinPlan::Input(Side::Left)),
                    distribution: Distribution::Repartition { join_key: left_join_key },
                },
            ),
            right: Box::new(
                JoinPlan::Exchange {
                    input: Box::new(JoinPlan::Input(Side::Right)),
                    distribution: Distribution::Repartition { join_key: right_join_key },
                },
            ),
            left_key: left_join_key,
            right_key: right_join_key,
        }),
{
    let left = JoinPlan::Exchange {
        input: Box::new(JoinPlan::Input(Side::Left)),
        distribution: create_repartitioning_distribution(left_join_key),
    };
    let right = JoinPlan::Exchange {
        input: Box::new(JoinPlan::Input(Side::Right)),
        distribution: create_repartitioning_distribution(right_join_key),
    };
    JoinPlan::EquiHashJoinLeft {
        left: Box::new(left),
        right: Box::new(right),
        left_key: left_join_key,
        right_key: right_join_key,
    }
}

/// Asymmetric repartitioning join: only the right input is shuffled.
pub fn create_asymmetric_repartitioning_join(left_join_key: usize, right_join_key: usize) -> (p:
    JoinPlan)
    ensures
        p == (JoinPlan::EquiHashJoinLeft {
            left: Box::new(JoinPlan::Input(Side::Left)),
            right: Box::new(
                JoinPlan::Exchange {
                    input: Box::new(JoinPlan::Input(Side::Right)),
                    distribution: Distribution::Repartition { join_key: right_join_key },
                },
            ),
            left_key: left_join_key,
            right_key: right_join_key,
        }),
{
    let right = JoinPlan::Exchange {
        input: Box::new(JoinPlan::Input(Side::Right)),
        distribution: create_repartitioning_distribution(right_join_key),
    };
    JoinPlan::EquiHashJoinLeft {
        left: Box::new(JoinPlan::Input(Side::Left)),
        right: Box::new(right),
        left_key: left_join_key,
        right_key: right_join_key,
    }
}

/// Replication join: the right input is broadcast to every peer.
pub fn create_replication_join(left_join_key: usize, right_join_key: usize) -> (p: JoinPlan)
    ensures
        p == (JoinPlan::EquiHashJoinLeft {
            left: Box::new(JoinPlan::Input(Side::Left)),
            right: Box::new(
                JoinPlan::Exchange {
                    input: Box::new(JoinPlan::Input(Side::Right)),
                    distribution: Distribution::Replicate,
                },
            ),
            left_key: left_join_key,
            right_key: right_join_key,
        }),
{
    let right = JoinPlan::Exchange {
        input: Box::new(JoinPlan::Input(Side::Right)),
        distribution: create_replication_distribution(),
    };
    JoinPlan::EquiHashJoinLeft {
        left: Box::new(JoinPlan::Input(Side::Left)),
        right: Box::new(right),
        left_key: left_join_key,
        right_key: right_join_key,
    }
}

/// Semi-join reduction: the right input is projected to its join key, the keys
/// are repartitioned, and they reduce the local left input by a left semi join.
pub fn create_semi_join_reduction_left(left_join_key: usize, right_join_key: usize) -> (p:
    JoinPlan)
    ensures
        p == (JoinPlan::LeftSemiJoin {
            left: Box::new(JoinPlan::Input(Side::Left)),
            right: Box::new(
                JoinPlan::Exchange {
                    input: Box::new(
                        JoinPlan::Projection {
                            input: Box::new(JoinPlan::Input(Side::Right)),
                            column: right_join_key,
                        },
                    ),
                    distribution: Distribution::Repartition { join_key: 0 },
                },
            ),
            left_key: left_join_key,
            right_key: 0,
        }),
{
    let projection = JoinPlan::Projection {
        input: Box::new(JoinPlan::Input(Side::Right)),
        column: right_join_key,
    };
    let exchange = JoinPlan::Exchange {
        input: Box::new(projection),
        distribution: create_repartitioning_distribution(0),
    };
    JoinPlan::LeftSemiJoin {
        left: Box::new(JoinPlan::Input(Side::Left)),
        right: Box::new(exchange),
        left_key: left_join_key,
        right_key: 0,
    }
}

} // verus!
