use vstd::prelude::*;
use vstd::string::StringExecFns;
use crate::cryptde::Key;
use crate::cryptde::bytes_equal;
use crate::encodings::base64_of;
use crate::encodings::base64_encode;
use crate::gossip::Gossip;
use crate::gossip::GossipNodeRecord;
use crate::gossip::GossipNodeRecordV;
use crate::logger::Logger;
use crate::logger::error_line;
use crate::neighborhood_database::NeighborhoodDatabase;
use crate::neighborhood_database::NeighborhoodDatabaseError;
use crate::neighborhood_database::NodeRecord;
use crate::neighborhood_database::RecordV;
use crate::neighborhood_database::InnerV;
use crate::neighborhood_database::DbV;
use crate::neighborhood_database::keys_contain;
use crate::neighborhood_database::unique_record_keys;
use crate::neighborhood_database::lemma_records_map_index;
use crate::neighborhood_database::lemma_records_map_update;
use crate::neighborhood_database::key_match;
use crate::neighborhood_database::lemma_db_key_match;
use crate::node_addr::IpAddr;
use crate::node_addr::ip_str;

verus! {

// The gossip acceptance algorithm: per-record absorption (admit unknown
// records, reconcile addresses, gate neighbor and signature updates on the
// version counter) followed by root edge induction for every record that
// carries an address.

/// The cheap validity filter: a record is dropped when its key is blank,
/// when a neighbor reference is blank, or when it lists itself as its own
/// neighbor.
pub open spec fn is_valid_record(g: GossipNodeRecordV) -> bool {
    &&& g.inner.public_key.len() > 0
    &&& !g.inner.neighbors.contains(Seq::<u8>::empty())
    &&& !g.inner.neighbors.contains(g.inner.public_key)
}

/// The log line for a record that names itself as a neighbor.
pub open spec fn self_neighbor_message(key: Seq<u8>) -> Seq<char> {
    "Gossip attempted to make node "@ + base64_of(key) + " neighbor to itself: ignoring"@
}

/// The log line for gossip that tries to change a stored IP address.
pub open spec fn ip_change_message(key: Seq<u8>, old_ip: IpAddr, new_ip: IpAddr) -> Seq<char> {
    "Gossip attempted to change IP address of node "@ + base64_of(key) + " from "@ + ip_str(old_ip)
        + " to "@ + ip_str(new_ip) + ": ignoring"@
}

/// What the validity filter logs for one record: at most one line.
pub open spec fn validation_message(g: GossipNodeRecordV) -> Seq<Seq<char>> {
    if g.inner.public_key.len() == 0 {
        seq!["Rejecting GossipNodeRecord with blank public key"@]
    } else if g.inner.neighbors.contains(Seq::<u8>::empty()) {
        seq!["Rejecting neighbor reference with blank public key"@]
    } else if g.inner.neighbors.contains(g.inner.public_key) {
        seq![self_neighbor_message(g.inner.public_key)]
    } else {
        Seq::empty()
    }
}

/// Absorbing one gossip record: admit it when unknown; otherwise adopt an
/// address into a record that has none, and let a strictly newer version
/// replace the neighbor list (when the sets differ) and the signatures
/// (when they differ). Yields the new database value, whether anything
/// changed, and the log lines written.
pub open spec fn absorb_one(db: DbV, g: GossipNodeRecordV) -> (DbV, bool, Seq<Seq<char>>) {
    if !is_valid_record(g) {
        (db, false, validation_message(g))
    } else if !db.records.contains_key(g.inner.public_key) {
        let rec = RecordV { inner: g.inner, signatures: Some(g.signatures) };
        (
            DbV {
                root_key: db.root_key,
                records: db.records.insert(g.inner.public_key, rec),
                ip_index: match g.inner.node_addr_opt {
                    Some(a) => db.ip_index.insert(a.ip, g.inner.public_key),
                    None => db.ip_index,
                },
            },
            true,
            Seq::empty(),
        )
    } else {
        let local = db.records[g.inner.public_key];
        let addr_adopted = g.inner.node_addr_opt is Some && local.inner.node_addr_opt is None;
        let msgs = if g.inner.node_addr_opt is Some && local.inner.node_addr_opt is Some {
            seq![
                ip_change_message(
                    g.inner.public_key,
                    local.inner.node_addr_opt->0.ip,
                    g.inner.node_addr_opt->0.ip,
                ),
            ]
        } else {
            Seq::empty()
        };
        let local1 = if addr_adopted {
            RecordV { inner: InnerV { node_addr_opt: g.inner.node_addr_opt, ..local.inner }, ..local }
        } else {
            local
        };
        if local.inner.version < g.inner.version {
            let neighbors_replaced = local.inner.neighbors.to_set() != g.inner.neighbors.to_set();
            let local2 = RecordV {
                inner: InnerV {
                    version: g.inner.version,
                    neighbors: if neighbors_replaced {
                        g.inner.neighbors
                    } else {
                        local1.inner.neighbors
                    },
                    ..local1.inner
                },
                ..local1
            };
            let sigs_replaced = local.signatures != Some(g.signatures);
            let local3 = RecordV { signatures: Some(g.signatures), ..local2 };
            (
                DbV { records: db.records.insert(g.inner.public_key, local3), ..db },
                addr_adopted || neighbors_replaced || sigs_replaced,
                msgs,
            )
        } else {
            (
                DbV { records: db.records.insert(g.inner.public_key, local1), ..db },
                addr_adopted,
                msgs,
            )
        }
    }
}

/// Phase A over a whole gossip message, in order.
pub open spec fn absorb_all(db: DbV, gs: Seq<GossipNodeRecordV>) -> (DbV, bool, Seq<Seq<char>>)
    decreases gs.len(),
{
    if gs.len() == 0 {
        (db, false, Seq::empty())
    } else {
        let (d1, c1, m1) = absorb_one(db, gs[0]);
        let (d2, c2, m2) = absorb_all(d1, gs.drop_first());
        (d2, c1 || c2, m1 + m2)
    }
}

/// Phase B for one record: a record that carries an address and is not the
/// root itself earns a root edge, provided its key resolves.
pub open spec fn induce_one(db: DbV, g: GossipNodeRecordV) -> (DbV, bool) {
    if g.inner.node_addr_opt is Some && g.inner.public_key != db.root_key
        && db.records.contains_key(g.inner.public_key) && !db.records[
        db.root_key
    ].inner.neighbors.contains(g.inner.public_key) {
        let root = db.records[db.root_key];
        (
            DbV {
                records: db.records.insert(
                    db.root_key,
                    RecordV {
                        inner: InnerV {
                            neighbors: root.inner.neighbors.push(g.inner.public_key),
                            ..root.inner
                        },
                        ..root
                    },
                ),
                ..db
            },
            true,
        )
    } else {
        (db, false)
    }
}

/// Phase B over a whole gossip message, in order.
pub open spec fn induce_all(db: DbV, gs: Seq<GossipNodeRecordV>) -> (DbV, bool)
    decreases gs.len(),
{
    if gs.len() == 0 {
        (db, false)
    } else {
        let (d1, c1) = induce_one(db, gs[0]);
        let (d2, c2) = induce_all(d1, gs.drop_first());
        (d2, c1 || c2)
    }
}

/// The root's version advanced by one, after phase B created an edge.
pub open spec fn bump_root_version(db: DbV) -> DbV {
    let root = db.records[db.root_key];
    DbV {
        records: db.records.insert(
            db.root_key,
            RecordV {
                inner: InnerV { version: (root.inner.version + 1) as u32, ..root.inner },
                ..root
            },
        ),
        ..db
    }
}

/// The whole merge: absorb each record, then induce root edges, then bump
/// the root version once if any edge was new. Yields the final database
/// value, the changed flag, and the log lines written.
pub open spec fn spec_handle(db: DbV, gs: Seq<GossipNodeRecordV>) -> (DbV, bool, Seq<Seq<char>>) {
    let (d1, c1, m) = absorb_all(db, gs);
    let (d2, c2) = induce_all(d1, gs);
    ((if c2 { bump_root_version(d2) } else { d2 }), c1 || c2, m)
}

/// Applies incoming gossip to the database and reports whether anything
/// actually changed, collecting its ERROR lines in its logger.
pub struct GossipAcceptorReal {
    pub logger: Logger,
}

impl GossipAcceptorReal {
    pub fn new() -> (r: GossipAcceptorReal)
        ensures
            r.logger.name@ == "GossipAcceptorReal"@,
            r.logger.entries.deep_view() == Seq::<Seq<char>>::empty(),
    {
        GossipAcceptorReal { logger: Logger::new("GossipAcceptorReal") }
    }

    /// The validity filter, logging why a record is dropped.
    fn is_not_invalid(&mut self, gnr: &GossipNodeRecord) -> (r: bool)
        ensures
            r == is_valid_record(gnr@),
            final(self).logger.name == old(self).logger.name,
            final(self).logger.entries.deep_view() == old(self).logger.entries.deep_view()
                + validation_message(gnr@).map_values(
                |m: Seq<char>| error_line(old(self).logger.name@, m),
            ),
    {
        let ghost pre = self.logger.entries.deep_view();
        let ghost name = self.logger.name@;
        let empty_key = Key::new(&[]);
        proof {
            assert(empty_key@ =~= Seq::<u8>::empty());
        }
        let r = if gnr.inner.public_key.data.len() == 0 {
            self.logger.error(String::from_str("Rejecting GossipNodeRecord with blank public key"));
            false
        } else if keys_contain(&gnr.inner.neighbors, &empty_key) {
            self.logger.error(
                String::from_str("Rejecting neighbor reference with blank public key"),
            );
            false
        } else if keys_contain(&gnr.inner.neighbors, &gnr.inner.public_key) {
            let mut msg = String::from_str("Gossip attempted to make node ");
            let rendered = base64_encode(&gnr.inner.public_key.data);
            msg.append(rendered.as_str());
            msg.append(" neighbor to itself: ignoring");
            proof {
                assert(msg@ =~= self_neighbor_message(gnr@.inner.public_key));
            }
            self.logger.error(msg);
            false
        } else {
            true
        };
        proof {
            assert(self.logger.entries.deep_view() =~= pre + validation_message(gnr@).map_values(
                |m: Seq<char>| error_line(name, m),
            ));
        }
        r
    }

    /// Address reconciliation for one known record: adopt an address into a
    /// record that has none; log and refuse an attempt to change one.
    fn update_node_addrs(&mut self, gnr_ref: &GossipNodeRecord, node_record: &mut NodeRecord) -> (r:
        bool)
        ensures
            final(self).logger.name == old(self).logger.name,
            match (gnr_ref@.inner.node_addr_opt, old(node_record)@.inner.node_addr_opt) {
                (Some(new_a), None) => r == true && final(node_record)@ == (RecordV {
                    inner: InnerV {
                        node_addr_opt: Some(new_a),
                        ..old(node_record)@.inner
                    },
                    ..old(node_record)@
                }) && final(self).logger.entries.deep_view() == old(self).logger.entries.deep_view(),
                (Some(new_a), Some(old_a)) => r == false && final(node_record)@ == old(node_record)@ && final(self).logger.entries.deep_view() == old(self).logger.entries.deep_view().push(
                    error_line(
                        old(self).logger.name@,
                        ip_change_message(gnr_ref@.inner.public_key, old_a.ip, new_a.ip),
                    ),
                ),
                (None, _) => r == false && final(node_record)@ == old(node_record)@ && final(self).logger.entries.deep_view() == old(self).logger.entries.deep_view(),
            },
    {
        match &gnr_ref.inner.node_addr_opt {
            Some(new_node_addr_ref) => {
                match node_record.set_node_addr(new_node_addr_ref) {
                    Ok(_) => true,
                    Err(NeighborhoodDatabaseError::NodeAddrAlreadySet(old_addr)) => {
                        let mut msg = String::from_str(
                            "Gossip attempted to change IP address of node ",
                        );
                        let rendered = base64_encode(&gnr_ref.inner.public_key.data);
                        msg.append(rendered.as_str());
                        msg.append(" from ");
                        let old_ip = old_addr.ip_addr().to_string();
                        msg.append(old_ip.as_str());
                        msg.append(" to ");
                        let new_ip = new_node_addr_ref.ip_addr().to_string();
                        msg.append(new_ip.as_str());
                        msg.append(": ignoring");
                        proof {
                            assert(msg@ =~= ip_change_message(
                                gnr_ref@.inner.public_key,
                                old(node_record)@.inner.node_addr_opt->0.ip,
                                gnr_ref@.inner.node_addr_opt->0.ip,
                            ));
                        }
                        self.logger.error(msg);
                        false
                    },
                    Err(_) => {
                        proof {
                            assert(false);
                        }
                        false
                    },
                }
            },
            None => false,
        }
    }

    /// Replaces the neighbor list wholesale when the incoming set differs.
    fn update_neighbors(&self, gnr_ref: &GossipNodeRecord, node_record: &mut NodeRecord) -> (r:
        bool)
        ensures
            r == (old(node_record)@.inner.neighbors.to_set()
                != gnr_ref@.inner.neighbors.to_set()),
            r ==> final(node_record)@ == (RecordV {
                inner: InnerV { neighbors: gnr_ref@.inner.neighbors, ..old(node_record)@.inner },
                ..old(node_record)@
            }),
            !r ==> final(node_record)@ == old(node_record)@,
    {
        let unchanged = key_sets_equal(node_record.neighbors(), &gnr_ref.inner.neighbors);
        if unchanged {
            false
        } else {
            let ghost pre = node_record@;
            let neighbors = node_record.neighbors_mut();
            neighbors.clear();
            let n = gnr_ref.inner.neighbors.len();
            let mut i: usize = 0;
            while i < n
                invariant
                    n == gnr_ref.inner.neighbors@.len(),
                    0 <= i <= n,
                    neighbors.deep_view() =~= gnr_ref@.inner.neighbors.take(i as int),
                decreases n - i,
            {
                let ghost prev = neighbors.deep_view();
                neighbors.push(gnr_ref.inner.neighbors[i].clone());
                proof {
                    assert(neighbors.deep_view() =~= prev.push(
                        gnr_ref@.inner.neighbors[i as int],
                    ));
                    assert(neighbors.deep_view() =~= gnr_ref@.inner.neighbors.take(i + 1 as int));
                }
                i = i + 1;
            }
            proof {
                assert(gnr_ref@.inner.neighbors.take(n as int) =~= gnr_ref@.inner.neighbors);
            }
            proof {
                assert(node_record@ =~= (RecordV {
                    inner: InnerV { neighbors: gnr_ref@.inner.neighbors, ..pre.inner },
                    ..pre
                }));
            }
            true
        }
    }

    /// Stores the incoming signatures, reporting whether they differ.
    fn update_signatures(&self, gnr_ref: &GossipNodeRecord, node_record: &mut NodeRecord) -> (r:
        bool)
        ensures
            final(node_record)@ == (RecordV {
                signatures: Some(gnr_ref@.signatures),
                ..old(node_record)@
            }),
            r == (old(node_record)@.signatures != Some(gnr_ref@.signatures)),
    {
        node_record.set_signatures(gnr_ref.signatures.clone())
    }

    /// Advances the stored version to the incoming one.
    fn update_version(&self, gnr_ref: &GossipNodeRecord, node_record: &mut NodeRecord)
        ensures
            final(node_record)@ == (RecordV {
                inner: InnerV { version: gnr_ref@.inner.version, ..old(node_record)@.inner },
                ..old(node_record)@
            }),
    {
        node_record.set_version(gnr_ref.inner.version);
    }
}

/// Compares two key lists as sets.
pub fn key_sets_equal(a: &Vec<Key>, b: &Vec<Key>) -> (r: bool)
    ensures
        r == (a.deep_view().to_set() == b.deep_view().to_set()),
{
    let na = a.len();
    let mut i: usize = 0;
    while i < na
        invariant
            na == a@.len(),
            0 <= i <= na,
            forall|j: int| 0 <= j < i ==> b.deep_view().contains(#[trigger] a.deep_view()[j]),
        decreases na - i,
    {
        if !keys_contain(b, &a[i]) {
            proof {
                assert(a.deep_view().to_set().contains(a.deep_view()[i as int]));
                assert(!b.deep_view().to_set().contains(a.deep_view()[i as int]));
            }
            return false;
        }
        i = i + 1;
    }
    let nb = b.len();
    let mut k: usize = 0;
    while k < nb
        invariant
            nb == b@.len(),
            na == a@.len(),
            0 <= k <= nb,
            forall|j: int| 0 <= j < na ==> b.deep_view().contains(#[trigger] a.deep_view()[j]),
            forall|j: int| 0 <= j < k ==> a.deep_view().contains(#[trigger] b.deep_view()[j]),
        decreases nb - k,
    {
        if !keys_contain(a, &b[k]) {
            proof {
                assert(b.deep_view().to_set().contains(b.deep_view()[k as int]));
                assert(!a.deep_view().to_set().contains(b.deep_view()[k as int]));
            }
            return false;
        }
        k = k + 1;
    }
    proof {
        assert forall|x: Seq<u8>| a.deep_view().to_set().contains(x) implies b.deep_view().to_set().contains(
            x,
        ) by {
            let j = choose|j: int| 0 <= j < a.deep_view().len() && a.deep_view()[j] == x;
            assert(b.deep_view().contains(a.deep_view()[j]));
        }
        assert forall|x: Seq<u8>| b.deep_view().to_set().contains(x) implies a.deep_view().to_set().contains(
            x,
        ) by {
            let j = choose|j: int| 0 <= j < b.deep_view().len() && b.deep_view()[j] == x;
            assert(a.deep_view().contains(b.deep_view()[j]));
        }
        assert(a.deep_view().to_set() =~= b.deep_view().to_set());
    }
    true
}

impl GossipAcceptorReal {
    /// Phase A: absorb each gossip record in order.
    fn handle_node_records(&mut self, database: &mut NeighborhoodDatabase, gossip_ref: &Gossip) -> (r:
        bool)
        requires
            old(database).wf(),
        ensures
            final(database).wf(),
            final(self).logger.name == old(self).logger.name,
            ({
                let (d, c, m) = absorb_all(old(database)@, gossip_ref@);
                &&& final(database)@ == d
                &&& r == c
                &&& final(self).logger.entries.deep_view() == old(self).logger.entries.deep_view()
                    + m.map_values(|mm: Seq<char>| error_line(old(self).logger.name@, mm))
            }),
    {
        let mut changed = false;
        let ghost mut msgs: Seq<Seq<char>> = Seq::empty();
        let ghost name = self.logger.name@;
        let ghost entries0 = self.logger.entries.deep_view();
        let n = gossip_ref.node_records.len();
        let mut i: usize = 0;
        proof {
            assert(entries0 + msgs.map_values(|mm: Seq<char>| error_line(name, mm)) =~= entries0);
            assert(gossip_ref@.skip(0) =~= gossip_ref@);
            assert(msgs + absorb_all(database@, gossip_ref@).2 =~= absorb_all(
                database@,
                gossip_ref@,
            ).2);
        }
        while i < n
            invariant
                n == gossip_ref.node_records@.len(),
                0 <= i <= n,
                database.wf(),
                self.logger.name == old(self).logger.name,
                self.logger.name@ == name,
                self.logger.entries.deep_view() == entries0 + msgs.map_values(
                    |mm: Seq<char>| error_line(name, mm),
                ),
                ({
                    let (d, c, m) = absorb_all(old(database)@, gossip_ref@);
                    let (d2, c2, m2) = absorb_all(database@, gossip_ref@.skip(i as int));
                    &&& d == d2
                    &&& c == (changed || c2)
                    &&& m == msgs + m2
                }),
            decreases n - i,
        {
            let ghost pre = *database;
            let ghost g = gossip_ref@[i as int];
            let ghost entries_pre = self.logger.entries.deep_view();
            proof {
                assert(gossip_ref@.skip(i as int)[0] == g);
                assert(gossip_ref@.skip(i as int).drop_first() =~= gossip_ref@.skip(i + 1));
            }
            let gnr = &gossip_ref.node_records[i];
            let valid = self.is_not_invalid(gnr);
            if valid {
                match database.node_index(&gnr.inner.public_key) {
                    Some(idx) => {
                        let ghost local = pre@.records[g.inner.public_key];
                        let rec = database.record_at_mut(idx);
                        let node_addr_changed = self.update_node_addrs(gnr, rec);
                        let newer = rec.version() < gnr.inner.version;
                        let mut step_changed = node_addr_changed;
                        if newer {
                            self.update_version(gnr, rec);
                            let n_ch = self.update_neighbors(gnr, rec);
                            let s_ch = self.update_signatures(gnr, rec);
                            step_changed = node_addr_changed || n_ch || s_ch;
                        }
                        proof {
                            let step = absorb_one(pre@, g);
                            lemma_records_map_index(pre.recs(), idx as int);
                            assert(pre.recs()[idx as int] == local);
                            let rv = database.by_public_key@[idx as int]@;
                            assert(rv =~= step.0.records[g.inner.public_key]);
                            assert(database.recs() =~= pre.recs().update(idx as int, rv));
                            lemma_records_map_update(pre.recs(), idx as int, rv);
                            assert(database.ips() =~= pre.ips());
                            assert(database@ =~= step.0);
                            assert(step_changed == step.1);
                            assert(unique_record_keys(database.recs())) by {
                                assert(forall|j: int|
                                    0 <= j < database.recs().len() ==> (#[trigger] database.recs()[
                                        j
                                    ]).inner.public_key == pre.recs()[j].inner.public_key);
                            }
                            let sv = database@;
                            assert(sv.records.contains_key(sv.root_key));
                            assert forall|ip: IpAddr| #[trigger] sv.ip_index.dom().contains(
                                ip,
                            ) implies sv.records.contains_key(sv.ip_index[ip]) && sv.records[
                                sv.ip_index[ip]
                            ].inner.node_addr_opt is Some && sv.records[
                                sv.ip_index[ip]
                            ].inner.node_addr_opt->0.ip == ip by {
                                assert(pre@.ip_index.dom().contains(ip));
                                let k = pre@.ip_index[ip];
                                if k == g.inner.public_key {
                                    assert(pre@.records[k].inner.node_addr_opt is Some);
                                    assert(sv.records[k].inner.node_addr_opt == pre@.records[
                                        k
                                    ].inner.node_addr_opt);
                                }
                            }
                            assert(database.wf());
                        }
                        changed = step_changed || changed;
                    },
                    None => {
                        let new_record = gnr.to_node_record();
                        match database.add_node(&new_record) {
                            Ok(_) => {},
                            Err(_) => {
                                proof {
                                    assert(false);
                                }
                            },
                        }
                        proof {
                            let step = absorb_one(pre@, g);
                            assert(new_record@ =~= (RecordV {
                                inner: g.inner,
                                signatures: Some(g.signatures),
                            }));
                            assert(database@ =~= step.0);
                        }
                        changed = true;
                    },
                }
            }
            proof {
                let step = absorb_one(pre@, g);
                assert(self.logger.entries.deep_view() =~= entries_pre + step.2.map_values(
                    |mm: Seq<char>| error_line(name, mm),
                )) by {
                    if !is_valid_record(g) {
                        assert(step.2 == validation_message(g));
                    } else {
                        assert(validation_message(g) =~= Seq::<Seq<char>>::empty());
                        assert(validation_message(g).map_values(
                            |mm: Seq<char>| error_line(name, mm),
                        ) =~= Seq::<Seq<char>>::empty());
                        assert(entries_pre + validation_message(g).map_values(
                            |mm: Seq<char>| error_line(name, mm),
                        ) =~= entries_pre);
                        if pre@.records.contains_key(g.inner.public_key) {
                            if g.inner.node_addr_opt is Some && pre@.records[
                                g.inner.public_key
                            ].inner.node_addr_opt is Some {
                                let line = error_line(
                                    name,
                                    ip_change_message(
                                        g.inner.public_key,
                                        pre@.records[g.inner.public_key].inner.node_addr_opt->0.ip,
                                        g.inner.node_addr_opt->0.ip,
                                    ),
                                );
                                assert(self.logger.entries.deep_view() =~= entries_pre.push(line));
                                assert(step.2.map_values(|mm: Seq<char>| error_line(name, mm))
                                    =~= seq![line]);
                                assert(entries_pre.push(line) =~= entries_pre + seq![line]);
                            } else {
                                assert(step.2 =~= Seq::<Seq<char>>::empty());
                                assert(step.2.map_values(|mm: Seq<char>| error_line(name, mm))
                                    =~= Seq::<Seq<char>>::empty());
                                assert(entries_pre + step.2.map_values(
                                    |mm: Seq<char>| error_line(name, mm),
                                ) =~= entries_pre);
                            }
                        } else {
                            assert(step.2 =~= Seq::<Seq<char>>::empty());
                            assert(step.2.map_values(|mm: Seq<char>| error_line(name, mm)) =~= Seq::<
                                Seq<char>,
                            >::empty());
                            assert(entries_pre + step.2.map_values(
                                |mm: Seq<char>| error_line(name, mm),
                            ) =~= entries_pre);
                        }
                    }
                }
                let old_msgs = msgs;
                msgs = msgs + step.2;
                assert(msgs.map_values(|mm: Seq<char>| error_line(name, mm)) =~= old_msgs.map_values(
                    |mm: Seq<char>| error_line(name, mm),
                ) + step.2.map_values(|mm: Seq<char>| error_line(name, mm)));
                assert(self.logger.entries.deep_view() =~= entries0 + msgs.map_values(
                    |mm: Seq<char>| error_line(name, mm),
                ));
                let t = absorb_all(old(database)@, gossip_ref@);
                let tn = absorb_all(database@, gossip_ref@.skip(i + 1));
                assert(t.2 =~= msgs + tn.2);
            }
            i = i + 1;
        }
        proof {
            assert(gossip_ref@.skip(n as int) =~= Seq::<GossipNodeRecordV>::empty());
            let t = absorb_all(old(database)@, gossip_ref@);
            assert(t.2 =~= msgs);
        }
        changed
    }
}

/// Absorption keeps the root record present, keeps the root key, and keeps
/// the root's version below the counter's ceiling when every incoming
/// version is below it.
pub proof fn lemma_absorb_root_version(db: DbV, gs: Seq<GossipNodeRecordV>)
    requires
        db.records.contains_key(db.root_key),
        db.records[db.root_key].inner.version < u32::MAX,
        forall|i: int| 0 <= i < gs.len() ==> (#[trigger] gs[i]).inner.version < u32::MAX,
    ensures
        ({
            let (d, c, m) = absorb_all(db, gs);
            &&& d.root_key == db.root_key
            &&& d.records.contains_key(d.root_key)
            &&& d.records[d.root_key].inner.version < u32::MAX
        }),
    decreases gs.len(),
{
    if gs.len() > 0 {
        let g = gs[0];
        let (d1, c1, m1) = absorb_one(db, g);
        assert(d1.root_key == db.root_key);
        assert(d1.records.contains_key(db.root_key));
        assert(d1.records[db.root_key].inner.version < u32::MAX);
        assert(forall|i: int|
            0 <= i < gs.drop_first().len() ==> (#[trigger] gs.drop_first()[i]).inner.version
                < u32::MAX);
        lemma_absorb_root_version(d1, gs.drop_first());
    }
}

impl GossipAcceptorReal {
    /// Phase B: give the root an edge to every gossiped node that carries an
    /// address, and advance the root's version once if any edge is new.
    fn add_ip_neighbors(&self, database: &mut NeighborhoodDatabase, gossip_ref: &Gossip) -> (r:
        bool)
        requires
            old(database).wf(),
            old(database)@.records[old(database)@.root_key].inner.version < u32::MAX,
        ensures
            final(database).wf(),
            ({
                let (d, c) = induce_all(old(database)@, gossip_ref@);
                &&& final(database)@ == if c {
                    bump_root_version(d)
                } else {
                    d
                }
                &&& r == c
            }),
    {
        let root_key = database.root().public_key().clone();
        proof {
            assert(root_key@ == database@.root_key);
        }
        let mut changed = false;
        let n = gossip_ref.node_records.len();
        let mut i: usize = 0;
        proof {
            assert(gossip_ref@.skip(0) =~= gossip_ref@);
        }
        while i < n
            invariant
                n == gossip_ref.node_records@.len(),
                0 <= i <= n,
                database.wf(),
                root_key@ == database@.root_key,
                database@.root_key == old(database)@.root_key,
                database@.records.contains_key(database@.root_key),
                database@.records[database@.root_key].inner.version == old(database)@.records[old(
                    database,
                )@.root_key].inner.version,
                ({
                    let (d, c) = induce_all(old(database)@, gossip_ref@);
                    let (d2, c2) = induce_all(database@, gossip_ref@.skip(i as int));
                    &&& d == d2
                    &&& c == (changed || c2)
                }),
            decreases n - i,
        {
            let ghost pre = *database;
            let ghost g = gossip_ref@[i as int];
            proof {
                assert(gossip_ref@.skip(i as int)[0] == g);
                assert(gossip_ref@.skip(i as int).drop_first() =~= gossip_ref@.skip(i + 1));
            }
            let gnr = &gossip_ref.node_records[i];
            let has_addr = match &gnr.inner.node_addr_opt {
                Some(_) => true,
                None => false,
            };
            if has_addr && !bytes_equal(&gnr.inner.public_key.data, &root_key.data) {
                match database.add_neighbor(&root_key, &gnr.inner.public_key) {
                    Ok(true) => {
                        proof {
                            let step = induce_one(pre@, g);
                            assert(database@ =~= step.0);
                        }
                        changed = true;
                    },
                    Ok(false) => {
                        proof {
                            assert(induce_one(pre@, g).0 == pre@);
                        }
                    },
                    Err(_) => {
                        proof {
                            assert(induce_one(pre@, g).0 == pre@);
                        }
                    },
                }
            } else {
                proof {
                    assert(induce_one(pre@, g).0 == pre@);
                    assert(induce_one(pre@, g).1 == false);
                }
            }
            i = i + 1;
        }
        proof {
            assert(gossip_ref@.skip(n as int) =~= Seq::<GossipNodeRecordV>::empty());
        }
        if changed {
            let ghost pre2 = *database;
            let ri = match database.node_index(&root_key) {
                Some(ri) => ri,
                None => {
                    proof {
                        assert(false);
                    }
                    0
                },
            };
            let rec = database.record_at_mut(ri);
            rec.increment_version();
            proof {
                lemma_records_map_index(pre2.recs(), ri as int);
                let root0 = pre2@.records[pre2@.root_key];
                assert(pre2.recs()[ri as int] == root0);
                let rv = database.by_public_key@[ri as int]@;
                assert(rv =~= (RecordV {
                    inner: InnerV { version: (root0.inner.version + 1) as u32, ..root0.inner },
                    ..root0
                }));
                assert(database.recs() =~= pre2.recs().update(ri as int, rv));
                lemma_records_map_update(pre2.recs(), ri as int, rv);
                assert(database.ips() =~= pre2.ips());
                assert(database@ =~= bump_root_version(pre2@));
                assert(unique_record_keys(database.recs())) by {
                    assert(forall|j: int|
                        0 <= j < database.recs().len() ==> (#[trigger] database.recs()[
                            j
                        ]).inner.public_key == pre2.recs()[j].inner.public_key);
                }
                let sv = database@;
                assert(sv.records.contains_key(sv.root_key));
                assert forall|ip: IpAddr| #[trigger] sv.ip_index.dom().contains(ip) implies sv.records.contains_key(
                    sv.ip_index[ip],
                ) && sv.records[sv.ip_index[ip]].inner.node_addr_opt is Some && sv.records[
                    sv.ip_index[ip]
                ].inner.node_addr_opt->0.ip == ip by {
                    assert(pre2@.ip_index.dom().contains(ip));
                    let k = pre2@.ip_index[ip];
                    if k == pre2@.root_key {
                        assert(sv.records[k].inner.node_addr_opt == pre2@.records[
                            k
                        ].inner.node_addr_opt);
                    }
                }
                assert(database.wf());
            }
        }
        changed
    }

    /// Applies incoming gossip to the database: phase A absorbs each record,
    /// phase B induces root edges for records that carry an address. The
    /// result reports whether any information actually moved, which drives
    /// whether the update is gossipped onward.
    pub fn handle(&mut self, database: &mut NeighborhoodDatabase, gossip: Gossip) -> (r: bool)
        requires
            old(database).wf(),
            old(database)@.records[old(database)@.root_key].inner.version < u32::MAX,
            forall|i: int| 0 <= i < gossip@.len() ==> (#[trigger] gossip@[i]).inner.version
                < u32::MAX,
        ensures
            final(database).wf(),
            final(self).logger.name == old(self).logger.name,
            ({
                let (d, c, m) = spec_handle(old(database)@, gossip@);
                &&& final(database)@ == d
                &&& r == c
                &&& final(self).logger.entries.deep_view() == old(self).logger.entries.deep_view()
                    + m.map_values(|mm: Seq<char>| error_line(old(self).logger.name@, mm))
            }),
            // address immutability: an address once stored survives any merge
            forall|k: Seq<u8>|
                #[trigger] old(database)@.records.contains_key(k) && old(database)@.records[
                    k
                ].inner.node_addr_opt is Some ==> final(database)@.records.contains_key(k) && final(database)@.records[k].inner.node_addr_opt == old(database)@.records[k].inner.node_addr_opt,
            // version monotonicity: no stored version ever decreases
            forall|k: Seq<u8>|
                #[trigger] old(database)@.records.contains_key(k) ==> final(database)@.records.contains_key(k) && old(database)@.records[k].inner.version <= final(database)@.records[k].inner.version,
            // no self-neighbor: a database without self-loops stays that way
            no_self_neighbors(old(database)@) ==> no_self_neighbors(final(database)@),
            // changed-flag soundness: a `false` result means nothing moved,
            // except that version counters may have advanced
            !r ==> same_except_versions(old(database)@, final(database)@),
    {
        proof {
            lemma_db_key_match(database);
        }
        let mut changed = self.handle_node_records(database, &gossip);
        proof {
            lemma_absorb_root_version(old(database)@, gossip@);
        }
        changed = self.add_ip_neighbors(database, &gossip) || changed;
        proof {
            if no_self_neighbors(old(database)@) {
                lemma_no_self_neighbor(old(database)@, gossip@);
            }
            lemma_changed_flag_soundness(old(database)@, gossip@);
            assert forall|k: Seq<u8>| #[trigger] old(database)@.records.contains_key(
                k,
            ) implies database@.records.contains_key(k) && old(database)@.records[k].inner.version
                <= database@.records[k].inner.version by {
                lemma_version_monotonicity(old(database)@, gossip@, k);
            }
            assert forall|k: Seq<u8>|
                #[trigger] old(database)@.records.contains_key(k) && old(database)@.records[
                    k
                ].inner.node_addr_opt is Some implies database@.records.contains_key(k)
                && database@.records[k].inner.node_addr_opt == old(database)@.records[
                k
            ].inner.node_addr_opt by {
                lemma_address_immutability(old(database)@, gossip@, k);
            }
        }
        changed
    }
}

/// No record lists itself among its neighbors.
pub open spec fn no_self_neighbors(d: DbV) -> bool {
    forall|k: Seq<u8>|
        d.records.contains_key(k) ==> !(#[trigger] d.records[k]).inner.neighbors.contains(k)
}

/// Two records identical in everything but the version counter, which may
/// only have advanced.
pub open spec fn rec_same_mod_version(r1: RecordV, r2: RecordV) -> bool {
    &&& r2.inner.public_key == r1.inner.public_key
    &&& r2.inner.node_addr_opt == r1.inner.node_addr_opt
    &&& r2.inner.is_bootstrap_node == r1.inner.is_bootstrap_node
    &&& r2.inner.neighbors == r1.inner.neighbors
    &&& r2.signatures == r1.signatures
    &&& r1.inner.version <= r2.inner.version
}

/// Two database values identical except that stored versions may have
/// advanced.
pub open spec fn same_except_versions(d1: DbV, d2: DbV) -> bool {
    &&& d2.root_key == d1.root_key
    &&& d2.ip_index == d1.ip_index
    &&& d2.records.dom() == d1.records.dom()
    &&& forall|k: Seq<u8>|
        d1.records.contains_key(k) ==> rec_same_mod_version(
            d1.records[k],
            #[trigger] d2.records[k],
        )
}

proof fn lemma_absorb_one_preserves(db: DbV, g: GossipNodeRecordV)
    requires
        key_match(db),
    ensures
        ({
            let (d, c, m) = absorb_one(db, g);
            &&& d.root_key == db.root_key
            &&& key_match(d)
            &&& forall|k: Seq<u8>| db.records.contains_key(k) ==> d.records.contains_key(k)
            &&& forall|k: Seq<u8>|
                #[trigger] db.records.contains_key(k) && db.records[k].inner.node_addr_opt
                    is Some ==> d.records[k].inner.node_addr_opt == db.records[
                    k
                ].inner.node_addr_opt
            &&& forall|k: Seq<u8>|
                #[trigger] db.records.contains_key(k) ==> db.records[k].inner.version <= d.records[
                    k
                ].inner.version
            &&& (no_self_neighbors(db) ==> no_self_neighbors(d))
            &&& (!c ==> same_except_versions(db, d))
        }),
{
    let (d, c, m) = absorb_one(db, g);
    if !is_valid_record(g) {
        assert(!c);
        assert(d.records.dom() =~= db.records.dom());
        assert(same_except_versions(db, d));
    } else if !db.records.contains_key(g.inner.public_key) {
        let key = g.inner.public_key;
        assert(c);
        assert forall|k: Seq<u8>| d.records.contains_key(k) implies (
        #[trigger] d.records[k]).inner.public_key == k by {
            if k != key {
                assert(db.records.contains_key(k));
            }
        }
        assert(no_self_neighbors(db) ==> no_self_neighbors(d)) by {
            if no_self_neighbors(db) {
                assert forall|k: Seq<u8>| d.records.contains_key(k) implies !(
                #[trigger] d.records[k]).inner.neighbors.contains(k) by {
                    if k == key {
                        assert(!g.inner.neighbors.contains(key));
                    } else {
                        assert(db.records.contains_key(k));
                    }
                }
            }
        }
    } else {
        let key = g.inner.public_key;
        let local = db.records[key];
        assert(local.inner.public_key == key);
        assert forall|k: Seq<u8>| d.records.contains_key(k) implies (
        #[trigger] d.records[k]).inner.public_key == k by {
            if k != key {
                assert(db.records.contains_key(k));
            }
        }
        assert(no_self_neighbors(db) ==> no_self_neighbors(d)) by {
            if no_self_neighbors(db) {
                assert forall|k: Seq<u8>| d.records.contains_key(k) implies !(
                #[trigger] d.records[k]).inner.neighbors.contains(k) by {
                    if k == key {
                        assert(!g.inner.neighbors.contains(key));
                        assert(!local.inner.neighbors.contains(key));
                    } else {
                        assert(db.records.contains_key(k));
                    }
                }
            }
        }
        if !c {
            let addr_adopted = g.inner.node_addr_opt is Some && local.inner.node_addr_opt is None;
            assert(!addr_adopted);
            assert(d.records.dom() =~= db.records.dom());
            assert forall|k: Seq<u8>| db.records.contains_key(k) implies rec_same_mod_version(
                db.records[k],
                #[trigger] d.records[k],
            ) by {
                if k == key {
                    if local.inner.version < g.inner.version {
                        assert(local.inner.neighbors.to_set() == g.inner.neighbors.to_set());
                        assert(local.signatures == Some(g.signatures));
                        assert(d.records[k].inner.neighbors == local.inner.neighbors);
                    }
                }
            }
            assert(same_except_versions(db, d));
        }
    }
}

proof fn lemma_absorb_all_preserves(db: DbV, gs: Seq<GossipNodeRecordV>)
    requires
        key_match(db),
    ensures
        ({
            let (d, c, m) = absorb_all(db, gs);
            &&& d.root_key == db.root_key
            &&& key_match(d)
            &&& forall|k: Seq<u8>| db.records.contains_key(k) ==> d.records.contains_key(k)
            &&& forall|k: Seq<u8>|
                #[trigger] db.records.contains_key(k) && db.records[k].inner.node_addr_opt
                    is Some ==> d.records[k].inner.node_addr_opt == db.records[
                    k
                ].inner.node_addr_opt
            &&& forall|k: Seq<u8>|
                #[trigger] db.records.contains_key(k) ==> db.records[k].inner.version <= d.records[
                    k
                ].inner.version
            &&& (no_self_neighbors(db) ==> no_self_neighbors(d))
            &&& (!c ==> same_except_versions(db, d))
        }),
    decreases gs.len(),
{
    if gs.len() > 0 {
        let (d1, c1, m1) = absorb_one(db, gs[0]);
        lemma_absorb_one_preserves(db, gs[0]);
        lemma_absorb_all_preserves(d1, gs.drop_first());
        let (d, c, m) = absorb_all(db, gs);
        if !c {
            assert(same_except_versions(db, d1));
            assert(same_except_versions(d1, d));
            assert(d.records.dom() =~= db.records.dom());
            assert forall|k: Seq<u8>| db.records.contains_key(k) implies rec_same_mod_version(
                db.records[k],
                #[trigger] d.records[k],
            ) by {
                assert(rec_same_mod_version(db.records[k], d1.records[k]));
                assert(d1.records.contains_key(k));
                assert(rec_same_mod_version(d1.records[k], d.records[k]));
            }
        }
    }
}

proof fn lemma_induce_all_preserves(db: DbV, gs: Seq<GossipNodeRecordV>)
    requires
        key_match(db),
        db.records.contains_key(db.root_key),
    ensures
        ({
            let (d, c) = induce_all(db, gs);
            &&& d.root_key == db.root_key
            &&& d.ip_index == db.ip_index
            &&& d.records.dom() == db.records.dom()
            &&& key_match(d)
            &&& forall|k: Seq<u8>|
                k != db.root_key && db.records.contains_key(k) ==> #[trigger] d.records[k]
                    == db.records[k]
            &&& d.records.contains_key(db.root_key)
            &&& d.records[db.root_key].inner.public_key == db.records[
                db.root_key
            ].inner.public_key
            &&& d.records[db.root_key].inner.node_addr_opt == db.records[
                db.root_key
            ].inner.node_addr_opt
            &&& d.records[db.root_key].inner.is_bootstrap_node == db.records[
                db.root_key
            ].inner.is_bootstrap_node
            &&& d.records[db.root_key].inner.version == db.records[db.root_key].inner.version
            &&& d.records[db.root_key].signatures == db.records[db.root_key].signatures
            &&& (no_self_neighbors(db) ==> no_self_neighbors(d))
            &&& (!c ==> d == db)
        }),
    decreases gs.len(),
{
    if gs.len() > 0 {
        let g = gs[0];
        let (d1, c1) = induce_one(db, g);
        assert(d1.records.dom() =~= db.records.dom());
        assert(key_match(d1)) by {
            assert forall|k: Seq<u8>| d1.records.contains_key(k) implies (
            #[trigger] d1.records[k]).inner.public_key == k by {
                assert(db.records.contains_key(k));
            }
        }
        assert(no_self_neighbors(db) ==> no_self_neighbors(d1)) by {
            if no_self_neighbors(db) && c1 {
                assert forall|k: Seq<u8>| d1.records.contains_key(k) implies !(
                #[trigger] d1.records[k]).inner.neighbors.contains(k) by {
                    assert(db.records.contains_key(k));
                    if k == db.root_key {
                        assert(g.inner.public_key != db.root_key);
                        assert(!db.records[k].inner.neighbors.contains(k));
                    }
                }
            }
        }
        lemma_induce_all_preserves(d1, gs.drop_first());
        let (d, c) = induce_all(db, gs);
        assert(d.records.dom() =~= db.records.dom());
    }
}

/// Law: address immutability. Once a record's address is set, no gossip
/// merge replaces or clears it.
pub proof fn lemma_address_immutability(db: DbV, gs: Seq<GossipNodeRecordV>, k: Seq<u8>)
    requires
        key_match(db),
        db.records.contains_key(db.root_key),
        db.records.contains_key(k),
        db.records[k].inner.node_addr_opt is Some,
    ensures
        ({
            let (d, c, m) = spec_handle(db, gs);
            &&& d.records.contains_key(k)
            &&& d.records[k].inner.node_addr_opt == db.records[k].inner.node_addr_opt
        }),
{
    let (d1, c1, m) = absorb_all(db, gs);
    lemma_absorb_all_preserves(db, gs);
    let (d2, c2) = induce_all(d1, gs);
    lemma_induce_all_preserves(d1, gs);
    if c2 {
        assert(bump_root_version(d2).records[k].inner.node_addr_opt == d2.records[
            k
        ].inner.node_addr_opt);
    }
}

/// Law: version monotonicity. A merge never decreases any stored version.
pub proof fn lemma_version_monotonicity(db: DbV, gs: Seq<GossipNodeRecordV>, k: Seq<u8>)
    requires
        key_match(db),
        db.records.contains_key(db.root_key),
        db.records[db.root_key].inner.version < u32::MAX,
        forall|i: int| 0 <= i < gs.len() ==> (#[trigger] gs[i]).inner.version < u32::MAX,
        db.records.contains_key(k),
    ensures
        ({
            let (d, c, m) = spec_handle(db, gs);
            &&& d.records.contains_key(k)
            &&& db.records[k].inner.version <= d.records[k].inner.version
        }),
{
    let (d1, c1, m) = absorb_all(db, gs);
    lemma_absorb_all_preserves(db, gs);
    lemma_absorb_root_version(db, gs);
    let (d2, c2) = induce_all(d1, gs);
    lemma_induce_all_preserves(d1, gs);
    if c2 {
        assert(d2.records[d2.root_key].inner.version < u32::MAX);
        assert(d2.records[d2.root_key].inner.version <= bump_root_version(d2).records[
            d2.root_key
        ].inner.version);
        if k != d2.root_key {
            assert(bump_root_version(d2).records[k] == d2.records[k]);
        }
    }
}

/// Law: no self-neighbor. A merge starting from a database in which no
/// record lists itself keeps it that way.
pub proof fn lemma_no_self_neighbor(db: DbV, gs: Seq<GossipNodeRecordV>)
    requires
        key_match(db),
        db.records.contains_key(db.root_key),
        no_self_neighbors(db),
    ensures
        no_self_neighbors(spec_handle(db, gs).0),
{
    let (d1, c1, m) = absorb_all(db, gs);
    lemma_absorb_all_preserves(db, gs);
    let (d2, c2) = induce_all(d1, gs);
    lemma_induce_all_preserves(d1, gs);
    if c2 {
        let d3 = bump_root_version(d2);
        assert forall|k: Seq<u8>| d3.records.contains_key(k) implies !(
        #[trigger] d3.records[k]).inner.neighbors.contains(k) by {
            assert(d2.records.contains_key(k));
            if k == d2.root_key {
                assert(d3.records[k].inner.neighbors == d2.records[k].inner.neighbors);
            }
        }
    }
}

/// Law: changed-flag soundness. When the merge reports no change, the
/// database is identical to its pre-call value, except that stored version
/// counters may have advanced.
pub proof fn lemma_changed_flag_soundness(db: DbV, gs: Seq<GossipNodeRecordV>)
    requires
        key_match(db),
        db.records.contains_key(db.root_key),
    ensures
        ({
            let (d, c, m) = spec_handle(db, gs);
            !c ==> same_except_versions(db, d)
        }),
{
    let (d1, c1, m) = absorb_all(db, gs);
    lemma_absorb_all_preserves(db, gs);
    let (d2, c2) = induce_all(d1, gs);
    lemma_induce_all_preserves(d1, gs);
}

} // verus!
