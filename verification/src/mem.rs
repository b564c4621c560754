//! The in-memory repository of directory trees.
//!
//! One `Bucket` per owner holds an identifier counter and a map from
//! identifiers to directory records. The model of a bucket is the view of
//! that map, `Map<i64, MemDaDirectory>`; every operation's contract is
//! stated over spec observers of that model, and the bucket invariant
//! (`MemRepository::wf`) ties parent links, children sets and depths
//! together.

use vstd::prelude::*;
use std::collections::HashMap;
use crate::da_directory::{spec_sid_opt, DaDirectory, DaDirectorySid};
use crate::entity::EntityUid;
use crate::error::{DaError, DaResult};

verus! {

broadcast use vstd::std_specs::hash::group_hash_axioms;

/// The deepest level at which a directory may sit. A create below a
/// parent at this depth is rejected with `DirectoryDepthLimitExceeded`.
pub const MAX_DIRECTORY_DEPTH: u32 = u32::MAX;

/// The stored representation of one directory record.
pub(crate) struct MemDaDirectory {
    /// Unique identifier of the directory.
    pub(crate) sid: i64,
    /// Name of the directory.
    pub(crate) name: String,
    /// Parent directory identifier (none if the directory is a root).
    pub(crate) parent_sid: Option<i64>,
    /// Children directory identifiers.
    pub(crate) children: Vec<i64>,
    /// Depth of the directory in the hierarchy: 0 for a root, one more
    /// than the parent otherwise.
    pub(crate) depth: u32,
}

/// One owner's isolated tree: an identifier generator plus the map of
/// directory records.
pub struct Bucket {
    sid_counter: i64,
    directories: HashMap<i64, MemDaDirectory>,
}

/// The in-memory repository: one lazily created bucket per owner.
pub struct MemRepository {
    buckets: HashMap<EntityUid, Bucket>,
}

/// Well-formedness of one record with respect to the whole record map:
/// the record knows its own identifier, its children are distinct, each
/// child exists and points back to it, and its parent (when present)
/// exists, lists it as a child, and sits exactly one level above it.
spec fn rec_wf(m: Map<i64, MemDaDirectory>, sid: i64) -> bool
    recommends
        m.contains_key(sid),
{
    let r = m[sid];
    &&& r.sid == sid
    &&& r.children@.no_duplicates()
    &&& forall|i: int|
        0 <= i < r.children@.len() ==> {
            let c = #[trigger] r.children@[i];
            m.contains_key(c) && m[c].parent_sid == Some(sid)
        }
    &&& match r.parent_sid {
        Some(p) => m.contains_key(p) && m[p].children@.contains(sid) && r.depth == m[p].depth + 1,
        None => r.depth == 0,
    }
}

/// Well-formedness of a record map.
spec fn dirs_wf(m: Map<i64, MemDaDirectory>) -> bool {
    &&& m.dom().finite()
    &&& forall|sid: i64| #[trigger] m.contains_key(sid) ==> rec_wf(m, sid)
}

/// Well-formedness of a bucket: a well-formed record map whose
/// identifiers were all produced by the counter, so that the counter's
/// next value is fresh.
spec fn bucket_wf(b: Bucket) -> bool {
    &&& b.sid_counter >= 0
    &&& dirs_wf(b.directories@)
    &&& forall|sid: i64| #[trigger] b.directories@.contains_key(sid) ==> 0 <= sid < b.sid_counter
}

/// There is a chain of exactly `k` parent links leading from `sid` up to
/// `root` in the record map `m`.
spec fn chain_to(m: Map<i64, MemDaDirectory>, root: i64, sid: i64, k: nat) -> bool
    decreases k,
{
    if sid == root {
        k == 0
    } else if k == 0 {
        false
    } else {
        &&& m.contains_key(sid)
        &&& match m[sid].parent_sid {
            Some(p) => chain_to(m, root, p, (k - 1) as nat),
            None => false,
        }
    }
}

/// `sid` lies in the subtree rooted at `root`: some chain of parent
/// links leads from it up to `root`.
spec fn map_in_subtree(m: Map<i64, MemDaDirectory>, root: i64, sid: i64) -> bool {
    exists|k: nat| chain_to(m, root, sid, k)
}

/// The ancestor of `sid` that sits `k` parent links above it (when every
/// step exists).
spec fn anc(m: Map<i64, MemDaDirectory>, sid: i64, k: nat) -> i64
    decreases k,
{
    if k == 0 {
        sid
    } else {
        match m[anc(m, sid, (k - 1) as nat)].parent_sid {
            Some(p) => p,
            None => anc(m, sid, (k - 1) as nat),
        }
    }
}

/// In a well-formed map, walking `j <= depth` parent links up from a
/// record stays inside the map and lowers the depth by exactly `j`.
proof fn lemma_anc_props(m: Map<i64, MemDaDirectory>, sid: i64, j: nat)
    requires
        dirs_wf(m),
        m.contains_key(sid),
        j <= m[sid].depth,
    ensures
        m.contains_key(anc(m, sid, j)),
        m[anc(m, sid, j)].depth == m[sid].depth - j,
    decreases j,
{
    if j > 0 {
        lemma_anc_props(m, sid, (j - 1) as nat);
        let a = anc(m, sid, (j - 1) as nat);
        assert(rec_wf(m, a));
    }
}

/// In a well-formed map, every record's depth is strictly below the
/// number of records: its ancestor chain consists of `depth + 1`
/// pairwise distinct records.
proof fn lemma_depth_lt_card(m: Map<i64, MemDaDirectory>, sid: i64)
    requires
        dirs_wf(m),
        m.contains_key(sid),
    ensures
        m[sid].depth < m.dom().len(),
{
    let n = m[sid].depth as nat;
    let ancs = Seq::<i64>::new((n + 1) as nat, |j: int| anc(m, sid, j as nat));
    assert forall|i: int, j: int| 0 <= i < j < ancs.len() implies ancs[i] != ancs[j] by {
        lemma_anc_props(m, sid, i as nat);
        lemma_anc_props(m, sid, j as nat);
    }
    assert(ancs.no_duplicates());
    ancs.unique_seq_to_set();
    assert forall|x: i64| ancs.to_set().contains(x) implies m.dom().contains(x) by {
        let i = choose|i: int| 0 <= i < ancs.len() && ancs[i] == x;
        lemma_anc_props(m, sid, i as nat);
    }
    vstd::set_lib::lemma_len_subset(ancs.to_set(), m.dom());
}

/// Walking a chain of `k` parent links from `s` up to `root` in a
/// well-formed map raises the depth by exactly `k`.
proof fn lemma_chain_depth(m: Map<i64, MemDaDirectory>, root: i64, s: i64, k: nat)
    requires
        dirs_wf(m),
        m.contains_key(root),
        chain_to(m, root, s, k),
    ensures
        m.contains_key(s),
        m[s].depth == m[root].depth + k,
    decreases k,
{
    if s != root {
        assert(rec_wf(m, s));
        match m[s].parent_sid {
            Some(q) => {
                lemma_chain_depth(m, root, q, (k - 1) as nat);
            },
            None => {},
        }
    }
}

/// Once a cascade has removed the subtree root and reached a state in
/// which every record whose parent is gone is gone as well, the whole
/// subtree is gone.
proof fn lemma_cascade_complete(
    m0: Map<i64, MemDaDirectory>,
    md: Map<i64, MemDaDirectory>,
    root: i64,
    s: i64,
    k: nat,
)
    requires
        chain_to(m0, root, s, k),
        !md.contains_key(root),
        forall|t: i64|
            m0.contains_key(t) && t != root && (match m0[t].parent_sid {
                Some(q) => !md.contains_key(q),
                None => false,
            }) ==> !(#[trigger] md.contains_key(t)),
    ensures
        !md.contains_key(s),
    decreases k,
{
    if s != root {
        match m0[s].parent_sid {
            Some(q) => {
                lemma_cascade_complete(m0, md, root, q, (k - 1) as nat);
            },
            None => {},
        }
    }
}

/// After a complete cascade below `root` followed by the unlink of
/// `root` from its former parent's children, the record map is
/// well-formed again.
proof fn lemma_delete_wf(
    m0: Map<i64, MemDaDirectory>,
    md: Map<i64, MemDaDirectory>,
    mfin: Map<i64, MemDaDirectory>,
    root: i64,
    parent_sid: Option<i64>,
)
    requires
        dirs_wf(m0),
        m0.contains_key(root),
        m0[root].parent_sid == parent_sid,
        md.dom().finite(),
        forall|t: i64| #[trigger] md.contains_key(t) ==> m0.contains_key(t) && md[t] == m0[t],
        forall|t: i64|
            m0.contains_key(t) && !(#[trigger] md.contains_key(t)) ==> map_in_subtree(m0, root, t),
        forall|s: i64| map_in_subtree(m0, root, s) ==> !(#[trigger] md.contains_key(s)),
        match parent_sid {
            Some(p) => {
                &&& md.contains_key(p)
                &&& mfin == md.insert(p, mfin[p])
                &&& mfin[p].sid == m0[p].sid
                &&& mfin[p].parent_sid == m0[p].parent_sid
                &&& mfin[p].depth == m0[p].depth
                &&& mfin[p].children@.no_duplicates()
                &&& forall|c: i64| #[trigger]
                    mfin[p].children@.contains(c) <==> (m0[p].children@.contains(c) && c != root)
            },
            None => mfin == md,
        },
    ensures
        dirs_wf(mfin),
{
    assert(chain_to(m0, root, root, 0));
    assert(map_in_subtree(m0, root, root));
    // Survivors are exactly the records outside the subtree; none of
    // their children (other than `root` itself) sits in the subtree.
    assert forall|s: i64, c: i64| #![trigger md.contains_key(s), md.contains_key(c)]
        md.contains_key(s) && m0.contains_key(c) && m0[c].parent_sid == Some(s) && c != root
        implies md.contains_key(c) by {
        if map_in_subtree(m0, root, c) {
            let k = choose|k: nat| chain_to(m0, root, c, k);
            assert(chain_to(m0, root, c, k));
            assert(k > 0);
            assert(chain_to(m0, root, s, (k - 1) as nat));
            assert(map_in_subtree(m0, root, s));
        }
    }
    assert forall|s: i64| #[trigger] mfin.contains_key(s) implies rec_wf(mfin, s) by {
        assert(md.contains_key(s));
        assert(rec_wf(m0, s));
        let p_case = match parent_sid {
            Some(p) => s == p,
            None => false,
        };
        // every child listed by the survivor exists and points back
        assert forall|i: int| 0 <= i < mfin[s].children@.len() implies {
            let c = #[trigger] mfin[s].children@[i];
            mfin.contains_key(c) && mfin[c].parent_sid == Some(s)
        } by {
            let c = mfin[s].children@[i];
            if p_case {
                let p = parent_sid->0;
                assert(mfin[p].children@.contains(c));
                assert(m0[p].children@.contains(c) && c != root);
                let ci = choose|ci: int|
                    0 <= ci < m0[p].children@.len() && m0[p].children@[ci] == c;
                assert(m0.contains_key(c) && m0[c].parent_sid == Some(p));
                assert(md.contains_key(c));
                if c == p {
                    assert(rec_wf(m0, p));
                    assert(false);
                }
            } else {
                assert(mfin[s].children@ == m0[s].children@);
                assert(m0.contains_key(c) && m0[c].parent_sid == Some(s));
                if c == root {
                    // the target's unique parent is `parent_sid`, which is
                    // not `s` here
                    assert(m0[root].parent_sid == Some(s));
                    assert(false);
                }
                assert(md.contains_key(c));
                if c == s {
                    assert(rec_wf(m0, c));
                    assert(false);
                }
                match parent_sid {
                    Some(p) => {
                        if c == p {
                            assert(mfin[c].parent_sid == m0[c].parent_sid);
                        }
                    },
                    None => {},
                }
            }
        }
        // the survivor's own parent link is intact
        match m0[s].parent_sid {
            Some(q) => {
                assert(m0.contains_key(q));
                if map_in_subtree(m0, root, q) {
                    let k = choose|k: nat| chain_to(m0, root, q, k);
                    assert(s != root) by {
                        assert(map_in_subtree(m0, root, root));
                    }
                    assert(chain_to(m0, root, s, (k + 1) as nat));
                    assert(map_in_subtree(m0, root, s));
                    assert(false);
                }
                assert(md.contains_key(q));
                match parent_sid {
                    Some(p) => {
                        if q == p {
                            assert(m0[p].children@.contains(s));
                            assert(s != root);
                            assert(mfin[p].children@.contains(s));
                        } else {
                            assert(mfin[q] == m0[q]);
                            assert(mfin[q].children@.contains(s));
                        }
                    },
                    None => {
                        assert(mfin[q].children@.contains(s));
                    },
                }
            },
            None => {},
        }
    }
}

/// Taking a bucket out of the registry and putting it back unchanged
/// (or putting a fresh empty bucket in its place) changes nothing any
/// owner can observe.
proof fn lemma_noop_roundtrip(a: MemRepository, b: MemRepository, owner: EntityUid, bk: Bucket)
    requires
        a.wf(),
        b.buckets@ == a.buckets@.remove(owner).insert(owner, bk),
        a.buckets@.contains_key(owner) ==> bk == a.buckets@[owner],
        !a.buckets@.contains_key(owner) ==> bk.sid_counter == 0 && bk.directories@ == Map::<
            i64,
            MemDaDirectory,
        >::empty(),
    ensures
        b.wf(),
        owner_unchanged(a, b, owner),
        forall|o: EntityUid| o != owner ==> owner_unchanged(a, b, o),
{
    assert(a.bucket_dirs(owner) =~= b.bucket_dirs(owner));
    assert forall|o: EntityUid| #[trigger] b.buckets@.contains_key(o) implies bucket_wf(
        b.buckets@[o],
    ) by {
        if o != owner {
            assert(a.buckets@.contains_key(o));
        }
    }
    assert forall|o: EntityUid| o != owner implies owner_unchanged(a, b, o) by {
        assert(a.bucket_dirs(o) =~= b.bucket_dirs(o));
    }
}

/// After inserting a fresh leaf record `sid` below `p` — updating `p`'s
/// children to carry `sid` last and leaving every other record alone —
/// the record map is well-formed again.
proof fn lemma_rec_wf_after_create(m0: Map<i64, MemDaDirectory>, m1: Map<i64, MemDaDirectory>, p: i64, sid: i64)
    requires
        dirs_wf(m0),
        m0.contains_key(p),
        !m0.contains_key(sid),
        m1 == m0.insert(p, m1[p]).insert(sid, m1[sid]),
        p != sid,
        m1[sid].sid == sid,
        m1[sid].parent_sid == Some(p),
        m1[sid].children@ == Seq::<i64>::empty(),
        m1[sid].depth == m0[p].depth + 1,
        m0[p].depth < u32::MAX,
        m1[p].sid == m0[p].sid,
        m1[p].parent_sid == m0[p].parent_sid,
        m1[p].depth == m0[p].depth,
        m1[p].children@ == m0[p].children@.push(sid),
    ensures
        dirs_wf(m1),
{
    assert(rec_wf(m0, p));
    let oldkids = m0[p].children@;
    // The fresh identifier is not among the parent's previous children:
    // those all exist in the old map.
    assert forall|i: int| 0 <= i < oldkids.len() implies oldkids[i] != sid by {
        assert(m0.contains_key(oldkids[i]));
    }
    assert(m1[p].children@.no_duplicates());
    assert(m1.dom() =~= m0.dom().insert(p).insert(sid));
    assert forall|s: i64| #[trigger] m1.contains_key(s) implies rec_wf(m1, s) by {
        if s == sid {
            assert(m1[p].children@[oldkids.len() as int] == sid);
            assert(m1[p].children@.contains(sid));
        } else {
            assert(rec_wf(m0, s));
            // Every child of `s` in the new map still exists and still
            // points back to `s`.
            assert forall|i: int| 0 <= i < m1[s].children@.len() implies {
                let c = #[trigger] m1[s].children@[i];
                m1.contains_key(c) && m1[c].parent_sid == Some(s)
            } by {
                if s == p && i == oldkids.len() {
                    assert(m1[s].children@[i] == sid);
                } else {
                    let c = m1[s].children@[i];
                    assert(c == m0[s].children@[i]);
                    assert(m0.contains_key(c));
                }
            }
            // The parent link of `s` is intact.
            match m0[s].parent_sid {
                Some(q) => {
                    assert(m0.contains_key(q));
                    if q == p {
                        assert(oldkids.contains(s));
                        let i = choose|i: int| 0 <= i < oldkids.len() && oldkids[i] == s;
                        assert(m1[p].children@[i] == s);
                        assert(m1[p].children@.contains(s));
                    }
                },
                None => {},
            }
        }
    }
}

impl Bucket {
    /// The next identifier the bucket's counter will hand out.
    pub closed spec fn spec_counter(self) -> int {
        self.sid_counter as int
    }

    /// How many records the bucket holds.
    pub closed spec fn spec_dir_count(self) -> nat {
        self.directories@.dom().len()
    }

    /// The bucket invariant.
    pub closed spec fn wf(self) -> bool {
        bucket_wf(self)
    }

    pub fn new() -> (b: Self)
        ensures
            b.wf(),
            b.spec_counter() == 0,
            b.spec_dir_count() == 0,
    {
        let b = Self { sid_counter: 0, directories: HashMap::new() };
        proof {
            assert(b.directories@.dom() =~= Set::<i64>::empty());
        }
        b
    }
}

impl MemRepository {
    /// The record map of one owner's bucket; empty if the owner has no
    /// bucket yet.
    pub(crate) closed spec fn bucket_dirs(self, owner: EntityUid) -> Map<i64, MemDaDirectory> {
        if self.buckets@.contains_key(owner) {
            self.buckets@[owner].directories@
        } else {
            Map::empty()
        }
    }

    /// The next identifier that a create for this owner will return;
    /// 0 while the owner has no bucket yet.
    pub closed spec fn next_sid(self, owner: EntityUid) -> int {
        if self.buckets@.contains_key(owner) {
            self.buckets@[owner].sid_counter as int
        } else {
            0
        }
    }

    /// Whether a directory with this identifier exists in the owner's bucket.
    pub closed spec fn has_dir(self, owner: EntityUid, sid: i64) -> bool {
        self.bucket_dirs(owner).contains_key(sid)
    }

    /// The name of the directory, as a sequence of characters.
    pub closed spec fn dir_name(self, owner: EntityUid, sid: i64) -> Seq<char> {
        self.bucket_dirs(owner)[sid].name@
    }

    /// The parent identifier of the directory; none for a root.
    pub closed spec fn dir_parent(self, owner: EntityUid, sid: i64) -> Option<i64> {
        self.bucket_dirs(owner)[sid].parent_sid
    }

    /// The children identifiers of the directory, in insertion order.
    pub closed spec fn dir_children(self, owner: EntityUid, sid: i64) -> Seq<i64> {
        self.bucket_dirs(owner)[sid].children@
    }

    /// The depth of the directory: 0 for a root, one more than its
    /// parent otherwise.
    pub closed spec fn dir_depth(self, owner: EntityUid, sid: i64) -> int {
        self.bucket_dirs(owner)[sid].depth as int
    }

    /// How many directories the owner's bucket holds.
    pub closed spec fn dir_count(self, owner: EntityUid) -> nat {
        self.bucket_dirs(owner).dom().len()
    }

    /// `sid` lies in the subtree rooted at `root` of this owner's tree:
    /// a chain of parent links leads from it up to `root`.
    pub closed spec fn in_subtree(self, owner: EntityUid, root: i64, sid: i64) -> bool {
        map_in_subtree(self.bucket_dirs(owner), root, sid)
    }

    /// The repository invariant: every bucket is well-formed.
    pub closed spec fn wf(self) -> bool {
        forall|o: EntityUid| #[trigger]
            self.buckets@.contains_key(o) ==> bucket_wf(self.buckets@[o])
    }

    pub fn new() -> (r: Self)
        ensures
            r.wf(),
            forall|o: EntityUid, s: i64| !r.has_dir(o, s),
            forall|o: EntityUid| r.next_sid(o) == 0,
    {
        Self { buckets: HashMap::new() }
    }

    /// Whether the owner's identifier generator can still hand out a
    /// fresh value, which a create requires.
    pub fn sid_capacity_left(&self, owner: EntityUid) -> (b: bool)
        ensures
            b == (self.next_sid(owner) < i64::MAX),
    {
        match self.buckets.get(&owner) {
            Some(b) => b.sid_counter < i64::MAX,
            None => true,
        }
    }

    /// Resolves the owner's bucket, creating it lazily on first use, and
    /// takes it out of the registry so that it can be worked on; the
    /// caller puts it back with `put_bucket`.
    fn take_bucket(&mut self, uid: EntityUid) -> (b: Bucket)
        ensures
            final(self).buckets@ == old(self).buckets@.remove(uid),
            old(self).buckets@.contains_key(uid) ==> b == old(self).buckets@[uid],
            !old(self).buckets@.contains_key(uid) ==> b.sid_counter == 0
                && b.directories@ == Map::<i64, MemDaDirectory>::empty(),
    {
        match self.buckets.remove(&uid) {
            Some(b) => b,
            None => {
                proof {
                    assert(old(self).buckets@.remove(uid) =~= old(self).buckets@);
                }
                let b = Bucket { sid_counter: 0, directories: HashMap::new() };
                proof {
                    assert(b.directories@ =~= Map::<i64, MemDaDirectory>::empty());
                }
                b
            },
        }
    }

    /// Registers the bucket under the owner again.
    fn put_bucket(&mut self, uid: EntityUid, b: Bucket)
        ensures
            final(self).buckets@ == old(self).buckets@.insert(uid, b),
    {
        self.buckets.insert(uid, b);
    }

    /// Renames the directory `id` of the requesting entity; only that
    /// record's name changes, nothing else in any tree.
    pub fn rename_directory(&mut self, requested_by: EntityUid, id: DaDirectorySid, new_name: &str) -> (r: DaResult<()>)
        requires
            old(self).wf(),
        ensures
            final(self).wf(),
            !old(self).has_dir(requested_by, id.0) ==> r == Err::<(), DaError>(
                DaError::DirectoryNotFound(id),
            ) && owner_unchanged(*old(self), *final(self), requested_by),
            old(self).has_dir(requested_by, id.0) ==> {
                &&& r == Ok::<(), DaError>(())
                &&& final(self).dir_name(requested_by, id.0) == new_name@
                &&& final(self).dir_parent(requested_by, id.0) == old(self).dir_parent(
                    requested_by,
                    id.0,
                )
                &&& final(self).dir_children(requested_by, id.0) == old(self).dir_children(
                    requested_by,
                    id.0,
                )
                &&& final(self).dir_depth(requested_by, id.0) == old(self).dir_depth(
                    requested_by,
                    id.0,
                )
                &&& forall|s: i64| #[trigger]
                    final(self).has_dir(requested_by, s) == old(self).has_dir(requested_by, s)
                &&& forall|s: i64|
                    s != id.0 && #[trigger] old(self).has_dir(requested_by, s) ==> dir_unchanged(
                        *old(self),
                        *final(self),
                        requested_by,
                        s,
                    )
                &&& final(self).next_sid(requested_by) == old(self).next_sid(requested_by)
            },
            forall|o: EntityUid|
                o != requested_by ==> owner_unchanged(*old(self), *final(self), o),
    {
        let mut b = self.take_bucket(requested_by);
        let r = match b.directories.remove(&id.0) {
            Some(mut rec) => {
                rec.name = new_name.to_owned();
                b.directories.insert(id.0, rec);
                Ok(())
            },
            None => Err(DaError::DirectoryNotFound(id)),
        };
        self.put_bucket(requested_by, b);
        proof {
            let m0 = old(self).bucket_dirs(requested_by);
            let m1 = self.bucket_dirs(requested_by);
            if old(self).has_dir(requested_by, id.0) {
                assert(m1 =~= m0.insert(id.0, m1[id.0]));
                assert forall|s: i64| #[trigger] m1.contains_key(s) implies rec_wf(m1, s) by {
                    assert(rec_wf(m0, s));
                }
            } else {
                assert(m1 =~= m0);
            }
            assert forall|o: EntityUid| o != requested_by implies owner_unchanged(
                *old(self),
                *self,
                o,
            ) by {
                assert(old(self).bucket_dirs(o) =~= self.bucket_dirs(o));
            }
        }
        r
    }

    /// `d` is a faithful recursive snapshot of the record it names and of
    /// the whole subtree below it, child for child and in stored order.
    pub open spec fn is_snapshot_of(self, owner: EntityUid, d: DaDirectory) -> bool
        decreases d,
    {
        &&& self.has_dir(owner, d.sid.0)
        &&& d.name@ == self.dir_name(owner, d.sid.0)
        &&& spec_sid_opt(d.parent_sid) == self.dir_parent(owner, d.sid.0)
        &&& d.depth == self.dir_depth(owner, d.sid.0)
        &&& d.children@.len() == self.dir_children(owner, d.sid.0).len()
        &&& forall|i: int|
            0 <= i < d.children@.len() ==> {
                let c = #[trigger] d.children@[i];
                c.sid.0 == self.dir_children(owner, d.sid.0)[i] && self.is_snapshot_of(owner, c)
            }
    }

    /// Materializes the full subtree below `id` as a fresh snapshot.
    fn read_dir(&self, requested_by: EntityUid, id: DaDirectorySid) -> (r: DaResult<DaDirectory>)
        requires
            self.wf(),
        ensures
            match r {
                Ok(d) => self.has_dir(requested_by, id.0) && d.sid == id && self.is_snapshot_of(
                    requested_by,
                    d,
                ),
                Err(e) => !self.has_dir(requested_by, id.0) && e == DaError::DirectoryNotFound(id),
            },
        decreases self.dir_count(requested_by) - self.dir_depth(requested_by, id.0),
    {
        let b = match self.buckets.get(&requested_by) {
            Some(b) => b,
            None => {
                return Err(DaError::DirectoryNotFound(id));
            },
        };
        let rec = match b.directories.get(&id.0) {
            Some(rec) => rec,
            None => {
                return Err(DaError::DirectoryNotFound(id));
            },
        };
        proof {
            lemma_depth_lt_card(self.bucket_dirs(requested_by), id.0);
        }
        let n = rec.children.len();
        let mut children: Vec<DaDirectory> = Vec::new();
        for i in 0..n
            invariant
                self.wf(),
                self.has_dir(requested_by, id.0),
                n == self.dir_children(requested_by, id.0).len(),
                rec.children@ == self.dir_children(requested_by, id.0),
                self.dir_depth(requested_by, id.0) < self.dir_count(requested_by),
                children@.len() == i,
                forall|j: int|
                    0 <= j < i ==> {
                        let c = #[trigger] children@[j];
                        c.sid.0 == self.dir_children(requested_by, id.0)[j]
                            && self.is_snapshot_of(requested_by, c)
                    },
        {
            let c = rec.children[i];
            proof {
                assert(rec_wf(self.bucket_dirs(requested_by), id.0));
                assert(self.bucket_dirs(requested_by).contains_key(c));
                assert(rec_wf(self.bucket_dirs(requested_by), c));
            }
            match self.read_dir(requested_by, DaDirectorySid(c)) {
                Ok(child) => {
                    children.push(child);
                },
                Err(_) => {
                    // A child listed by a well-formed record always exists;
                    // this arm mirrors the policy of dropping unreadable
                    // children from the snapshot and is provably not taken.
                    proof {
                        assert(false);
                    }
                },
            }
        }
        let parent_sid = match rec.parent_sid {
            Some(p) => Some(DaDirectorySid(p)),
            None => None,
        };
        Ok(
            DaDirectory {
                sid: id,
                name: rec.name.clone(),
                parent_sid,
                children,
                depth: rec.depth,
            },
        )
    }

    /// Creates a directory named `name` for the requesting entity, below
    /// `parent` when one is given and as a new root otherwise. The fresh
    /// identifier is the bucket counter's next value; the new record and
    /// its link in the parent's children set become visible together.
    pub fn create_directory(
        &mut self,
        requested_by: EntityUid,
        name: &str,
        parent: Option<DaDirectorySid>,
    ) -> (r: DaResult<DaDirectory>)
        requires
            old(self).wf(),
            old(self).next_sid(requested_by) < i64::MAX,
        ensures
            final(self).wf(),
            forall|o: EntityUid|
                o != requested_by ==> owner_unchanged(*old(self), *final(self), o),
            match r {
                Ok(d) => {
                    &&& d.sid.0 == old(self).next_sid(requested_by)
                    &&& !old(self).has_dir(requested_by, d.sid.0)
                    &&& final(self).next_sid(requested_by) == old(self).next_sid(requested_by) + 1
                    &&& final(self).has_dir(requested_by, d.sid.0)
                    &&& final(self).dir_name(requested_by, d.sid.0) == name@
                    &&& final(self).dir_parent(requested_by, d.sid.0) == spec_sid_opt(parent)
                    &&& final(self).dir_children(requested_by, d.sid.0) == Seq::<i64>::empty()
                    &&& forall|s: i64|
                        #[trigger] final(self).has_dir(requested_by, s) <==> (old(self).has_dir(
                            requested_by,
                            s,
                        ) || s == d.sid.0)
                    &&& match parent {
                        Some(p) => {
                            &&& old(self).has_dir(requested_by, p.0)
                            &&& old(self).dir_depth(requested_by, p.0) < MAX_DIRECTORY_DEPTH
                            &&& final(self).dir_depth(requested_by, d.sid.0) == old(
                                self,
                            ).dir_depth(requested_by, p.0) + 1
                            &&& final(self).dir_children(requested_by, p.0) == old(
                                self,
                            ).dir_children(requested_by, p.0).push(d.sid.0)
                            &&& final(self).dir_name(requested_by, p.0) == old(self).dir_name(
                                requested_by,
                                p.0,
                            )
                            &&& final(self).dir_parent(requested_by, p.0) == old(self).dir_parent(
                                requested_by,
                                p.0,
                            )
                            &&& final(self).dir_depth(requested_by, p.0) == old(self).dir_depth(
                                requested_by,
                                p.0,
                            )
                            &&& forall|s: i64|
                                s != d.sid.0 && s != p.0 && #[trigger] old(self).has_dir(
                                    requested_by,
                                    s,
                                ) ==> dir_unchanged(*old(self), *final(self), requested_by, s)
                        },
                        None => {
                            &&& final(self).dir_depth(requested_by, d.sid.0) == 0
                            &&& forall|s: i64|
                                s != d.sid.0 && #[trigger] old(self).has_dir(requested_by, s)
                                    ==> dir_unchanged(*old(self), *final(self), requested_by, s)
                        },
                    }
                    &&& final(self).is_snapshot_of(requested_by, d)
                    &&& d.children@.len() == 0
                    &&& d.name@ == name@
                    &&& d.parent_sid == parent
                },
                Err(e) => {
                    &&& owner_unchanged(*old(self), *final(self), requested_by)
                    &&& match parent {
                        Some(p) => {
                            ||| (!old(self).has_dir(requested_by, p.0) && e
                                == DaError::DirectoryNotFound(p))
                            ||| (old(self).has_dir(requested_by, p.0) && old(self).dir_depth(
                                requested_by,
                                p.0,
                            ) >= MAX_DIRECTORY_DEPTH && e == DaError::DirectoryDepthLimitExceeded(
                                MAX_DIRECTORY_DEPTH,
                            ))
                        },
                        None => false,
                    }
                },
            },
    {
        let mut b = self.take_bucket(requested_by);
        let ghost m0 = old(self).bucket_dirs(requested_by);
        proof {
            assert(b.directories@ =~= m0);
        }

        // Resolve the parent first: a rejected create changes nothing.
        let depth: u32 = match parent {
            Some(p) => {
                match b.directories.get(&p.0) {
                    Some(prec) => {
                        if prec.depth >= MAX_DIRECTORY_DEPTH {
                            let ghost bk = b;
                            self.put_bucket(requested_by, b);
                            proof {
                                lemma_noop_roundtrip(*old(self), *self, requested_by, bk);
                            }
                            return Err(DaError::DirectoryDepthLimitExceeded(MAX_DIRECTORY_DEPTH));
                        }
                        prec.depth + 1
                    },
                    None => {
                        let ghost bk = b;
                        self.put_bucket(requested_by, b);
                        proof {
                            lemma_noop_roundtrip(*old(self), *self, requested_by, bk);
                        }
                        return Err(DaError::DirectoryNotFound(p));
                    },
                }
            },
            None => 0,
        };

        // Generate the fresh identifier from the bucket's counter.
        proof {
            if old(self).buckets@.contains_key(requested_by) {
                assert(bucket_wf(old(self).buckets@[requested_by]));
            }
        }
        let sid = b.sid_counter;
        b.sid_counter = sid + 1;

        let rec = MemDaDirectory {
            sid,
            name: name.to_owned(),
            parent_sid: match parent {
                Some(p) => Some(p.0),
                None => None,
            },
            children: Vec::new(),
            depth,
        };

        // Link the new identifier into the parent's children set.
        match parent {
            Some(p) => {
                match b.directories.remove(&p.0) {
                    Some(mut prec) => {
                        prec.children.push(sid);
                        b.directories.insert(p.0, prec);
                    },
                    None => {
                        proof {
                            assert(false);
                        }
                    },
                }
            },
            None => {},
        }

        // Insert the record itself. The fresh identifier cannot collide
        // with an existing one: every stored identifier is below the
        // counter's previous value.
        let prev = b.directories.insert(sid, rec);
        proof {
            assert(prev is None);
        }
        self.put_bucket(requested_by, b);

        proof {
            let m1 = self.bucket_dirs(requested_by);
            match parent {
                Some(p) => {
                    assert(m1 =~= m0.insert(p.0, m1[p.0]).insert(sid, m1[sid]));
                    lemma_rec_wf_after_create(m0, m1, p.0, sid);
                },
                None => {
                    assert(m1 =~= m0.insert(sid, m1[sid]));
                    assert forall|s: i64| #[trigger] m1.contains_key(s) implies rec_wf(m1, s) by {
                        if s != sid {
                            assert(rec_wf(m0, s));
                            assert forall|i: int| 0 <= i < m1[s].children@.len() implies {
                                let c = #[trigger] m1[s].children@[i];
                                m1.contains_key(c) && m1[c].parent_sid == Some(s)
                            } by {
                                assert(m0.contains_key(m0[s].children@[i]));
                            }
                            match m0[s].parent_sid {
                                Some(q) => {
                                    assert(m0.contains_key(q));
                                },
                                None => {},
                            }
                        }
                    }
                },
            }
            assert(m1.dom().finite());
            // The new bucket is well-formed: records intact, every
            // identifier still below the advanced counter.
            assert forall|s: i64| #[trigger] m1.contains_key(s) implies 0 <= s < sid + 1 by {
                if s != sid {
                    assert(m0.contains_key(s));
                }
            }
            assert(bucket_wf(self.buckets@[requested_by]));
            assert forall|o: EntityUid| #[trigger] self.buckets@.contains_key(o) implies bucket_wf(
                self.buckets@[o],
            ) by {
                if o != requested_by {
                    assert(old(self).buckets@.contains_key(o));
                }
            }
            assert forall|o: EntityUid| o != requested_by implies owner_unchanged(
                *old(self),
                *self,
                o,
            ) by {
                assert(old(self).bucket_dirs(o) =~= self.bucket_dirs(o));
            }
        }

        // The record is immediately readable: return it materialized, a
        // leaf with no children.
        let created = self.get_directory(requested_by, DaDirectorySid(sid));
        match created {
            Ok(d) => Ok(d),
            Err(_) => {
                proof {
                    assert(false);
                }
                created
            },
        }
    }

    /// Deletes the directory `id` of the requesting entity together with
    /// its entire subtree, then unlinks `id` from its former parent's
    /// children set. The walk is iterative: it collects each removed
    /// record's children before removing further, until no undiscovered
    /// descendant remains.
    pub fn delete_directory(&mut self, requested_by: EntityUid, id: DaDirectorySid) -> (r: DaResult<
        (),
    >)
        requires
            old(self).wf(),
        ensures
            final(self).wf(),
            forall|o: EntityUid|
                o != requested_by ==> owner_unchanged(*old(self), *final(self), o),
            !old(self).has_dir(requested_by, id.0) ==> r == Err::<(), DaError>(
                DaError::DirectoryNotFound(id),
            ) && owner_unchanged(*old(self), *final(self), requested_by),
            old(self).has_dir(requested_by, id.0) ==> {
                &&& r == Ok::<(), DaError>(())
                &&& !final(self).has_dir(requested_by, id.0)
                &&& forall|s: i64| #[trigger]
                    final(self).has_dir(requested_by, s) <==> (old(self).has_dir(requested_by, s)
                        && !old(self).in_subtree(requested_by, id.0, s))
                &&& final(self).next_sid(requested_by) == old(self).next_sid(requested_by)
                &&& match old(self).dir_parent(requested_by, id.0) {
                    Some(p) => {
                        &&& final(self).has_dir(requested_by, p)
                        &&& final(self).dir_name(requested_by, p) == old(self).dir_name(
                            requested_by,
                            p,
                        )
                        &&& final(self).dir_parent(requested_by, p) == old(self).dir_parent(
                            requested_by,
                            p,
                        )
                        &&& final(self).dir_depth(requested_by, p) == old(self).dir_depth(
                            requested_by,
                            p,
                        )
                        &&& final(self).dir_children(requested_by, p).no_duplicates()
                        &&& forall|c: i64| #[trigger]
                            final(self).dir_children(requested_by, p).contains(c) <==> (old(
                                self,
                            ).dir_children(requested_by, p).contains(c) && c != id.0)
                        &&& forall|s: i64|
                            s != p && #[trigger] final(self).has_dir(requested_by, s)
                                ==> dir_unchanged(*old(self), *final(self), requested_by, s)
                    },
                    None => {
                        forall|s: i64| #[trigger]
                            final(self).has_dir(requested_by, s) ==> dir_unchanged(
                                *old(self),
                                *final(self),
                                requested_by,
                                s,
                            )
                    },
                }
            },
    {
        let mut b = self.take_bucket(requested_by);
        let ghost m0 = b.directories@;
        proof {
            assert(m0 =~= old(self).bucket_dirs(requested_by));
            if old(self).buckets@.contains_key(requested_by) {
                assert(bucket_wf(old(self).buckets@[requested_by]));
            }
        }

        // Look up the target's parent before the cascade begins.
        let parent_sid: Option<i64> = match b.directories.get(&id.0) {
            Some(rec) => rec.parent_sid,
            None => {
                let ghost bk = b;
                self.put_bucket(requested_by, b);
                proof {
                    lemma_noop_roundtrip(*old(self), *self, requested_by, bk);
                }
                return Err(DaError::DirectoryNotFound(id));
            },
        };

        // Remove the whole subtree iteratively, collecting each removed
        // record's children before removing further.
        let mut to_be_removed: Vec<i64> = Vec::new();
        to_be_removed.push(id.0);
        let ghost counter0 = b.sid_counter;
        proof {
            assert(old(self).buckets@.contains_key(requested_by));
            assert(chain_to(m0, id.0, id.0, 0));
            assert(to_be_removed@[0] == id.0);
            assert(to_be_removed@.contains(id.0));
        }

        while to_be_removed.len() > 0
            invariant
                dirs_wf(m0),
                m0.contains_key(id.0),
                b.sid_counter == counter0,
                self.buckets@ == old(self).buckets@.remove(requested_by),
                // records never change while the cascade runs, they only
                // disappear
                forall|t: i64| #[trigger]
                    b.directories@.contains_key(t) ==> m0.contains_key(t) && b.directories@[t]
                        == m0[t],
                // the worklist holds distinct, still-present members of
                // the subtree
                to_be_removed@.no_duplicates(),
                forall|i: int|
                    0 <= i < to_be_removed@.len() ==> {
                        let t = #[trigger] to_be_removed@[i];
                        map_in_subtree(m0, id.0, t) && b.directories@.contains_key(t)
                    },
                // everything gone is part of the subtree
                forall|t: i64|
                    m0.contains_key(t) && !(#[trigger] b.directories@.contains_key(t))
                        ==> map_in_subtree(m0, id.0, t),
                // the target is gone or still queued
                !b.directories@.contains_key(id.0) || to_be_removed@.contains(id.0),
                // frontier: a record whose parent is gone is gone or queued
                forall|t: i64|
                    m0.contains_key(t) && t != id.0 && (match m0[t].parent_sid {
                        Some(q) => !b.directories@.contains_key(q),
                        None => false,
                    }) ==> (!(#[trigger] b.directories@.contains_key(t))
                        || to_be_removed@.contains(t)),
                // a gone or queued record other than the target lost its
                // parent first
                forall|t: i64|
                    m0.contains_key(t) && t != id.0 && (!(#[trigger] b.directories@.contains_key(
                        t,
                    )) || to_be_removed@.contains(t)) ==> (match m0[t].parent_sid {
                        Some(q) => !b.directories@.contains_key(q),
                        None => false,
                    }),
            decreases b.directories@.dom().len(),
        {
            let ghost w_pre = to_be_removed@;
            let ghost md_pre = b.directories@;
            let sid: i64 = match to_be_removed.pop() {
                Some(s) => s,
                None => {
                    proof {
                        assert(false);
                    }
                    0
                },
            };
            proof {
                assert(w_pre[w_pre.len() - 1] == sid);
                assert(map_in_subtree(m0, id.0, sid));
                assert forall|t: i64| to_be_removed@.contains(t) implies w_pre.contains(t) by {
                    let i = choose|i: int|
                        0 <= i < to_be_removed@.len() && to_be_removed@[i] == t;
                    assert(w_pre[i] == t);
                }
            }
            match b.directories.remove(&sid) {
                Some(dir) => {
                    proof {
                        assert(dir == m0[sid]);
                        assert(rec_wf(m0, sid));
                        // no child of `sid` is the cascade root: the root's
                        // parent sits strictly above the whole subtree
                        let ks = choose|k: nat| chain_to(m0, id.0, sid, k);
                        lemma_chain_depth(m0, id.0, sid, ks);
                        assert(rec_wf(m0, id.0));
                        // no child of `sid` was already gone or queued: its
                        // parent `sid` was still present a moment ago
                        assert forall|i: int| 0 <= i < dir.children@.len() implies {
                            let c = #[trigger] dir.children@[i];
                            &&& c != id.0
                            &&& c != sid
                            &&& b.directories@.contains_key(c)
                            &&& !to_be_removed@.contains(c)
                            &&& map_in_subtree(m0, id.0, c)
                        } by {
                            let c = dir.children@[i];
                            assert(m0.contains_key(c) && m0[c].parent_sid == Some(sid));
                            if c == id.0 {
                                assert(rec_wf(m0, c));
                                assert(false);
                            }
                            if c == sid {
                                assert(rec_wf(m0, c));
                                assert(false);
                            }
                            assert(md_pre.contains_key(sid));
                            assert(!(!md_pre.contains_key(c) || w_pre.contains(c)));
                            assert(chain_to(m0, id.0, c, (ks + 1) as nat));
                        }
                    }
                    proof {
                        if sid != id.0 && md_pre.contains_key(id.0) {
                            let i = choose|i: int| 0 <= i < w_pre.len() && w_pre[i] == id.0;
                            assert(i < w_pre.len() - 1);
                            assert(to_be_removed@[i] == id.0);
                            assert(to_be_removed@.contains(id.0));
                        }
                    }
                    let n = dir.children.len();
                    proof {
                        // establish the frontier shape for the push loop:
                        // a record whose parent is gone is gone, queued, or
                        // one of the children about to be queued
                        assert forall|t: i64|
                            m0.contains_key(t) && t != id.0 && (match m0[t].parent_sid {
                                Some(q) => !b.directories@.contains_key(q),
                                None => false,
                            }) implies (!b.directories@.contains_key(t)
                                || to_be_removed@.contains(t) || (m0[t].parent_sid == Some(sid)
                                && exists|i: int| 0 <= i < n && dir.children@[i] == t)) by {
                            let q = m0[t].parent_sid->0;
                            if q == sid {
                                assert(rec_wf(m0, t));
                                assert(m0[sid].children@.contains(t));
                                let i = choose|i: int|
                                    0 <= i < m0[sid].children@.len() && m0[sid].children@[i] == t;
                                assert(dir.children@[i] == t);
                            } else {
                                assert(!md_pre.contains_key(q));
                                if md_pre.contains_key(t) && w_pre.contains(t) && t != sid {
                                    let i = choose|i: int|
                                        0 <= i < w_pre.len() && w_pre[i] == t;
                                    assert(i < w_pre.len() - 1);
                                    assert(to_be_removed@[i] == t);
                                }
                            }
                        }
                    }
                    let mut j: usize = 0;
                    while j < n
                        invariant
                            n == dir.children@.len(),
                            j <= n,
                            m0.contains_key(sid),
                            dir == m0[sid],
                            dir.children@.no_duplicates(),
                            dirs_wf(m0),
                            m0.contains_key(id.0),
                            b.sid_counter == counter0,
                            !b.directories@.contains_key(sid),
                            forall|t: i64| #[trigger]
                                b.directories@.contains_key(t) ==> m0.contains_key(t)
                                    && b.directories@[t] == m0[t],
                            to_be_removed@.no_duplicates(),
                            forall|i: int|
                                0 <= i < to_be_removed@.len() ==> {
                                    let t = #[trigger] to_be_removed@[i];
                                    map_in_subtree(m0, id.0, t) && b.directories@.contains_key(t)
                                },
                            forall|t: i64|
                                m0.contains_key(t) && !(#[trigger] b.directories@.contains_key(t))
                                    ==> map_in_subtree(m0, id.0, t),
                            !b.directories@.contains_key(id.0) || to_be_removed@.contains(id.0),
                            // each still-unqueued child of `sid` is present
                            // and waits at an index not yet reached
                            forall|i: int| j <= i < n ==> {
                                let c = #[trigger] dir.children@[i];
                                b.directories@.contains_key(c) && !to_be_removed@.contains(c)
                            },
                            forall|i: int| 0 <= i < n ==> {
                                let c = #[trigger] dir.children@[i];
                                c != id.0 && map_in_subtree(m0, id.0, c)
                            },
                            // queued children so far
                            forall|i: int|
                                0 <= i < j ==> to_be_removed@.contains(
                                    #[trigger] dir.children@[i],
                                ),
                            // frontier, allowing for children not queued yet
                            forall|t: i64|
                                m0.contains_key(t) && t != id.0 && (match m0[t].parent_sid {
                                    Some(q) => !b.directories@.contains_key(q),
                                    None => false,
                                }) ==> (!(#[trigger] b.directories@.contains_key(t))
                                    || to_be_removed@.contains(t) || (m0[t].parent_sid == Some(sid)
                                    && exists|i: int|
                                        j <= i < n && dir.children@[i] == t)),
                            forall|t: i64|
                                m0.contains_key(t) && t != id.0 && (!(
                                #[trigger] b.directories@.contains_key(t))
                                    || to_be_removed@.contains(t)) ==> (match m0[t].parent_sid {
                                    Some(q) => !b.directories@.contains_key(q),
                                    None => false,
                                }),
                        decreases n - j,
                    {
                        let c = dir.children[j];
                        let ghost w_before = to_be_removed@;
                        to_be_removed.push(c);
                        proof {
                            assert(to_be_removed@ == w_before.push(c));
                            assert forall|t: i64| to_be_removed@.contains(t) implies (
                                w_before.contains(t) || t == c) by {
                                let i = choose|i: int|
                                    0 <= i < to_be_removed@.len() && to_be_removed@[i] == t;
                                if i < w_before.len() {
                                    assert(w_before[i] == t);
                                }
                            }
                            assert forall|t: i64| w_before.contains(t) implies
                                to_be_removed@.contains(t) by {
                                let i = choose|i: int|
                                    0 <= i < w_before.len() && w_before[i] == t;
                                assert(to_be_removed@[i] == t);
                            }
                            assert(to_be_removed@[w_before.len() as int] == c);
                            assert(to_be_removed@.contains(c));
                            // the pushed child is new to the worklist, so
                            // distinctness is preserved
                            assert forall|i: int, k2: int|
                                0 <= i < k2 < to_be_removed@.len() implies to_be_removed@[i]
                                    != to_be_removed@[k2] by {
                                if k2 == to_be_removed@.len() - 1 {
                                    assert(w_before[i] == to_be_removed@[i]);
                                    assert(w_before.contains(to_be_removed@[i]));
                                }
                            }
                        }
                        j = j + 1;
                        proof {
                            assert forall|i: int| j <= i < n implies {
                                let c2 = #[trigger] dir.children@[i];
                                b.directories@.contains_key(c2) && !to_be_removed@.contains(c2)
                            } by {
                                let c2 = dir.children@[i];
                                if c2 == c {
                                    assert(dir.children@[j - 1] == c);
                                    assert(false);
                                }
                            }
                        }
                    }
                },
                None => {
                    proof {
                        assert(false);
                    }
                    let ghost bk = b;
                    self.put_bucket(requested_by, b);
                    return Err(DaError::DirectoryNotFound(DaDirectorySid(sid)));
                },
            }
        }

        // The cascade is complete: the whole subtree, and nothing else,
        // is gone.
        let ghost md = b.directories@;
        proof {
            assert forall|s: i64| map_in_subtree(m0, id.0, s) implies !md.contains_key(s) by {
                let k = choose|k: nat| chain_to(m0, id.0, s, k);
                lemma_cascade_complete(m0, md, id.0, s, k);
            }
        }

        // Unlink the target from its former parent's children set; done
        // after the walk so that nothing is attached below a removed
        // record in the meantime.
        match parent_sid {
            Some(p) => {
                proof {
                    assert(rec_wf(m0, id.0));
                    if map_in_subtree(m0, id.0, p) {
                        let k = choose|k: nat| chain_to(m0, id.0, p, k);
                        lemma_chain_depth(m0, id.0, p, k);
                        assert(false);
                    }
                    assert(md.contains_key(p));
                }
                match b.directories.remove(&p) {
                    Some(mut prec) => {
                        let ghost oldkids = prec.children@;
                        proof {
                            assert(rec_wf(m0, p));
                            assert(oldkids.no_duplicates());
                        }
                        let n = prec.children.len();
                        let mut kept: Vec<i64> = Vec::new();
                        let mut j: usize = 0;
                        while j < n
                            invariant
                                j <= n,
                                n == oldkids.len(),
                                prec.children@ == oldkids,
                                oldkids.no_duplicates(),
                                kept@.no_duplicates(),
                                forall|c: i64| #[trigger]
                                    kept@.contains(c) <==> (oldkids.subrange(0, j as int).contains(
                                        c,
                                    ) && c != id.0),
                            decreases n - j,
                        {
                            let c = prec.children[j];
                            let ghost kept_before = kept@;
                            if c != id.0 {
                                kept.push(c);
                            }
                            j = j + 1;
                            proof {
                                let pre = oldkids.subrange(0, j - 1);
                                let cur = oldkids.subrange(0, j as int);
                                assert(cur =~= pre.push(oldkids[j - 1]));
                                assert(cur[j - 1] == oldkids[j - 1]);
                                assert forall|x: i64| #[trigger] cur.contains(x) implies (
                                    pre.contains(x) || x == c) by {
                                    let i = choose|i: int| 0 <= i < cur.len() && cur[i] == x;
                                    if i < pre.len() {
                                        assert(pre[i] == x);
                                    }
                                }
                                assert forall|x: i64| pre.contains(x) implies cur.contains(x) by {
                                    let i = choose|i: int| 0 <= i < pre.len() && pre[i] == x;
                                    assert(cur[i] == x);
                                }
                                assert(cur.contains(c));
                                if c != id.0 {
                                    assert(kept@ == kept_before.push(c));
                                    assert forall|x: i64| #[trigger] kept@.contains(x) implies (
                                        kept_before.contains(x) || x == c) by {
                                        let i = choose|i: int|
                                            0 <= i < kept@.len() && kept@[i] == x;
                                        if i < kept_before.len() {
                                            assert(kept_before[i] == x);
                                        }
                                    }
                                    assert forall|x: i64| kept_before.contains(x) implies
                                        kept@.contains(x) by {
                                        let i = choose|i: int|
                                            0 <= i < kept_before.len() && kept_before[i] == x;
                                        assert(kept@[i] == x);
                                    }
                                    assert(kept@[kept@.len() - 1] == c);
                                    assert(kept@.contains(c));
                                    // the appended child was not kept yet:
                                    // it sits first at index j - 1
                                    assert(!kept_before.contains(c)) by {
                                        if kept_before.contains(c) {
                                            assert(pre.contains(c));
                                            let i = choose|i: int|
                                                0 <= i < pre.len() && pre[i] == c;
                                            assert(oldkids[i] == c);
                                            assert(oldkids[j - 1] == c);
                                        }
                                    }
                                    assert forall|i: int, k2: int|
                                        0 <= i < k2 < kept@.len() implies kept@[i] != kept@[k2] by {
                                        if k2 == kept@.len() - 1 {
                                            assert(kept_before[i] == kept@[i]);
                                            assert(kept_before.contains(kept@[i]));
                                        }
                                    }
                                } else {
                                    assert(kept@ == kept_before);
                                }
                                assert forall|x: i64| #[trigger]
                                    kept@.contains(x) == (cur.contains(x) && x != id.0) by {
                                    if kept@.contains(x) {
                                        if c != id.0 {
                                            assert(kept_before.contains(x) || x == c);
                                        } else {
                                            assert(kept_before.contains(x));
                                        }
                                        assert(pre.contains(x) || x == c);
                                        assert(cur.contains(x));
                                        assert(x != id.0);
                                    }
                                    if cur.contains(x) && x != id.0 {
                                        assert(pre.contains(x) || x == c);
                                        if pre.contains(x) {
                                            assert(kept_before.contains(x));
                                        }
                                        assert(kept@.contains(x));
                                    }
                                }
                            }
                        }
                        let ghost kept_final = kept@;
                        proof {
                            assert(oldkids.subrange(0, n as int) =~= oldkids);
                        }
                        prec.children = kept;
                        let ghost precg = prec;
                        b.directories.insert(p, prec);
                        proof {
                            assert(b.directories@ =~= md.insert(p, precg));
                            assert(b.directories@[p] == precg);
                            assert(precg.children@ == kept_final);
                            assert(precg.sid == m0[p].sid);
                            assert(precg.parent_sid == m0[p].parent_sid);
                            assert(precg.depth == m0[p].depth);
                            assert(oldkids == m0[p].children@);
                        }
                    },
                    None => {
                        proof {
                            assert(false);
                        }
                        let ghost bk = b;
                        self.put_bucket(requested_by, b);
                        return Err(DaError::DirectoryNotFound(DaDirectorySid(p)));
                    },
                }
            },
            None => {},
        }

        let ghost mfin = b.directories@;
        let ghost bfin = b;
        self.put_bucket(requested_by, b);

        proof {
            lemma_delete_wf(m0, md, mfin, id.0, parent_sid);
            assert(self.bucket_dirs(requested_by) =~= mfin);
            assert(bucket_wf(old(self).buckets@[requested_by]));
            assert(bfin.sid_counter == counter0);
            assert(bucket_wf(self.buckets@[requested_by])) by {
                assert forall|s: i64| #[trigger] mfin.contains_key(s) implies 0 <= s
                    < bfin.sid_counter by {
                    if md.contains_key(s) {
                        assert(m0.contains_key(s));
                    } else {
                        assert(m0.contains_key(s));
                    }
                }
            }
            assert forall|o: EntityUid| #[trigger] self.buckets@.contains_key(o) implies bucket_wf(
                self.buckets@[o],
            ) by {
                if o != requested_by {
                    assert(old(self).buckets@.contains_key(o));
                }
            }
            assert forall|o: EntityUid| o != requested_by implies owner_unchanged(
                *old(self),
                *self,
                o,
            ) by {
                assert(old(self).bucket_dirs(o) =~= self.bucket_dirs(o));
            }
        }
        Ok(())
    }

    /// Retrieves the directory `id` of the requesting entity as a full
    /// recursive snapshot.
    pub fn get_directory(&self, requested_by: EntityUid, id: DaDirectorySid) -> (r: DaResult<
        DaDirectory,
    >)
        requires
            self.wf(),
        ensures
            match r {
                Ok(d) => self.has_dir(requested_by, id.0) && d.sid == id && self.is_snapshot_of(
                    requested_by,
                    d,
                ),
                Err(e) => !self.has_dir(requested_by, id.0) && e == DaError::DirectoryNotFound(id),
            },
    {
        self.read_dir(requested_by, id)
    }
}

/// Identifier freshness: every identifier stored for an owner is
/// strictly below the counter's next value, so an identifier returned by
/// a create was never stored before and is never handed out again.
pub proof fn lemma_sid_freshness(r: MemRepository, owner: EntityUid)
    requires
        r.wf(),
    ensures
        forall|s: i64| #[trigger] r.has_dir(owner, s) ==> 0 <= s < r.next_sid(owner),
{
    if r.buckets@.contains_key(owner) {
        assert(bucket_wf(r.buckets@[owner]));
    }
}

/// The counter's value after a run of creates: each create advances it
/// by exactly one.
proof fn lemma_counter_advances(states: Seq<MemRepository>, owner: EntityUid, i: int, j: int)
    requires
        forall|k: int|
            0 <= k < states.len() - 1 ==> #[trigger] states[k].next_sid(owner) + 1 == states[k
                + 1].next_sid(owner),
        0 <= i <= j < states.len(),
    ensures
        states[j].next_sid(owner) == states[i].next_sid(owner) + (j - i),
    decreases j - i,
{
    if j > i {
        lemma_counter_advances(states, owner, i, j - 1);
    }
}

/// For every sequence of creates within one owner, the returned
/// identifiers are pairwise distinct: each create returns the counter's
/// current value and advances the counter by one.
pub proof fn lemma_created_sids_distinct(
    states: Seq<MemRepository>,
    sids: Seq<i64>,
    owner: EntityUid,
)
    requires
        states.len() == sids.len() + 1,
        forall|i: int| 0 <= i < sids.len() ==> (#[trigger] sids[i]) == states[i].next_sid(owner),
        forall|i: int|
            0 <= i < sids.len() ==> #[trigger] states[i].next_sid(owner) + 1 == states[i
                + 1].next_sid(owner),
    ensures
        forall|i: int, j: int| 0 <= i < j < sids.len() ==> sids[i] != sids[j],
{
    assert forall|i: int, j: int| 0 <= i < j < sids.len() implies sids[i] != sids[j] by {
        lemma_counter_advances(states, owner, i, j);
    }
}

/// Depth law: a root sits at depth 0, and every other directory sits
/// exactly one level below its parent.
pub proof fn lemma_depth_law(r: MemRepository, owner: EntityUid, sid: i64)
    requires
        r.wf(),
        r.has_dir(owner, sid),
    ensures
        match r.dir_parent(owner, sid) {
            Some(p) => r.has_dir(owner, p) && r.dir_depth(owner, sid) == r.dir_depth(owner, p)
                + 1,
            None => r.dir_depth(owner, sid) == 0,
        },
{
    assert(bucket_wf(r.buckets@[owner]));
    assert(rec_wf(r.bucket_dirs(owner), sid));
}

/// Children law: the children set of a directory lists exactly the
/// directories whose parent it is, each exactly once.
pub proof fn lemma_children_law(r: MemRepository, owner: EntityUid, p: i64)
    requires
        r.wf(),
        r.has_dir(owner, p),
    ensures
        r.dir_children(owner, p).no_duplicates(),
        forall|c: i64| #[trigger]
            r.dir_children(owner, p).contains(c) <==> (r.has_dir(owner, c) && r.dir_parent(
                owner,
                c,
            ) == Some(p)),
{
    let m = r.bucket_dirs(owner);
    assert(bucket_wf(r.buckets@[owner]));
    assert(rec_wf(m, p));
    assert forall|c: i64| #[trigger]
        r.dir_children(owner, p).contains(c) == (r.has_dir(owner, c) && r.dir_parent(owner, c)
            == Some(p)) by {
        if r.dir_children(owner, p).contains(c) {
            let i = choose|i: int|
                0 <= i < m[p].children@.len() && m[p].children@[i] == c;
            assert(m[p].children@[i] == c);
        }
        if r.has_dir(owner, c) && r.dir_parent(owner, c) == Some(p) {
            assert(rec_wf(m, c));
        }
    }
}

/// Every directory lies in its own subtree.
pub proof fn lemma_subtree_self(r: MemRepository, owner: EntityUid, sid: i64)
    ensures
        r.in_subtree(owner, sid, sid),
{
    assert(chain_to(r.bucket_dirs(owner), sid, sid, 0));
}

/// A child of a directory that lies in a subtree lies in that subtree
/// as well.
pub proof fn lemma_subtree_child(
    r: MemRepository,
    owner: EntityUid,
    root: i64,
    s: i64,
    c: i64,
)
    requires
        r.in_subtree(owner, root, s),
        r.has_dir(owner, c),
        r.dir_parent(owner, c) == Some(s),
    ensures
        r.in_subtree(owner, root, c),
{
    let m = r.bucket_dirs(owner);
    if c != root {
        let k = choose|k: nat| chain_to(m, root, s, k);
        assert(chain_to(m, root, c, (k + 1) as nat));
    } else {
        assert(chain_to(m, root, c, 0));
    }
}

/// Isolation law: an operation performed by one owner changes nothing
/// another owner can observe; in particular an identifier absent from
/// one owner's bucket is still absent after any other owner's
/// operation, whatever identifiers that operation returned.
pub proof fn lemma_owner_isolation(
    pre: MemRepository,
    post: MemRepository,
    owner_a: EntityUid,
    s: i64,
)
    requires
        owner_unchanged(pre, post, owner_a),
        !pre.has_dir(owner_a, s),
    ensures
        !post.has_dir(owner_a, s),
{
}

/// The directory `sid` of owner `owner` is present in both repository
/// states with the same name, parent, children and depth.
pub open spec fn dir_unchanged(a: MemRepository, b: MemRepository, owner: EntityUid, sid: i64) -> bool {
    &&& a.has_dir(owner, sid)
    &&& b.has_dir(owner, sid)
    &&& b.dir_name(owner, sid) == a.dir_name(owner, sid)
    &&& b.dir_parent(owner, sid) == a.dir_parent(owner, sid)
    &&& b.dir_children(owner, sid) == a.dir_children(owner, sid)
    &&& b.dir_depth(owner, sid) == a.dir_depth(owner, sid)
}

/// Owner `owner` observes no difference at all between the two
/// repository states.
pub open spec fn owner_unchanged(a: MemRepository, b: MemRepository, owner: EntityUid) -> bool {
    &&& b.next_sid(owner) == a.next_sid(owner)
    &&& forall|s: i64| #[trigger] b.has_dir(owner, s) == a.has_dir(owner, s)
    &&& forall|s: i64| #[trigger] a.has_dir(owner, s) ==> dir_unchanged(a, b, owner, s)
}

} // verus!
