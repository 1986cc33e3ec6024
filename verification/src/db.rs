use vstd::prelude::*;
use crate::iso::IsolatedPath;

verus! {

/// The value an 8-byte big-endian column holds.
pub open spec fn be_u64_of(s: Seq<u8>) -> nat
    decreases s.len(),
{
    if s.len() == 0 {
        0
    } else {
        be_u64_of(s.drop_last()) * 256 + s.last() as nat
    }
}

pub open spec fn pow256(n: nat) -> nat
    decreases n,
{
    if n == 0 {
        1nat
    } else {
        256 * pow256((n - 1) as nat)
    }
}

pub proof fn lemma_be_u64_bound(s: Seq<u8>)
    ensures
        be_u64_of(s) < pow256(s.len()),
    decreases s.len(),
{
    if s.len() == 0 {
    } else {
        lemma_be_u64_bound(s.drop_last());
        let p = pow256((s.len() - 1) as nat);
        let b = be_u64_of(s.drop_last());
        assert(b <= p - 1);
        assert(b * 256 <= (p - 1) * 256) by (nonlinear_arith)
            requires
                b <= p - 1,
                p >= 1,
        ;
        assert(s.last() < 256);
        assert(pow256(s.len()) == 256 * p);
    }
}

/// Reads an 8-byte big-endian column into the integer it stores, the
/// decoding the final diff applies to persisted inode and size columns.
pub fn u64_from_be_bytes(b: &Vec<u8>) -> (r: u64)
    requires
        b@.len() == 8,
    ensures
        r as nat == be_u64_of(b@),
{
    proof {
        reveal_with_fuel(pow256, 9);
    }
    let mut acc: u64 = 0;
    let mut i: usize = 0;
    while i < 8
        invariant
            i <= 8,
            b@.len() == 8,
            acc as nat == be_u64_of(b@.subrange(0, i as int)),
        decreases 8 - i,
    {
        proof {
            reveal_with_fuel(pow256, 9);
            lemma_be_u64_bound(b@.subrange(0, i as int));
            assert(pow256(i as nat) <= pow256(7)) by {
                assert(pow256(0) <= pow256(7));
                assert(pow256(1) <= pow256(7));
                assert(pow256(2) <= pow256(7));
                assert(pow256(3) <= pow256(7));
                assert(pow256(4) <= pow256(7));
                assert(pow256(5) <= pow256(7));
                assert(pow256(6) <= pow256(7));
            }
            assert(acc as nat * 256 <= (pow256(7) - 1) * 256) by (nonlinear_arith)
                requires
                    acc as nat <= pow256(7) - 1,
            ;
        }
        let byte = b[i];
        acc = acc * 256 + byte as u64;
        proof {
            let sub1 = b@.subrange(0, (i + 1) as int);
            assert(sub1.drop_last() =~= b@.subrange(0, i as int));
            assert(sub1.last() == b@[i as int]);
        }
        i = i + 1;
    }
    assert(b@.subrange(0, 8) =~= b@);
    acc
}

/// Writes an integer as the 8-byte big-endian column that stores it.
pub fn u64_to_be_bytes(v: u64) -> (r: Vec<u8>)
    ensures
        r@.len() == 8,
        be_u64_of(r@) == v as nat,
{
    let b0: u8 = #[verifier::truncate] ((v >> 56u64) as u8);
    let b1: u8 = #[verifier::truncate] ((v >> 48u64) as u8);
    let b2: u8 = #[verifier::truncate] ((v >> 40u64) as u8);
    let b3: u8 = #[verifier::truncate] ((v >> 32u64) as u8);
    let b4: u8 = #[verifier::truncate] ((v >> 24u64) as u8);
    let b5: u8 = #[verifier::truncate] ((v >> 16u64) as u8);
    let b6: u8 = #[verifier::truncate] ((v >> 8u64) as u8);
    let b7: u8 = #[verifier::truncate] (v as u8);
    let mut r: Vec<u8> = Vec::new();
    r.push(b0);
    r.push(b1);
    r.push(b2);
    r.push(b3);
    r.push(b4);
    r.push(b5);
    r.push(b6);
    r.push(b7);
    proof {
        let s1 = seq![b0];
        let s2 = seq![b0, b1];
        let s3 = seq![b0, b1, b2];
        let s4 = seq![b0, b1, b2, b3];
        let s5 = seq![b0, b1, b2, b3, b4];
        let s6 = seq![b0, b1, b2, b3, b4, b5];
        let s7 = seq![b0, b1, b2, b3, b4, b5, b6];
        let s8 = seq![b0, b1, b2, b3, b4, b5, b6, b7];
        assert(s1.drop_last() =~= Seq::<u8>::empty());
        assert(s2.drop_last() =~= s1);
        assert(s3.drop_last() =~= s2);
        assert(s4.drop_last() =~= s3);
        assert(s5.drop_last() =~= s4);
        assert(s6.drop_last() =~= s5);
        assert(s7.drop_last() =~= s6);
        assert(s8.drop_last() =~= s7);
        assert(be_u64_of(Seq::<u8>::empty()) == 0);
        assert(s1.last() == b0);
        assert(be_u64_of(s1) == b0 as nat);
        assert(be_u64_of(s2) == be_u64_of(s1) * 256 + b1 as nat);
        assert(be_u64_of(s3) == be_u64_of(s2) * 256 + b2 as nat);
        assert(be_u64_of(s4) == be_u64_of(s3) * 256 + b3 as nat);
        assert(be_u64_of(s5) == be_u64_of(s4) * 256 + b4 as nat);
        assert(be_u64_of(s6) == be_u64_of(s5) * 256 + b5 as nat);
        assert(be_u64_of(s7) == be_u64_of(s6) * 256 + b6 as nat);
        assert(be_u64_of(s8) == be_u64_of(s7) * 256 + b7 as nat);
        assert(r@ =~= s8);
        assert(be_u64_of(r@) == ((((((((b0 * 256 + b1) * 256 + b2) * 256 + b3) * 256 + b4) * 256
            + b5) * 256 + b6) * 256) + b7));
        assert(((((((((v >> 56u64) as u8) as u64 * 256 + ((v >> 48u64) as u8) as u64) * 256 + ((v
            >> 40u64) as u8) as u64) * 256 + ((v >> 32u64) as u8) as u64) * 256 + ((v
            >> 24u64) as u8) as u64) * 256 + ((v >> 16u64) as u8) as u64) * 256 + ((v
            >> 8u64) as u8) as u64) * 256 + (v as u8) as u64 == v) by (bit_vector);
    }
    r
}

/// The mathematical content of one persisted record.
pub struct RecView {
    pub pub_id: u128,
    pub object_id: Option<i64>,
    pub iso: (int, Seq<Seq<char>>, bool),
    pub inode_bytes: Option<Seq<u8>>,
    pub date_modified_ms: Option<i64>,
    pub hidden: Option<bool>,
    pub size_bytes: Option<Seq<u8>>,
    pub cas_id: Option<Seq<char>>,
}

/// One persisted file-path record, as the reconciliation queries return
/// it. Integer columns that the store keeps as raw bytes stay raw here;
/// the final diff decodes them.
pub struct FilePathRecord {
    pub pub_id: u128,
    pub object_id: Option<i64>,
    pub iso: IsolatedPath,
    pub inode_bytes: Option<Vec<u8>>,
    pub date_modified_ms: Option<i64>,
    pub hidden: Option<bool>,
    pub size_bytes: Option<Vec<u8>>,
    pub cas_id: Option<String>,
}

impl View for FilePathRecord {
    type V = RecView;

    open spec fn view(&self) -> RecView {
        RecView {
            pub_id: self.pub_id,
            object_id: self.object_id,
            iso: self.iso@,
            inode_bytes: match self.inode_bytes {
                Some(b) => Some(b@),
                None => None,
            },
            date_modified_ms: self.date_modified_ms,
            hidden: self.hidden,
            size_bytes: match self.size_bytes {
                Some(b) => Some(b@),
                None => None,
            },
            cas_id: match self.cas_id {
                Some(s) => Some(s@),
                None => None,
            },
        }
    }
}

impl FilePathRecord {
    /// A record is well formed when its raw integer columns hold exactly
    /// eight bytes.
    pub open spec fn wf(&self) -> bool {
        &&& (self@.inode_bytes matches Some(b) ==> b.len() == 8)
        &&& (self@.size_bytes matches Some(b) ==> b.len() == 8)
    }

    pub fn duplicate(&self) -> (r: FilePathRecord)
        ensures
            r@ == self@,
    {
        FilePathRecord {
            pub_id: self.pub_id,
            object_id: self.object_id,
            iso: self.iso.duplicate(),
            inode_bytes: match &self.inode_bytes {
                Some(b) => Some(b.clone()),
                None => None,
            },
            date_modified_ms: self.date_modified_ms,
            hidden: self.hidden,
            size_bytes: match &self.size_bytes {
                Some(b) => Some(b.clone()),
                None => None,
            },
            cas_id: match &self.cas_id {
                Some(s) => Some(s.clone()),
                None => None,
            },
        }
    }
}

/// What a removal candidate carries: enough to delete the record and drop
/// any content-addressed artifacts.
pub struct PubAndCasId {
    pub pub_id: u128,
    pub cas_id: Option<String>,
}

impl View for PubAndCasId {
    type V = (u128, Option<Seq<char>>);

    open spec fn view(&self) -> (u128, Option<Seq<char>>) {
        (
            self.pub_id,
            match self.cas_id {
                Some(s) => Some(s@),
                None => None,
            },
        )
    }
}

impl PubAndCasId {
    pub fn duplicate(&self) -> (r: PubAndCasId)
        ensures
            r@ == self@,
    {
        PubAndCasId {
            pub_id: self.pub_id,
            cas_id: match &self.cas_id {
                Some(s) => Some(s.clone()),
                None => None,
            },
        }
    }
}

/// The first record keyed by the given isolated path, if any.
pub open spec fn find_record(recs: Seq<RecView>, iso: (int, Seq<Seq<char>>, bool)) -> Option<
    RecView,
>
    decreases recs.len(),
{
    if recs.len() == 0 {
        None
    } else if recs[0].iso == iso {
        Some(recs[0])
    } else {
        find_record(recs.drop_first(), iso)
    }
}

/// The views of a sequence of records.
pub open spec fn rec_views(s: Seq<FilePathRecord>) -> Seq<RecView> {
    Seq::new(s.len(), |i: int| s[i]@)
}

/// Skipping non-matching records does not change what is found.
pub proof fn lemma_find_record_skip(recs: Seq<RecView>, iso: (int, Seq<Seq<char>>, bool), i: int)
    requires
        0 <= i <= recs.len(),
        forall|j: int| 0 <= j < i ==> (#[trigger] recs[j]).iso != iso,
    ensures
        find_record(recs, iso) == find_record(recs.skip(i), iso),
    decreases i,
{
    if i > 0 {
        assert(recs[0].iso != iso);
        assert(find_record(recs, iso) == find_record(recs.drop_first(), iso));
        assert(recs.drop_first() =~= recs.skip(1));
        assert forall|j: int| 0 <= j < i - 1 implies (#[trigger] recs.skip(1)[j]).iso != iso by {
            assert(recs.skip(1)[j] == recs[j + 1]);
        }
        lemma_find_record_skip(recs.skip(1), iso, i - 1);
        assert(recs.skip(1).skip(i - 1) =~= recs.skip(i));
    } else {
        assert(recs.skip(0) =~= recs);
    }
}

/// Finds the first record keyed by the given isolated path.
pub fn find_record_index(existing: &Vec<FilePathRecord>, iso: &IsolatedPath) -> (r: Option<usize>)
    ensures
        match r {
            Some(i) => i < existing@.len() && find_record(rec_views(existing@), iso@) == Some(
                existing@[i as int]@,
            ),
            None => find_record(rec_views(existing@), iso@) is None,
        },
{
    let mut i: usize = 0;
    while i < existing.len()
        invariant
            i <= existing@.len(),
            forall|j: int| 0 <= j < i ==> (#[trigger] rec_views(existing@)[j]).iso != iso@,
        decreases existing@.len() - i,
    {
        if existing[i].iso.eq_iso(iso) {
            proof {
                lemma_find_record_skip(rec_views(existing@), iso@, i as int);
                assert(rec_views(existing@).skip(i as int)[0] == rec_views(existing@)[i as int]);
                assert(rec_views(existing@).skip(i as int).len() > 0);
            }
            return Some(i);
        }
        i = i + 1;
    }
    proof {
        lemma_find_record_skip(rec_views(existing@), iso@, existing@.len() as int);
        assert(rec_views(existing@).skip(existing@.len() as int) =~= Seq::<RecView>::empty());
    }
    None
}

/// A record's key lies one level below the given directory identity, in
/// the same location: the scope of a removal-candidate query.
pub open spec fn is_direct_child_of(
    iso: (int, Seq<Seq<char>>, bool),
    parent: (int, Seq<Seq<char>>, bool),
) -> bool {
    &&& iso.0 == parent.0
    &&& iso.1.len() == parent.1.len() + 1
    &&& iso.1.subrange(0, parent.1.len() as int) == parent.1
}

/// The records whose keys are among the given ones, in store order.
pub open spec fn fetched_of(
    recs: Seq<RecView>,
    keys: Seq<(int, Seq<Seq<char>>, bool)>,
) -> Seq<RecView>
    decreases recs.len(),
{
    if recs.len() == 0 {
        Seq::<RecView>::empty()
    } else {
        let rest = fetched_of(recs.drop_last(), keys);
        if keys.contains(recs.last().iso) {
            rest.push(recs.last())
        } else {
            rest
        }
    }
}

/// The removal candidates: records directly under the given directory
/// whose keys are not among the still-present ones, in store order.
pub open spec fn removal_of(
    recs: Seq<RecView>,
    parent: (int, Seq<Seq<char>>, bool),
    keys: Seq<(int, Seq<Seq<char>>, bool)>,
) -> Seq<(u128, Option<Seq<char>>)>
    decreases recs.len(),
{
    if recs.len() == 0 {
        Seq::<(u128, Option<Seq<char>>)>::empty()
    } else {
        let rest = removal_of(recs.drop_last(), parent, keys);
        let rec = recs.last();
        if is_direct_child_of(rec.iso, parent) && !keys.contains(rec.iso) {
            rest.push((rec.pub_id, rec.cas_id))
        } else {
            rest
        }
    }
}

/// An in-memory stand-in for the persistence layer the reconciliation
/// queries run against.
pub struct InMemoryStore {
    pub records: Vec<FilePathRecord>,
}

impl InMemoryStore {
    /// Raw integer columns hold eight bytes and keys are unique.
    pub open spec fn wf(&self) -> bool {
        &&& forall|i: int| 0 <= i < self.records@.len() ==> (#[trigger] self.records@[i]).wf()
        &&& forall|i: int, j: int|
            0 <= i < j < self.records@.len() ==> self.records@[i]@.iso != self.records@[j]@.iso
    }

    pub fn new() -> (r: InMemoryStore)
        ensures
            r.records@.len() == 0,
            r.wf(),
    {
        InMemoryStore { records: Vec::new() }
    }

    pub fn push_record(&mut self, rec: FilePathRecord)
        ensures
            final(self).records@.len() == old(self).records@.len() + 1,
            final(self).records@.last() == rec,
            forall|i: int|
                0 <= i < old(self).records@.len() ==> final(self).records@[i] == old(
                    self,
                ).records@[i],
    {
        self.records.push(rec);
    }

    /// The records matching the given keys, for the create/update diff.
    pub fn fetch_file_paths(&self, keys: &Vec<IsolatedPath>) -> (r: Vec<FilePathRecord>)
        ensures
            rec_views(r@) == fetched_of(
                rec_views(self.records@),
                crate::iso_key_seq(keys@),
            ),
            forall|i: int|
                0 <= i < self.records@.len() && (#[trigger] self.records@[i]).wf() ==> true,
            (forall|i: int| 0 <= i < self.records@.len() ==> (#[trigger] self.records@[i]).wf())
                ==> forall|i: int| 0 <= i < r@.len() ==> (#[trigger] r@[i]).wf(),
    {
        let mut out: Vec<FilePathRecord> = Vec::new();
        let mut k: usize = 0;
        proof {
            assert(rec_views(out@) =~= fetched_of(
                rec_views(self.records@.subrange(0, 0)),
                crate::iso_key_seq(keys@),
            ));
        }
        while k < self.records.len()
            invariant
                k <= self.records@.len(),
                rec_views(out@) == fetched_of(
                    rec_views(self.records@.subrange(0, k as int)),
                    crate::iso_key_seq(keys@),
                ),
                (forall|i: int|
                    0 <= i < self.records@.len() ==> (#[trigger] self.records@[i]).wf()) ==> forall|
                    i: int,
                | 0 <= i < out@.len() ==> (#[trigger] out@[i]).wf(),
            decreases self.records@.len() - k,
        {
            let ghost pre = rec_views(self.records@.subrange(0, k as int));
            let ghost post = rec_views(self.records@.subrange(0, (k + 1) as int));
            proof {
                assert(post.drop_last() =~= pre);
                assert(post.last() == self.records@[k as int]@);
            }
            let rec = &self.records[k];
            if contains_key(keys, &rec.iso) {
                out.push(rec.duplicate());
                proof {
                    assert(rec_views(out@) =~= fetched_of(post, crate::iso_key_seq(keys@)));
                }
            } else {
                proof {
                    assert(rec_views(out@) =~= fetched_of(post, crate::iso_key_seq(keys@)));
                }
            }
            k = k + 1;
        }
        proof {
            assert(self.records@.subrange(0, self.records@.len() as int) =~= self.records@);
        }
        out
    }

    /// The removal candidates directly under one directory: persisted
    /// records of that scope whose keys are not among the just-accepted
    /// ones.
    pub fn fetch_file_paths_to_remove(
        &self,
        parent_iso_file_path: &IsolatedPath,
        keys: &Vec<IsolatedPath>,
    ) -> (r: Vec<PubAndCasId>)
        ensures
            crate::task::pubcas_views(r@) == removal_of(
                rec_views(self.records@),
                parent_iso_file_path@,
                crate::iso_key_seq(keys@),
            ),
    {
        let mut out: Vec<PubAndCasId> = Vec::new();
        let mut k: usize = 0;
        proof {
            assert(crate::task::pubcas_views(out@) =~= removal_of(
                rec_views(self.records@.subrange(0, 0)),
                parent_iso_file_path@,
                crate::iso_key_seq(keys@),
            ));
        }
        while k < self.records.len()
            invariant
                k <= self.records@.len(),
                crate::task::pubcas_views(out@) == removal_of(
                    rec_views(self.records@.subrange(0, k as int)),
                    parent_iso_file_path@,
                    crate::iso_key_seq(keys@),
                ),
            decreases self.records@.len() - k,
        {
            let ghost pre = rec_views(self.records@.subrange(0, k as int));
            let ghost post = rec_views(self.records@.subrange(0, (k + 1) as int));
            proof {
                assert(post.drop_last() =~= pre);
                assert(post.last() == self.records@[k as int]@);
            }
            let rec = &self.records[k];
            if is_direct_child_exec(&rec.iso, parent_iso_file_path) && !contains_key(
                keys,
                &rec.iso,
            ) {
                out.push(
                    PubAndCasId {
                        pub_id: rec.pub_id,
                        cas_id: match &rec.cas_id {
                            Some(c) => Some(c.clone()),
                            None => None,
                        },
                    },
                );
                proof {
                    assert(crate::task::pubcas_views(out@) =~= removal_of(
                        post,
                        parent_iso_file_path@,
                        crate::iso_key_seq(keys@),
                    ));
                }
            } else {
                proof {
                    assert(crate::task::pubcas_views(out@) =~= removal_of(
                        post,
                        parent_iso_file_path@,
                        crate::iso_key_seq(keys@),
                    ));
                }
            }
            k = k + 1;
        }
        proof {
            assert(self.records@.subrange(0, self.records@.len() as int) =~= self.records@);
        }
        out
    }
}

fn is_direct_child_exec(iso: &IsolatedPath, parent: &IsolatedPath) -> (r: bool)
    ensures
        r == is_direct_child_of(iso@, parent@),
{
    if iso.location_id != parent.location_id {
        return false;
    }
    if iso.rel.len() == 0 || iso.rel.len() - 1 != parent.rel.len() {
        proof {
            assert(iso@.1.len() != parent@.1.len() + 1);
        }
        return false;
    }
    let pre = iso.rel.prefix(parent.rel.len());
    let r = pre.eq_path(&parent.rel);
    proof {
        if r {
            assert(is_direct_child_of(iso@, parent@));
        } else {
            assert(!is_direct_child_of(iso@, parent@));
        }
    }
    r
}

fn contains_key(keys: &Vec<IsolatedPath>, iso: &IsolatedPath) -> (r: bool)
    ensures
        r == crate::iso_key_seq(keys@).contains(iso@),
{
    let mut i: usize = 0;
    while i < keys.len()
        invariant
            i <= keys@.len(),
            forall|j: int| 0 <= j < i ==> (#[trigger] keys@[j])@ != iso@,
        decreases keys@.len() - i,
    {
        if keys[i].eq_iso(iso) {
            proof {
                assert(crate::iso_key_seq(keys@)[i as int] == iso@);
            }
            return true;
        }
        i = i + 1;
    }
    proof {
        assert forall|j: int|
            0 <= j < crate::iso_key_seq(keys@).len() implies crate::iso_key_seq(keys@)[j]
            != iso@ by {}
    }
    false
}
} // verus!
