//! Deterministic fingerprinting of a source tree.
//!
//! A tree is handed in as a list of `(relative path, content)` records, in
//! whatever order the filesystem enumerated them.  The fingerprint sorts the
//! records, feeds each path and each content into a streaming rapidhash
//! hasher, and finishes it, so the result depends only on the *multiset* of
//! records and never on the enumeration order.

use vstd::prelude::*;
use vstd::relations::{sorted_by, total_ordering};
use vstd::seq_lib::lemma_multiset_commutative;
use vstd::seq_lib::lemma_sorted_unique;

use crate::bytes::{bytes_eq, lemma_lex_le_antisymmetric, lemma_lex_le_total,
    lemma_lex_le_transitive, lex_le, lex_le_exec};

verus! {

#[verifier::external_type_specification]
#[verifier::external_body]
pub struct ExRapidInlineHasher(rapidhash::RapidInlineHasher);

/// The byte strings written to a streaming hasher so far, one per write.
pub uninterp spec fn hasher_writes(h: rapidhash::RapidInlineHasher) -> Seq<Seq<u8>>;

/// What finishing a default-seeded streaming rapidhash hasher returns, as a
/// function of the sequence of writes alone.
pub uninterp spec fn rapid_stream_of(writes: Seq<Seq<u8>>) -> u64;

/// Relies on rapidhash::RapidInlineHasher::default: a fresh hasher seeded
/// with the crate's fixed default seed, with nothing written yet.
#[verifier::external_body]
fn hasher_new() -> (h: rapidhash::RapidInlineHasher)
    ensures
        hasher_writes(h) == Seq::<Seq<u8>>::empty(),
{
    rapidhash::RapidInlineHasher::default()
}

/// Relies on rapidhash::RapidInlineHasher's Hasher::write: it folds the given
/// bytes into the state, so the state now reflects one more write.
#[verifier::external_body]
fn hasher_write(h: &mut rapidhash::RapidInlineHasher, data: &[u8])
    ensures
        hasher_writes(*final(h)) == hasher_writes(*old(h)).push(data@),
{
    core::hash::Hasher::write(h, data)
}

/// Relies on rapidhash::RapidInlineHasher's Hasher::finish: with the fixed
/// default seed the value is a function of the writes alone, identical
/// across runs and machines.
#[verifier::external_body]
fn hasher_finish(h: &rapidhash::RapidInlineHasher) -> (r: u64)
    ensures
        r == rapid_stream_of(hasher_writes(*h)),
{
    core::hash::Hasher::finish(h)
}

/// The rapidhash value of one byte string (default seed).
pub uninterp spec fn rapid_hash_of(data: Seq<u8>) -> u64;

/// Relies on rapidhash::rapidhash: the one-shot hash of a byte string with
/// the fixed default seed, a function of the bytes alone.
#[verifier::external_body]
pub fn content_hash(data: &[u8]) -> (r: u64)
    ensures
        r == rapid_hash_of(data@),
{
    rapidhash::rapidhash(data)
}

/// One enumerated regular file of a source tree: its path relative to the
/// tree root (canonicalized, UTF-8 bytes) and its full content.
pub struct FileRecord {
    pub rel_path: Vec<u8>,
    pub content: Vec<u8>,
}

impl View for FileRecord {
    type V = (Seq<u8>, Seq<u8>);

    open spec fn view(&self) -> (Seq<u8>, Seq<u8>) {
        (self.rel_path@, self.content@)
    }
}

/// The views of a list of records.
pub open spec fn record_views(s: Seq<FileRecord>) -> Seq<(Seq<u8>, Seq<u8>)> {
    s.map_values(|r: FileRecord| r@)
}

/// Records ordered byte-lexicographically by path, ties broken by content.
pub open spec fn record_le(a: (Seq<u8>, Seq<u8>), b: (Seq<u8>, Seq<u8>)) -> bool {
    if a.0 == b.0 {
        lex_le(a.1, b.1)
    } else {
        lex_le(a.0, b.0)
    }
}

/// `record_le` as a first-class relation, shared by every use site.
pub open spec fn record_leq() -> spec_fn((Seq<u8>, Seq<u8>), (Seq<u8>, Seq<u8>)) -> bool {
    |a: (Seq<u8>, Seq<u8>), b: (Seq<u8>, Seq<u8>)| record_le(a, b)
}

/// `record_le` is a total order on records.
pub proof fn lemma_record_le_total_ordering()
    ensures
        total_ordering(record_leq()),
{
    let leq = record_leq();
    assert forall|a: (Seq<u8>, Seq<u8>), b: (Seq<u8>, Seq<u8>)| #[trigger] leq(a, b) || #[trigger] leq(b, a) by {
        lemma_lex_le_total(a.0, b.0);
        lemma_lex_le_total(a.1, b.1);
    }
    assert forall|a: (Seq<u8>, Seq<u8>), b: (Seq<u8>, Seq<u8>)| #[trigger] leq(a, b) && #[trigger] leq(b, a) implies a == b by {
        if a.0 == b.0 {
            lemma_lex_le_antisymmetric(a.1, b.1);
        } else {
            lemma_lex_le_antisymmetric(a.0, b.0);
        }
    }
    assert forall|a: (Seq<u8>, Seq<u8>), b: (Seq<u8>, Seq<u8>), c: (Seq<u8>, Seq<u8>)|
        #[trigger] leq(a, b) && #[trigger] leq(b, c) implies leq(a, c) by {
        if a.0 == b.0 && b.0 == c.0 {
            lemma_lex_le_transitive(a.1, b.1, c.1);
        } else if a.0 == b.0 {
            // path order decided between b and c
        } else if b.0 == c.0 {
            // path order decided between a and b
        } else {
            lemma_lex_le_transitive(a.0, b.0, c.0);
            if a.0 == c.0 {
                lemma_lex_le_antisymmetric(a.0, b.0);
            }
        }
    }
}

/// The write sequence a record list feeds into the hasher: for each record
/// in order, first its path, then its content.
pub open spec fn feed_of(rs: Seq<(Seq<u8>, Seq<u8>)>) -> Seq<Seq<u8>>
    decreases rs.len(),
{
    if rs.len() == 0 {
        Seq::<Seq<u8>>::empty()
    } else {
        feed_of(rs.drop_last()).push(rs.last().0).push(rs.last().1)
    }
}

/// The fingerprint of a record list: hash the sorted records' feed.
pub open spec fn dir_fingerprint(rs: Seq<(Seq<u8>, Seq<u8>)>) -> u64 {
    rapid_stream_of(feed_of(rs.sort_by(record_leq())))
}

/// Executable record comparison, equal to `record_le` on the views.
fn record_le_exec(a: &FileRecord, b: &FileRecord) -> (r: bool)
    ensures
        r == record_le(a@, b@),
{
    if bytes_eq(a.rel_path.as_slice(), b.rel_path.as_slice()) {
        lex_le_exec(a.content.as_slice(), b.content.as_slice())
    } else {
        lex_le_exec(a.rel_path.as_slice(), b.rel_path.as_slice())
    }
}

/// Copy one record; the copy has the same view.
fn clone_record(r: &FileRecord) -> (out: FileRecord)
    ensures
        out@ == r@,
{
    let rel_path = r.rel_path.clone();
    let content = r.content.clone();
    proof {
        assert(rel_path@ =~= r.rel_path@);
        assert(content@ =~= r.content@);
    }
    FileRecord { rel_path, content }
}

/// `to_multiset` of an insertion is an insertion into the multiset.
proof fn lemma_to_multiset_insert(s: Seq<(Seq<u8>, Seq<u8>)>, j: int, x: (Seq<u8>, Seq<u8>))
    requires
        0 <= j <= s.len(),
    ensures
        s.insert(j, x).to_multiset() == s.to_multiset().insert(x),
{
    broadcast use vstd::seq_lib::group_to_multiset_ensures;

    let left = s.subrange(0, j);
    let right = s.subrange(j, s.len() as int);
    assert(s.insert(j, x) == left.push(x) + right);
    lemma_multiset_commutative(left.push(x), right);
    lemma_multiset_commutative(left, right);
    assert(left + right =~= s);
    assert(s.insert(j, x).to_multiset() =~= s.to_multiset().insert(x));
}

/// Insert a record into a sorted list, keeping it sorted.
fn sorted_insert(out: &mut Vec<FileRecord>, rec: FileRecord)
    requires
        sorted_by(record_views(old(out)@), record_leq()),
    ensures
        sorted_by(record_views(final(out)@), record_leq()),
        record_views(final(out)@).to_multiset() == record_views(old(out)@).to_multiset().insert(
            rec@,
        ),
{
    proof {
        lemma_record_le_total_ordering();
    }
    let ghost leq = record_leq();
    let mut j: usize = 0;
    let mut scanning = true;
    while scanning && j < out.len()
        invariant
            0 <= j <= out@.len(),
            forall|k: int| 0 <= k < j ==> #[trigger] leq(record_views(out@)[k], rec@),
            !scanning && j < out@.len() ==> !leq(record_views(out@)[j as int], rec@),
            sorted_by(record_views(out@), record_leq()),
            total_ordering(record_leq()),
            leq == record_leq(),
        decreases out@.len() - j, if scanning { 1int } else { 0int },
    {
        if record_le_exec(&out[j], &rec) {
            j += 1;
        } else {
            scanning = false;
        }
    }
    proof {
        if j < out@.len() {
            assert(!leq(record_views(out@)[j as int], rec@));
            assert(leq(rec@, record_views(out@)[j as int]));
        }
        assert forall|k: int| j <= k < out@.len() implies #[trigger] leq(
            rec@,
            record_views(out@)[k],
        ) by {
            if k > j {
                assert(leq(record_views(out@)[j as int], record_views(out@)[k]));
            }
        }
    }
    let ghost pre = out@;
    out.insert(j, rec);
    proof {
        assert(record_views(out@) =~= record_views(pre).insert(j as int, rec@));
        lemma_to_multiset_insert(record_views(pre), j as int, rec@);
        let s = record_views(out@);
        assert forall|p: int, q: int| 0 <= p < q < s.len() implies #[trigger] leq(s[p], s[q]) by {
            let pv = record_views(pre);
            if q < j {
                assert(leq(pv[p], pv[q]));
            } else if p > j {
                assert(leq(pv[p - 1], pv[q - 1]));
            } else if p < j && q == j {
                assert(leq(pv[p], rec@));
            } else if p == j && q > j {
                assert(leq(rec@, pv[q - 1]));
            } else if p < j && q > j {
                assert(leq(pv[p], pv[q - 1]));
            }
        }
    }
}

/// Sort records by `record_le`; the result is the canonical sorted form.
fn sort_records(files: &Vec<FileRecord>) -> (out: Vec<FileRecord>)
    ensures
        record_views(out@) == record_views(files@).sort_by(record_leq()),
{
    broadcast use vstd::seq_lib::group_to_multiset_ensures;

    let mut out: Vec<FileRecord> = Vec::new();
    let mut i: usize = 0;
    proof {
        assert(record_views(out@) =~= Seq::<(Seq<u8>, Seq<u8>)>::empty());
        assert(record_views(files@.take(0)) =~= Seq::<(Seq<u8>, Seq<u8>)>::empty());
    }
    while i < files.len()
        invariant
            0 <= i <= files@.len(),
            sorted_by(record_views(out@), record_leq()),
            record_views(out@).to_multiset() == record_views(files@.take(i as int)).to_multiset(),
        decreases files@.len() - i,
    {
        let rec = clone_record(&files[i]);
        let ghost pre_take = record_views(files@.take(i as int));
        sorted_insert(&mut out, rec);
        proof {
            broadcast use vstd::seq_lib::group_to_multiset_ensures;

            let x = files@[i as int]@;
            assert(record_views(files@.take(i + 1)) =~= pre_take.push(x));
            assert(pre_take.push(x).to_multiset() == pre_take.to_multiset().insert(x));
        }
        i += 1;
    }
    proof {
        assert(files@.take(files@.len() as int) =~= files@);
        lemma_record_le_total_ordering();
        record_views(files@).lemma_sort_by_ensures(record_leq());
        lemma_sorted_unique(
            record_views(out@),
            record_views(files@).sort_by(record_leq()),
            record_leq(),
        );
    }
    out
}

/// Fingerprint of a source tree, from its enumerated regular files.
///
/// The result depends only on the set of records handed in: their relative
/// paths and contents.  Enumeration order, timestamps, owners and
/// non-executable permission bits do not enter into it.
pub fn dirhasher(files: &Vec<FileRecord>) -> (r: u64)
    ensures
        r == dir_fingerprint(record_views(files@)),
{
    let sorted = sort_records(files);
    let ghost sv = record_views(sorted@);
    let mut h = hasher_new();
    let mut i: usize = 0;
    proof {
        assert(feed_of(sv.take(0)) =~= Seq::<Seq<u8>>::empty());
    }
    while i < sorted.len()
        invariant
            0 <= i <= sorted@.len(),
            sv == record_views(sorted@),
            hasher_writes(h) == feed_of(sv.take(i as int)),
        decreases sorted@.len() - i,
    {
        hasher_write(&mut h, sorted[i].rel_path.as_slice());
        hasher_write(&mut h, sorted[i].content.as_slice());
        proof {
            let t = sv.take(i + 1);
            assert(t.drop_last() =~= sv.take(i as int));
            assert(t.last() == sorted@[i as int]@);
        }
        i += 1;
    }
    proof {
        assert(sv.take(sv.len() as int) =~= sv);
    }
    hasher_finish(&h)
}

/// Hash determinism: the fingerprint is invariant under reordering of the
/// enumerated records.  Two enumerations of the same tree — whatever order
/// the walker produced, across runs — carry the same multiset of records and
/// therefore the same fingerprint.
pub proof fn lemma_dirhasher_order_invariant(
    rs1: Seq<(Seq<u8>, Seq<u8>)>,
    rs2: Seq<(Seq<u8>, Seq<u8>)>,
)
    requires
        rs1.to_multiset() == rs2.to_multiset(),
    ensures
        dir_fingerprint(rs1) == dir_fingerprint(rs2),
{
    lemma_record_le_total_ordering();
    rs1.lemma_sort_by_ensures(record_leq());
    rs2.lemma_sort_by_ensures(record_leq());
    lemma_sorted_unique(rs1.sort_by(record_leq()), rs2.sort_by(record_leq()), record_leq());
}

} // verus!
