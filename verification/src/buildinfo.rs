//! The persisted ledger of the most recent assembly: one entry per project,
//! its 64-bit source fingerprint and the time it was built.
//!
//! The ledger's table-document form on disk is the surrounding binary's
//! business; this module holds the entries as plain values, the hex coding
//! of fingerprints, and the per-project rebuild decision.

use vstd::prelude::*;

use crate::bytes::bytes_eq;

verus! {

/// One ledger entry: a project's name, the fingerprint of its source tree
/// when it was last built, and the build time in seconds since the epoch.
#[derive(Debug, PartialEq, Eq)]
pub struct Project {
    pub name: Vec<u8>,
    pub hash: u64,
    pub build_date: i64,
}

/// The mathematical form of one ledger entry.
pub struct ProjectModel {
    pub name: Seq<u8>,
    pub hash: u64,
    pub build_date: i64,
}

impl View for Project {
    type V = ProjectModel;

    open spec fn view(&self) -> ProjectModel {
        ProjectModel { name: self.name@, hash: self.hash, build_date: self.build_date }
    }
}

/// The ledger of the most recent assembly.
#[derive(Debug, PartialEq, Eq)]
pub struct BuildInfo {
    pub projects: Vec<Project>,
}

impl View for BuildInfo {
    type V = Seq<ProjectModel>;

    open spec fn view(&self) -> Seq<ProjectModel> {
        self.projects@.map_values(|p: Project| p@)
    }
}

/// Does the ledger name this project?
pub open spec fn info_has(s: Seq<ProjectModel>, name: Seq<u8>) -> bool {
    exists|i: int| 0 <= i < s.len() && #[trigger] s[i].name == name
}

/// The index of the entry with this name.
pub open spec fn info_index(s: Seq<ProjectModel>, name: Seq<u8>) -> int {
    choose|i: int| 0 <= i < s.len() && #[trigger] s[i].name == name
}

/// Ledger invariant: project names are unique.
pub open spec fn info_wf(s: Seq<ProjectModel>) -> bool {
    forall|i: int, j: int| 0 <= i < j < s.len() ==> #[trigger] s[i].name != #[trigger] s[j].name
}

/// The previous entry that governs the rebuild decision: the named entry,
/// if the ledger was read and the project's output subdirectory still
/// exists on disk — a stale ledger without the subdirectory counts for
/// nothing.
pub open spec fn ledger_lookup(
    prev: Option<Seq<ProjectModel>>,
    name: Seq<u8>,
    subdir_exists: bool,
) -> Option<ProjectModel> {
    match prev {
        Option::None => Option::None,
        Option::Some(s) => if subdir_exists && info_has(s, name) {
            Option::Some(s[info_index(s, name)])
        } else {
            Option::None
        },
    }
}

impl BuildInfo {
    /// A ledger with no entries.
    pub fn new() -> (r: BuildInfo)
        ensures
            r@ == Seq::<ProjectModel>::empty(),
    {
        let r = BuildInfo { projects: Vec::new() };
        proof {
            assert(r@ =~= Seq::<ProjectModel>::empty());
        }
        r
    }

    /// The index of the entry named `name`.
    pub fn find_project(&self, name: &[u8]) -> (r: Option<usize>)
        ensures
            match r {
                Option::Some(i) => i < self@.len() && self@[i as int].name == name@ && info_has(
                    self@,
                    name@,
                ),
                Option::None => !info_has(self@, name@),
            },
    {
        let mut i: usize = 0;
        while i < self.projects.len()
            invariant
                0 <= i <= self@.len(),
                self@.len() == self.projects@.len(),
                forall|j: int| 0 <= j < i ==> #[trigger] self@[j].name != name@,
            decreases self@.len() - i,
        {
            proof {
                assert(self@[i as int] == self.projects@[i as int]@);
            }
            if bytes_eq(self.projects[i].name.as_slice(), name) {
                return Option::Some(i);
            }
            i += 1;
        }
        Option::None
    }

    /// Check the ledger invariant: no name twice.
    pub fn check_wf(&self) -> (r: bool)
        ensures
            r == info_wf(self@),
    {
        let mut i: usize = 0;
        while i < self.projects.len()
            invariant
                0 <= i <= self@.len(),
                self@.len() == self.projects@.len(),
                forall|a: int, b: int|
                    0 <= a < b < i ==> #[trigger] self@[a].name != #[trigger] self@[b].name,
            decreases self@.len() - i,
        {
            let mut j: usize = 0;
            while j < i
                invariant
                    0 <= j <= i < self@.len(),
                    self@.len() == self.projects@.len(),
                    forall|a: int| 0 <= a < j ==> #[trigger] self@[a].name != self@[i as int].name,
                decreases i - j,
            {
                proof {
                    assert(self@[j as int] == self.projects@[j as int]@);
                    assert(self@[i as int] == self.projects@[i as int]@);
                }
                if bytes_eq(self.projects[j].name.as_slice(), self.projects[i].name.as_slice()) {
                    proof {
                        assert(self@[j as int].name == self@[i as int].name);
                        assert(!info_wf(self@));
                    }
                    return false;
                }
                j += 1;
            }
            i += 1;
        }
        true
    }

    /// Append the entry for a project that was just decided, preserving
    /// the name-uniqueness invariant.  After each project the ledger holds
    /// every project processed so far, in processing order.
    pub fn record_entry(&mut self, entry: Project)
        requires
            !info_has(old(self)@, entry@.name),
        ensures
            final(self)@ == old(self)@.push(entry@),
            info_wf(old(self)@) ==> info_wf(final(self)@),
    {
        let ghost pre = self@;
        self.projects.push(entry);
        proof {
            assert(self@ =~= pre.push(entry@));
            if info_wf(pre) {
                assert forall|a: int, b: int|
                    0 <= a < b < self@.len() implies #[trigger] self@[a].name
                    != #[trigger] self@[b].name by {
                    if b == pre.len() {
                        assert(!info_has(pre, self@[b].name));
                        assert(pre[a].name != self@[b].name);
                    }
                }
            }
        }
    }
}

/// The rebuild decision for one project.
///
/// Returns the ledger entry to re-emit verbatim — build date preserved —
/// exactly when the previous ledger names the project, its output
/// subdirectory still exists, and the recorded fingerprint equals the
/// current one; the container driver is then not invoked.  Returns nothing
/// exactly when the project must be rebuilt.
pub fn plan_project(
    prev_info: Option<&BuildInfo>,
    subdir_exists: bool,
    name: &[u8],
    current_hash: u64,
) -> (r: Option<Project>)
    requires
        match prev_info {
            Option::Some(info) => info_wf(info@),
            Option::None => true,
        },
    ensures
        ({
            let prev = match prev_info {
                Option::Some(info) => Option::Some(info@),
                Option::None => Option::None,
            };
            match r {
                Option::Some(entry) => ledger_lookup(prev, name@, subdir_exists) == Option::Some(
                    entry@,
                ) && entry@.hash == current_hash,
                Option::None => !(ledger_lookup(prev, name@, subdir_exists) matches Option::Some(p)
                    && p.hash == current_hash),
            }
        }),
{
    match prev_info {
        Option::None => Option::None,
        Option::Some(info) => {
            if !subdir_exists {
                return Option::None;
            }
            match info.find_project(name) {
                Option::None => Option::None,
                Option::Some(i) => {
                    proof {
                        let c = info_index(info@, name@);
                        if c != i {
                            if c < i {
                                assert(info@[c].name != info@[i as int].name);
                            } else {
                                assert(info@[i as int].name != info@[c].name);
                            }
                            assert(false);
                        }
                    }
                    let p = &info.projects[i];
                    proof {
                        assert(info@[i as int] == info.projects@[i as int]@);
                    }
                    if p.hash == current_hash {
                        Option::Some(
                            Project {
                                name: crate::bytes::clone_bytes(&p.name),
                                hash: p.hash,
                                build_date: p.build_date,
                            },
                        )
                    } else {
                        Option::None
                    }
                },
            }
        },
    }
}

/// The lowercase hex digit for a value below 16.
pub open spec fn hex_digit(n: u8) -> u8 {
    if n < 10 {
        (48 + n) as u8
    } else {
        (87 + n) as u8
    }
}

/// The nibble a hex digit stands for, lowercase or uppercase.
pub open spec fn hex_val(c: u8) -> Option<u8> {
    if 48 <= c <= 57 {
        Option::Some((c - 48) as u8)
    } else if 97 <= c <= 102 {
        Option::Some((c - 87) as u8)
    } else if 65 <= c <= 70 {
        Option::Some((c - 55) as u8)
    } else {
        Option::None
    }
}

/// The nibble of `v` at position `i`, most significant first.
pub open spec fn nibble(v: u64, i: int) -> u8 {
    ((v >> ((15 - i) * 4)) & 0xf) as u8
}

/// The 16-character lowercase hex form of a fingerprint.
pub open spec fn hex_of_u64(v: u64) -> Seq<u8> {
    Seq::new(16, |i: int| hex_digit(nibble(v, i)))
}

/// The value of the first `i` hex digits of `s`, folded from the front.
pub open spec fn spec_hex_prefix(s: Seq<u8>, i: int) -> u64
    decreases i,
{
    if i <= 0 {
        0u64
    } else {
        ((spec_hex_prefix(s, i - 1) << 4) | (hex_val(s[i - 1])->Some_0 as u64)) as u64
    }
}

/// What a 16-character hex string stands for, if it is one.
pub open spec fn parse_hex16(s: Seq<u8>) -> Option<u64> {
    if s.len() != 16 || (exists|i: int| 0 <= i < 16 && hex_val(#[trigger] s[i]) is None) {
        Option::None
    } else {
        Option::Some(spec_hex_prefix(s, 16))
    }
}

/// Encode a fingerprint as 16 lowercase hex characters.
pub fn hash_to_hex(v: u64) -> (r: Vec<u8>)
    ensures
        r@ == hex_of_u64(v),
{
    let mut r: Vec<u8> = Vec::new();
    let mut i: usize = 0;
    while i < 16
        invariant
            0 <= i <= 16,
            r@.len() == i,
            forall|j: int| 0 <= j < i ==> r@[j] == hex_digit(nibble(v, j)),
        decreases 16 - i,
    {
        let shift: u64 = ((15 - i) as u64) * 4;
        let nib = #[verifier::truncate] (((v >> shift) & 0xf) as u8);
        proof {
            let sh = shift;
            assert((v >> sh) & 0xf < 16) by (bit_vector);
        }
        let digit = if nib < 10 {
            48 + nib
        } else {
            87 + nib
        };
        r.push(digit);
        i += 1;
    }
    proof {
        assert(r@ =~= hex_of_u64(v));
    }
    r
}

/// Parse 16 hex characters back into a fingerprint; rejects anything that
/// is not exactly 16 hex digits.
pub fn hex_to_hash(s: &[u8]) -> (r: Option<u64>)
    ensures
        r == parse_hex16(s@),
{
    if s.len() != 16 {
        return Option::None;
    }
    let mut acc: u64 = 0;
    let mut i: usize = 0;
    while i < 16
        invariant
            0 <= i <= 16,
            s@.len() == 16,
            forall|j: int| 0 <= j < i ==> hex_val(#[trigger] s@[j]) is Some,
            acc == spec_hex_prefix(s@, i as int),
        decreases 16 - i,
    {
        let c = s[i];
        let nib: u8 = if 48 <= c && c <= 57 {
            c - 48
        } else if 97 <= c && c <= 102 {
            c - 87
        } else if 65 <= c && c <= 70 {
            c - 55
        } else {
            return Option::None;
        };
        proof {
            assert(hex_val(s@[i as int]) == Option::Some(nib));
        }
        acc = (acc << 4) | (nib as u64);
        proof {
            assert(acc == spec_hex_prefix(s@, i + 1));
        }
        i += 1;
    }
    Option::Some(acc)
}

/// The fold of the first `i` encoded digits reconstructs the top `4 * i`
/// bits of the fingerprint.
proof fn lemma_hex_round_prefix(v: u64, i: int)
    requires
        1 <= i <= 16,
    ensures
        spec_hex_prefix(hex_of_u64(v), i) == v >> ((4 * (16 - i)) as u64),
    decreases i,
{
    let s = hex_of_u64(v);
    let sh: u64 = (4 * (16 - i)) as u64;
    assert(s[i - 1] == hex_digit(nibble(v, i - 1)));
    assert(nibble(v, i - 1) < 16) by {
        let shn: u64 = ((15 - (i - 1)) * 4) as u64;
        assert((v >> shn) & 0xf < 16) by (bit_vector);
    }
    assert(hex_val(hex_digit(nibble(v, i - 1))) == Option::Some(nibble(v, i - 1)));
    assert(nibble(v, i - 1) == (((v >> sh) & 0xf) as u8));
    if i == 1 {
        assert(spec_hex_prefix(s, 0) == 0u64);
        assert(spec_hex_prefix(s, 1) == ((0u64 << 4) | (nibble(v, 0) as u64)) as u64);
        assert(nibble(v, 0) == (((v >> 60u64) & 0xf) as u8));
        assert(sh == 60);
        assert(((0u64 << 4) | (((v >> 60u64) & 0xf) as u8 as u64)) as u64 == v >> 60u64)
            by (bit_vector);
    } else {
        lemma_hex_round_prefix(v, i - 1);
        let acc = spec_hex_prefix(s, i - 1);
        assert(acc == v >> ((sh + 4) as u64));
        assert(sh <= 56);
        assert(acc == v >> ((sh + 4) as u64) && sh <= 56 ==> ((acc << 4) | (((v >> sh)
            & 0xf) as u8 as u64)) as u64 == v >> sh) by (bit_vector);
        assert(spec_hex_prefix(s, i) == ((acc << 4) | (((v >> sh) & 0xf) as u8 as u64)) as u64);
    }
}

/// Hex round trip: parsing the encoding of any fingerprint gives it back.
pub proof fn lemma_hex_round_trip(v: u64)
    ensures
        parse_hex16(hex_of_u64(v)) == Option::Some(v),
{
    let s = hex_of_u64(v);
    assert forall|j: int| 0 <= j < 16 implies hex_val(#[trigger] s[j]) is Some by {
        assert(s[j] == hex_digit(nibble(v, j)));
        assert(nibble(v, j) < 16) by {
            let shn: u64 = ((15 - j) * 4) as u64;
            assert((v >> shn) & 0xf < 16) by (bit_vector);
        }
    }
    lemma_hex_round_prefix(v, 16);
    assert(v >> 0u64 == v) by (bit_vector);
}

/// Rebuild skip: whenever the ledger records the current fingerprint for a
/// project and its subdirectory exists, the decision is to reuse the old
/// entry, and the re-emitted entry carries the recorded build date.
pub proof fn lemma_rebuild_skip(s: Seq<ProjectModel>, name: Seq<u8>, current_hash: u64)
    requires
        info_wf(s),
        info_has(s, name),
        s[info_index(s, name)].hash == current_hash,
    ensures
        ledger_lookup(Option::Some(s), name, true) == Option::Some(s[info_index(s, name)]),
        ledger_lookup(Option::Some(s), name, true)->Some_0.build_date == s[info_index(
            s,
            name,
        )].build_date,
{
}

} // verus!
