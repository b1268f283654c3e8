//! Classifying and unpacking the artifacts a container build emits.
//!
//! The driver hands back one tar byte stream.  Planning an extraction
//! parses it, rejects unsafe or colliding paths, and classifies each file
//! by sniffed type: the primary Windows binary, the primary Linux binary,
//! or neither - the last match wins.  The surrounding binary then writes
//! the planned files to disk with their recorded modes.

use vstd::prelude::*;

use crate::bytes::{bytes_eq, has_prefix, has_suffix, starts_with_bytes, ends_with_bytes};
use crate::tree::{basename, basename_of, check_normalized, is_normalized_path};

verus! {

/// One entry read from the driver's tar stream.
#[derive(Debug, PartialEq, Eq)]
pub struct RawTarEntry {
    pub path: Vec<u8>,
    pub mode: u32,
    pub is_dir: bool,
    pub data: Vec<u8>,
}

impl View for RawTarEntry {
    type V = (Seq<u8>, u32, bool, Seq<u8>);

    open spec fn view(&self) -> (Seq<u8>, u32, bool, Seq<u8>) {
        (self.path@, self.mode, self.is_dir, self.data@)
    }
}

/// The views of a list of tar entries.
pub open spec fn raw_entry_views(s: Seq<RawTarEntry>) -> Seq<(Seq<u8>, u32, bool, Seq<u8>)> {
    s.map_values(|e: RawTarEntry| e@)
}

/// What parsing a tar byte stream yields, if it parses: each entry's
/// path, header mode (zero when absent), directory flag and payload, in
/// stream order; a function of the bytes alone.
pub uninterp spec fn tar_entries_of(b: Seq<u8>) -> Option<Seq<(Seq<u8>, u32, bool, Seq<u8>)>>;

/// Relies on tar::Archive over an in-memory reader: deterministic parsing
/// of the stream into entries, each converted to plain values.
#[verifier::external_body]
fn read_tar(bytes: &[u8]) -> (r: Option<Vec<RawTarEntry>>)
    ensures
        match r {
            Option::Some(es) => tar_entries_of(bytes@) == Option::Some(raw_entry_views(es@)),
            Option::None => tar_entries_of(bytes@) is None,
        },
{
    let mut out = Vec::new();
    let mut ar = tar::Archive::new(std::io::Cursor::new(bytes));
    for e in ar.entries().ok()? {
        let mut e = e.ok()?;
        let path = e.path().ok()?.to_string_lossy().into_owned().into_bytes();
        let mode = e.header().mode().unwrap_or(0);
        let is_dir = e.header().entry_type().is_dir();
        let mut data = Vec::new();
        std::io::Read::read_to_end(&mut e, &mut data).ok()?;
        out.push(RawTarEntry { path, mode, is_dir, data });
    }
    Some(out)
}

/// What sniffing a payload's type yields: its MIME name, if any matcher
/// recognizes the bytes; a function of the bytes alone.
pub uninterp spec fn mime_of(b: Seq<u8>) -> Option<Seq<u8>>;

/// Relies on infer::get: pure magic-number matching on the payload bytes.
#[verifier::external_body]
pub fn sniff_mime(data: &[u8]) -> (r: Option<Vec<u8>>)
    ensures
        match r {
            Option::Some(m) => mime_of(data@) == Option::Some(m@),
            Option::None => mime_of(data@) is None,
        },
{
    infer::get(data).map(|t| t.mime_type().as_bytes().to_vec())
}

/// The MIME name of a Windows portable executable.
pub open spec fn mime_pe() -> Seq<u8> {
    seq![97u8, 112u8, 112u8, 108u8, 105u8, 99u8, 97u8, 116u8, 105u8, 111u8, 110u8, 47u8, 118u8, 110u8, 100u8, 46u8, 109u8, 105u8, 99u8, 114u8, 111u8, 115u8, 111u8, 102u8, 116u8, 46u8, 112u8, 111u8, 114u8, 116u8, 97u8, 98u8, 108u8, 101u8, 45u8, 101u8, 120u8, 101u8, 99u8, 117u8, 116u8, 97u8, 98u8, 108u8, 101u8]
}

/// The MIME name of an ELF executable.
pub open spec fn mime_elf() -> Seq<u8> {
    seq![97u8, 112u8, 112u8, 108u8, 105u8, 99u8, 97u8, 116u8, 105u8, 111u8, 110u8, 47u8, 120u8, 45u8, 101u8, 120u8, 101u8, 99u8, 117u8, 116u8, 97u8, 98u8, 108u8, 101u8]
}

/// The suffix `.exe`.
pub open spec fn ext_exe() -> Seq<u8> {
    seq![46u8, 101u8, 120u8, 101u8]
}

/// The prefix `lib`.
pub open spec fn pre_lib() -> Seq<u8> {
    seq![108u8, 105u8, 98u8]
}

/// The suffix `so`.
pub open spec fn suf_so() -> Seq<u8> {
    seq![115u8, 111u8]
}

/// How one extracted file is designated.
#[derive(Debug, PartialEq, Eq, Structural, Clone, Copy)]
pub enum BinClass {
    /// A portable executable named `*.exe`: the Windows binary.
    WindowsBinary,
    /// An ELF executable not named `lib*` or `*so`: the Linux binary.
    LinuxBinary,
    /// Anything else.
    NotDesignated,
}

/// The classification rule on a sniffed MIME name and a file's basename.
pub open spec fn classify_spec(mime: Option<Seq<u8>>, file_name: Seq<u8>) -> BinClass {
    if mime == Option::Some(mime_pe()) && has_suffix(file_name, ext_exe()) {
        BinClass::WindowsBinary
    } else if mime == Option::Some(mime_elf()) && !has_prefix(file_name, pre_lib())
        && !has_suffix(file_name, suf_so()) {
        BinClass::LinuxBinary
    } else {
        BinClass::NotDesignated
    }
}

/// The MIME name of a Windows portable executable, as a vector.
fn mime_pe_vec() -> (r: Vec<u8>)
    ensures
        r@ == mime_pe(),
{
    let mut r: Vec<u8> = Vec::new();
    r.push(97);
    r.push(112);
    r.push(112);
    r.push(108);
    r.push(105);
    r.push(99);
    r.push(97);
    r.push(116);
    r.push(105);
    r.push(111);
    r.push(110);
    r.push(47);
    r.push(118);
    r.push(110);
    r.push(100);
    r.push(46);
    r.push(109);
    r.push(105);
    r.push(99);
    r.push(114);
    r.push(111);
    r.push(115);
    r.push(111);
    r.push(102);
    r.push(116);
    r.push(46);
    r.push(112);
    r.push(111);
    r.push(114);
    r.push(116);
    r.push(97);
    r.push(98);
    r.push(108);
    r.push(101);
    r.push(45);
    r.push(101);
    r.push(120);
    r.push(101);
    r.push(99);
    r.push(117);
    r.push(116);
    r.push(97);
    r.push(98);
    r.push(108);
    r.push(101);
    proof {
        assert(r@ =~= mime_pe());
    }
    r
}

/// The MIME name of an ELF executable, as a vector.
fn mime_elf_vec() -> (r: Vec<u8>)
    ensures
        r@ == mime_elf(),
{
    let mut r: Vec<u8> = Vec::new();
    r.push(97);
    r.push(112);
    r.push(112);
    r.push(108);
    r.push(105);
    r.push(99);
    r.push(97);
    r.push(116);
    r.push(105);
    r.push(111);
    r.push(110);
    r.push(47);
    r.push(120);
    r.push(45);
    r.push(101);
    r.push(120);
    r.push(101);
    r.push(99);
    r.push(117);
    r.push(116);
    r.push(97);
    r.push(98);
    r.push(108);
    r.push(101);
    proof {
        assert(r@ =~= mime_elf());
    }
    r
}

/// Classify one file from its sniffed MIME name and its basename.
pub fn classify(mime: &Option<Vec<u8>>, file_name: &[u8]) -> (r: BinClass)
    ensures
        r == classify_spec(
            match mime {
                Option::Some(m) => Option::Some(m@),
                Option::None => Option::None,
            },
            file_name@,
        ),
{
    match mime {
        Option::None => BinClass::NotDesignated,
        Option::Some(m) => {
            let mut exe: Vec<u8> = Vec::new();
            exe.push(46);
            exe.push(101);
            exe.push(120);
            exe.push(101);
            proof {
                assert(exe@ =~= ext_exe());
            }
            let mut lib: Vec<u8> = Vec::new();
            lib.push(108);
            lib.push(105);
            lib.push(98);
            proof {
                assert(lib@ =~= pre_lib());
            }
            let mut so: Vec<u8> = Vec::new();
            so.push(115);
            so.push(111);
            proof {
                assert(so@ =~= suf_so());
            }
            let pe = mime_pe_vec();
            let elf = mime_elf_vec();
            if bytes_eq(m.as_slice(), pe.as_slice()) && ends_with_bytes(file_name, exe.as_slice()) {
                BinClass::WindowsBinary
            } else if bytes_eq(m.as_slice(), elf.as_slice()) && !starts_with_bytes(
                file_name,
                lib.as_slice(),
            ) && !ends_with_bytes(file_name, so.as_slice()) {
                BinClass::LinuxBinary
            } else {
                BinClass::NotDesignated
            }
        },
    }
}


/// One planned file write.
#[derive(Debug, PartialEq, Eq)]
pub struct FileWrite {
    pub path: Vec<u8>,
    pub mode: u32,
    pub data: Vec<u8>,
}

impl View for FileWrite {
    type V = (Seq<u8>, u32, Seq<u8>);

    open spec fn view(&self) -> (Seq<u8>, u32, Seq<u8>) {
        (self.path@, self.mode, self.data@)
    }
}

/// The views of a list of planned writes.
pub open spec fn file_write_views(s: Seq<FileWrite>) -> Seq<(Seq<u8>, u32, Seq<u8>)> {
    s.map_values(|f: FileWrite| f@)
}

/// The planned extraction of one tar stream: the files to write and the
/// classified primary binaries, as paths relative to the extraction root.
#[derive(Debug, PartialEq, Eq)]
pub struct ExtractionPlan {
    pub files: Vec<FileWrite>,
    pub windows_binary: Option<Vec<u8>>,
    pub linux_binary: Option<Vec<u8>>,
}

/// Why an extraction was refused.
#[derive(Debug, PartialEq, Eq, Structural, Clone, Copy)]
pub enum ExtractError {
    /// The tar stream would not parse.
    TarRead,
    /// An entry path was absolute or would escape the extraction root.
    UnsafePath,
    /// Two entries named the same destination; nothing is overwritten.
    AlreadyExists,
}

/// The mathematical form of a plan in progress.
pub struct PlanModel {
    pub files: Seq<(Seq<u8>, u32, Seq<u8>)>,
    pub windows_binary: Option<Seq<u8>>,
    pub linux_binary: Option<Seq<u8>>,
}

/// Does the plan already write this path?
pub open spec fn plan_has_path(files: Seq<(Seq<u8>, u32, Seq<u8>)>, p: Seq<u8>) -> bool {
    exists|i: int| 0 <= i < files.len() && (#[trigger] files[i]).0 == p
}

/// Plan one tar entry: directories are skipped, a file must carry a safe
/// fresh path; it is recorded for writing and may take over a binary
/// designation.
pub open spec fn plan_step(st: PlanModel, e: (Seq<u8>, u32, bool, Seq<u8>)) -> Result<
    PlanModel,
    ExtractError,
> {
    if e.2 {
        Result::Ok(st)
    } else if !is_normalized_path(e.0) {
        Result::Err(ExtractError::UnsafePath)
    } else if plan_has_path(st.files, e.0) {
        Result::Err(ExtractError::AlreadyExists)
    } else {
        let st2 = PlanModel { files: st.files.push((e.0, e.1, e.3)), ..st };
        match classify_spec(mime_of(e.3), basename_of(e.0)) {
            BinClass::WindowsBinary => Result::Ok(
                PlanModel { windows_binary: Option::Some(e.0), ..st2 },
            ),
            BinClass::LinuxBinary => Result::Ok(
                PlanModel { linux_binary: Option::Some(e.0), ..st2 },
            ),
            BinClass::NotDesignated => Result::Ok(st2),
        }
    }
}

/// Plan the entries from `i` on.
pub open spec fn plan_run(
    st: PlanModel,
    entries: Seq<(Seq<u8>, u32, bool, Seq<u8>)>,
    i: int,
) -> Result<PlanModel, ExtractError>
    decreases entries.len() - i,
{
    if i < 0 || i >= entries.len() {
        Result::Ok(st)
    } else {
        match plan_step(st, entries[i]) {
            Result::Err(e) => Result::Err(e),
            Result::Ok(st2) => plan_run(st2, entries, i + 1),
        }
    }
}

/// The empty plan.
pub open spec fn plan_empty() -> PlanModel {
    PlanModel {
        files: Seq::<(Seq<u8>, u32, Seq<u8>)>::empty(),
        windows_binary: Option::None,
        linux_binary: Option::None,
    }
}

/// The plan a parsed tar stream yields.
pub open spec fn spec_plan(entries: Seq<(Seq<u8>, u32, bool, Seq<u8>)>) -> Result<
    PlanModel,
    ExtractError,
> {
    plan_run(plan_empty(), entries, 0)
}

impl ExtractionPlan {
    /// The mathematical form of this plan.
    pub open spec fn model(&self) -> PlanModel {
        PlanModel {
            files: file_write_views(self.files@),
            windows_binary: match self.windows_binary {
                Option::Some(ref w) => Option::Some(w@),
                Option::None => Option::None,
            },
            linux_binary: match self.linux_binary {
                Option::Some(ref l) => Option::Some(l@),
                Option::None => Option::None,
            },
        }
    }
}

/// Plan the extraction of already-parsed tar entries.
pub fn plan_extraction(entries: &Vec<RawTarEntry>) -> (r: Result<ExtractionPlan, ExtractError>)
    ensures
        match r {
            Result::Ok(plan) => spec_plan(raw_entry_views(entries@)) == Result::Ok::<
                PlanModel,
                ExtractError,
            >(plan.model()),
            Result::Err(e) => spec_plan(raw_entry_views(entries@)) == Result::Err::<
                PlanModel,
                ExtractError,
            >(e),
        },
{
    let ghost es = raw_entry_views(entries@);
    let mut plan = ExtractionPlan { files: Vec::new(), windows_binary: Option::None, linux_binary: Option::None };
    let mut i: usize = 0;
    proof {
        assert(plan.model().files =~= plan_empty().files);
        assert(plan.model() == plan_empty());
    }
    while i < entries.len()
        invariant
            0 <= i <= entries@.len(),
            es == raw_entry_views(entries@),
            spec_plan(es) == plan_run(plan.model(), es, i as int),
        decreases entries@.len() - i,
    {
        let ghost st0 = plan.model();
        proof {
            assert(es[i as int] == entries@[i as int]@);
        }
        let entry = &entries[i];
        if !entry.is_dir {
            if !check_normalized(entry.path.as_slice()) {
                return Result::Err(ExtractError::UnsafePath);
            }
            let mut k: usize = 0;
            proof {
                assert(es[i as int] == entries@[i as int]@);
            }
            while k < plan.files.len()
                invariant
                    0 <= k <= plan.files@.len(),
                    0 <= i < entries@.len(),
                    es == raw_entry_views(entries@),
                    es[i as int] == entry@,
                    entry@.2 == false,
                    is_normalized_path(entry@.0),
                    entry@.0 == entry.path@,
                    spec_plan(es) == plan_run(plan.model(), es, i as int),
                    forall|a: int|
                        0 <= a < k ==> (#[trigger] file_write_views(plan.files@)[a]).0
                            != entry.path@,
                decreases plan.files@.len() - k,
            {
                proof {
                    assert(file_write_views(plan.files@)[k as int] == plan.files@[k as int]@);
                }
                if bytes_eq(plan.files[k].path.as_slice(), entry.path.as_slice()) {
                    proof {
                        assert(plan_has_path(file_write_views(plan.files@), entry@.0));
                        assert(plan_step(plan.model(), es[i as int]) == Result::Err::<
                            PlanModel,
                            ExtractError,
                        >(ExtractError::AlreadyExists));
                    }
                    return Result::Err(ExtractError::AlreadyExists);
                }
                k += 1;
            }
            let mime = sniff_mime(entry.data.as_slice());
            let name = basename(entry.path.as_slice());
            let class = classify(&mime, name.as_slice());
            let ghost files0 = file_write_views(plan.files@);
            plan.files.push(
                FileWrite {
                    path: crate::bytes::clone_bytes(&entry.path),
                    mode: entry.mode,
                    data: crate::bytes::clone_bytes(&entry.data),
                },
            );
            proof {
                assert(file_write_views(plan.files@) =~= files0.push(
                    (entries@[i as int]@.0, entries@[i as int]@.1, entries@[i as int]@.3),
                ));
            }
            match class {
                BinClass::WindowsBinary => {
                    plan.windows_binary = Option::Some(crate::bytes::clone_bytes(&entry.path));
                },
                BinClass::LinuxBinary => {
                    plan.linux_binary = Option::Some(crate::bytes::clone_bytes(&entry.path));
                },
                BinClass::NotDesignated => {},
            }
            proof {
                assert(plan_step(st0, es[i as int]) == Result::Ok::<PlanModel, ExtractError>(
                    plan.model(),
                ));
            }
        } else {
            proof {
                assert(plan_step(st0, es[i as int]) == Result::Ok::<PlanModel, ExtractError>(
                    plan.model(),
                ));
            }
        }
        i += 1;
    }
    Result::Ok(plan)
}

/// Plan the extraction of a tar byte stream: parse it, refuse unsafe or
/// colliding paths, and classify the binaries.
pub fn extract_from_tar(bytes: &[u8]) -> (r: Result<ExtractionPlan, ExtractError>)
    ensures
        match tar_entries_of(bytes@) {
            Option::None => r matches Result::Err(e) && e == ExtractError::TarRead,
            Option::Some(es) => match r {
                Result::Ok(plan) => spec_plan(es) == Result::Ok::<PlanModel, ExtractError>(
                    plan.model(),
                ),
                Result::Err(e) => spec_plan(es) == Result::Err::<PlanModel, ExtractError>(e),
            },
        },
{
    match read_tar(bytes) {
        Option::None => Result::Err(ExtractError::TarRead),
        Option::Some(entries) => plan_extraction(&entries),
    }
}

} // verus!

