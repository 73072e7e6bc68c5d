//! Images inside Mach-O objects: per-architecture variants and their text
//! symbols, over the plain values a Mach-O parser reports.
use vstd::prelude::*;

use crate::error::Error;
use crate::sdk::str_eq;

verus! {

/// The load commands of an image that a variant is made from.
pub enum LoadCommand {
    /// `LC_UUID`.
    Uuid([u8; 16]),
    /// `LC_ID_DYLIB`, with the install name.
    IdDylib(String),
    /// `LC_SEGMENT` or `LC_SEGMENT_64`.
    Segment { segname: String, vmaddr: u64, vmsize: u64 },
    /// Anything else.
    Other,
}

/// One architecture's image inside an object.
pub struct Variant {
    pub cputype: i32,
    pub cpusubtype: i32,
    pub uuid: Option<[u8; 16]>,
    pub name: Option<String>,
    pub vmaddr: u64,
    pub vmsize: u64,
}

pub open spec fn is_text_name(s: Seq<char>) -> bool {
    s == "__TEXT"@
}

/// The UUID of the last `LC_UUID` in `cmds`.
pub open spec fn last_uuid(cmds: Seq<LoadCommand>) -> Option<[u8; 16]>
    decreases cmds.len(),
{
    if cmds.len() == 0 {
        None
    } else {
        match cmds.last() {
            LoadCommand::Uuid(u) => Some(u),
            _ => last_uuid(cmds.drop_last()),
        }
    }
}

/// The install name of the last `LC_ID_DYLIB` in `cmds`.
pub open spec fn last_name(cmds: Seq<LoadCommand>) -> Option<Seq<char>>
    decreases cmds.len(),
{
    if cmds.len() == 0 {
        None
    } else {
        match cmds.last() {
            LoadCommand::IdDylib(n) => Some(n@),
            _ => last_name(cmds.drop_last()),
        }
    }
}

/// (vmaddr, vmsize) of the last `__TEXT` segment in `cmds`, else (0, 0).
pub open spec fn last_text(cmds: Seq<LoadCommand>) -> (u64, u64)
    decreases cmds.len(),
{
    if cmds.len() == 0 {
        (0, 0)
    } else {
        match cmds.last() {
            LoadCommand::Segment { segname, vmaddr, vmsize } if is_text_name(segname@) => (
                vmaddr,
                vmsize,
            ),
            _ => last_text(cmds.drop_last()),
        }
    }
}

/// Describes an image from its header's CPU type and its load commands.
pub fn extract_variant(cputype: i32, cpusubtype: i32, commands: &Vec<LoadCommand>) -> (r: Variant)
    ensures
        r.cputype == cputype,
        r.cpusubtype == cpusubtype,
        r.uuid == last_uuid(commands@),
        r.name.is_some() == last_name(commands@).is_some(),
        r.name.is_some() ==> r.name.unwrap()@ == last_name(commands@).unwrap(),
        (r.vmaddr, r.vmsize) == last_text(commands@),
{
    let mut uuid: Option<[u8; 16]> = None;
    let mut name: Option<String> = None;
    let mut vmaddr: u64 = 0;
    let mut vmsize: u64 = 0;
    let mut i: usize = 0;
    while i < commands.len()
        invariant
            i <= commands@.len(),
            uuid == last_uuid(commands@.subrange(0, i as int)),
            name.is_some() == last_name(commands@.subrange(0, i as int)).is_some(),
            name.is_some() ==> name.unwrap()@ == last_name(commands@.subrange(0, i as int)).unwrap(),
            (vmaddr, vmsize) == last_text(commands@.subrange(0, i as int)),
        decreases commands@.len() - i,
    {
        let ghost pre = commands@.subrange(0, i + 1);
        assert(pre.drop_last() =~= commands@.subrange(0, i as int));
        match &commands[i] {
            LoadCommand::Uuid(u) => {
                uuid = Some(*u);
            },
            LoadCommand::IdDylib(n) => {
                name = Some(n.as_str().to_owned());
            },
            LoadCommand::Segment { segname, vmaddr: a, vmsize: s } => {
                if str_eq(segname.as_str(), "__TEXT") {
                    vmaddr = *a;
                    vmsize = *s;
                }
            },
            LoadCommand::Other => {},
        }
        i += 1;
    }
    assert(commands@.subrange(0, commands@.len() as int) =~= commands@);
    Variant { cputype, cpusubtype, uuid, name, vmaddr, vmsize }
}

/// What `mach_object::get_arch_from_flag` returns for a flag.
pub uninterp spec fn arch_flag_types(flag: Seq<char>) -> Option<(i32, i32)>;

/// Relies on `mach_object::get_arch_from_flag`: a lookup of the flag in a
/// fixed table of (CPU type, subtype) pairs.
#[verifier::external_body]
fn arch_from_flag(flag: &str) -> (r: Option<(i32, i32)>)
    ensures
        r == arch_flag_types(flag@),
{
    match mach_object::get_arch_from_flag(flag) {
        Some(t) => Some(*t),
        None => None,
    }
}

/// The CPU subtype without its capability bits.
pub open spec fn subtype_family(s: i32) -> u32 {
    (s as u32) & 0x00ff_ffffu32
}

/// A flag of the architecture table names these CPU types.
pub open spec fn flag_names_types(flag: Seq<char>, cputype: i32, cpusubtype: i32) -> bool {
    arch_flag_types(flag) matches Some((t, s)) && t == cputype && subtype_family(s)
        == subtype_family(cpusubtype)
}

/// Relies on `mach_object::get_arch_name_from_types`: it walks the same
/// table `get_arch_from_flag` looks flags up in, and returns a flag whose
/// CPU type equals `cputype` and whose subtype has the family of
/// `cpusubtype`, or none where no flag does. Which of several such flags
/// comes back is left open.
#[verifier::external_body]
fn arch_name_of_types(cputype: i32, cpusubtype: i32) -> (r: Option<String>)
    ensures
        r matches Some(n) ==> flag_names_types(n@, cputype, cpusubtype),
        r is None ==> forall|f: Seq<char>| !#[trigger] flag_names_types(f, cputype, cpusubtype),
{
    mach_object::get_arch_name_from_types(cputype, cpusubtype).map(|s| s.to_owned())
}

impl Variant {
    /// The architecture name: a flag of the architecture table for the
    /// variant's CPU types, or `unknown` where the table has none.
    pub fn arch(&self) -> (r: String)
        ensures
            flag_names_types(r@, self.cputype, self.cpusubtype) || (r@ == "unknown"@ && forall|
                f: Seq<char>,
            | !#[trigger] flag_names_types(f, self.cputype, self.cpusubtype)),
    {
        match arch_name_of_types(self.cputype, self.cpusubtype) {
            Some(n) => n,
            None => "unknown".to_owned(),
        }
    }

    /// The install name, if the image has one.
    pub fn name(&self) -> (r: Option<&str>)
        ensures
            r.is_some() == self.name.is_some(),
            r.is_some() ==> r.unwrap()@ == self.name.unwrap()@,
    {
        match &self.name {
            Some(n) => Some(n.as_str()),
            None => None,
        }
    }

    /// The image UUID, if the image has one.
    pub fn uuid(&self) -> (r: Option<[u8; 16]>)
        ensures
            r == self.uuid,
    {
        self.uuid
    }

    /// Virtual address of the `__TEXT` segment.
    pub fn vmaddr(&self) -> (r: u64)
        ensures
            r == self.vmaddr,
    {
        self.vmaddr
    }

    /// Virtual size of the `__TEXT` segment.
    pub fn vmsize(&self) -> (r: u64)
        ensures
            r == self.vmsize,
    {
        self.vmsize
    }
}

/// A symbol table entry as the parser reports it.
pub struct RawSymbol {
    pub name: Option<String>,
    /// Defined in a section of this image.
    pub defined: bool,
    pub external: bool,
    /// (segment, section) of the owning section, if any.
    pub section: Option<(String, String)>,
    pub addr: u64,
}

/// A symbol that the database takes: named, defined, not external, in
/// `__TEXT,__text`.
pub open spec fn is_text_symbol(s: RawSymbol) -> bool {
    &&& s.defined
    &&& !s.external
    &&& s.name.is_some()
    &&& s.section.is_some()
    &&& s.section.unwrap().0@ == "__TEXT"@
    &&& s.section.unwrap().1@ == "__text"@
}

/// The text symbols of `syms`, in order.
pub open spec fn text_symbols(syms: Seq<RawSymbol>) -> Seq<(u64, Seq<char>)>
    decreases syms.len(),
{
    if syms.len() == 0 {
        seq![]
    } else {
        let rest = text_symbols(syms.drop_last());
        let s = syms.last();
        if is_text_symbol(s) {
            rest.push((s.addr, s.name.unwrap()@))
        } else {
            rest
        }
    }
}

/// One image variant of an object: its description and its symbol table.
pub struct ObjectImage {
    pub variant: Variant,
    pub symbols: Vec<RawSymbol>,
}

/// A parsed Mach-O object: one image for a thin file, one per architecture
/// for a FAT file, none for anything else.
pub struct Object {
    pub images: Vec<ObjectImage>,
}

impl Object {
    /// The variants, one per image.
    pub fn variants(&self) -> (r: Vec<&Variant>)
        ensures
            r@.len() == self.images@.len(),
            forall|i: int| 0 <= i < r@.len() ==> *r@[i] == self.images@[i].variant,
    {
        let mut r: Vec<&Variant> = Vec::new();
        let mut i: usize = 0;
        while i < self.images.len()
            invariant
                i <= self.images@.len(),
                r@.len() == i,
                forall|k: int| 0 <= k < i ==> *r@[k] == self.images@[k].variant,
            decreases self.images@.len() - i,
        {
            r.push(&self.images[i].variant);
            i += 1;
        }
        r
    }

    /// The image for CPU types `types`, where an architecture flag resolved
    /// to them; `UnknownArchitecture` where it resolved to nothing.
    pub fn select_image(&self, arch: &str, types: Option<(i32, i32)>) -> (r: Result<usize, Error>)
        ensures
            types.is_none() ==> match r {
                Err(Error::UnknownArchitecture(a)) => a@ == arch@,
                _ => false,
            },
            types matches Some((t, s)) ==> match r {
                Ok(i) => i < self.images@.len() && self.images@[i as int].variant.cputype == t
                    && self.images@[i as int].variant.cpusubtype == s && forall|k: int|
                    0 <= k < i ==> !(self.images@[k].variant.cputype == t
                        && self.images@[k].variant.cpusubtype == s),
                Err(Error::MissingArchitecture(a)) => a@ == arch@ && forall|k: int|
                    0 <= k < self.images@.len() ==> !(self.images@[k].variant.cputype == t
                        && self.images@[k].variant.cpusubtype == s),
                Err(_) => false,
            },
    {
        let (t, s) = match types {
            Some(ts) => ts,
            None => {
                return Err(Error::UnknownArchitecture(arch.to_owned()));
            },
        };
        let mut i: usize = 0;
        while i < self.images.len()
            invariant
                i <= self.images@.len(),
                types == Some((t, s)),
                forall|k: int|
                    0 <= k < i ==> !(self.images@[k].variant.cputype == t
                        && self.images@[k].variant.cpusubtype == s),
            decreases self.images@.len() - i,
        {
            if self.images[i].variant.cputype == t && self.images[i].variant.cpusubtype == s {
                return Ok(i);
            }
            i += 1;
        }
        Err(Error::MissingArchitecture(arch.to_owned()))
    }

    /// The text symbols of image `i`: `(address, name)` pairs in table order.
    pub fn image_symbols(&self, i: usize) -> (r: Vec<(u64, String)>)
        requires
            i < self.images@.len(),
        ensures
            r@.len() == text_symbols(self.images@[i as int].symbols@).len(),
            forall|k: int|
                0 <= k < r@.len() ==> r@[k].0 == text_symbols(self.images@[i as int].symbols@)[k].0
                    && r@[k].1@ == text_symbols(self.images@[i as int].symbols@)[k].1,
    {
        let syms = &self.images[i].symbols;
        let mut out: Vec<(u64, String)> = Vec::new();
        let mut j: usize = 0;
        while j < syms.len()
            invariant
                syms == &self.images@[i as int].symbols,
                j <= syms@.len(),
                out@.len() == text_symbols(syms@.subrange(0, j as int)).len(),
                forall|k: int|
                    0 <= k < out@.len() ==> out@[k].0 == text_symbols(syms@.subrange(0, j as int))[k].0
                        && out@[k].1@ == text_symbols(syms@.subrange(0, j as int))[k].1,
            decreases syms@.len() - j,
        {
            let ghost pre = syms@.subrange(0, j + 1);
            assert(pre.drop_last() =~= syms@.subrange(0, j as int));
            let s = &syms[j];
            let keep = match (&s.name, &s.section) {
                (Some(_), Some((seg, sect))) => s.defined && !s.external && str_eq(
                    seg.as_str(),
                    "__TEXT",
                ) && str_eq(sect.as_str(), "__text"),
                _ => false,
            };
            if keep {
                match &s.name {
                    Some(n) => out.push((s.addr, n.as_str().to_owned())),
                    None => {},
                }
            }
            j += 1;
        }
        assert(syms@.subrange(0, syms@.len() as int) =~= syms@);
        out
    }

    /// The text symbols of the image for architecture flag `arch`: the
    /// first image whose CPU type and subtype the flag names.
    pub fn symbols(&self, arch: &str) -> (r: Result<Vec<(u64, String)>, Error>)
        ensures
            arch_flag_types(arch@).is_none() ==> match r {
                Err(Error::UnknownArchitecture(a)) => a@ == arch@,
                _ => false,
            },
            arch_flag_types(arch@) matches Some((t, s)) ==> match r {
                Ok(v) => exists|i: int|
                    0 <= i < self.images@.len() && self.images@[i].variant.cputype == t
                        && self.images@[i].variant.cpusubtype == s && (forall|k: int|
                        0 <= k < i ==> !(self.images@[k].variant.cputype == t
                            && self.images@[k].variant.cpusubtype == s)) && v@.len()
                        == text_symbols(self.images@[i].symbols@).len() && forall|k: int|
                        0 <= k < v@.len() ==> v@[k].0 == text_symbols(self.images@[i].symbols@)[k].0
                            && v@[k].1@ == text_symbols(self.images@[i].symbols@)[k].1,
                Err(Error::MissingArchitecture(a)) => a@ == arch@ && forall|k: int|
                    0 <= k < self.images@.len() ==> !(self.images@[k].variant.cputype == t
                        && self.images@[k].variant.cpusubtype == s),
                Err(_) => false,
            },
    {
        let types = arch_from_flag(arch);
        let i = match self.select_image(arch, types) {
            Ok(i) => i,
            Err(e) => {
                return Err(e);
            },
        };
        let v = self.image_symbols(i);
        Ok(v)
    }
}

} // verus!
