//! Read the undefined symbols out of an ELF64 shared object.
//!
//! This exists so symbol resolution asks the library what it needs instead of asking
//! a file somebody remembered to update.
//!
//! Only `.dynsym` is read, and only the `SHN_UNDEF` entries with a name. It is found
//! through the section headers, so the entry count comes from the section's size and
//! is exact. An object whose section headers were stripped is an error naming that,
//! never an empty answer: an empty answer would look exactly like an object that
//! imports nothing.
//!
//! An object can be large and the regions this needs are small, so reading goes by
//! [`Request`]s: [`begin`] says what to read first, and [`Request::advance`] takes
//! those bytes and says what to read next, until the imports are known.

use crate::bytes::{
    le16, le16_of_part, le32, le32_of_part, le64, le64_of_part, u16le, u32le, u64le,
};
use crate::imports::{recorded, Binding, Imports};
use crate::text::{decimal, push_decimal};
use crate::utf8::from_utf8;
use vstd::prelude::*;
use vstd::slice::*;
use vstd::string::*;
use vstd::utf8::*;

verus! {

/// The section type of a dynamic symbol table.
pub const SHT_DYNSYM: u32 = 11;

/// The section index of a symbol that the object does not define.
pub const SHN_UNDEF: u16 = 0;

/// The symbol binding of a weak symbol.
pub const STB_WEAK: u8 = 2;

/// The size of an ELF64 header.
pub const EHDR_LEN: u64 = 64;

/// The size of an ELF64 section header.
pub const SHDR_LEN: u64 = 64;

/// The size of an ELF64 symbol table entry.
pub const SYM_LEN: u64 = 24;

/// The last offset that can be sought to: file offsets are signed.
pub const LAST_OFFSET: u64 = 0x7fff_ffff_ffff_ffff;

/// A part of the object that is read on its own.
#[derive(Debug, Clone, Copy, PartialEq, Eq, Structural)]
pub enum Region {
    Header,
    FirstSection,
    SectionTable,
    Strings,
    Symbols,
}

/// Why an object's imports cannot be told.
#[derive(Debug, Clone, Copy, PartialEq, Eq, Structural)]
pub enum Fault {
    /// The file is too short to hold an ELF header.
    TooShort { len: u64 },
    /// The file does not start with the ELF magic.
    NotElf,
    /// The object is not 64-bit little-endian.
    NotElf64,
    /// The object has no section headers.
    NoSectionHeaders,
    /// The section headers have an unexpected size.
    SectionHeaderSize { size: u64 },
    /// The size of the section header table does not fit in 64 bits.
    SectionTableSize,
    /// A region runs past the end of the file.
    Truncated { region: Region, len: u64, off: u64 },
    /// No section is a dynamic symbol table.
    NoDynsym,
    /// The entries of `.dynsym` have an unexpected size.
    SymbolSize { size: u64 },
    /// `.dynsym` names a string table that is not among the sections.
    StringTable { index: u32 },
}

// ---- What is in the file ----

/// The end of the NUL-terminated string that starts at `from`: the first NUL from there
/// on, or the end of the table.
pub open spec fn c_string_end(table: Seq<u8>, from: int) -> int
    decreases table.len() - from,
{
    if from >= table.len() || table[from] == 0 {
        from
    } else {
        c_string_end(table, from + 1)
    }
}

/// The bytes of the NUL-terminated string that starts at `from`.
pub open spec fn c_string(table: Seq<u8>, from: int) -> Seq<u8> {
    table.subrange(from, c_string_end(table, from))
}

/// How many whole entries a symbol table holds.
pub open spec fn symbol_count(symbols: Seq<u8>) -> int {
    symbols.len() as int / SYM_LEN as int
}

/// The name under which entry `i` imports a symbol, if it imports one: the entry is
/// undefined, and its name lies in the string table, is not empty and is UTF-8.
pub open spec fn import_name(strings: Seq<u8>, symbols: Seq<u8>, i: int) -> Option<Seq<char>> {
    let at = le32(symbols, SYM_LEN * i) as int;
    let name = c_string(strings, at);
    if le16(symbols, SYM_LEN * i + 6) == SHN_UNDEF && 0 < at < strings.len() && name.len() > 0
        && valid_utf8(name) {
        Some(decode_utf8(name))
    } else {
        None
    }
}

/// The binding of entry `i`, which is in the high half of its fifth byte.
pub open spec fn symbol_binding(symbols: Seq<u8>, i: int) -> Binding {
    if symbols[SYM_LEN * i + 4] / 16 == STB_WEAK {
        Binding::Weak
    } else {
        Binding::Strong
    }
}

/// One of the first `n` entries imports `name`.
pub open spec fn some_imports(strings: Seq<u8>, symbols: Seq<u8>, n: int, name: Seq<char>) -> bool {
    exists|i: int| 0 <= i < n && #[trigger] import_name(strings, symbols, i) == Some(name)
}

/// One of the first `n` entries imports `name` and must be resolved.
pub open spec fn some_requires(
    strings: Seq<u8>,
    symbols: Seq<u8>,
    n: int,
    name: Seq<char>,
) -> bool {
    exists|i: int|
        0 <= i < n && #[trigger] import_name(strings, symbols, i) == Some(name) && symbol_binding(
            symbols,
            i,
        ) == Binding::Strong
}

/// What the first `n` entries import: a name is strong if any of them requires it.
pub open spec fn imported_by(strings: Seq<u8>, symbols: Seq<u8>, n: int) -> Map<
    Seq<char>,
    Binding,
> {
    Map::new(
        |name: Seq<char>| some_imports(strings, symbols, n, name),
        |name: Seq<char>|
            if some_requires(strings, symbols, n, name) {
                Binding::Strong
            } else {
                Binding::Weak
            },
    )
}

/// What a symbol table imports, its names taken from `strings`.
pub open spec fn imported(strings: Seq<u8>, symbols: Seq<u8>) -> Map<Seq<char>, Binding> {
    imported_by(strings, symbols, symbol_count(symbols))
}

/// The first section from `i` on that is a dynamic symbol table.
pub open spec fn first_dynsym(table: Seq<u8>, i: int, count: int) -> Option<int>
    decreases count - i,
{
    if i >= count {
        None
    } else if le32(table, SHDR_LEN * i + 0x04) == SHT_DYNSYM {
        Some(i)
    } else {
        first_dynsym(table, i + 1, count)
    }
}

/// What is wrong with an ELF header.
pub open spec fn header_fault(header: Seq<u8>) -> Option<Fault> {
    if header.take(4) != seq![0x7fu8, 0x45u8, 0x4cu8, 0x46u8] {
        Some(Fault::NotElf)
    } else if header[4] != 2 || header[5] != 1 {
        Some(Fault::NotElf64)
    } else if le64(header, 0x28) == 0 || (le16(header, 0x3c) == 0 && le16(header, 0x3a) == 0) {
        Some(Fault::NoSectionHeaders)
    } else if le16(header, 0x3a) != SHDR_LEN {
        Some(Fault::SectionHeaderSize { size: le16(header, 0x3a) as u64 })
    } else {
        None
    }
}

/// What is wrong with the dynamic symbol table among `count` sections.
pub open spec fn sections_fault(table: Seq<u8>, count: int) -> Option<Fault> {
    match first_dynsym(table, 0, count) {
        None => Some(Fault::NoDynsym),
        Some(i) => {
            let size = le64(table, SHDR_LEN * i + 0x38);
            let link = le32(table, SHDR_LEN * i + 0x28);
            if size != 0 && size != SYM_LEN {
                Some(Fault::SymbolSize { size })
            } else if link >= count {
                Some(Fault::StringTable { index: link })
            } else {
                None
            }
        },
    }
}

/// The `len` bytes of `file` at `off`, if the file reaches that far. No bytes at all are
/// found wherever a file can be sought to, also past its end.
pub open spec fn extent(file: Seq<u8>, off: u64, len: u64) -> Option<Seq<u8>> {
    if off > LAST_OFFSET {
        None
    } else if len == 0 {
        Some(Seq::empty())
    } else if off + len <= file.len() {
        Some(file.subrange(off as int, off + len))
    } else {
        None
    }
}

/// The imports of the object that `file` is, or why they cannot be told.
pub open spec fn undefined_in(file: Seq<u8>) -> Result<Map<Seq<char>, Binding>, Fault> {
    let header = file.take(EHDR_LEN as int);
    let off = le64(header, 0x28);
    if file.len() < EHDR_LEN {
        Err(Fault::TooShort { len: file.len() as u64 })
    } else if header_fault(header) is Some {
        Err(header_fault(header)->0)
    } else if le16(header, 0x3c) != 0 {
        undefined_among(file, off, le16(header, 0x3c) as u64)
    } else {
        // The count did not fit in 16 bits and is the first section's size.
        match extent(file, off, SHDR_LEN) {
            None => Err(Fault::Truncated { region: Region::FirstSection, len: SHDR_LEN, off }),
            Some(first) => undefined_among(file, off, le64(first, 0x20)),
        }
    }
}

/// The imports of an object with `count` section headers at `off`.
pub open spec fn undefined_among(file: Seq<u8>, off: u64, count: u64) -> Result<
    Map<Seq<char>, Binding>,
    Fault,
> {
    let len = (SHDR_LEN * count) as u64;
    if SHDR_LEN * count > u64::MAX {
        Err(Fault::SectionTableSize)
    } else {
        match extent(file, off, len) {
            None => Err(Fault::Truncated { region: Region::SectionTable, len, off }),
            Some(table) => {
                let dynsym = SHDR_LEN * first_dynsym(table, 0, count as int)->0;
                let dynstr = SHDR_LEN * le32(table, dynsym + 0x28);
                if sections_fault(table, count as int) is Some {
                    Err(sections_fault(table, count as int)->0)
                } else {
                    undefined_between(
                        file,
                        le64(table, dynstr + 0x18),
                        le64(table, dynstr + 0x20),
                        le64(table, dynsym + 0x18),
                        le64(table, dynsym + 0x20),
                    )
                }
            },
        }
    }
}

/// The imports of an object whose string and symbol tables are known.
pub open spec fn undefined_between(
    file: Seq<u8>,
    str_off: u64,
    str_len: u64,
    sym_off: u64,
    sym_len: u64,
) -> Result<Map<Seq<char>, Binding>, Fault> {
    match extent(file, str_off, str_len) {
        None => Err(Fault::Truncated { region: Region::Strings, len: str_len, off: str_off }),
        Some(strings) => match extent(file, sym_off, sym_len) {
            None => Err(Fault::Truncated { region: Region::Symbols, len: sym_len, off: sym_off }),
            Some(symbols) => Ok(imported(strings, symbols)),
        },
    }
}

// ---- Reading the symbol table ----

/// One more entry that imports nothing adds nothing, and one that imports a name
/// records it.
proof fn imported_step(strings: Seq<u8>, symbols: Seq<u8>, n: int)
    requires
        0 <= n,
    ensures
        imported_by(strings, symbols, n + 1) == match import_name(strings, symbols, n) {
            Some(name) => recorded(
                imported_by(strings, symbols, n),
                name,
                symbol_binding(symbols, n),
            ),
            None => imported_by(strings, symbols, n),
        },
{
    let before = imported_by(strings, symbols, n);
    let after = imported_by(strings, symbols, n + 1);
    assert forall|name: Seq<char>|
        some_imports(strings, symbols, n + 1, name) == (some_imports(strings, symbols, n, name)
            || import_name(strings, symbols, n) == Some(name)) by {
        if some_imports(strings, symbols, n + 1, name) {
            let i = choose|i: int|
                0 <= i < n + 1 && #[trigger] import_name(strings, symbols, i) == Some(name);
            assert(i < n || i == n);
        }
    }
    assert forall|name: Seq<char>|
        some_requires(strings, symbols, n + 1, name) == (some_requires(strings, symbols, n, name)
            || (import_name(strings, symbols, n) == Some(name) && symbol_binding(symbols, n)
            == Binding::Strong)) by {
        if some_requires(strings, symbols, n + 1, name) {
            let i = choose|i: int|
                0 <= i < n + 1 && #[trigger] import_name(strings, symbols, i) == Some(name)
                    && symbol_binding(symbols, i) == Binding::Strong;
            assert(i < n || i == n);
        }
    }
    match import_name(strings, symbols, n) {
        Some(name) => {
            assert(after =~= recorded(before, name, symbol_binding(symbols, n)));
        },
        None => {
            assert(after =~= before);
        },
    }
}

/// Finds the end of the NUL-terminated string that starts at `from`.
fn find_end(table: &[u8], from: usize) -> (end: usize)
    requires
        from <= table@.len(),
    ensures
        end == c_string_end(table@, from as int),
        from <= end <= table@.len(),
{
    let mut end: usize = from;
    while end < table.len() && table[end] != 0
        invariant
            from <= end <= table@.len(),
            c_string_end(table@, from as int) == c_string_end(table@, end as int),
        decreases table@.len() - end,
    {
        end += 1;
    }
    end
}

/// What the symbol table `symbols` imports: its undefined entries with a name, each
/// with its binding. A last entry that is not whole is not looked at.
pub fn collect_imports(strings: &[u8], symbols: &[u8]) -> (imports: Imports)
    ensures
        imports@ == imported(strings@, symbols@),
{
    let count: usize = symbols.len() / SYM_LEN as usize;
    let mut out = Imports::new();
    assert(out@ =~= imported_by(strings@, symbols@, 0));
    let mut i: usize = 0;
    while i < count
        invariant
            i <= count,
            count == symbol_count(symbols@),
            out@ == imported_by(strings@, symbols@, i as int),
        decreases count - i,
    {
        proof {
            imported_step(strings@, symbols@, i as int);
        }
        assert(SYM_LEN * i + SYM_LEN <= symbols.len());
        let entry: usize = SYM_LEN as usize * i;
        let name_at: u32 = u32le(symbols, entry);
        if u16le(symbols, entry + 6) == SHN_UNDEF && name_at != 0 && (name_at as u64)
            < strings.len() as u64 {
            let start: usize = name_at as usize;
            let end: usize = find_end(strings, start);
            if end > start {
                if let Some(name) = from_utf8(slice_subrange(strings, start, end)) {
                    proof {
                        encode_utf8_decode_utf8(name@);
                    }
                    let info: u8 = symbols[entry + 4];
                    assert(info >> 4 == info / 16) by (bit_vector);
                    let binding = if info >> 4 == STB_WEAK {
                        Binding::Weak
                    } else {
                        Binding::Strong
                    };
                    out.record(name, binding);
                }
            }
        }
        i += 1;
    }
    out
}

// ---- Reading an object region by region ----

/// How far reading has come, as a specification sees it.
pub enum StageModel {
    Header,
    FirstSection,
    SectionTable { count: u64 },
    Strings { sym_off: u64, sym_len: u64 },
    Symbols { strings: Seq<u8> },
}

/// A request for the `len` bytes at `off`, as a specification sees it.
pub struct RequestModel {
    pub stage: StageModel,
    pub off: u64,
    pub len: u64,
}

/// What is to be done next, as a specification sees it.
pub enum ProgressModel {
    Read(RequestModel),
    Done(Map<Seq<char>, Binding>),
    Failed(Fault),
}

/// The region that is read at a stage.
pub open spec fn region_of(stage: StageModel) -> Region {
    match stage {
        StageModel::Header => Region::Header,
        StageModel::FirstSection => Region::FirstSection,
        StageModel::SectionTable { .. } => Region::SectionTable,
        StageModel::Strings { .. } => Region::Strings,
        StageModel::Symbols { .. } => Region::Symbols,
    }
}

/// The request for the section header table, unless its size is out of range.
pub open spec fn ask_for_sections(off: u64, count: u64) -> ProgressModel {
    if SHDR_LEN * count > u64::MAX {
        ProgressModel::Failed(Fault::SectionTableSize)
    } else {
        ProgressModel::Read(
            RequestModel {
                stage: StageModel::SectionTable { count },
                off,
                len: (SHDR_LEN * count) as u64,
            },
        )
    }
}

/// What follows an ELF header.
pub open spec fn after_header(header: Seq<u8>) -> ProgressModel {
    let off = le64(header, 0x28);
    if header_fault(header) is Some {
        ProgressModel::Failed(header_fault(header)->0)
    } else if le16(header, 0x3c) != 0 {
        ask_for_sections(off, le16(header, 0x3c) as u64)
    } else {
        ProgressModel::Read(RequestModel { stage: StageModel::FirstSection, off, len: SHDR_LEN })
    }
}

/// What follows a table of `count` section headers.
pub open spec fn after_sections(table: Seq<u8>, count: u64) -> ProgressModel {
    let dynsym = SHDR_LEN * first_dynsym(table, 0, count as int)->0;
    let dynstr = SHDR_LEN * le32(table, dynsym + 0x28);
    if sections_fault(table, count as int) is Some {
        ProgressModel::Failed(sections_fault(table, count as int)->0)
    } else {
        ProgressModel::Read(
            RequestModel {
                stage: StageModel::Strings {
                    sym_off: le64(table, dynsym + 0x18),
                    sym_len: le64(table, dynsym + 0x20),
                },
                off: le64(table, dynstr + 0x18),
                len: le64(table, dynstr + 0x20),
            },
        )
    }
}

/// What follows a request once its bytes are there.
pub open spec fn after_bytes(request: RequestModel, bytes: Seq<u8>) -> ProgressModel {
    match request.stage {
        StageModel::Header => after_header(bytes),
        StageModel::FirstSection => ask_for_sections(request.off, le64(bytes, 0x20)),
        StageModel::SectionTable { count } => after_sections(bytes, count),
        StageModel::Strings { sym_off, sym_len } => ProgressModel::Read(
            RequestModel {
                stage: StageModel::Symbols { strings: bytes },
                off: sym_off,
                len: sym_len,
            },
        ),
        StageModel::Symbols { strings } => ProgressModel::Done(imported(strings, bytes)),
    }
}

/// What follows a request: a reply that is not the bytes asked for means that the file
/// ends before they do.
pub open spec fn after_reply(request: RequestModel, reply: Option<Seq<u8>>) -> ProgressModel {
    match reply {
        Some(bytes) if bytes.len() == request.len => after_bytes(request, bytes),
        _ => ProgressModel::Failed(
            Fault::Truncated {
                region: region_of(request.stage),
                len: request.len,
                off: request.off,
            },
        ),
    }
}

/// What to do first with a file of `len` bytes.
pub open spec fn at_start(len: u64) -> ProgressModel {
    if len < EHDR_LEN {
        ProgressModel::Failed(Fault::TooShort { len })
    } else {
        ProgressModel::Read(RequestModel { stage: StageModel::Header, off: 0, len: EHDR_LEN })
    }
}

/// How many requests can still follow.
pub open spec fn steps_left(progress: ProgressModel) -> nat {
    match progress {
        ProgressModel::Read(request) => match request.stage {
            StageModel::Header => 5,
            StageModel::FirstSection => 4,
            StageModel::SectionTable { .. } => 3,
            StageModel::Strings { .. } => 2,
            StageModel::Symbols { .. } => 1,
        },
        _ => 0,
    }
}

/// Where reading ends when every request is answered out of `file`.
pub open spec fn read_through(progress: ProgressModel, file: Seq<u8>) -> Result<
    Map<Seq<char>, Binding>,
    Fault,
>
    decreases steps_left(progress),
{
    match progress {
        ProgressModel::Done(imports) => Ok(imports),
        ProgressModel::Failed(fault) => Err(fault),
        ProgressModel::Read(request) => read_through(
            after_reply(request, extent(file, request.off, request.len)),
            file,
        ),
    }
}

/// Reading an object region by region, each request answered out of the file, finds
/// exactly the imports that the whole file has, or the fault that it has.
pub proof fn reading_finds_the_imports(file: Seq<u8>)
    requires
        file.len() <= u64::MAX,
    ensures
        read_through(at_start(file.len() as u64), file) == undefined_in(file),
{
    reveal_with_fuel(read_through, 6);
    assert(file.take(EHDR_LEN as int) =~= file.subrange(0, EHDR_LEN as int));
}

/// Every reply, whatever it is, leaves fewer requests to follow.
pub proof fn every_reply_leads_on(request: RequestModel, reply: Option<Seq<u8>>)
    ensures
        steps_left(after_reply(request, reply)) < steps_left(ProgressModel::Read(request)),
{
}

/// How many regions are read when every request is answered out of `file`.
pub open spec fn regions_read(progress: ProgressModel, file: Seq<u8>) -> nat
    decreases steps_left(progress),
{
    match progress {
        ProgressModel::Read(request) => 1 + regions_read(
            after_reply(request, extent(file, request.off, request.len)),
            file,
        ),
        _ => 0,
    }
}

/// No more regions are read than requests can follow.
proof fn steps_bound_the_regions(progress: ProgressModel, file: Seq<u8>)
    ensures
        regions_read(progress, file) <= steps_left(progress),
    decreases steps_left(progress),
{
    if let ProgressModel::Read(request) = progress {
        steps_bound_the_regions(
            after_reply(request, extent(file, request.off, request.len)),
            file,
        );
    }
}

/// At most five regions of a file are read, whatever the file holds.
pub proof fn few_regions_are_read(file: Seq<u8>)
    requires
        file.len() <= u64::MAX,
    ensures
        regions_read(at_start(file.len() as u64), file) <= 5,
{
    steps_bound_the_regions(at_start(file.len() as u64), file);
}

enum Stage {
    Header,
    FirstSection,
    SectionTable { count: u64 },
    Strings { sym_off: u64, sym_len: u64 },
    Symbols { strings: Vec<u8> },
}

/// A request to read [`Request::len`] bytes of the object at [`Request::off`].
pub struct Request {
    stage: Stage,
    off: u64,
    len: u64,
}

/// What is to be done next.
pub enum Progress {
    /// Read these bytes and call [`Request::advance`] with them.
    Read(Request),
    /// These are the object's imports.
    Done(Imports),
    /// The imports cannot be told.
    Failed(Fault),
}

impl View for Stage {
    type V = StageModel;

    closed spec fn view(&self) -> StageModel {
        match *self {
            Stage::Header => StageModel::Header,
            Stage::FirstSection => StageModel::FirstSection,
            Stage::SectionTable { count } => StageModel::SectionTable { count },
            Stage::Strings { sym_off, sym_len } => StageModel::Strings { sym_off, sym_len },
            Stage::Symbols { strings } => StageModel::Symbols { strings: strings@ },
        }
    }
}

impl View for Request {
    type V = RequestModel;

    closed spec fn view(&self) -> RequestModel {
        RequestModel { stage: self.stage@, off: self.off, len: self.len }
    }
}

impl View for Progress {
    type V = ProgressModel;

    open spec fn view(&self) -> ProgressModel {
        match *self {
            Progress::Read(request) => ProgressModel::Read(request@),
            Progress::Done(imports) => ProgressModel::Done(imports@),
            Progress::Failed(fault) => ProgressModel::Failed(fault),
        }
    }
}

/// Says what to read first of a file that is `len` bytes long.
///
/// A file too short to hold a header is reported as not being an ELF object rather than
/// as a truncated one: the common case is that something else entirely was handed in.
pub fn begin(len: u64) -> (progress: Progress)
    ensures
        progress@ == at_start(len),
{
    if len < EHDR_LEN {
        Progress::Failed(Fault::TooShort { len })
    } else {
        Progress::Read(Request { stage: Stage::Header, off: 0, len: EHDR_LEN })
    }
}

/// Asks for `count` section headers at `off`.
fn request_sections(off: u64, count: u64) -> (progress: Progress)
    ensures
        progress@ == ask_for_sections(off, count),
{
    match count.checked_mul(SHDR_LEN) {
        Some(len) => Progress::Read(Request { stage: Stage::SectionTable { count }, off, len }),
        None => Progress::Failed(Fault::SectionTableSize),
    }
}

/// Looks at an ELF header.
fn read_header(header: &[u8]) -> (progress: Progress)
    requires
        header@.len() == EHDR_LEN,
    ensures
        progress@ == after_header(header@),
{
    assert(header@.take(4) == seq![0x7fu8, 0x45u8, 0x4cu8, 0x46u8] <==> header@[0] == 0x7f
        && header@[1] == 0x45 && header@[2] == 0x4c && header@[3] == 0x46) by {
        let magic = seq![0x7fu8, 0x45u8, 0x4cu8, 0x46u8];
        let start = header@.take(4);
        assert(start[0] == header@[0] && start[1] == header@[1] && start[2] == header@[2]
            && start[3] == header@[3]);
        if header@[0] == 0x7f && header@[1] == 0x45 && header@[2] == 0x4c && header@[3] == 0x46 {
            assert(start =~= magic);
        }
    }
    if !(header[0] == 0x7f && header[1] == 0x45 && header[2] == 0x4c && header[3] == 0x46) {
        return Progress::Failed(Fault::NotElf);
    }
    // ELFCLASS64 and ELFDATA2LSB: a mismatch means the wrong file was handed in rather
    // than a format worth supporting.
    if header[4] != 2 || header[5] != 1 {
        return Progress::Failed(Fault::NotElf64);
    }
    let off: u64 = u64le(header, 0x28);
    let size: u16 = u16le(header, 0x3a);
    let count: u16 = u16le(header, 0x3c);
    if off == 0 || (count == 0 && size == 0) {
        return Progress::Failed(Fault::NoSectionHeaders);
    }
    if size as u64 != SHDR_LEN {
        return Progress::Failed(Fault::SectionHeaderSize { size: size as u64 });
    }
    if count == 0 {
        Progress::Read(Request { stage: Stage::FirstSection, off, len: SHDR_LEN })
    } else {
        request_sections(off, count as u64)
    }
}

/// Finds the first dynamic symbol table among `count` section headers.
fn find_dynsym(table: &[u8], count: usize) -> (found: Option<usize>)
    requires
        table@.len() == SHDR_LEN * count,
    ensures
        match found {
            Some(i) => i < count && first_dynsym(table@, 0, count as int) == Some(i as int),
            None => first_dynsym(table@, 0, count as int) is None,
        },
{
    let mut i: usize = 0;
    while i < count
        invariant
            i <= count,
            table@.len() == SHDR_LEN * count,
            first_dynsym(table@, 0, count as int) == first_dynsym(table@, i as int, count as int),
        decreases count - i,
    {
        assert(SHDR_LEN * i + SHDR_LEN <= table.len());
        if u32le(table, SHDR_LEN as usize * i + 0x04) == SHT_DYNSYM {
            return Some(i);
        }
        i += 1;
    }
    None
}

/// Finds the symbol table and its strings among `count` section headers.
fn read_sections(table: &[u8], count: u64) -> (progress: Progress)
    requires
        table@.len() == SHDR_LEN * count,
    ensures
        progress@ == after_sections(table@, count),
{
    assert(SHDR_LEN * count == table.len());
    let n: usize = count as usize;
    match find_dynsym(table, n) {
        None => Progress::Failed(Fault::NoDynsym),
        Some(i) => {
            assert(SHDR_LEN * i + SHDR_LEN <= table.len());
            let dynsym: usize = SHDR_LEN as usize * i;
            let size: u64 = u64le(table, dynsym + 0x38);
            let link: u32 = u32le(table, dynsym + 0x28);
            if size != 0 && size != SYM_LEN {
                Progress::Failed(Fault::SymbolSize { size })
            } else if link as u64 >= count {
                Progress::Failed(Fault::StringTable { index: link })
            } else {
                assert(SHDR_LEN * link + SHDR_LEN <= table.len());
                let dynstr: usize = SHDR_LEN as usize * link as usize;
                Progress::Read(
                    Request {
                        stage: Stage::Strings {
                            sym_off: u64le(table, dynsym + 0x18),
                            sym_len: u64le(table, dynsym + 0x20),
                        },
                        off: u64le(table, dynstr + 0x18),
                        len: u64le(table, dynstr + 0x20),
                    },
                )
            }
        },
    }
}

impl Request {
    #[verifier::type_invariant]
    spec fn well_formed(self) -> bool {
        match self.stage {
            Stage::Header => self.len == EHDR_LEN,
            Stage::FirstSection => self.len == SHDR_LEN,
            Stage::SectionTable { count } => self.len == SHDR_LEN * count,
            _ => true,
        }
    }

    /// Where the bytes start.
    pub fn off(&self) -> (off: u64)
        ensures
            off == self@.off,
    {
        self.off
    }

    /// How many bytes are wanted.
    pub fn len(&self) -> (len: u64)
        ensures
            len == self@.len,
    {
        self.len
    }

    /// Which part of the object they are.
    pub fn region(&self) -> (region: Region)
        ensures
            region == region_of(self@.stage),
    {
        match &self.stage {
            Stage::Header => Region::Header,
            Stage::FirstSection => Region::FirstSection,
            Stage::SectionTable { .. } => Region::SectionTable,
            Stage::Strings { .. } => Region::Strings,
            Stage::Symbols { .. } => Region::Symbols,
        }
    }

    /// Goes on with the bytes that were asked for, or with `None` if the file ends before
    /// they do.
    pub fn advance(self, reply: Option<Vec<u8>>) -> (progress: Progress)
        ensures
            progress@ == after_reply(
                self@,
                match reply {
                    Some(bytes) => Some(bytes@),
                    None => None,
                },
            ),
    {
        proof {
            use_type_invariant(&self);
        }
        let region = self.region();
        let Request { stage, off, len } = self;
        let bytes = match reply {
            Some(bytes) if bytes.len() as u64 == len => bytes,
            _ => {
                return Progress::Failed(Fault::Truncated { region, len, off });
            },
        };
        match stage {
            Stage::Header => read_header(bytes.as_slice()),
            Stage::FirstSection => request_sections(off, u64le(bytes.as_slice(), 0x20)),
            Stage::SectionTable { count } => read_sections(bytes.as_slice(), count),
            Stage::Strings { sym_off, sym_len } => Progress::Read(
                Request { stage: Stage::Symbols { strings: bytes }, off: sym_off, len: sym_len },
            ),
            Stage::Symbols { strings } => Progress::Done(
                collect_imports(strings.as_slice(), bytes.as_slice()),
            ),
        }
    }
}

// ---- Saying what went wrong ----

/// What a message calls a region.
pub open spec fn region_name(region: Region) -> Seq<char> {
    match region {
        Region::Header => "the ELF header"@,
        Region::FirstSection => "section header 0"@,
        Region::SectionTable => "the section header table"@,
        Region::Strings => ".dynstr"@,
        Region::Symbols => ".dynsym"@,
    }
}

/// What is said about the object at `path` when its imports cannot be told.
pub open spec fn fault_text(fault: Fault, path: Seq<char>) -> Seq<char> {
    match fault {
        Fault::TooShort { len } => path + " is "@ + decimal(len as nat)
            + " bytes, too short to be an ELF object"@,
        Fault::NotElf => path + " is not an ELF file"@,
        Fault::NotElf64 => path + " is not 64-bit little-endian ELF"@,
        Fault::NoSectionHeaders => path
            + " has no section headers, so .dynsym cannot be located; it was probably stripped with --strip-sections"@,
        Fault::SectionHeaderSize { size } => path + " has "@ + decimal(size as nat)
            + "-byte section headers, expected 64"@,
        Fault::SectionTableSize => "section header table size overflows"@,
        Fault::Truncated { region, len, off } => "truncated: "@ + region_name(region) + " wants "@
            + decimal(len as nat) + " bytes at offset "@ + decimal(off as nat)
            + ", past the end of the file"@,
        Fault::NoDynsym => path + " has section headers but no SHT_DYNSYM among them"@,
        Fault::SymbolSize { size } => path + " has "@ + decimal(size as nat)
            + "-byte .dynsym entries, expected 24"@,
        Fault::StringTable { index } => path + "'s .dynsym links to section "@ + decimal(
            index as nat,
        ) + ", past the end of the table"@,
    }
}

impl Region {
    /// What a message calls the region.
    pub fn name(self) -> (name: &'static str)
        ensures
            name@ == region_name(self),
    {
        match self {
            Region::Header => "the ELF header",
            Region::FirstSection => "section header 0",
            Region::SectionTable => "the section header table",
            Region::Strings => ".dynstr",
            Region::Symbols => ".dynsym",
        }
    }
}

impl Fault {
    /// What is said about the object at `path`.
    pub fn message(self, path: &str) -> (message: String)
        ensures
            message@ == fault_text(self, path@),
    {
        let mut out = String::new();
        match self {
            Fault::SectionTableSize => {
                out.append("section header table size overflows");
            },
            Fault::Truncated { region, len, off } => {
                out.append("truncated: ");
                out.append(region.name());
                out.append(" wants ");
                push_decimal(&mut out, len);
                out.append(" bytes at offset ");
                push_decimal(&mut out, off);
                out.append(", past the end of the file");
            },
            Fault::TooShort { len } => {
                out.append(path);
                out.append(" is ");
                push_decimal(&mut out, len);
                out.append(" bytes, too short to be an ELF object");
            },
            Fault::NotElf => {
                out.append(path);
                out.append(" is not an ELF file");
            },
            Fault::NotElf64 => {
                out.append(path);
                out.append(" is not 64-bit little-endian ELF");
            },
            Fault::NoSectionHeaders => {
                out.append(path);
                out.append(
                    " has no section headers, so .dynsym cannot be located; it was probably stripped with --strip-sections",
                );
            },
            Fault::SectionHeaderSize { size } => {
                out.append(path);
                out.append(" has ");
                push_decimal(&mut out, size);
                out.append("-byte section headers, expected 64");
            },
            Fault::NoDynsym => {
                out.append(path);
                out.append(" has section headers but no SHT_DYNSYM among them");
            },
            Fault::SymbolSize { size } => {
                out.append(path);
                out.append(" has ");
                push_decimal(&mut out, size);
                out.append("-byte .dynsym entries, expected 24");
            },
            Fault::StringTable { index } => {
                out.append(path);
                out.append("'s .dynsym links to section ");
                push_decimal(&mut out, index as u64);
                out.append(", past the end of the table");
            },
        }
        assert(out@ =~= fault_text(self, path@));
        out
    }
}

/// The error of reading something that is not what it should be.
#[derive(Debug)]
pub struct InvalidData {
    pub message: String,
}

/// The error that says `msg`.
pub fn bad(msg: &str) -> (error: InvalidData)
    ensures
        error.message@ == msg@,
{
    InvalidData { message: msg.to_owned() }
}

// ---- An object held in memory ----

/// The `len` bytes of `file` at `off`, or `None` if the file ends before they do.
pub fn read_at(file: &[u8], off: u64, len: u64) -> (bytes: Option<Vec<u8>>)
    ensures
        match bytes {
            Some(b) => extent(file@, off, len) == Some(b@),
            None => extent(file@, off, len) is None,
        },
{
    let size: u64 = file.len() as u64;
    if off > LAST_OFFSET {
        None
    } else if len == 0 {
        let none: Vec<u8> = Vec::new();
        assert(none@ =~= Seq::empty());
        Some(none)
    } else if off <= size && len <= size - off {
        let start: usize = off as usize;
        Some(slice_to_vec(slice_subrange(file, start, start + len as usize)))
    } else {
        None
    }
}

/// Every symbol that the object `file` imports: `.dynsym` entries with
/// `st_shndx == SHN_UNDEF` and a non-empty name, each with its binding. `path` is what
/// an error calls the object.
///
/// Names carry no version suffix: the bare name is what the linker resolves on.
pub fn undefined_symbols(path: &str, file: &[u8]) -> (imports: Result<Imports, InvalidData>)
    ensures
        match undefined_in(file@) {
            Ok(found) => imports is Ok && imports->Ok_0@ == found,
            Err(fault) => imports is Err && imports->Err_0.message@ == fault_text(fault, path@),
        },
{
    let len: u64 = file.len() as u64;
    let mut progress = begin(len);
    proof {
        reading_finds_the_imports(file@);
    }
    loop
        invariant
            read_through(progress@, file@) == undefined_in(file@),
        decreases steps_left(progress@),
    {
        match progress {
            Progress::Done(imports) => {
                return Ok(imports);
            },
            Progress::Failed(fault) => {
                return Err(bad(fault.message(path).as_str()));
            },
            Progress::Read(request) => {
                let bytes = read_at(file, request.off(), request.len());
                progress = request.advance(bytes);
            },
        }
    }
}

// ---- What holds of every object ----

/// Only undefined symbols with a name are imports: whatever is reported is the name of
/// some undefined entry, and no name is empty.
pub proof fn only_undefined_symbols_are_imports(
    strings: Seq<u8>,
    symbols: Seq<u8>,
    name: Seq<char>,
)
    requires
        imported(strings, symbols).contains_key(name),
    ensures
        exists|i: int|
            0 <= i < symbol_count(symbols) && le16(symbols, SYM_LEN * i + 6) == SHN_UNDEF
                && #[trigger] import_name(strings, symbols, i) == Some(name),
        name.len() > 0,
{
    let i = choose|i: int|
        0 <= i < symbol_count(symbols) && #[trigger] import_name(strings, symbols, i) == Some(name);
    decode_utf8_encode_utf8(c_string(strings, le32(symbols, SYM_LEN * i) as int));
    assert(le16(symbols, SYM_LEN * i + 6) == SHN_UNDEF);
}

/// A symbol that every entry of its name defines is not reported.
pub proof fn a_defined_symbol_is_not_an_import(
    strings: Seq<u8>,
    symbols: Seq<u8>,
    name: Seq<char>,
)
    requires
        forall|i: int|
            0 <= i < symbol_count(symbols) && #[trigger] c_string(
                strings,
                le32(symbols, SYM_LEN * i) as int,
            ) == encode_utf8(name) ==> le16(symbols, SYM_LEN * i + 6) != SHN_UNDEF,
    ensures
        !imported(strings, symbols).contains_key(name),
{
    if imported(strings, symbols).contains_key(name) {
        let i = choose|i: int|
            0 <= i < symbol_count(symbols) && #[trigger] import_name(strings, symbols, i) == Some(
                name,
            );
        decode_utf8_encode_utf8(c_string(strings, le32(symbols, SYM_LEN * i) as int));
    }
}

/// An import is weak exactly when every entry that imports it is: strong wins.
pub proof fn an_import_is_weak_if_all_its_entries_are(
    strings: Seq<u8>,
    symbols: Seq<u8>,
    name: Seq<char>,
)
    requires
        imported(strings, symbols).contains_key(name),
    ensures
        imported(strings, symbols)[name] == Binding::Weak <==> (forall|i: int|
            0 <= i < symbol_count(symbols) && #[trigger] import_name(strings, symbols, i) == Some(
                name,
            ) ==> symbol_binding(symbols, i) == Binding::Weak),
{
}

/// An object without section headers is an error that says so, never an empty answer.
pub proof fn a_stripped_object_is_an_error(file: Seq<u8>)
    requires
        file.len() >= EHDR_LEN,
        file.take(4) == seq![0x7fu8, 0x45u8, 0x4cu8, 0x46u8],
        file[4] == 2,
        file[5] == 1,
        le64(file, 0x28) == 0 || (le16(file, 0x3c) == 0 && le16(file, 0x3a) == 0),
    ensures
        undefined_in(file) == Err::<Map<Seq<char>, Binding>, Fault>(Fault::NoSectionHeaders),
{
    assert(file.take(EHDR_LEN as int).take(4) =~= file.take(4));
}

/// How many section headers an object says it has: a count that does not fit in its
/// 16-bit field is the size of the first section instead.
pub open spec fn section_count(file: Seq<u8>) -> int {
    if le16(file, 0x3c) != 0 {
        le16(file, 0x3c) as int
    } else {
        le64(file, le64(file, 0x28) + 0x20) as int
    }
}

/// Section `i` of an object is a dynamic symbol table.
pub open spec fn is_dynsym(file: Seq<u8>, i: int) -> bool {
    le32(file, le64(file, 0x28) + SHDR_LEN * i + 0x04) == SHT_DYNSYM
}

/// What the search for a dynamic symbol table finds is one.
proof fn first_dynsym_is_one(table: Seq<u8>, i: int, count: int)
    requires
        first_dynsym(table, i, count) is Some,
    ensures
        i <= first_dynsym(table, i, count)->0 < count,
        le32(table, SHDR_LEN * first_dynsym(table, i, count)->0 + 0x04) == SHT_DYNSYM,
    decreases count - i,
{
    if le32(table, SHDR_LEN * i + 0x04) != SHT_DYNSYM {
        first_dynsym_is_one(table, i + 1, count);
    }
}

/// Section headers that give an answer lie inside the file, and one of them, `i`, is a
/// dynamic symbol table.
proof fn sections_with_an_answer(file: Seq<u8>, off: u64, count: u64) -> (i: int)
    requires
        undefined_among(file, off, count) is Ok,
    ensures
        off + SHDR_LEN * count <= file.len(),
        0 <= i < count,
        le32(file, off + SHDR_LEN * i + 0x04) == SHT_DYNSYM,
{
    let table = extent(file, off, (SHDR_LEN * count) as u64)->0;
    assert(sections_fault(table, count as int) is None);
    first_dynsym_is_one(table, 0, count as int);
    let i = first_dynsym(table, 0, count as int)->0;
    le32_of_part(file, off as int, off + SHDR_LEN * count, SHDR_LEN * i + 0x04);
    i
}

/// An object has an answer, be it an empty one, only if its section headers, all of them
/// inside the file, have a dynamic symbol table among them.
pub proof fn an_answer_comes_from_a_symbol_table(file: Seq<u8>)
    requires
        undefined_in(file) is Ok,
    ensures
        le64(file, 0x28) + SHDR_LEN * section_count(file) <= file.len(),
        exists|i: int| 0 <= i < section_count(file) && #[trigger] is_dynsym(file, i),
{
    let header = file.take(EHDR_LEN as int);
    let off = le64(file, 0x28);
    let count = section_count(file) as u64;
    assert(header =~= file.subrange(0, EHDR_LEN as int));
    le64_of_part(file, 0, EHDR_LEN as int, 0x28);
    le16_of_part(file, 0, EHDR_LEN as int, 0x3c);
    if le16(file, 0x3c) == 0 {
        assert(extent(file, off, SHDR_LEN) is Some);
        le64_of_part(file, off as int, off + SHDR_LEN, 0x20);
    }
    let i = sections_with_an_answer(file, off, count);
    assert(is_dynsym(file, i));
}

} // verus!
