//! What the bytes of an object make of its imports.
//!
//! The laws here speak of a file byte by byte and field by field, at the offsets where the
//! ELF64 format puts them, and say what [`crate::elf`] finds in it: which entries of a
//! symbol table are imports and which are not, where the tables are, and for which files
//! there is no answer.

use crate::bytes::{le16, le16_of_part, le32, le32_of_part, le64, le64_of_part};
use crate::elf::{
    after_reply, c_string_end, extent, fault_text, first_dynsym, header_fault, import_name, imported,
    region_of, symbol_binding, symbol_count, undefined_among, undefined_between, undefined_in, Fault,
    ProgressModel, Region, RequestModel,
};
use crate::imports::{united, Binding};
use crate::text::decimal;
use vstd::prelude::*;
use vstd::utf8::*;

verus! {

// ---- Symbol tables ----

/// A string without a NUL before `end` ends there.
proof fn string_ends_at(table: Seq<u8>, from: int, end: int)
    requires
        from <= end <= table.len(),
        forall|j: int| from <= j < end ==> table[j] != 0,
        end == table.len() || table[end] == 0,
    ensures
        c_string_end(table, from) == end,
    decreases end - from,
{
    if from < end {
        string_ends_at(table, from + 1, end);
    }
}

/// A string has no NUL before its end, and ends at a NUL or with the table.
proof fn string_is_whole(table: Seq<u8>, from: int)
    requires
        0 <= from <= table.len(),
    ensures
        from <= c_string_end(table, from) <= table.len(),
        forall|j: int| from <= j < c_string_end(table, from) ==> table[j] != 0,
        c_string_end(table, from) == table.len() || table[c_string_end(table, from)] == 0,
    decreases table.len() - from,
{
    if from < table.len() && table[from] != 0 {
        string_is_whole(table, from + 1);
    }
}

/// Every undefined entry with a name is an import, whatever else the entry says: its
/// section is 0, and its name starts inside the string table behind the first byte, runs
/// to a NUL or to the table's end, is not empty and is UTF-8. It is strong unless the high
/// half of the entry's fifth byte says weak.
pub proof fn every_undefined_name_is_imported(
    strings: Seq<u8>,
    symbols: Seq<u8>,
    i: int,
    end: int,
)
    requires
        0 <= i,
        24 * i + 24 <= symbols.len(),
        symbols[24 * i + 6] == 0,
        symbols[24 * i + 7] == 0,
        0 < le32(symbols, 24 * i) < end <= strings.len(),
        forall|j: int| le32(symbols, 24 * i) <= j < end ==> strings[j] != 0,
        end == strings.len() || strings[end] == 0,
        valid_utf8(strings.subrange(le32(symbols, 24 * i) as int, end)),
    ensures
        ({
            let name = decode_utf8(strings.subrange(le32(symbols, 24 * i) as int, end));
            &&& imported(strings, symbols).contains_key(name)
            &&& symbols[24 * i + 4] / 16 != 2 ==> imported(strings, symbols)[name]
                == Binding::Strong
        }),
{
    string_ends_at(strings, le32(symbols, 24 * i) as int, end);
    let name = decode_utf8(strings.subrange(le32(symbols, 24 * i) as int, end));
    assert(import_name(strings, symbols, i) == Some(name));
    assert(i < symbol_count(symbols));
    if symbols[24 * i + 4] / 16 != 2 {
        assert(symbol_binding(symbols, i) == Binding::Strong);
    }
}

/// Every import is the name of an undefined entry: `found` is the entry and where its name
/// ends. An import is strong only if such an entry says so, and weak only if none does.
pub proof fn every_import_is_an_undefined_name(
    strings: Seq<u8>,
    symbols: Seq<u8>,
    name: Seq<char>,
) -> (found: (int, int))
    requires
        imported(strings, symbols).contains_key(name),
    ensures
        ({
            let (i, end) = found;
            let at = le32(symbols, 24 * i);
            &&& 0 <= i && 24 * i + 24 <= symbols.len()
            &&& symbols[24 * i + 6] == 0 && symbols[24 * i + 7] == 0
            &&& 0 < at < end <= strings.len()
            &&& forall|j: int| at <= j < end ==> strings[j] != 0
            &&& end == strings.len() || strings[end] == 0
            &&& valid_utf8(strings.subrange(at as int, end))
            &&& decode_utf8(strings.subrange(at as int, end)) == name
            &&& (imported(strings, symbols)[name] == Binding::Weak) == (symbols[24 * i + 4] / 16
                == 2)
        }),
{
    let n = symbol_count(symbols);
    let i = if imported(strings, symbols)[name] == Binding::Strong {
        choose|i: int|
            0 <= i < n && #[trigger] import_name(strings, symbols, i) == Some(name)
                && symbol_binding(symbols, i) == Binding::Strong
    } else {
        choose|i: int| 0 <= i < n && #[trigger] import_name(strings, symbols, i) == Some(name)
    };
    let at = le32(symbols, 24 * i) as int;
    string_is_whole(strings, at);
    assert(le16(symbols, 24 * i + 6) == 0);
    assert(symbols[24 * i + 6] == 0 && symbols[24 * i + 7] == 0);
    (i, c_string_end(strings, at))
}

/// Of a symbol table only the names, the sections and the bindings matter: tables that
/// agree in these have the same imports, whatever types, visibilities, values and sizes
/// their symbols have.
pub proof fn only_names_sections_and_bindings_matter(strings: Seq<u8>, a: Seq<u8>, b: Seq<u8>)
    requires
        a.len() == b.len(),
        forall|o: int|
            0 <= o < a.len() && (o % 24 < 4 || o % 24 == 6 || o % 24 == 7) ==> #[trigger] a[o]
                == b[o],
        forall|o: int| 0 <= o < a.len() && o % 24 == 4 ==> #[trigger] a[o] / 16 == b[o] / 16,
    ensures
        imported(strings, a) == imported(strings, b),
{
    let n = symbol_count(a);
    assert forall|i: int| 0 <= i < n implies import_name(strings, a, i) == import_name(
        strings,
        b,
        i,
    ) && symbol_binding(a, i) == symbol_binding(b, i) by {
        let o = 24 * i;
        assert(o % 24 == 0 && (o + 1) % 24 == 1 && (o + 2) % 24 == 2 && (o + 3) % 24 == 3);
        assert((o + 4) % 24 == 4 && (o + 6) % 24 == 6 && (o + 7) % 24 == 7);
        assert(a[o] == b[o] && a[o + 1] == b[o + 1] && a[o + 2] == b[o + 2] && a[o + 3] == b[o
            + 3]);
        assert(a[o + 6] == b[o + 6] && a[o + 7] == b[o + 7]);
        assert(a[o + 4] / 16 == b[o + 4] / 16);
        assert(le32(a, o) == le32(b, o));
        assert(le16(a, o + 6) == le16(b, o + 6));
    }
    same_entries(strings, a, b);
}

/// Tables whose entries import the same, one for one, have the same imports.
proof fn same_entries(strings: Seq<u8>, a: Seq<u8>, b: Seq<u8>)
    requires
        a.len() == b.len(),
        forall|i: int|
            0 <= i < symbol_count(a) ==> #[trigger] import_name(strings, a, i) == import_name(
                strings,
                b,
                i,
            ) && symbol_binding(a, i) == symbol_binding(b, i),
    ensures
        imported(strings, a) == imported(strings, b),
{
    let n = symbol_count(a);
    assert forall|name: Seq<char>| imported(strings, a).contains_key(name) == imported(
        strings,
        b,
    ).contains_key(name) by {
        if imported(strings, b).contains_key(name) {
            let i = choose|i: int|
                0 <= i < n && #[trigger] import_name(strings, b, i) == Some(name);
            assert(import_name(strings, a, i) == Some(name));
        }
    }
    assert forall|name: Seq<char>| imported(strings, a).contains_key(name) implies imported(
        strings,
        a,
    )[name] == imported(strings, b)[name] by {
        if imported(strings, b)[name] == Binding::Strong {
            let i = choose|i: int|
                0 <= i < n && #[trigger] import_name(strings, b, i) == Some(name)
                    && symbol_binding(b, i) == Binding::Strong;
            assert(import_name(strings, a, i) == Some(name));
        }
        if imported(strings, a)[name] == Binding::Strong {
            let i = choose|i: int|
                0 <= i < n && #[trigger] import_name(strings, a, i) == Some(name)
                    && symbol_binding(a, i) == Binding::Strong;
            assert(import_name(strings, b, i) == Some(name));
        }
    }
    assert(imported(strings, a) =~= imported(strings, b));
}

/// Two symbol tables, one put behind the other, import what either does, strong where
/// either has it strong.
pub proof fn tables_unite(strings: Seq<u8>, a: Seq<u8>, b: Seq<u8>)
    requires
        a.len() % 24 == 0,
    ensures
        imported(strings, a + b) == united(imported(strings, a), imported(strings, b)),
{
    let both = a + b;
    let n = a.len() as int / 24;
    assert forall|i: int| 0 <= i < n implies import_name(strings, both, i) == import_name(
        strings,
        a,
        i,
    ) && symbol_binding(both, i) == symbol_binding(a, i) by {
        assert(24 * i + 24 <= a.len());
        assert(le32(both, 24 * i) == le32(a, 24 * i));
        assert(le16(both, 24 * i + 6) == le16(a, 24 * i + 6));
    }
    assert forall|i: int| 0 <= i < symbol_count(b) implies import_name(strings, both, n + i)
        == #[trigger] import_name(strings, b, i) && symbol_binding(both, n + i) == symbol_binding(
        b,
        i,
    ) by {
        assert(24 * (n + i) == a.len() + 24 * i);
        assert(24 * i + 24 <= b.len());
        assert(le32(both, 24 * (n + i)) == le32(b, 24 * i));
        assert(le16(both, 24 * (n + i) + 6) == le16(b, 24 * i + 6));
    }
    assert(symbol_count(both) == n + symbol_count(b));
    assert forall|name: Seq<char>| imported(strings, both).contains_key(name) == (imported(
        strings,
        a,
    ).contains_key(name) || imported(strings, b).contains_key(name)) by {
        unite_names(strings, a, b, both, name);
    }
    assert forall|name: Seq<char>| imported(strings, both).contains_key(name) implies imported(
        strings,
        both,
    )[name] == united(imported(strings, a), imported(strings, b))[name] by {
        unite_bindings(strings, a, b, both, name);
    }
    assert(imported(strings, both) =~= united(imported(strings, a), imported(strings, b)));
}

/// The entries of `both` are those of `a` and then those of `b`.
spec fn follows(strings: Seq<u8>, a: Seq<u8>, b: Seq<u8>, both: Seq<u8>) -> bool {
    let n = a.len() as int / 24;
    &&& symbol_count(a) == n
    &&& symbol_count(both) == n + symbol_count(b)
    &&& forall|i: int|
        0 <= i < n ==> #[trigger] import_name(strings, both, i) == import_name(strings, a, i)
            && symbol_binding(both, i) == symbol_binding(a, i)
    &&& forall|i: int|
        0 <= i < symbol_count(b) ==> import_name(strings, both, n + i) == #[trigger] import_name(
            strings,
            b,
            i,
        ) && symbol_binding(both, n + i) == symbol_binding(b, i)
}

proof fn unite_names(
    strings: Seq<u8>,
    a: Seq<u8>,
    b: Seq<u8>,
    both: Seq<u8>,
    name: Seq<char>,
)
    requires
        follows(strings, a, b, both),
    ensures
        imported(strings, both).contains_key(name) == (imported(strings, a).contains_key(name)
            || imported(strings, b).contains_key(name)),
{
    let n = a.len() as int / 24;
    if imported(strings, both).contains_key(name) {
        let i = choose|i: int|
            0 <= i < symbol_count(both) && #[trigger] import_name(strings, both, i) == Some(name);
        if i < n {
            assert(import_name(strings, a, i) == Some(name));
        } else {
            assert(n + (i - n) == i);
            assert(import_name(strings, b, i - n) == Some(name));
        }
    }
    if imported(strings, a).contains_key(name) {
        let i = choose|i: int|
            0 <= i < n && #[trigger] import_name(strings, a, i) == Some(name);
        assert(import_name(strings, both, i) == Some(name));
    }
    if imported(strings, b).contains_key(name) {
        let i = choose|i: int|
            0 <= i < symbol_count(b) && #[trigger] import_name(strings, b, i) == Some(name);
        assert(import_name(strings, both, n + i) == Some(name));
    }
}

proof fn unite_bindings(
    strings: Seq<u8>,
    a: Seq<u8>,
    b: Seq<u8>,
    both: Seq<u8>,
    name: Seq<char>,
)
    requires
        follows(strings, a, b, both),
        imported(strings, both).contains_key(name),
    ensures
        imported(strings, both)[name] == united(imported(strings, a), imported(strings, b))[name],
{
    let n = a.len() as int / 24;
    unite_names(strings, a, b, both, name);
    if imported(strings, both)[name] == Binding::Strong {
        let i = choose|i: int|
            0 <= i < symbol_count(both) && #[trigger] import_name(strings, both, i) == Some(name)
                && symbol_binding(both, i) == Binding::Strong;
        if i < n {
            assert(import_name(strings, a, i) == Some(name));
        } else {
            assert(n + (i - n) == i);
            assert(import_name(strings, b, i - n) == Some(name));
        }
    }
    if imported(strings, a).contains_key(name) && imported(strings, a)[name] == Binding::Strong {
        let i = choose|i: int|
            0 <= i < n && #[trigger] import_name(strings, a, i) == Some(name) && symbol_binding(
                a,
                i,
            ) == Binding::Strong;
        assert(import_name(strings, both, i) == Some(name));
    }
    if imported(strings, b).contains_key(name) && imported(strings, b)[name] == Binding::Strong {
        let i = choose|i: int|
            0 <= i < symbol_count(b) && #[trigger] import_name(strings, b, i) == Some(name)
                && symbol_binding(b, i) == Binding::Strong;
        assert(import_name(strings, both, n + i) == Some(name));
    }
}

// ---- Files ----

/// The bytes at an offset are there if the file reaches as far as their end and can be
/// sought to; they are then the file's own. No bytes are there past the end as well.
pub proof fn bytes_are_the_files_own(file: Seq<u8>, off: u64, len: u64, j: int)
    ensures
        extent(file, off, len) is Some <==> off < 0x8000_0000_0000_0000 && (len == 0 || off + len
            <= file.len()),
        extent(file, off, len) is Some ==> extent(file, off, len)->0.len() == len && (0 <= j < len
            ==> extent(file, off, len)->0[j] == file[off + j]),
{
}

/// A file that cannot hold a header is too short, whatever it holds.
pub proof fn a_file_without_room_for_a_header_is_too_short(file: Seq<u8>)
    requires
        file.len() < 64,
    ensures
        undefined_in(file) == Err::<Map<Seq<char>, Binding>, Fault>(
            Fault::TooShort { len: file.len() as u64 },
        ),
{
}

/// The fields of the header are those of the file.
proof fn header_fields(file: Seq<u8>)
    requires
        file.len() >= 64,
    ensures
        ({
            let header = file.take(64);
            &&& le64(header, 0x28) == le64(file, 0x28)
            &&& le16(header, 0x3a) == le16(file, 0x3a)
            &&& le16(header, 0x3c) == le16(file, 0x3c)
            &&& header[4] == file[4] && header[5] == file[5]
            &&& header.take(4) == seq![0x7fu8, 0x45u8, 0x4cu8, 0x46u8] <==> file[0] == 0x7f
                && file[1] == 0x45 && file[2] == 0x4c && file[3] == 0x46
        }),
{
    let header = file.take(64);
    let magic = seq![0x7fu8, 0x45u8, 0x4cu8, 0x46u8];
    assert(header =~= file.subrange(0, 64));
    le64_of_part(file, 0, 64, 0x28);
    le16_of_part(file, 0, 64, 0x3a);
    le16_of_part(file, 0, 64, 0x3c);
    let start = header.take(4);
    assert(start[0] == file[0] && start[1] == file[1] && start[2] == file[2] && start[3]
        == file[3]);
    if file[0] == 0x7f && file[1] == 0x45 && file[2] == 0x4c && file[3] == 0x46 {
        assert(start =~= magic);
    }
}

/// The file starts like a 64-bit little-endian ELF object.
pub open spec fn starts_as_elf64(file: Seq<u8>) -> bool {
    &&& file.len() >= 64
    &&& file[0] == 0x7f && file[1] == 0x45 && file[2] == 0x4c && file[3] == 0x46
    &&& file[4] == 2 && file[5] == 1
}

/// What a header rules out, in the order in which it is looked at: the magic, the class and
/// the byte order, then the section headers' place, count and size. No other byte of the
/// header rules anything out.
pub proof fn a_header_is_refused_for_these_reasons_only(file: Seq<u8>)
    requires
        file.len() >= 64,
    ensures
        ({
            let magic = file[0] == 0x7f && file[1] == 0x45 && file[2] == 0x4c && file[3] == 0x46;
            let (off, size, count) = (le64(file, 0x28), le16(file, 0x3a), le16(file, 0x3c));
            let answer = undefined_in(file);
            &&& (answer == Err::<Map<Seq<char>, Binding>, Fault>(Fault::NotElf)) == !magic
            &&& (answer == Err::<Map<Seq<char>, Binding>, Fault>(Fault::NotElf64)) == (magic && !(
            file[4] == 2 && file[5] == 1))
            &&& (answer == Err::<Map<Seq<char>, Binding>, Fault>(Fault::NoSectionHeaders)) == (
            starts_as_elf64(file) && (off == 0 || (count == 0 && size == 0)))
            &&& (answer == Err::<Map<Seq<char>, Binding>, Fault>(
                Fault::SectionHeaderSize { size: size as u64 },
            )) == (starts_as_elf64(file) && off != 0 && !(count == 0 && size == 0) && size != 64)
        }),
{
    header_fields(file);
    let header = file.take(64);
    let off = le64(file, 0x28);
    if header_fault(header) is None {
        if le16(file, 0x3c) != 0 {
            later_faults(file, off, le16(file, 0x3c) as u64);
        } else if let Some(first) = extent(file, off, 64) {
            later_faults(file, off, le64(first, 0x20));
        }
    }
}

/// What is found among section headers is never a fault of the header.
proof fn later_faults(file: Seq<u8>, off: u64, count: u64)
    ensures
        match undefined_among(file, off, count) {
            Ok(_) => true,
            Err(fault) => match fault {
                Fault::TooShort { .. } | Fault::NotElf | Fault::NotElf64 | Fault::NoSectionHeaders
                | Fault::SectionHeaderSize { .. } => false,
                _ => true,
            },
        },
{
}

/// The file has an ELF header that says: `count` section headers at `off`. A count that is
/// zero in the header is the size of the first section instead.
pub open spec fn declares_sections(file: Seq<u8>, off: u64, count: u64) -> bool {
    &&& starts_as_elf64(file)
    &&& le64(file, 0x28) == off
    &&& off != 0
    &&& le16(file, 0x3a) == 64
    &&& if le16(file, 0x3c) != 0 {
        count == le16(file, 0x3c)
    } else {
        &&& off < 0x8000_0000_0000_0000
        &&& off + 64 <= file.len()
        &&& count == le64(file, off + 0x20)
    }
}

proof fn declared(file: Seq<u8>, off: u64, count: u64)
    requires
        declares_sections(file, off, count),
    ensures
        undefined_in(file) == undefined_among(file, off, count),
{
    header_fields(file);
    if le16(file, 0x3c) == 0 {
        le64_of_part(file, off as int, off + 64, 0x20);
    }
}

/// A count that is zero in the header must be found in the first section, which must be
/// there.
pub proof fn a_first_section_that_is_not_there_is_named(file: Seq<u8>)
    requires
        starts_as_elf64(file),
        le64(file, 0x28) != 0,
        le16(file, 0x3a) == 64,
        le16(file, 0x3c) == 0,
        le64(file, 0x28) >= 0x8000_0000_0000_0000 || le64(file, 0x28) + 64 > file.len(),
    ensures
        undefined_in(file) == Err::<Map<Seq<char>, Binding>, Fault>(
            Fault::Truncated { region: Region::FirstSection, len: 64, off: le64(file, 0x28) },
        ),
{
    header_fields(file);
}

/// Section headers must be countable in bytes, and all there.
pub proof fn section_headers_that_are_not_there_are_named(file: Seq<u8>, off: u64, count: u64)
    requires
        declares_sections(file, off, count),
    ensures
        64 * count > u64::MAX ==> undefined_in(file) == Err::<Map<Seq<char>, Binding>, Fault>(
            Fault::SectionTableSize,
        ),
        64 * count <= u64::MAX && (off >= 0x8000_0000_0000_0000 || (count > 0 && off + 64 * count
            > file.len())) ==> undefined_in(file) == Err::<Map<Seq<char>, Binding>, Fault>(
            Fault::Truncated { region: Region::SectionTable, len: (64 * count) as u64, off },
        ),
{
    declared(file, off, count);
}

/// The type of section `j`, of section headers at `off`.
pub open spec fn section_type(file: Seq<u8>, off: int, j: int) -> u32 {
    le32(file, off + 64 * j + 0x04)
}

/// The search finds the section before which none is a dynamic symbol table.
proof fn search_finds(table: Seq<u8>, i: int, d: int, count: int)
    requires
        0 <= i <= d < count,
        section_type(table, 0, d) == 11,
        forall|j: int| i <= j < d ==> #[trigger] section_type(table, 0, j) != 11,
    ensures
        first_dynsym(table, i, count) == Some(d),
    decreases d - i,
{
    if i < d {
        assert(section_type(table, 0, i) != 11);
        search_finds(table, i + 1, d, count);
    }
}

proof fn search_fails(table: Seq<u8>, i: int, count: int)
    requires
        0 <= i <= count,
        forall|j: int| i <= j < count ==> #[trigger] section_type(table, 0, j) != 11,
    ensures
        first_dynsym(table, i, count) is None,
    decreases count - i,
{
    if i < count {
        assert(section_type(table, 0, i) != 11);
        search_fails(table, i + 1, count);
    }
}

/// The section headers are all in the file.
pub open spec fn holds_sections(file: Seq<u8>, off: u64, count: u64) -> bool {
    &&& declares_sections(file, off, count)
    &&& off < 0x8000_0000_0000_0000
    &&& 64 * count <= u64::MAX
    &&& count == 0 || off + 64 * count <= file.len()
}

/// An object none of whose sections is a dynamic symbol table is told so.
pub proof fn without_a_symbol_table_there_is_no_answer(file: Seq<u8>, off: u64, count: u64)
    requires
        holds_sections(file, off, count),
        forall|j: int| 0 <= j < count ==> #[trigger] section_type(file, off as int, j) != 11,
    ensures
        undefined_in(file) == Err::<Map<Seq<char>, Binding>, Fault>(Fault::NoDynsym),
{
    declared(file, off, count);
    let table = extent(file, off, (64 * count) as u64)->0;
    assert forall|j: int| 0 <= j < count implies #[trigger] section_type(table, 0, j) != 11 by {
        le32_of_part(file, off as int, off + 64 * count, 64 * j + 0x04);
        assert(section_type(file, off as int, j) != 11);
    }
    search_fails(table, 0, count as int);
}

/// Section `d` is the first that is a dynamic symbol table.
pub open spec fn first_symbol_table(file: Seq<u8>, off: u64, count: u64, d: int) -> bool {
    &&& holds_sections(file, off, count)
    &&& 0 <= d < count
    &&& section_type(file, off as int, d) == 11
    &&& forall|j: int| 0 <= j < d ==> #[trigger] section_type(file, off as int, j) != 11
}

/// The search through the section headers finds the first symbol table.
proof fn table_is_found(file: Seq<u8>, off: u64, count: u64, d: int)
    requires
        first_symbol_table(file, off, count, d),
    ensures
        first_dynsym(file.subrange(off as int, off + 64 * count), 0, count as int) == Some(d),
{
    let table = file.subrange(off as int, off + 64 * count);
    assert forall|j: int| 0 <= j <= d implies #[trigger] section_type(table, 0, j)
        == section_type(file, off as int, j) by {
        le32_of_part(file, off as int, off + 64 * count, 64 * j + 0x04);
    }
    assert forall|j: int| 0 <= j < d implies #[trigger] section_type(table, 0, j) != 11 by {
        assert(section_type(file, off as int, j) != 11);
    }
    search_finds(table, 0, d, count as int);
}

/// A 64-bit field of a section header, `o` bytes behind its start.
proof fn field64(file: Seq<u8>, off: u64, count: u64, i: int, o: int)
    requires
        0 <= i < count,
        off + 64 * count <= file.len(),
        0 <= o <= 56,
    ensures
        le64(file.subrange(off as int, off + 64 * count), 64 * i + o) == le64(
            file,
            off + 64 * i + o,
        ),
{
    le64_of_part(file, off as int, off + 64 * count, 64 * i + o);
}

/// What one of the section headers says is what the file has at its place.
proof fn section_fields(file: Seq<u8>, off: u64, count: u64, i: int)
    requires
        0 <= i < count,
        off + 64 * count <= file.len(),
    ensures
        ({
            let table = file.subrange(off as int, off + 64 * count);
            &&& le64(table, 64 * i + 0x18) == le64(file, off + 64 * i + 0x18)
            &&& le64(table, 64 * i + 0x20) == le64(file, off + 64 * i + 0x20)
            &&& le32(table, 64 * i + 0x28) == le32(file, off + 64 * i + 0x28)
            &&& le64(table, 64 * i + 0x38) == le64(file, off + 64 * i + 0x38)
        }),
{
    let table = file.subrange(off as int, off + 64 * count);
    assert(le64(table, 64 * i + 0x18) == le64(file, off + 64 * i + 0x18)) by {
        field64(file, off, count, i, 0x18);
    }
    assert(le64(table, 64 * i + 0x20) == le64(file, off + 64 * i + 0x20)) by {
        field64(file, off, count, i, 0x20);
    }
    assert(le32(table, 64 * i + 0x28) == le32(file, off + 64 * i + 0x28)) by {
        le32_of_part(file, off as int, off + 64 * count, 64 * i + 0x28);
    }
    assert(le64(table, 64 * i + 0x38) == le64(file, off + 64 * i + 0x38)) by {
        field64(file, off, count, i, 0x38);
    }
}

/// What follows once the first symbol table is found.
proof fn tables_decide(file: Seq<u8>, off: u64, count: u64, d: int)
    requires
        first_symbol_table(file, off, count, d),
    ensures
        ({
            let size = le64(file, off + 64 * d + 0x38);
            let link = le32(file, off + 64 * d + 0x28);
            undefined_in(file) == if size != 0 && size != 24 {
                Err(Fault::SymbolSize { size })
            } else if link >= count {
                Err(Fault::StringTable { index: link })
            } else {
                undefined_between(
                    file,
                    le64(file, off + 64 * link + 0x18),
                    le64(file, off + 64 * link + 0x20),
                    le64(file, off + 64 * d + 0x18),
                    le64(file, off + 64 * d + 0x20),
                )
            }
        }),
{
    let table = file.subrange(off as int, off + 64 * count);
    let link = le32(file, off + 64 * d + 0x28);
    declared(file, off, count);
    assert(extent(file, off, (64 * count) as u64) == Some(table));
    table_is_found(file, off, count, d);
    section_fields(file, off, count, d);
    if link < count {
        section_fields(file, off, count, link as int);
    }
}

/// The first symbol table must have entries of 24 bytes, or not say how large they are,
/// and its strings must be one of the sections.
pub proof fn a_symbol_table_out_of_shape_is_refused(file: Seq<u8>, off: u64, count: u64, d: int)
    requires
        first_symbol_table(file, off, count, d),
    ensures
        ({
            let size = le64(file, off + 64 * d + 0x38);
            let link = le32(file, off + 64 * d + 0x28);
            &&& size != 0 && size != 24 ==> undefined_in(file) == Err::<
                Map<Seq<char>, Binding>,
                Fault,
            >(Fault::SymbolSize { size })
            &&& (size == 0 || size == 24) && link >= count ==> undefined_in(file) == Err::<
                Map<Seq<char>, Binding>,
                Fault,
            >(Fault::StringTable { index: link })
        }),
{
    tables_decide(file, off, count, d);
}

/// The first symbol table and its strings are in shape: the strings are the `str_len` bytes
/// at `str_off`, and the symbols the `sym_len` bytes at `sym_off`.
pub open spec fn places_tables(
    file: Seq<u8>,
    off: u64,
    count: u64,
    d: int,
    str_off: u64,
    str_len: u64,
    sym_off: u64,
    sym_len: u64,
) -> bool {
    let link = le32(file, off + 64 * d + 0x28);
    &&& first_symbol_table(file, off, count, d)
    &&& le64(file, off + 64 * d + 0x38) == 0 || le64(file, off + 64 * d + 0x38) == 24
    &&& link < count
    &&& str_off == le64(file, off + 64 * link + 0x18)
    &&& str_len == le64(file, off + 64 * link + 0x20)
    &&& sym_off == le64(file, off + 64 * d + 0x18)
    &&& sym_len == le64(file, off + 64 * d + 0x20)
}

/// An object whose tables are where its section headers say has an answer: what the bytes
/// at those places import. Nothing else in the file matters.
pub proof fn an_object_in_shape_has_an_answer(
    file: Seq<u8>,
    off: u64,
    count: u64,
    d: int,
    str_off: u64,
    sym_off: u64,
    strings: Seq<u8>,
    symbols: Seq<u8>,
)
    requires
        strings.len() <= u64::MAX,
        symbols.len() <= u64::MAX,
        places_tables(
            file,
            off,
            count,
            d,
            str_off,
            strings.len() as u64,
            sym_off,
            symbols.len() as u64,
        ),
        str_off < 0x8000_0000_0000_0000,
        sym_off < 0x8000_0000_0000_0000,
        strings.len() == 0 || str_off + strings.len() <= file.len(),
        symbols.len() == 0 || sym_off + symbols.len() <= file.len(),
        forall|j: int| 0 <= j < strings.len() ==> strings[j] == file[str_off + j],
        forall|j: int| 0 <= j < symbols.len() ==> symbols[j] == file[sym_off + j],
    ensures
        undefined_in(file) == Ok::<Map<Seq<char>, Binding>, Fault>(imported(strings, symbols)),
{
    tables_decide(file, off, count, d);
    let strings_there = extent(file, str_off, strings.len() as u64)->0;
    let symbols_there = extent(file, sym_off, symbols.len() as u64)->0;
    assert(strings_there =~= strings);
    assert(symbols_there =~= symbols);
}

/// Tables that are not there are named, the strings first.
pub proof fn tables_that_are_not_there_are_named(
    file: Seq<u8>,
    off: u64,
    count: u64,
    d: int,
    str_off: u64,
    str_len: u64,
    sym_off: u64,
    sym_len: u64,
)
    requires
        places_tables(file, off, count, d, str_off, str_len, sym_off, sym_len),
    ensures
        ({
            let no_strings = str_off >= 0x8000_0000_0000_0000 || (str_len > 0 && str_off + str_len
                > file.len());
            let no_symbols = sym_off >= 0x8000_0000_0000_0000 || (sym_len > 0 && sym_off + sym_len
                > file.len());
            &&& no_strings ==> undefined_in(file) == Err::<Map<Seq<char>, Binding>, Fault>(
                Fault::Truncated { region: Region::Strings, len: str_len, off: str_off },
            )
            &&& !no_strings && no_symbols ==> undefined_in(file) == Err::<
                Map<Seq<char>, Binding>,
                Fault,
            >(Fault::Truncated { region: Region::Symbols, len: sym_len, off: sym_off })
        }),
{
    tables_decide(file, off, count, d);
}

/// A reply that is not the bytes asked for ends the reading, and the region, its length and
/// its offset are named.
pub proof fn a_reply_that_falls_short_is_named(request: RequestModel, reply: Option<Seq<u8>>)
    requires
        reply matches Some(bytes) ==> bytes.len() != request.len,
    ensures
        after_reply(request, reply) == ProgressModel::Failed(
            Fault::Truncated {
                region: region_of(request.stage),
                len: request.len,
                off: request.off,
            },
        ),
{
}

// ---- Messages ----

/// What is said of an object starts with its path, wherever it is, and goes on in the same
/// way for every path. A region that is not there, or a table too large to count, is said
/// without it.
pub proof fn a_message_starts_with_the_path(fault: Fault, path: Seq<char>, other: Seq<char>)
    ensures
        match fault {
            Fault::Truncated { .. } | Fault::SectionTableSize => fault_text(fault, path)
                == fault_text(fault, other),
            _ => fault_text(fault, path) == path + fault_text(fault, Seq::empty()),
        },
{
    let alone = fault_text(fault, Seq::empty());
    match fault {
        Fault::Truncated { .. } | Fault::SectionTableSize => {},
        _ => {
            assert(fault_text(fault, path) =~= path + alone);
        },
    }
}

/// The numbers of a fault stand in its message, written in decimal.
pub proof fn a_message_gives_the_numbers(path: Seq<char>, n: u64, off: u64, index: u32)
    ensures
        fault_text(Fault::TooShort { len: n }, path) == path + " is "@ + decimal(n as nat)
            + " bytes, too short to be an ELF object"@,
        fault_text(Fault::SectionHeaderSize { size: n }, path) == path + " has "@ + decimal(
            n as nat,
        ) + "-byte section headers, expected 64"@,
        fault_text(Fault::SymbolSize { size: n }, path) == path + " has "@ + decimal(n as nat)
            + "-byte .dynsym entries, expected 24"@,
        fault_text(Fault::StringTable { index }, path) == path + "'s .dynsym links to section "@
            + decimal(index as nat) + ", past the end of the table"@,
        fault_text(Fault::Truncated { region: Region::Header, len: n, off }, path)
            == "truncated: "@ + "the ELF header"@ + " wants "@ + decimal(n as nat)
            + " bytes at offset "@ + decimal(off as nat) + ", past the end of the file"@,
        fault_text(Fault::Truncated { region: Region::FirstSection, len: n, off }, path)
            == "truncated: "@ + "section header 0"@ + " wants "@ + decimal(n as nat)
            + " bytes at offset "@ + decimal(off as nat) + ", past the end of the file"@,
        fault_text(Fault::Truncated { region: Region::SectionTable, len: n, off }, path)
            == "truncated: "@ + "the section header table"@ + " wants "@ + decimal(n as nat)
            + " bytes at offset "@ + decimal(off as nat) + ", past the end of the file"@,
        fault_text(Fault::Truncated { region: Region::Strings, len: n, off }, path)
            == "truncated: "@ + ".dynstr"@ + " wants "@ + decimal(n as nat) + " bytes at offset "@
            + decimal(off as nat) + ", past the end of the file"@,
        fault_text(Fault::Truncated { region: Region::Symbols, len: n, off }, path)
            == "truncated: "@ + ".dynsym"@ + " wants "@ + decimal(n as nat) + " bytes at offset "@
            + decimal(off as nat) + ", past the end of the file"@,
{
}

} // verus!
