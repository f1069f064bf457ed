use cordial::bytes::{place, u16le, u32le, u64le, Place};
use cordial::elf::{
    bad, begin, collect_imports, read_at, undefined_symbols, Fault, Progress, Region, EHDR_LEN,
    LAST_OFFSET, SHDR_LEN, SHN_UNDEF, SHT_DYNSYM, STB_WEAK, SYM_LEN,
};
use cordial::imports::{Binding, Imports};

fn put(bytes: &mut [u8], at: usize, value: &[u8]) {
    bytes[at..at + value.len()].copy_from_slice(value);
}

fn symbol(name: u32, shndx: u16, bind: u8) -> Vec<u8> {
    let mut e = vec![0u8; SYM_LEN as usize];
    put(&mut e, 0, &name.to_le_bytes());
    e[4] = (bind << 4) | 0x2; // STT_FUNC
    put(&mut e, 6, &shndx.to_le_bytes());
    e
}

fn section(ty: u32, off: usize, size: usize, link: u32, entsize: u64) -> Vec<u8> {
    let mut s = vec![0u8; SHDR_LEN as usize];
    put(&mut s, 0x04, &ty.to_le_bytes());
    put(&mut s, 0x18, &(off as u64).to_le_bytes());
    put(&mut s, 0x20, &(size as u64).to_le_bytes());
    put(&mut s, 0x28, &link.to_le_bytes());
    put(&mut s, 0x38, &entsize.to_le_bytes());
    s
}

/// A hand-built ELF64 with one `.dynsym` holding four entries: the mandatory null one, a
/// defined symbol, a strong undefined one and a weak undefined one.
fn synthetic(strip_sections: bool) -> (Vec<u8>, &'static str) {
    // Layout: ehdr | strtab | dynsym | shdrs
    let mut strtab = vec![0u8]; // index 0 is the empty name
    strtab.extend_from_slice(b"defined\0");
    strtab.extend_from_slice(b"wanted_from_host\0");
    strtab.extend_from_slice(b"optional_hook\0");
    let str_defined = 1u32;
    let str_wanted = 1 + b"defined\0".len() as u32;
    let str_weak = str_wanted + b"wanted_from_host\0".len() as u32;

    let mut dynsym = vec![0u8; SYM_LEN as usize]; // null entry
    dynsym.extend(symbol(str_defined, 1, 1)); // defined in some section
    dynsym.extend(symbol(str_wanted, SHN_UNDEF, 1));
    dynsym.extend(symbol(str_weak, SHN_UNDEF, STB_WEAK));

    let strtab_off = EHDR_LEN as usize;
    let dynsym_off = strtab_off + strtab.len();
    let shdrs_off = dynsym_off + dynsym.len();

    let mut shdrs = section(0, 0, 0, 0, 0); // SHN_UNDEF section
    shdrs.extend(section(3, strtab_off, strtab.len(), 0, 0)); // SHT_STRTAB, index 1
    shdrs.extend(section(SHT_DYNSYM, dynsym_off, dynsym.len(), 1, SYM_LEN));

    let mut file = vec![0u8; EHDR_LEN as usize];
    put(&mut file, 0, b"\x7fELF");
    file[4] = 2; // ELFCLASS64
    file[5] = 1; // ELFDATA2LSB
    file[6] = 1; // EV_CURRENT
    if !strip_sections {
        put(&mut file, 0x28, &(shdrs_off as u64).to_le_bytes());
        put(&mut file, 0x3a, &(SHDR_LEN as u16).to_le_bytes());
        put(&mut file, 0x3c, &3u16.to_le_bytes());
    }
    file.extend(strtab);
    file.extend(dynsym);
    file.extend(shdrs);
    (file, "wanted_from_host")
}

/// Where the section headers of `synthetic` start.
fn headers_of(file: &[u8]) -> usize {
    u64le(file, 0x28) as usize
}

fn error_of(file: &[u8]) -> String {
    undefined_symbols("lib.so", file)
        .expect_err("must not succeed")
        .message
}

#[test]
fn an_undefined_symbol_is_reported_and_a_defined_one_is_not() {
    let (file, wanted) = synthetic(false);
    let got = undefined_symbols("libsynthetic.so", &file).expect("parses");
    assert_eq!(got.get(wanted), Some(&Binding::Strong), "{got:?}");
    assert!(
        !got.contains_key("defined"),
        "a defined symbol is not an import: {got:?}"
    );
    assert_eq!(got.len(), 2, "the null entry must not be counted: {got:?}");
}

#[test]
fn a_weak_import_is_marked_weak() {
    let (file, _) = synthetic(false);
    let got = undefined_symbols("libsynthetic.so", &file).expect("parses");
    assert_eq!(got.get("optional_hook"), Some(&Binding::Weak), "{got:?}");
}

#[test]
fn a_stripped_object_is_an_error_rather_than_an_empty_set() {
    let (file, _) = synthetic(true);
    let err = undefined_symbols("libsynthetic.so", &file).expect_err("must not succeed");
    assert!(
        err.message.contains("no section headers"),
        "unhelpful error: {}",
        err.message
    );
    assert_eq!(
        err.message,
        "libsynthetic.so has no section headers, so .dynsym cannot be located; \
         it was probably stripped with --strip-sections"
    );
}

#[test]
fn a_file_that_is_not_elf_is_refused_by_name() {
    let short = b"this is not an ELF file at all, not even close";
    let err = undefined_symbols("notelf.so", short).expect_err("must not succeed");
    assert!(
        err.message.contains("too short to be an ELF"),
        "{}",
        err.message
    );
    assert_eq!(
        err.message,
        "notelf.so is 46 bytes, too short to be an ELF object"
    );

    // Long enough for a header, still not one.
    let long = vec![b'x'; 4096];
    let err = undefined_symbols("notelf-long.so", &long).expect_err("must not succeed");
    assert!(err.message.contains("not an ELF"), "{}", err.message);
    assert_eq!(err.message, "notelf-long.so is not an ELF file");
}

#[test]
fn fields_are_little_endian() {
    let b = [0xffu8, 0x01, 0x02, 0x03, 0x04, 0x05, 0x06, 0x07, 0x80];
    assert_eq!(u16le(&b, 1), 0x0201);
    assert_eq!(u32le(&b, 1), 0x0403_0201);
    assert_eq!(u64le(&b, 1), 0x8007_0605_0403_0201);
}

#[test]
fn byte_strings_are_ordered_as_in_a_dictionary() {
    assert_eq!(place(b"ab", b"abc"), Place::Before);
    assert_eq!(place(b"b", b"abc"), Place::After);
    assert_eq!(place(b"", b""), Place::Same);
    assert_eq!(place(b"a\xff", b"b"), Place::Before);
}

#[test]
fn an_empty_file_is_too_short() {
    assert_eq!(
        error_of(&[]),
        "lib.so is 0 bytes, too short to be an ELF object"
    );
}

#[test]
fn another_class_or_byte_order_is_refused() {
    let (mut file, _) = synthetic(false);
    file[4] = 1;
    assert_eq!(error_of(&file), "lib.so is not 64-bit little-endian ELF");
    file[4] = 2;
    file[5] = 2;
    assert_eq!(error_of(&file), "lib.so is not 64-bit little-endian ELF");
}

#[test]
fn another_section_header_size_is_refused() {
    let (mut file, _) = synthetic(false);
    put(&mut file, 0x3a, &40u16.to_le_bytes());
    assert_eq!(
        error_of(&file),
        "lib.so has 40-byte section headers, expected 64"
    );
}

#[test]
fn sections_of_no_size_and_no_count_are_no_section_headers() {
    let (mut file, _) = synthetic(false);
    put(&mut file, 0x3a, &[0, 0]);
    put(&mut file, 0x3c, &[0, 0]);
    assert!(error_of(&file).contains("has no section headers"));
}

#[test]
fn a_truncated_section_table_is_named() {
    let (mut file, _) = synthetic(false);
    let off = headers_of(&file);
    file.truncate(off + 100);
    assert_eq!(
        error_of(&file),
        format!(
            "truncated: the section header table wants 192 bytes at offset {off}, past the end of the file"
        )
    );
}

#[test]
fn truncated_tables_are_named() {
    let (file, _) = synthetic(false);
    let headers = headers_of(&file);

    let mut strings = file.clone();
    put(&mut strings, headers + 64 + 0x20, &9999u64.to_le_bytes());
    assert_eq!(
        error_of(&strings),
        "truncated: .dynstr wants 9999 bytes at offset 64, past the end of the file"
    );

    let mut symbols = file.clone();
    put(&mut symbols, headers + 128 + 0x18, &u64::MAX.to_le_bytes());
    assert_eq!(
        error_of(&symbols),
        "truncated: .dynsym wants 96 bytes at offset 18446744073709551615, past the end of the file"
    );
}

#[test]
fn an_object_without_a_symbol_table_is_an_error() {
    let (mut file, _) = synthetic(false);
    let headers = headers_of(&file);
    put(&mut file, headers + 128 + 0x04, &2u32.to_le_bytes());
    assert_eq!(
        error_of(&file),
        "lib.so has section headers but no SHT_DYNSYM among them"
    );
}

#[test]
fn symbols_of_another_size_are_refused_and_of_no_size_are_not() {
    let (mut file, wanted) = synthetic(false);
    let headers = headers_of(&file);
    put(&mut file, headers + 128 + 0x38, &16u64.to_le_bytes());
    assert_eq!(
        error_of(&file),
        "lib.so has 16-byte .dynsym entries, expected 24"
    );
    put(&mut file, headers + 128 + 0x38, &0u64.to_le_bytes());
    let got = undefined_symbols("lib.so", &file).expect("parses");
    assert_eq!(got.get(wanted), Some(&Binding::Strong));
}

#[test]
fn a_string_table_outside_the_sections_is_refused() {
    let (mut file, _) = synthetic(false);
    let headers = headers_of(&file);
    put(&mut file, headers + 128 + 0x28, &3u32.to_le_bytes());
    assert_eq!(
        error_of(&file),
        "lib.so's .dynsym links to section 3, past the end of the table"
    );
}

#[test]
fn a_large_section_count_is_taken_from_the_first_section() {
    let (mut file, wanted) = synthetic(false);
    let headers = headers_of(&file);
    put(&mut file, 0x3c, &0u16.to_le_bytes());
    put(&mut file, headers + 0x20, &3u64.to_le_bytes());
    let got = undefined_symbols("lib.so", &file).expect("parses");
    assert_eq!(got.get(wanted), Some(&Binding::Strong));
    assert_eq!(got.len(), 2);

    put(&mut file, headers + 0x20, &u64::MAX.to_le_bytes());
    assert_eq!(error_of(&file), "section header table size overflows");

    file.truncate(headers + 10);
    assert_eq!(
        error_of(&file),
        format!(
            "truncated: section header 0 wants 64 bytes at offset {headers}, past the end of the file"
        )
    );
}

#[test]
fn every_fault_has_its_message() {
    assert_eq!(
        Fault::Truncated { region: Region::Header, len: 64, off: 0 }.message("x"),
        "truncated: the ELF header wants 64 bytes at offset 0, past the end of the file"
    );
    assert_eq!(
        Fault::TooShort { len: 10 }.message("a b"),
        "a b is 10 bytes, too short to be an ELF object"
    );
    assert_eq!(bad("no").message, "no");
}

#[test]
fn strong_wins_within_one_table() {
    let strings = b"\0both\0";
    let mut symbols = symbol(1, SHN_UNDEF, STB_WEAK);
    symbols.extend(symbol(1, SHN_UNDEF, 1));
    symbols.extend(symbol(1, SHN_UNDEF, STB_WEAK));
    let got = collect_imports(strings, &symbols);
    assert_eq!(got.len(), 1);
    assert_eq!(got.get("both"), Some(&Binding::Strong));
}

#[test]
fn entries_without_a_readable_name_are_passed_over() {
    let strings = b"\0ok\0\0\xff\xfe\0unterminated";
    let mut symbols = symbol(0, SHN_UNDEF, 1); // no name
    symbols.extend(symbol(4, SHN_UNDEF, 1)); // an empty name
    symbols.extend(symbol(5, SHN_UNDEF, 1)); // not UTF-8
    symbols.extend(symbol(99, SHN_UNDEF, 1)); // past the table
    symbols.extend(symbol(8, SHN_UNDEF, 1)); // ends with the table
    symbols.extend(symbol(2, SHN_UNDEF, 1)); // the tail of another name
    symbols.extend(&symbol(1, SHN_UNDEF, 1)[..23]); // not a whole entry
    let got = collect_imports(strings, &symbols);
    let names: Vec<&str> = got.entries().iter().map(|e| e.0.as_str()).collect();
    assert_eq!(names, ["k", "unterminated"]);
}

#[test]
fn names_may_be_any_utf8() {
    let mut strings = vec![0u8];
    strings.extend_from_slice("größe_€".as_bytes());
    let symbols = symbol(1, SHN_UNDEF, 0);
    let got = collect_imports(&strings, &symbols);
    assert_eq!(got.get("größe_€"), Some(&Binding::Strong));
}

#[test]
fn bytes_are_read_at_an_offset() {
    let file = b"0123456789";
    assert_eq!(read_at(file, 3, 4), Some(b"3456".to_vec()));
    assert_eq!(read_at(file, 6, 4), Some(b"6789".to_vec()));
    assert_eq!(read_at(file, 7, 4), None);
    assert_eq!(read_at(file, u64::MAX, 2), None);
    assert_eq!(read_at(file, 50, 0), Some(vec![]));
    assert_eq!(read_at(file, LAST_OFFSET, 0), Some(vec![]));
    assert_eq!(read_at(file, u64::MAX, 0), None);
}

/// Reads `file` as a program does that keeps only the region it was asked for, and says
/// which regions were asked for.
fn walk(file: &[u8]) -> (Result<Imports, Fault>, Vec<Region>) {
    let mut regions = Vec::new();
    let mut progress = begin(file.len() as u64);
    loop {
        match progress {
            Progress::Done(imports) => return (Ok(imports), regions),
            Progress::Failed(fault) => return (Err(fault), regions),
            Progress::Read(request) => {
                regions.push(request.region());
                let reply = read_at(file, request.off(), request.len());
                progress = request.advance(reply);
            }
        }
    }
}

#[test]
fn an_object_is_read_region_by_region() {
    let (mut file, wanted) = synthetic(false);
    let (got, regions) = walk(&file);
    assert_eq!(got.expect("parses").get(wanted), Some(&Binding::Strong));
    assert_eq!(
        regions,
        [Region::Header, Region::SectionTable, Region::Strings, Region::Symbols]
    );

    let headers = headers_of(&file);
    put(&mut file, 0x3c, &0u16.to_le_bytes());
    put(&mut file, headers + 0x20, &3u64.to_le_bytes());
    let (got, regions) = walk(&file);
    assert_eq!(got.expect("parses").len(), 2);
    assert_eq!(regions.len(), 5);
    assert_eq!(regions[1], Region::FirstSection);
}

#[test]
fn a_reply_of_another_length_is_a_truncated_file() {
    let short = match begin(100) {
        Progress::Read(request) => request.advance(Some(vec![0; 63])),
        _ => panic!("a header fits"),
    };
    assert!(matches!(
        short,
        Progress::Failed(Fault::Truncated { region: Region::Header, len: 64, off: 0 })
    ));
    assert!(matches!(
        begin(63),
        Progress::Failed(Fault::TooShort { len: 63 })
    ));
}

#[test]
fn an_object_may_import_nothing() {
    let (mut file, _) = synthetic(false);
    let headers = headers_of(&file);
    // A symbol table of no entries, wherever the file can be sought to.
    put(&mut file, headers + 128 + 0x18, &LAST_OFFSET.to_le_bytes());
    put(&mut file, headers + 128 + 0x20, &0u64.to_le_bytes());
    let got = undefined_symbols("lib.so", &file).expect("parses");
    assert!(got.is_empty());
    put(&mut file, headers + 128 + 0x18, &(LAST_OFFSET + 1).to_le_bytes());
    assert_eq!(
        error_of(&file),
        "truncated: .dynsym wants 0 bytes at offset 9223372036854775808, past the end of the file"
    );
}
