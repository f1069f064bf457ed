use cordial::elf::{bad, undefined_symbols, InvalidData, EHDR_LEN, SHDR_LEN, SHN_UNDEF, SHT_DYNSYM, STB_WEAK, SYM_LEN};
use cordial::imports::{Binding, Imports};
use cordial::survey::{
    looks_like_object, object_order, undefined_symbols_in_dir, unite_found, DirEntry, Listed, Survey,
};

fn put(bytes: &mut [u8], at: usize, value: &[u8]) {
    bytes[at..at + value.len()].copy_from_slice(value);
}

fn symbol(name: u32, shndx: u16, bind: u8) -> Vec<u8> {
    let mut e = vec![0u8; SYM_LEN as usize];
    put(&mut e, 0, &name.to_le_bytes());
    e[4] = (bind << 4) | 0x2; // STT_FUNC
    put(&mut e, 6, &shndx.to_le_bytes());
    e
}

fn section(ty: u32, off: usize, size: usize, link: u32, entsize: u64) -> Vec<u8> {
    let mut s = vec![0u8; SHDR_LEN as usize];
    put(&mut s, 0x04, &ty.to_le_bytes());
    put(&mut s, 0x18, &(off as u64).to_le_bytes());
    put(&mut s, 0x20, &(size as u64).to_le_bytes());
    put(&mut s, 0x28, &link.to_le_bytes());
    put(&mut s, 0x38, &entsize.to_le_bytes());
    s
}

/// A hand-built ELF64 with a string table and a `.dynsym`: the mandatory null entry, then
/// one entry for each of `symbols`, given by its name, section and binding.
fn object_with(symbols: &[(&str, u16, u8)]) -> Vec<u8> {
    // Layout: ehdr | strtab | dynsym | shdrs
    let mut strtab = vec![0u8]; // index 0 is the empty name
    let mut dynsym = vec![0u8; SYM_LEN as usize]; // null entry
    for (name, shndx, bind) in symbols {
        dynsym.extend(symbol(strtab.len() as u32, *shndx, *bind));
        strtab.extend_from_slice(name.as_bytes());
        strtab.push(0);
    }
    let strtab_off = EHDR_LEN as usize;
    let dynsym_off = strtab_off + strtab.len();
    let shdrs_off = dynsym_off + dynsym.len();

    let mut shdrs = section(0, 0, 0, 0, 0); // SHN_UNDEF section
    shdrs.extend(section(3, strtab_off, strtab.len(), 0, 0)); // SHT_STRTAB, index 1
    shdrs.extend(section(SHT_DYNSYM, dynsym_off, dynsym.len(), 1, SYM_LEN));

    let mut file = vec![0u8; EHDR_LEN as usize];
    put(&mut file, 0, b"\x7fELF");
    file[4] = 2; // ELFCLASS64
    file[5] = 1; // ELFDATA2LSB
    file[6] = 1; // EV_CURRENT
    put(&mut file, 0x28, &(shdrs_off as u64).to_le_bytes());
    put(&mut file, 0x3a, &(SHDR_LEN as u16).to_le_bytes());
    put(&mut file, 0x3c, &3u16.to_le_bytes());
    file.extend(strtab);
    file.extend(dynsym);
    file.extend(shdrs);
    file
}

/// An object with a defined symbol, a strong undefined one and a weak undefined one.
fn synthetic() -> (Vec<u8>, &'static str) {
    let file = object_with(&[
        ("defined", 1, 1),
        ("wanted_from_host", SHN_UNDEF, 1),
        ("optional_hook", SHN_UNDEF, STB_WEAK),
    ]);
    (file, "wanted_from_host")
}

/// An object that imports `names`, each with its ELF binding.
fn object(names: &[(&str, u8)]) -> Vec<u8> {
    let symbols: Vec<(&str, u16, u8)> = names.iter().map(|n| (n.0, SHN_UNDEF, n.1)).collect();
    object_with(&symbols)
}

fn file(name: &str) -> DirEntry {
    DirEntry { path: format!("/lib/{name}"), name: Some(name.to_owned()), is_file: true }
}

type File = Listed<Result<Vec<u8>, InvalidData>>;

fn directory(files: Vec<(&str, Vec<u8>)>) -> Vec<File> {
    files.into_iter().map(|f| Listed { entry: file(f.0), held: Ok(f.1) }).collect()
}

fn pairs(imports: &Imports) -> Vec<(&str, Binding)> {
    imports.entries().iter().map(|e| (e.0.as_str(), e.1)).collect()
}

#[test]
fn a_directory_walk_unions_and_reports_what_it_skipped() {
    let (good, wanted) = synthetic();
    let dir = directory(vec![
        ("libgood.so", good),
        ("libbad.so", b"not elf".to_vec()),
        // Not a shared object, so not even looked at.
        ("notes.txt", b"ignored".to_vec()),
    ]);
    let (syms, skipped) = undefined_symbols_in_dir("/lib", Some(&dir));
    assert_eq!(syms.get(wanted), Some(&Binding::Strong), "{syms:?}");
    assert_eq!(skipped.len(), 1, "expected one skip, got {skipped:?}");
    assert!(skipped[0].0.ends_with("libbad.so"), "{skipped:?}");
    assert_eq!(
        skipped[0].1,
        "/lib/libbad.so is 7 bytes, too short to be an ELF object"
    );
}

#[test]
fn a_directory_that_cannot_be_listed_is_reported() {
    let (syms, skipped) = undefined_symbols_in_dir("/nowhere", None);
    assert!(syms.is_empty());
    assert_eq!(skipped, [("/nowhere".to_owned(), "unreadable".to_owned())]);
}

#[test]
fn an_empty_directory_imports_nothing() {
    let (syms, skipped) = undefined_symbols_in_dir("/lib", Some(&directory(vec![])));
    assert!(syms.is_empty());
    assert!(skipped.is_empty());
}

#[test]
fn objects_go_by_their_names() {
    assert!(looks_like_object(&file("libz.so")));
    assert!(looks_like_object(&file(".so")));
    assert!(!looks_like_object(&file("libz.so.1.2")));
    assert!(!looks_like_object(&file("libz.so.bak")));
    assert!(!looks_like_object(&file("libz.sox")));
    assert!(!looks_like_object(&file("libz.a")));
    assert!(!looks_like_object(&file("so")));
    assert!(!looks_like_object(&DirEntry { is_file: false, ..file("libz.so") }));
    assert!(!looks_like_object(&DirEntry { name: None, ..file("libz.so") }));
}

#[test]
fn objects_are_taken_in_the_order_of_their_names() {
    let names = ["b.so", "notes.txt", "aa.so", "B.so", "a.so", "a.so.2", "é.so"];
    let listing: Vec<Listed<()>> =
        names.iter().map(|n| Listed { entry: file(n), held: () }).collect();
    let order = object_order(&listing);
    let taken: Vec<&str> = order.iter().map(|i| names[*i]).collect();
    assert_eq!(taken, ["B.so", "a.so", "aa.so", "b.so", "é.so"]);
}

#[test]
fn strong_wins_across_objects_whichever_comes_first() {
    let weak = object(&[("hook", STB_WEAK), ("only_weak", STB_WEAK)]);
    let strong = object(&[("hook", 1)]);
    let one = directory(vec![("a.so", weak.clone()), ("b.so", strong.clone())]);
    let other = directory(vec![("a.so", strong), ("b.so", weak)]);
    let (first, _) = undefined_symbols_in_dir("/lib", Some(&one));
    let (second, _) = undefined_symbols_in_dir("/lib", Some(&other));
    assert_eq!(
        pairs(&first),
        [("hook", Binding::Strong), ("only_weak", Binding::Weak)]
    );
    assert_eq!(pairs(&first), pairs(&second));
}

#[test]
fn an_unreadable_object_takes_nothing_away() {
    let good = object(&[("f", 1)]);
    let with = directory(vec![
        ("b.so", good.clone()),
        ("c.so", vec![b'x'; 64]),
        ("a.so", vec![]),
    ]);
    let (syms, skipped) = undefined_symbols_in_dir("/lib", Some(&with));
    let (alone, none) = undefined_symbols_in_dir("/lib", Some(&directory(vec![("b.so", good)])));
    assert_eq!(pairs(&syms), pairs(&alone));
    assert!(none.is_empty());
    assert_eq!(
        skipped,
        [
            (
                "/lib/a.so".to_owned(),
                "/lib/a.so is 0 bytes, too short to be an ELF object".to_owned()
            ),
            ("/lib/c.so".to_owned(), "/lib/c.so is not an ELF file".to_owned()),
        ]
    );
}

#[test]
fn a_survey_is_built_up_object_by_object() {
    let mut found = Imports::new();
    found.record("open", Binding::Strong);
    let mut survey = Survey::new();
    survey.add("/lib/a.so", &Ok(found));
    survey.add("/lib/b.so", &Err(bad("permission denied")));
    assert_eq!(pairs(&survey.imports), [("open", Binding::Strong)]);
    assert_eq!(
        survey.skipped,
        [("/lib/b.so".to_owned(), "permission denied".to_owned())]
    );
    let unreadable = Survey::unreadable("/x");
    assert_eq!(unreadable.skipped, [("/x".to_owned(), "unreadable".to_owned())]);
}

#[test]
fn the_order_of_listing_changes_nothing() {
    let files = vec![
        ("c.so", object(&[("f", STB_WEAK)])),
        ("bad.so", vec![b'x'; 80]),
        ("a.so", object(&[("f", 1), ("g", STB_WEAK)])),
        ("notes.txt", vec![]),
        ("also_bad.so", vec![]),
    ];
    let mut reversed = files.clone();
    reversed.reverse();
    let (one, first) = undefined_symbols_in_dir("/lib", Some(&directory(files)));
    let (other, second) = undefined_symbols_in_dir("/lib", Some(&directory(reversed)));
    assert_eq!(pairs(&one), [("f", Binding::Strong), ("g", Binding::Weak)]);
    assert_eq!(pairs(&one), pairs(&other));
    assert_eq!(first, second);
    assert!(first[0].0.ends_with("also_bad.so"));
}

#[test]
fn a_name_that_goes_on_after_so_is_not_looked_at() {
    let dir = directory(vec![("libfoo.so.1", b"not elf".to_vec())]);
    let (syms, skipped) = undefined_symbols_in_dir("/lib", Some(&dir));
    assert!(syms.is_empty());
    assert!(skipped.is_empty());
}

/// A directory with an object, a file that cannot be opened, a file that is no object and
/// an unreadable file with another name.
fn mixed() -> Vec<File> {
    let mut dir = directory(vec![("c.so", synthetic().0), ("b.so", b"not elf".to_vec())]);
    let refused = "Permission denied (os error 13)";
    dir.push(Listed { entry: file("a.so"), held: Err(bad(refused)) });
    dir.push(Listed { entry: file("notes.txt"), held: Err(bad(refused)) });
    dir
}

#[test]
fn a_file_that_cannot_be_opened_is_reported_and_the_rest_is_read() {
    let (syms, skipped) = undefined_symbols_in_dir("/lib", Some(&mixed()));
    assert_eq!(
        pairs(&syms),
        [("optional_hook", Binding::Weak), ("wanted_from_host", Binding::Strong)]
    );
    assert_eq!(
        skipped,
        [
            ("/lib/a.so".to_owned(), "Permission denied (os error 13)".to_owned()),
            (
                "/lib/b.so".to_owned(),
                "/lib/b.so is 7 bytes, too short to be an ELF object".to_owned()
            ),
        ]
    );
}

#[test]
fn files_read_first_come_to_the_same() {
    let found: Vec<Listed<Result<Imports, InvalidData>>> = mixed()
        .into_iter()
        .map(|f| {
            let held = f.held.and_then(|bytes| undefined_symbols(&f.entry.path, &bytes));
            Listed { entry: f.entry, held }
        })
        .collect();
    let (one, first) = unite_found(&found);
    let (other, second) = undefined_symbols_in_dir("/lib", Some(&mixed()));
    assert_eq!(pairs(&one), pairs(&other));
    assert_eq!(first, second);
    assert_eq!(first.len(), 2);

    let (none, nothing) = unite_found(&[]);
    assert!(none.is_empty() && nothing.is_empty());
}
