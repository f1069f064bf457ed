//! The imports of every shared object in a directory, unioned.
//!
//! A directory rather than one file, because a build that starts shipping a second
//! library should not need anything changed here. An object that cannot be read is
//! reported and skipped rather than fatal.

use crate::bytes::{place, precedes, precedes_irreflexive, precedes_transitive, Place};
use crate::elf::{bad, fault_text, undefined_in, undefined_symbols, InvalidData};
use crate::imports::{name_precedes, requires_symbol, united, Binding, Imports};
use crate::text::{ends_with_text, has_end};
use vstd::prelude::*;
use vstd::string::*;
use vstd::utf8::*;

verus! {

/// Something that a directory holds.
pub struct DirEntry {
    /// What messages call it.
    pub path: String,
    /// Its file name, if that is UTF-8.
    pub name: Option<String>,
    /// Whether it is a regular file.
    pub is_file: bool,
}

/// A shared object goes by `*.so`.
pub open spec fn names_object(name: Seq<char>) -> bool {
    has_end(name, ".so"@)
}

/// `entry` is a file with the name of a shared object.
pub open spec fn is_object(entry: DirEntry) -> bool {
    entry.is_file && match entry.name {
        Some(name) => names_object(name@),
        None => false,
    }
}

/// Entry `i` is looked at before entry `j`: objects go by their names, and entries of
/// one name in the order in which they were listed.
pub open spec fn goes_before(listing: Seq<DirEntry>, i: int, j: int) -> bool {
    let a = listing[i].name->0@;
    let b = listing[j].name->0@;
    name_precedes(a, b) || (a == b && i < j)
}

/// `order` lists the shared objects of a directory, each once, in the order in which
/// they are looked at.
pub open spec fn is_object_order(listing: Seq<DirEntry>, order: Seq<usize>) -> bool {
    &&& forall|k: int|
        0 <= k < order.len() ==> (#[trigger] order[k]) < listing.len() && is_object(
            listing[order[k] as int],
        )
    &&& forall|i: usize|
        i < listing.len() && is_object(#[trigger] listing[i as int]) ==> order.contains(i)
    &&& forall|k: int, l: int|
        0 <= k < l < order.len() ==> goes_before(
            listing,
            (#[trigger] order[k]) as int,
            (#[trigger] order[l]) as int,
        )
}

/// Whether `entry` is a file with the name of a shared object.
pub fn looks_like_object(entry: &DirEntry) -> (yes: bool)
    ensures
        yes == is_object(*entry),
{
    entry.is_file && match &entry.name {
        Some(name) => ends_with_text(name.as_str(), ".so"),
        None => false,
    }
}

/// The first `n` entries of a listing, put in order.
spec fn is_order_of_first(listing: Seq<DirEntry>, n: int, order: Seq<usize>) -> bool {
    &&& forall|k: int|
        0 <= k < order.len() ==> (#[trigger] order[k]) < n && is_object(listing[order[k] as int])
    &&& forall|i: usize|
        i < n && is_object(#[trigger] listing[i as int]) ==> order.contains(i)
    &&& forall|k: int, l: int|
        0 <= k < l < order.len() ==> goes_before(
            listing,
            (#[trigger] order[k]) as int,
            (#[trigger] order[l]) as int,
        )
}

proof fn goes_before_transitive(listing: Seq<DirEntry>, i: int, j: int, k: int)
    requires
        goes_before(listing, i, j),
        goes_before(listing, j, k),
    ensures
        goes_before(listing, i, k),
{
    let a = encode_utf8(listing[i].name->0@);
    let b = encode_utf8(listing[j].name->0@);
    let c = encode_utf8(listing[k].name->0@);
    if name_precedes(listing[i].name->0@, listing[j].name->0@) && name_precedes(
        listing[j].name->0@,
        listing[k].name->0@,
    ) {
        precedes_transitive(a, b, c);
    }
}

proof fn goes_before_irreflexive(listing: Seq<DirEntry>, i: int)
    ensures
        !goes_before(listing, i, i),
{
    precedes_irreflexive(encode_utf8(listing[i].name->0@));
}

/// Putting entry `n` where it belongs among the ones before it.
proof fn inserting(listing: Seq<DirEntry>, n: usize, order: Seq<usize>, at: int)
    requires
        is_order_of_first(listing, n as int, order),
        is_object(listing[n as int]),
        0 <= at <= order.len(),
        forall|k: int|
            0 <= k < at ==> goes_before(listing, (#[trigger] order[k]) as int, n as int),
        forall|k: int|
            at <= k < order.len() ==> goes_before(listing, n as int, (#[trigger] order[k]) as int),
    ensures
        is_order_of_first(listing, n + 1, order.insert(at, n)),
{
    let after = order.insert(at, n);
    assert forall|k: int| 0 <= k < after.len() implies (#[trigger] after[k]) < n + 1 && is_object(
        listing[after[k] as int],
    ) by {
        if k < at {
            assert(after[k] == order[k]);
        } else if k > at {
            assert(after[k] == order[k - 1]);
        }
    }
    assert forall|i: usize| i < n + 1 && is_object(#[trigger] listing[i as int]) implies after.contains(
        i,
    ) by {
        if i == n {
            assert(after[at] == n);
        } else {
            let k = choose|k: int| 0 <= k < order.len() && order[k] == i;
            assert(after[if k < at { k } else { k + 1 }] == i);
        }
    }
    assert forall|k: int, l: int| 0 <= k < l < after.len() implies goes_before(
        listing,
        (#[trigger] after[k]) as int,
        (#[trigger] after[l]) as int,
    ) by {
        let a = if k < at { k } else { k - 1 };
        let b = if l < at { l } else { l - 1 };
        if k != at {
            assert(after[k] == order[a]);
        }
        if l != at {
            assert(after[l] == order[b]);
        }
    }
}

/// An entry of a directory, and what is known of it.
pub struct Listed<T> {
    pub entry: DirEntry,
    pub held: T,
}

/// The entries of a listing.
pub open spec fn entries_of<T>(listing: Seq<Listed<T>>) -> Seq<DirEntry> {
    listing.map_values(|listed: Listed<T>| listed.entry)
}

/// The shared objects among the entries of a directory, by their position in the
/// listing, in the order in which they are looked at.
pub fn object_order<T>(listing: &[Listed<T>]) -> (order: Vec<usize>)
    ensures
        is_object_order(entries_of(listing@), order@),
{
    let mut order: Vec<usize> = Vec::new();
    let mut i: usize = 0;
    while i < listing.len()
        invariant
            i <= listing@.len(),
            is_order_of_first(entries_of(listing@), i as int, order@),
        decreases listing@.len() - i,
    {
        assert(entries_of(listing@)[i as int] == listing@[i as int].entry);
        if looks_like_object(&listing[i].entry) {
            let at: usize = place_for(listing, &order, i);
            proof {
                inserting(entries_of(listing@), i, order@, at as int);
            }
            order.insert(at, i);
        }
        i += 1;
    }
    order
}

/// Where entry `i` belongs among the objects listed before it.
fn place_for<T>(listing: &[Listed<T>], order: &Vec<usize>, i: usize) -> (at: usize)
    requires
        i < listing@.len(),
        is_object(entries_of(listing@)[i as int]),
        is_order_of_first(entries_of(listing@), i as int, order@),
    ensures
        at <= order@.len(),
        forall|k: int|
            0 <= k < at ==> goes_before(entries_of(listing@), (#[trigger] order@[k]) as int, i as int),
        forall|k: int|
            at <= k < order@.len() ==> goes_before(entries_of(listing@), i as int, (#[trigger] order@[k]) as int),
{
    let mut at: usize = order.len();
    while at > 0
        invariant
            at <= order@.len(),
            i < listing@.len(),
            is_object(entries_of(listing@)[i as int]),
            is_order_of_first(entries_of(listing@), i as int, order@),
            forall|k: int|
                at <= k < order@.len() ==> goes_before(
                    entries_of(listing@),
                    i as int,
                    (#[trigger] order@[k]) as int,
                ),
        decreases at,
    {
        let j: usize = order[at - 1];
        assert(entries_of(listing@)[j as int] == listing@[j as int].entry);
        assert(entries_of(listing@)[i as int] == listing@[i as int].entry);
        if let (Some(a), Some(b)) = (&listing[j].entry.name, &listing[i].entry.name) {
            match place(a.as_str().as_bytes(), b.as_str().as_bytes()) {
                Place::After => {},
                _ => {
                    assert forall|k: int| 0 <= k < at implies goes_before(
                        entries_of(listing@),
                        (#[trigger] order@[k]) as int,
                        i as int,
                    ) by {
                        encode_utf8_decode_utf8(a@);
                        encode_utf8_decode_utf8(b@);
                        if k < at - 1 {
                            assert(goes_before(entries_of(listing@), order@[k] as int, order@[at - 1] as int));
                            goes_before_transitive(
                                entries_of(listing@),
                                order@[k] as int,
                                j as int,
                                i as int,
                            );
                        }
                    }
                    return at;
                },
            }
        }
        at -= 1;
    }
    0
}

/// A directory's objects have one order only.
pub proof fn one_object_order(listing: Seq<DirEntry>, a: Seq<usize>, b: Seq<usize>)
    requires
        is_object_order(listing, a),
        is_object_order(listing, b),
    ensures
        a == b,
{
    order_is_prefix(listing, a, b, a.len() as int);
    order_is_prefix(listing, b, a, b.len() as int);
    assert(a.take(a.len() as int) =~= a);
    assert(b.take(a.len() as int) =~= b);
}

/// Two orders of the same objects agree as far as the first goes.
proof fn order_is_prefix(listing: Seq<DirEntry>, a: Seq<usize>, b: Seq<usize>, n: int)
    requires
        is_object_order(listing, a),
        is_object_order(listing, b),
        0 <= n <= a.len(),
    ensures
        n <= b.len(),
        a.take(n) == b.take(n),
    decreases n,
{
    if n > 0 {
        order_is_prefix(listing, a, b, n - 1);
        let k = n - 1;
        assert(is_object(listing[a[k] as int]));
        assert(b.contains(a[k]));
        let l = choose|l: int| 0 <= l < b.len() && b[l] == a[k];
        assert(l >= k) by {
            if l < k {
                assert(a.take(k)[l] == b.take(k)[l]);
                assert(goes_before(listing, a[l] as int, a[k] as int));
                goes_before_irreflexive(listing, a[k] as int);
            }
        }
        assert(l == k) by {
            if l > k {
                assert(is_object(listing[b[k] as int]));
                assert(a.contains(b[k]));
                let m = choose|m: int| 0 <= m < a.len() && a[m] == b[k];
                assert(goes_before(listing, b[k] as int, b[l] as int));
                if m > k {
                    assert(goes_before(listing, a[k] as int, a[m] as int));
                    goes_before_transitive(listing, a[k] as int, b[k] as int, a[k] as int);
                } else if m < k {
                    assert(a.take(k)[m] == b.take(k)[m]);
                    assert(goes_before(listing, b[m] as int, b[k] as int));
                }
                goes_before_irreflexive(listing, a[k] as int);
                goes_before_irreflexive(listing, b[k] as int);
            }
        }
        assert(a.take(n) =~= b.take(n)) by {
            assert forall|i: int| 0 <= i < n implies a.take(n)[i] == b.take(n)[i] by {
                if i < k {
                    assert(a.take(k)[i] == b.take(k)[i]);
                }
            }
        }
    }
}

/// What has been learned of a directory so far.
pub struct Survey {
    /// What the objects that could be read import.
    pub imports: Imports,
    /// The objects that could not be read, each with the reason.
    pub skipped: Vec<(String, String)>,
}

/// The texts of each pair of a list.
pub open spec fn pair_texts(pairs: Seq<(String, String)>) -> Seq<(Seq<char>, Seq<char>)> {
    pairs.map_values(|p: (String, String)| (p.0@, p.1@))
}

impl Survey {
    /// Nothing looked at yet.
    pub fn new() -> (survey: Survey)
        ensures
            survey.imports@ == Map::<Seq<char>, Binding>::empty(),
            pair_texts(survey.skipped@) == Seq::<(Seq<char>, Seq<char>)>::empty(),
    {
        let survey = Survey { imports: Imports::new(), skipped: Vec::new() };
        assert(pair_texts(survey.skipped@) =~= Seq::<(Seq<char>, Seq<char>)>::empty());
        survey
    }

    /// A directory that could not be listed.
    pub fn unreadable(dir: &str) -> (survey: Survey)
        ensures
            survey.imports@ == Map::<Seq<char>, Binding>::empty(),
            pair_texts(survey.skipped@) == seq![(dir@, "unreadable"@)],
    {
        let mut survey = Survey::new();
        survey.skip(dir, "unreadable");
        assert(pair_texts(survey.skipped@) =~= seq![(dir@, "unreadable"@)]);
        survey
    }

    /// Notes that the object at `path` was skipped, and why.
    fn skip(&mut self, path: &str, why: &str)
        ensures
            final(self).imports == old(self).imports,
            pair_texts(final(self).skipped@) == pair_texts(old(self).skipped@).push((path@, why@)),
    {
        self.skipped.push((path.to_owned(), why.to_owned()));
        assert(pair_texts(self.skipped@) =~= pair_texts(old(self).skipped@).push((path@, why@)));
    }

    /// Takes in what reading the object at `path` came to: its imports are added, or it
    /// is noted as skipped with what the error says.
    pub fn add(&mut self, path: &str, found: &Result<Imports, InvalidData>)
        ensures
            match *found {
                Ok(imports) => {
                    &&& final(self).imports@ == united(old(self).imports@, imports@)
                    &&& final(self).skipped == old(self).skipped
                },
                Err(error) => {
                    &&& final(self).imports == old(self).imports
                    &&& pair_texts(final(self).skipped@) == pair_texts(old(self).skipped@).push(
                        (path@, error.message@),
                    )
                },
            },
    {
        match found {
            Ok(imports) => {
                self.imports.absorb(imports);
            },
            Err(error) => {
                self.skip(path, error.message.as_str());
            },
        }
    }
}

/// What reading an object came to: its imports, or what the error says.
pub type Outcome = Result<Map<Seq<char>, Binding>, Seq<char>>;

/// A directory, as a specification sees it: `outcomes[i]` is what reading entry `i` as an
/// object came to.
pub struct Directory {
    pub entries: Seq<DirEntry>,
    pub outcomes: Seq<Outcome>,
}

impl Directory {
    /// Every entry has its outcome.
    pub open spec fn matched(self) -> bool {
        self.entries.len() == self.outcomes.len()
    }

    /// What reading entry `i` as an object came to.
    pub open spec fn outcome(self, i: int) -> Outcome {
        self.outcomes[i]
    }

    /// One of the entries in `order` is an object that imports `name`.
    pub open spec fn some_imports(self, order: Seq<usize>, name: Seq<char>) -> bool {
        exists|k: int|
            0 <= k < order.len() && (self.outcome((#[trigger] order[k]) as int) matches Ok(found)
                && found.contains_key(name))
    }

    /// One of the entries in `order` is an object that requires `name`.
    pub open spec fn some_requires(self, order: Seq<usize>, name: Seq<char>) -> bool {
        exists|k: int|
            0 <= k < order.len() && (self.outcome((#[trigger] order[k]) as int) matches Ok(found)
                && requires_symbol(found, name))
    }

    /// What the entries in `order` import between them.
    pub open spec fn imported(self, order: Seq<usize>) -> Map<Seq<char>, Binding> {
        Map::new(
            |name: Seq<char>| self.some_imports(order, name),
            |name: Seq<char>|
                if self.some_requires(order, name) {
                    Binding::Strong
                } else {
                    Binding::Weak
                },
        )
    }

    /// The entries in `order` that could not be read as objects, each with what is said
    /// about it.
    pub open spec fn skipped(self, order: Seq<usize>) -> Seq<(Seq<char>, Seq<char>)>
        decreases order.len(),
    {
        if order.len() == 0 {
            Seq::empty()
        } else {
            let before = self.skipped(order.drop_last());
            let i = order.last() as int;
            match self.outcome(i) {
                Ok(_) => before,
                Err(message) => before.push((self.entries[i].path@, message)),
            }
        }
    }

    /// One more object unites its imports with the rest.
    proof fn imported_step(self, order: Seq<usize>, i: usize)
        ensures
            self.imported(order.push(i)) == match self.outcome(i as int) {
                Ok(found) => united(self.imported(order), found),
                Err(_) => self.imported(order),
            },
    {
        let longer = order.push(i);
        assert forall|k: int| 0 <= k < order.len() implies longer[k] == order[k] by {}
        assert(longer[order.len() as int] == i);
        assert forall|name: Seq<char>|
            self.some_imports(longer, name) == (self.some_imports(order, name) || (self.outcome(
                i as int,
            ) matches Ok(found) && found.contains_key(name))) by {
            if self.some_imports(order, name) {
                let k = choose|k: int|
                    0 <= k < order.len() && (self.outcome((#[trigger] order[k]) as int) matches Ok(
                        found,
                    ) && found.contains_key(name));
                assert(longer[k] == order[k]);
            }
        }
        assert forall|name: Seq<char>|
            self.some_requires(longer, name) == (self.some_requires(order, name) || (self.outcome(
                i as int,
            ) matches Ok(found) && requires_symbol(found, name))) by {
            if self.some_requires(order, name) {
                let k = choose|k: int|
                    0 <= k < order.len() && (self.outcome((#[trigger] order[k]) as int) matches Ok(
                        found,
                    ) && requires_symbol(found, name));
                assert(longer[k] == order[k]);
            }
        }
        match self.outcome(i as int) {
            Ok(found) => {
                assert(self.imported(longer) =~= united(self.imported(order), found));
            },
            Err(_) => {
                assert(self.imported(longer) =~= self.imported(order));
            },
        }
    }

    /// What the object at place `k` of an order adds to those before it.
    proof fn next(self, order: Seq<usize>, k: int)
        requires
            0 <= k < order.len(),
        ensures
            self.imported(order.take(k + 1)) == match self.outcome(order[k] as int) {
                Ok(found) => united(self.imported(order.take(k)), found),
                Err(_) => self.imported(order.take(k)),
            },
            self.skipped(order.take(k + 1)) == match self.outcome(order[k] as int) {
                Ok(_) => self.skipped(order.take(k)),
                Err(message) => self.skipped(order.take(k)).push(
                    (self.entries[order[k] as int].path@, message),
                ),
            },
    {
        self.imported_step(order.take(k), order[k]);
        assert(order.take(k).push(order[k]) =~= order.take(k + 1));
        assert(order.take(k + 1).drop_last() =~= order.take(k));
    }
}

/// What reading came to, as a specification sees it.
pub open spec fn outcome_of(found: Result<Imports, InvalidData>) -> Outcome {
    match found {
        Ok(imports) => Ok(imports@),
        Err(error) => Err(error.message@),
    }
}

/// What reading the file at `path` as an object comes to: `contents` are its bytes, or
/// why it could not be opened or read.
pub open spec fn outcome_at(path: Seq<char>, contents: Result<Vec<u8>, InvalidData>) -> Outcome {
    match contents {
        Ok(bytes) => match undefined_in(bytes@) {
            Ok(found) => Ok(found),
            Err(fault) => Err(fault_text(fault, path)),
        },
        Err(error) => Err(error.message@),
    }
}

/// A directory whose objects have been read.
pub open spec fn found_directory(listing: Seq<Listed<Result<Imports, InvalidData>>>) -> Directory {
    Directory {
        entries: entries_of(listing),
        outcomes: listing.map_values(
            |listed: Listed<Result<Imports, InvalidData>>| outcome_of(listed.held),
        ),
    }
}

/// A directory whose files are held in memory.
pub open spec fn held_directory(listing: Seq<Listed<Result<Vec<u8>, InvalidData>>>) -> Directory {
    Directory {
        entries: entries_of(listing),
        outcomes: listing.map_values(
            |listed: Listed<Result<Vec<u8>, InvalidData>>|
                outcome_at(listed.entry.path@, listed.held),
        ),
    }
}

/// `imports` and `skipped` are what the shared objects of `directory` come to.
pub open spec fn sums_up(
    directory: Directory,
    imports: Map<Seq<char>, Binding>,
    skipped: Seq<(Seq<char>, Seq<char>)>,
) -> bool {
    exists|order: Seq<usize>|
        {
            &&& #[trigger] is_object_order(directory.entries, order)
            &&& imports == directory.imported(order)
            &&& skipped == directory.skipped(order)
        }
}

/// The union of what was found in each shared object of a directory, and the objects that
/// could not be read, each with the reason. Entries that are not shared objects are passed
/// over, whatever was found in them.
pub fn unite_found(listing: &[Listed<Result<Imports, InvalidData>>]) -> (all: (
    Imports,
    Vec<(String, String)>,
))
    ensures
        sums_up(found_directory(listing@), all.0@, pair_texts(all.1@)),
{
    let ghost directory = found_directory(listing@);
    let order = object_order(listing);
    let mut survey = Survey::new();
    let mut k: usize = 0;
    assert(order@.take(0) =~= Seq::empty());
    assert(directory.imported(order@.take(0)) =~= survey.imports@);
    while k < order.len()
        invariant
            k <= order@.len(),
            directory == found_directory(listing@),
            is_object_order(directory.entries, order@),
            survey.imports@ == directory.imported(order@.take(k as int)),
            pair_texts(survey.skipped@) == directory.skipped(order@.take(k as int)),
        decreases order@.len() - k,
    {
        let i: usize = order[k];
        proof {
            directory.next(order@, k as int);
        }
        survey.add(listing[i].entry.path.as_str(), &listing[i].held);
        k += 1;
    }
    assert(order@.take(k as int) =~= order@);
    (survey.imports, survey.skipped)
}

/// Every `*.so` directly inside a directory, unioned, and what was skipped.
///
/// `listing` is the directory with what its files hold, or why they could not be opened or
/// read. It is `None` if the directory could not be listed.
pub fn undefined_symbols_in_dir(
    dir: &str,
    listing: Option<&[Listed<Result<Vec<u8>, InvalidData>>]>,
) -> (all: (Imports, Vec<(String, String)>))
    ensures
        match listing {
            None => {
                &&& all.0@ == Map::<Seq<char>, Binding>::empty()
                &&& pair_texts(all.1@) == seq![(dir@, "unreadable"@)]
            },
            Some(listing) => sums_up(held_directory(listing@), all.0@, pair_texts(all.1@)),
        },
{
    let listing = match listing {
        None => {
            let survey = Survey::unreadable(dir);
            return (survey.imports, survey.skipped);
        },
        Some(listing) => listing,
    };
    let ghost directory = held_directory(listing@);
    let order = object_order(listing);
    let mut survey = Survey::new();
    let mut k: usize = 0;
    assert(order@.take(0) =~= Seq::empty());
    assert(directory.imported(order@.take(0)) =~= survey.imports@);
    while k < order.len()
        invariant
            k <= order@.len(),
            directory == held_directory(listing@),
            is_object_order(directory.entries, order@),
            survey.imports@ == directory.imported(order@.take(k as int)),
            pair_texts(survey.skipped@) == directory.skipped(order@.take(k as int)),
        decreases order@.len() - k,
    {
        let i: usize = order[k];
        proof {
            directory.next(order@, k as int);
        }
        let path = listing[i].entry.path.as_str();
        let found = match &listing[i].held {
            Ok(bytes) => undefined_symbols(path, bytes.as_slice()),
            Err(error) => Err(bad(error.message.as_str())),
        };
        survey.add(path, &found);
        k += 1;
    }
    assert(order@.take(k as int) =~= order@);
    (survey.imports, survey.skipped)
}

/// Reading each file first and uniting what was found comes to the same as handing over
/// the files.
pub proof fn files_may_be_read_first(
    held: Seq<Listed<Result<Vec<u8>, InvalidData>>>,
    found: Seq<Listed<Result<Imports, InvalidData>>>,
)
    requires
        held.len() == found.len(),
        forall|i: int|
            0 <= i < held.len() ==> (#[trigger] found[i]).entry == held[i].entry && outcome_of(
                found[i].held,
            ) == outcome_at(held[i].entry.path@, held[i].held),
    ensures
        held_directory(held) == found_directory(found),
{
    assert(held_directory(held).entries =~= found_directory(found).entries);
    assert(held_directory(held).outcomes =~= found_directory(found).outcomes);
}

/// A directory comes to one result only.
pub proof fn one_result(
    directory: Directory,
    imports: Map<Seq<char>, Binding>,
    skipped: Seq<(Seq<char>, Seq<char>)>,
    other_imports: Map<Seq<char>, Binding>,
    other_skipped: Seq<(Seq<char>, Seq<char>)>,
)
    requires
        sums_up(directory, imports, skipped),
        sums_up(directory, other_imports, other_skipped),
    ensures
        imports == other_imports,
        skipped == other_skipped,
{
    let a = summed_order(directory, imports, skipped);
    let b = summed_order(directory, other_imports, other_skipped);
    one_object_order(directory.entries, a, b);
}

/// No object is passed over in silence: what it imports is among the imports of the
/// directory, and strong there if the object requires it, or the object is among the
/// skipped with the reason.
pub proof fn every_object_is_read_or_reported(
    directory: Directory,
    imports: Map<Seq<char>, Binding>,
    skipped: Seq<(Seq<char>, Seq<char>)>,
    i: usize,
)
    requires
        sums_up(directory, imports, skipped),
        i < directory.entries.len(),
        is_object(directory.entries[i as int]),
    ensures
        match directory.outcome(i as int) {
            Ok(found) => forall|name: Seq<char>| #[trigger]
                found.contains_key(name) ==> {
                    &&& imports.contains_key(name)
                    &&& requires_symbol(found, name) ==> requires_symbol(imports, name)
                },
            Err(message) => skipped.contains((directory.entries[i as int].path@, message)),
        },
{
    let order = summed_order(directory, imports, skipped);
    assert(order.contains(i));
    let k = choose|k: int| 0 <= k < order.len() && order[k] == i;
    if directory.outcome(i as int) is Err {
        skipped_has(directory, order, k);
    }
}

/// An object that cannot be read is among the skipped.
proof fn skipped_has(directory: Directory, order: Seq<usize>, k: int)
    requires
        0 <= k < order.len(),
        directory.outcome(order[k] as int) is Err,
    ensures
        directory.skipped(order).contains(
            (
                directory.entries[order[k] as int].path@,
                directory.outcome(order[k] as int)->Err_0,
            ),
        ),
    decreases order.len(),
{
    let before = directory.skipped(order.drop_last());
    let path = directory.entries[order[k] as int].path@;
    let line = (path, directory.outcome(order[k] as int)->Err_0);
    if k == order.len() - 1 {
        assert(before.push(line).last() == line);
    } else {
        assert(order.drop_last()[k] == order[k]);
        skipped_has(directory, order.drop_last(), k);
        let at = choose|at: int| 0 <= at < before.len() && before[at] == line;
        assert(directory.skipped(order)[at] == line);
    }
}

/// An object that cannot be read changes nothing about what the others import.
pub proof fn an_unreadable_object_changes_no_imports(
    directory: Directory,
    order: Seq<usize>,
    i: usize,
)
    requires
        directory.outcome(i as int) is Err,
    ensures
        directory.imported(order.push(i)) == directory.imported(order),
{
    directory.imported_step(order, i);
}

/// `a` and `b` have the same path and name, and are both files or both not.
pub open spec fn alike(a: DirEntry, b: DirEntry) -> bool {
    a.path@ == b.path@ && a.name.deep_view() == b.name.deep_view() && a.is_file == b.is_file
}

/// `b` is the directory `a` listed in another order: entry `i` of `b` is entry `to[i]` of
/// `a`, and entry `j` of `a` is entry `back[j]` of `b`.
pub open spec fn is_relisting(a: Directory, b: Directory, to: Seq<usize>, back: Seq<usize>) -> bool {
    &&& a.matched() && b.matched()
    &&& to.len() == b.entries.len()
    &&& back.len() == a.entries.len()
    &&& forall|i: int|
        0 <= i < to.len() ==> (#[trigger] to[i]) < back.len() && back[to[i] as int] == i && alike(
            b.entries[i],
            a.entries[to[i] as int],
        ) && b.outcomes[i] == a.outcomes[to[i] as int]
    &&& forall|j: int|
        0 <= j < back.len() ==> (#[trigger] back[j]) < to.len() && to[back[j] as int] == j
}

/// No two objects of a directory have the same name.
pub open spec fn names_differ(listing: Seq<DirEntry>) -> bool {
    forall|i: int, j: int|
        0 <= i < listing.len() && 0 <= j < listing.len() && is_object(#[trigger] listing[i])
            && is_object(#[trigger] listing[j]) && listing[i].name->0@ == listing[j].name->0@
            ==> i == j
}

/// The order of a relisted directory's objects, taken back to the first listing, is the
/// order there.
proof fn relisted_order(
    a: Directory,
    b: Directory,
    to: Seq<usize>,
    back: Seq<usize>,
    order: Seq<usize>,
)
    requires
        is_relisting(a, b, to, back),
        names_differ(a.entries),
        is_object_order(b.entries, order),
    ensures
        is_object_order(a.entries, order.map_values(|i: usize| to[i as int])),
{
    let taken = order.map_values(|i: usize| to[i as int]);
    assert forall|k: int| 0 <= k < taken.len() implies (#[trigger] taken[k]) < a.entries.len()
        && is_object(a.entries[taken[k] as int]) by {
        assert(is_object(b.entries[order[k] as int]));
        assert(to[order[k] as int] < back.len());
    }
    assert forall|j: usize|
        j < a.entries.len() && is_object(#[trigger] a.entries[j as int]) implies taken.contains(
        j,
    ) by {
        let i = back[j as int];
        assert(to[i as int] == j);
        assert(is_object(b.entries[i as int]));
        let k = choose|k: int| 0 <= k < order.len() && order[k] == i;
        assert(taken[k] == j);
    }
    assert forall|k: int, l: int| 0 <= k < l < taken.len() implies goes_before(
        a.entries,
        (#[trigger] taken[k]) as int,
        (#[trigger] taken[l]) as int,
    ) by {
        let i = order[k];
        let j = order[l];
        assert(is_object(b.entries[i as int]) && is_object(b.entries[j as int]));
        assert(goes_before(b.entries, i as int, j as int));
        assert(to[i as int] < back.len() && to[j as int] < back.len());
        goes_before_irreflexive(b.entries, i as int);
        assert(taken[k] != taken[l]);
        assert(is_object(a.entries[taken[k] as int]) && is_object(a.entries[taken[l] as int]));
    }
}

/// What is skipped does not depend on the listing, but on what is at each place of the
/// order.
proof fn same_skipped(a: Directory, b: Directory, order_a: Seq<usize>, order_b: Seq<usize>)
    requires
        order_a.len() == order_b.len(),
        forall|k: int|
            0 <= k < order_a.len() ==> a.outcome((#[trigger] order_a[k]) as int) == b.outcome(
                order_b[k] as int,
            ) && a.entries[order_a[k] as int].path@ == b.entries[order_b[k] as int].path@,
    ensures
        a.skipped(order_a) == b.skipped(order_b),
    decreases order_a.len(),
{
    if order_a.len() > 0 {
        let (fewer_a, fewer_b) = (order_a.drop_last(), order_b.drop_last());
        assert forall|k: int| 0 <= k < fewer_a.len() implies a.outcome(
            (#[trigger] fewer_a[k]) as int,
        ) == b.outcome(fewer_b[k] as int) && a.entries[fewer_a[k] as int].path@
            == b.entries[fewer_b[k] as int].path@ by {
            assert(fewer_a[k] == order_a[k]);
        }
        same_skipped(a, b, fewer_a, fewer_b);
        assert(order_a.last() == order_a[order_a.len() - 1]);
    }
}

/// The order in which a directory happens to be listed does not matter: the imports are
/// the same, and so is what was skipped.
pub proof fn the_order_of_listing_does_not_matter(
    a: Directory,
    b: Directory,
    to: Seq<usize>,
    back: Seq<usize>,
    imports: Map<Seq<char>, Binding>,
    skipped: Seq<(Seq<char>, Seq<char>)>,
)
    requires
        is_relisting(a, b, to, back),
        names_differ(a.entries),
    ensures
        sums_up(a, imports, skipped) == sums_up(b, imports, skipped),
{
    if sums_up(b, imports, skipped) {
        let order = summed_order(b, imports, skipped);
        relisted_sum(a, b, to, back, order);
    }
    if sums_up(a, imports, skipped) {
        relisted_back(a, b, to, back);
        let order = summed_order(a, imports, skipped);
        relisted_sum(b, a, back, to, order);
    }
}

/// A directory is a relisting of every relisting of it.
proof fn relisted_back(a: Directory, b: Directory, to: Seq<usize>, back: Seq<usize>)
    requires
        is_relisting(a, b, to, back),
        names_differ(a.entries),
    ensures
        is_relisting(b, a, back, to),
        names_differ(b.entries),
{
    assert forall|j: int| 0 <= j < back.len() implies (#[trigger] back[j]) < to.len()
        && to[back[j] as int] == j && alike(a.entries[j], b.entries[back[j] as int])
        && a.outcomes[j] == b.outcomes[back[j] as int] by {
        assert(to[back[j] as int] == j);
    }
    assert forall|i: int, j: int|
        0 <= i < b.entries.len() && 0 <= j < b.entries.len() && is_object(#[trigger] b.entries[i])
            && is_object(#[trigger] b.entries[j]) && b.entries[i].name->0@
            == b.entries[j].name->0@ implies i == j by {
        assert(to[i] < back.len() && to[j] < back.len());
        assert(is_object(a.entries[to[i] as int]) && is_object(a.entries[to[j] as int]));
    }
}

/// What the objects of a relisted directory come to, in their order, the first listing
/// comes to as well.
proof fn relisted_sum(
    a: Directory,
    b: Directory,
    to: Seq<usize>,
    back: Seq<usize>,
    order_b: Seq<usize>,
)
    requires
        is_relisting(a, b, to, back),
        names_differ(a.entries),
        is_object_order(b.entries, order_b),
    ensures
        sums_up(a, b.imported(order_b), b.skipped(order_b)),
{
    let order_a = order_b.map_values(|i: usize| to[i as int]);
    relisted_order(a, b, to, back, order_b);
    assert forall|k: int| 0 <= k < order_a.len() implies a.outcome((#[trigger] order_a[k]) as int)
        == b.outcome(order_b[k] as int) && a.entries[order_a[k] as int].path@
        == b.entries[order_b[k] as int].path@ by {
        assert(order_b[k] < b.entries.len());
        assert(to[order_b[k] as int] < back.len());
    }
    same_skipped(a, b, order_a, order_b);
    assert forall|name: Seq<char>| a.some_imports(order_a, name) == b.some_imports(
        order_b,
        name,
    ) by {
        if b.some_imports(order_b, name) {
            let k = choose|k: int|
                0 <= k < order_b.len() && (b.outcome((#[trigger] order_b[k]) as int) matches Ok(
                    found,
                ) && found.contains_key(name));
            assert(a.outcome(order_a[k] as int) == b.outcome(order_b[k] as int));
        }
    }
    assert forall|name: Seq<char>| a.some_requires(order_a, name) == b.some_requires(
        order_b,
        name,
    ) by {
        if b.some_requires(order_b, name) {
            let k = choose|k: int|
                0 <= k < order_b.len() && (b.outcome((#[trigger] order_b[k]) as int) matches Ok(
                    found,
                ) && requires_symbol(found, name));
            assert(a.outcome(order_a[k] as int) == b.outcome(order_b[k] as int));
        }
    }
    assert(a.imported(order_a) =~= b.imported(order_b));
}

// ---- What holds of every listing ----

/// A directory's objects, in the order in which they sum up to a result.
proof fn summed_order(
    directory: Directory,
    imports: Map<Seq<char>, Binding>,
    skipped: Seq<(Seq<char>, Seq<char>)>,
) -> (order: Seq<usize>)
    requires
        sums_up(directory, imports, skipped),
    ensures
        is_object_order(directory.entries, order),
        imports == directory.imported(order),
        skipped == directory.skipped(order),
{
    choose|order: Seq<usize>|
        {
            &&& #[trigger] is_object_order(directory.entries, order)
            &&& imports == directory.imported(order)
            &&& skipped == directory.skipped(order)
        }
}

/// An entry is an object exactly when it is a file whose name ends in `.so`.
proof fn objects_end_in_so(entry: DirEntry)
    ensures
        is_object(entry) <==> entry.is_file && entry.name is Some && entry.name->0@.len() >= 3
            && entry.name->0@.skip(entry.name->0@.len() - 3) == ".so"@,
{
    reveal_strlit(".so");
    if let Some(name) = entry.name {
        if name@.len() >= 3 {
            assert(name@.skip(name@.len() - 3) =~= name@.subrange(
                name@.len() - 3,
                name@.len() as int,
            ));
        }
    }
}

/// A name is imported by one of the objects, and strong if it is strong in the union.
proof fn import_has_an_object(
    directory: Directory,
    imports: Map<Seq<char>, Binding>,
    skipped: Seq<(Seq<char>, Seq<char>)>,
    name: Seq<char>,
) -> (i: usize)
    requires
        sums_up(directory, imports, skipped),
        imports.contains_key(name),
    ensures
        i < directory.entries.len(),
        is_object(directory.entries[i as int]),
        directory.outcome(i as int) is Ok,
        directory.outcome(i as int)->Ok_0.contains_key(name),
        imports[name] == Binding::Strong ==> directory.outcome(i as int)->Ok_0[name]
            == Binding::Strong,
{
    let order = summed_order(directory, imports, skipped);
    let k = if imports[name] == Binding::Strong {
        choose|k: int|
            0 <= k < order.len() && (directory.outcome((#[trigger] order[k]) as int) matches Ok(
                found,
            ) && requires_symbol(found, name))
    } else {
        choose|k: int|
            0 <= k < order.len() && (directory.outcome((#[trigger] order[k]) as int) matches Ok(
                found,
            ) && found.contains_key(name))
    };
    order[k]
}

/// Which places of an order the skipped are at.
proof fn skipped_places(directory: Directory, order: Seq<usize>) -> (places: Seq<int>)
    ensures
        places.len() == directory.skipped(order).len(),
        forall|k: int|
            0 <= k < places.len() ==> 0 <= (#[trigger] places[k]) < order.len()
                && directory.outcome(order[places[k]] as int) is Err
                && directory.skipped(order)[k] == (
                directory.entries[order[places[k]] as int].path@,
                directory.outcome(order[places[k]] as int)->Err_0,
            ),
        forall|k: int, l: int|
            0 <= k < l < places.len() ==> (#[trigger] places[k]) < (#[trigger] places[l]),
        forall|p: int|
            0 <= p < order.len() && directory.outcome((#[trigger] order[p]) as int) is Err
                ==> places.contains(p),
    decreases order.len(),
{
    if order.len() == 0 {
        Seq::empty()
    } else {
        let fewer = order.drop_last();
        let before = skipped_places(directory, fewer);
        let last = order.len() - 1;
        assert forall|k: int| 0 <= k < before.len() implies 0 <= (#[trigger] before[k]) < last
            && order[before[k]] == fewer[before[k]] by {}
        let places = match directory.outcome(order.last() as int) {
            Ok(_) => before,
            Err(_) => before.push(last),
        };
        assert forall|p: int|
            0 <= p < order.len() && directory.outcome((#[trigger] order[p]) as int) is Err
                implies places.contains(p) by {
            if p < last {
                assert(fewer[p] == order[p]);
                assert(before.contains(p));
                let k = choose|k: int| 0 <= k < before.len() && before[k] == p;
                assert(places[k] == p);
            } else {
                assert(places[places.len() - 1] == p);
            }
        }
        places
    }
}

/// Which entries were skipped: the objects that could not be read, each once, in the order
/// of their names.
proof fn skipped_entries(
    directory: Directory,
    imports: Map<Seq<char>, Binding>,
    skipped: Seq<(Seq<char>, Seq<char>)>,
) -> (at: Seq<usize>)
    requires
        sums_up(directory, imports, skipped),
    ensures
        at.len() == skipped.len(),
        forall|k: int|
            0 <= k < at.len() ==> (#[trigger] at[k]) < directory.entries.len() && is_object(
                directory.entries[at[k] as int],
            ) && directory.outcome(at[k] as int) is Err && skipped[k] == (
                directory.entries[at[k] as int].path@,
                directory.outcome(at[k] as int)->Err_0,
            ),
        forall|k: int, l: int|
            0 <= k < l < at.len() ==> goes_before(
                directory.entries,
                (#[trigger] at[k]) as int,
                (#[trigger] at[l]) as int,
            ),
        forall|i: usize|
            i < directory.entries.len() && is_object(#[trigger] directory.entries[i as int])
                && directory.outcome(i as int) is Err ==> at.contains(i),
{
    let order = summed_order(directory, imports, skipped);
    let places = skipped_places(directory, order);
    let at = places.map_values(|p: int| order[p]);
    assert forall|k: int| 0 <= k < at.len() implies (#[trigger] at[k]) < directory.entries.len()
        && is_object(directory.entries[at[k] as int]) && directory.outcome(at[k] as int) is Err
        && skipped[k] == (
        directory.entries[at[k] as int].path@,
        directory.outcome(at[k] as int)->Err_0,
    ) by {
        assert(at[k] == order[places[k]]);
    }
    assert forall|k: int, l: int| 0 <= k < l < at.len() implies goes_before(
        directory.entries,
        (#[trigger] at[k]) as int,
        (#[trigger] at[l]) as int,
    ) by {
        assert(places[k] < places[l]);
        assert(at[k] == order[places[k]] && at[l] == order[places[l]]);
    }
    assert forall|i: usize|
        i < directory.entries.len() && is_object(#[trigger] directory.entries[i as int])
            && directory.outcome(i as int) is Err implies at.contains(i) by {
        assert(order.contains(i));
        let p = choose|p: int| 0 <= p < order.len() && order[p] == i;
        assert(directory.outcome(order[p] as int) is Err);
        assert(places.contains(p));
        let k = choose|k: int| 0 <= k < places.len() && places[k] == p;
        assert(at[k] == i);
    }
    at
}

/// Every file named `*.so` has its say: all that its bytes import is in the union, strong
/// there if strong in the file; if its bytes are no object with an answer, it is among the
/// skipped with what is wrong; and if it could not be opened or read, with the reason.
pub proof fn every_file_is_united_or_reported(
    listing: Seq<Listed<Result<Vec<u8>, InvalidData>>>,
    imports: Map<Seq<char>, Binding>,
    skipped: Seq<(Seq<char>, Seq<char>)>,
    i: usize,
    stem: Seq<char>,
)
    requires
        sums_up(held_directory(listing), imports, skipped),
        i < listing.len(),
        listing[i as int].entry.is_file,
        listing[i as int].entry.name is Some,
        listing[i as int].entry.name->0@ == stem + ".so"@,
    ensures
        ({
            let path = listing[i as int].entry.path@;
            match listing[i as int].held {
                Ok(bytes) => match undefined_in(bytes@) {
                    Ok(found) => forall|name: Seq<char>| #[trigger]
                        found.contains_key(name) ==> imports.contains_key(name) && (found[name]
                            == Binding::Strong ==> imports[name] == Binding::Strong),
                    Err(fault) => skipped.contains((path, fault_text(fault, path))),
                },
                Err(error) => skipped.contains((path, error.message@)),
            }
        }),
{
    let directory = held_directory(listing);
    let entry = listing[i as int].entry;
    assert(directory.entries[i as int] == entry);
    reveal_strlit(".so");
    assert(entry.name->0@.skip(entry.name->0@.len() - 3) =~= ".so"@);
    objects_end_in_so(entry);
    every_object_is_read_or_reported(directory, imports, skipped, i);
}

/// Nothing else is in the union: every import of it is one of some file named `*.so`, and
/// strong only if some such file has it strong.
pub proof fn every_import_is_some_files(
    listing: Seq<Listed<Result<Vec<u8>, InvalidData>>>,
    imports: Map<Seq<char>, Binding>,
    skipped: Seq<(Seq<char>, Seq<char>)>,
    name: Seq<char>,
) -> (i: usize)
    requires
        sums_up(held_directory(listing), imports, skipped),
        imports.contains_key(name),
    ensures
        i < listing.len(),
        ({
            let entry = listing[i as int].entry;
            &&& entry.is_file && entry.name is Some && entry.name->0@.len() >= 3
            &&& entry.name->0@.skip(entry.name->0@.len() - 3) == ".so"@
            &&& listing[i as int].held is Ok
            &&& undefined_in(listing[i as int].held->Ok_0@) is Ok
            &&& undefined_in(listing[i as int].held->Ok_0@)->Ok_0.contains_key(name)
            &&& imports[name] == Binding::Strong ==> undefined_in(
                listing[i as int].held->Ok_0@,
            )->Ok_0[name] == Binding::Strong
        }),
{
    let directory = held_directory(listing);
    let i = import_has_an_object(directory, imports, skipped, name);
    assert(directory.entries[i as int] == listing[i as int].entry);
    objects_end_in_so(listing[i as int].entry);
    i
}

/// Nothing else is skipped: `at` are the entries that were. Each is a file named `*.so`
/// that could not be read, or whose bytes have no answer, with the reason; each such file
/// is there, and they come in the order of their names, by the bytes of these.
pub proof fn every_skipped_file_had_no_answer(
    listing: Seq<Listed<Result<Vec<u8>, InvalidData>>>,
    imports: Map<Seq<char>, Binding>,
    skipped: Seq<(Seq<char>, Seq<char>)>,
) -> (at: Seq<usize>)
    requires
        sums_up(held_directory(listing), imports, skipped),
    ensures
        at.len() == skipped.len(),
        forall|k: int|
            0 <= k < at.len() ==> {
                let listed = listing[(#[trigger] at[k]) as int];
                let path = listed.entry.path@;
                &&& at[k] < listing.len()
                &&& listed.entry.is_file && listed.entry.name is Some
                &&& listed.entry.name->0@.len() >= 3
                &&& listed.entry.name->0@.skip(listed.entry.name->0@.len() - 3) == ".so"@
                &&& skipped[k].0 == path
                &&& match listed.held {
                    Ok(bytes) => undefined_in(bytes@) is Err && skipped[k].1 == fault_text(
                        undefined_in(bytes@)->Err_0,
                        path,
                    ),
                    Err(error) => skipped[k].1 == error.message@,
                }
            },
        forall|k: int, l: int|
            0 <= k < l < at.len() ==> {
                let a = encode_utf8(listing[(#[trigger] at[k]) as int].entry.name->0@);
                let b = encode_utf8(listing[(#[trigger] at[l]) as int].entry.name->0@);
                precedes(a, b) || (a == b && at[k] < at[l])
            },
        forall|i: usize|
            i < listing.len() && (#[trigger] listing[i as int]).entry.is_file
                && listing[i as int].entry.name is Some && listing[i as int].entry.name->0@.len()
                >= 3 && listing[i as int].entry.name->0@.skip(
                listing[i as int].entry.name->0@.len() - 3,
            ) == ".so"@ && (listing[i as int].held is Err || undefined_in(
                listing[i as int].held->Ok_0@,
            ) is Err) ==> at.contains(i),
{
    let directory = held_directory(listing);
    let at = skipped_entries(directory, imports, skipped);
    assert forall|i: usize| i < listing.len() implies directory.entries[i as int] == (
    #[trigger] listing[i as int]).entry && directory.outcome(i as int) == outcome_at(
        listing[i as int].entry.path@,
        listing[i as int].held,
    ) && (is_object(listing[i as int].entry) <==> listing[i as int].entry.is_file
        && listing[i as int].entry.name is Some && listing[i as int].entry.name->0@.len() >= 3
        && listing[i as int].entry.name->0@.skip(listing[i as int].entry.name->0@.len() - 3)
        == ".so"@) by {
        objects_end_in_so(listing[i as int].entry);
    }
    assert forall|k: int, l: int| 0 <= k < l < at.len() implies {
        let a = encode_utf8(listing[(#[trigger] at[k]) as int].entry.name->0@);
        let b = encode_utf8(listing[(#[trigger] at[l]) as int].entry.name->0@);
        precedes(a, b) || (a == b && at[k] < at[l])
    } by {
        assert(goes_before(directory.entries, at[k] as int, at[l] as int));
        assert(directory.entries[at[k] as int] == listing[at[k] as int].entry);
        assert(directory.entries[at[l] as int] == listing[at[l] as int].entry);
    }
    at
}

/// The same of objects that were read before: every file named `*.so` in which something
/// was found is united with the rest, and every other one is among the skipped with what
/// its error says.
pub proof fn everything_found_is_united_or_reported(
    listing: Seq<Listed<Result<Imports, InvalidData>>>,
    imports: Map<Seq<char>, Binding>,
    skipped: Seq<(Seq<char>, Seq<char>)>,
    i: usize,
    stem: Seq<char>,
)
    requires
        sums_up(found_directory(listing), imports, skipped),
        i < listing.len(),
        listing[i as int].entry.is_file,
        listing[i as int].entry.name is Some,
        listing[i as int].entry.name->0@ == stem + ".so"@,
    ensures
        match listing[i as int].held {
            Ok(found) => forall|name: Seq<char>| #[trigger]
                found@.contains_key(name) ==> imports.contains_key(name) && (found@[name]
                    == Binding::Strong ==> imports[name] == Binding::Strong),
            Err(error) => skipped.contains((listing[i as int].entry.path@, error.message@)),
        },
{
    let directory = found_directory(listing);
    let entry = listing[i as int].entry;
    assert(directory.entries[i as int] == entry);
    reveal_strlit(".so");
    assert(entry.name->0@.skip(entry.name->0@.len() - 3) =~= ".so"@);
    objects_end_in_so(entry);
    every_object_is_read_or_reported(directory, imports, skipped, i);
}

/// Of objects that were read before, every import of the union was found in some file named
/// `*.so`, and is strong only if it is strong in some such file.
pub proof fn every_import_was_found(
    listing: Seq<Listed<Result<Imports, InvalidData>>>,
    imports: Map<Seq<char>, Binding>,
    skipped: Seq<(Seq<char>, Seq<char>)>,
    name: Seq<char>,
) -> (i: usize)
    requires
        sums_up(found_directory(listing), imports, skipped),
        imports.contains_key(name),
    ensures
        i < listing.len(),
        ({
            let entry = listing[i as int].entry;
            &&& entry.is_file && entry.name is Some && entry.name->0@.len() >= 3
            &&& entry.name->0@.skip(entry.name->0@.len() - 3) == ".so"@
            &&& listing[i as int].held is Ok
            &&& listing[i as int].held->Ok_0@.contains_key(name)
            &&& imports[name] == Binding::Strong ==> listing[i as int].held->Ok_0@[name]
                == Binding::Strong
        }),
{
    let directory = found_directory(listing);
    let i = import_has_an_object(directory, imports, skipped, name);
    assert(directory.entries[i as int] == listing[i as int].entry);
    objects_end_in_so(listing[i as int].entry);
    i
}

/// Of objects that were read before, the skipped are the files named `*.so` that have an
/// error, each once, with what the error says, in the order of their names.
pub proof fn every_skipped_file_had_an_error(
    listing: Seq<Listed<Result<Imports, InvalidData>>>,
    imports: Map<Seq<char>, Binding>,
    skipped: Seq<(Seq<char>, Seq<char>)>,
) -> (at: Seq<usize>)
    requires
        sums_up(found_directory(listing), imports, skipped),
    ensures
        at.len() == skipped.len(),
        forall|k: int|
            0 <= k < at.len() ==> {
                let listed = listing[(#[trigger] at[k]) as int];
                &&& at[k] < listing.len()
                &&& listed.entry.is_file && listed.entry.name is Some
                &&& listed.entry.name->0@.len() >= 3
                &&& listed.entry.name->0@.skip(listed.entry.name->0@.len() - 3) == ".so"@
                &&& listed.held is Err
                &&& skipped[k] == (listed.entry.path@, listed.held->Err_0.message@)
            },
        forall|k: int, l: int|
            0 <= k < l < at.len() ==> {
                let a = encode_utf8(listing[(#[trigger] at[k]) as int].entry.name->0@);
                let b = encode_utf8(listing[(#[trigger] at[l]) as int].entry.name->0@);
                precedes(a, b) || (a == b && at[k] < at[l])
            },
        forall|i: usize|
            i < listing.len() && (#[trigger] listing[i as int]).entry.is_file
                && listing[i as int].entry.name is Some && listing[i as int].entry.name->0@.len()
                >= 3 && listing[i as int].entry.name->0@.skip(
                listing[i as int].entry.name->0@.len() - 3,
            ) == ".so"@ && listing[i as int].held is Err ==> at.contains(i),
{
    let directory = found_directory(listing);
    let at = skipped_entries(directory, imports, skipped);
    assert forall|i: usize| i < listing.len() implies directory.entries[i as int] == (
    #[trigger] listing[i as int]).entry && directory.outcome(i as int) == outcome_of(
        listing[i as int].held,
    ) && (is_object(listing[i as int].entry) <==> listing[i as int].entry.is_file
        && listing[i as int].entry.name is Some && listing[i as int].entry.name->0@.len() >= 3
        && listing[i as int].entry.name->0@.skip(listing[i as int].entry.name->0@.len() - 3)
        == ".so"@) by {
        objects_end_in_so(listing[i as int].entry);
    }
    assert forall|k: int, l: int| 0 <= k < l < at.len() implies {
        let a = encode_utf8(listing[(#[trigger] at[k]) as int].entry.name->0@);
        let b = encode_utf8(listing[(#[trigger] at[l]) as int].entry.name->0@);
        precedes(a, b) || (a == b && at[k] < at[l])
    } by {
        assert(goes_before(directory.entries, at[k] as int, at[l] as int));
        assert(directory.entries[at[k] as int] == listing[at[k] as int].entry);
        assert(directory.entries[at[l] as int] == listing[at[l] as int].entry);
    }
    at
}

/// The texts of a list of pairs are those of its strings, one for one.
pub proof fn each_pair_has_its_texts(pairs: Seq<(String, String)>, i: int)
    ensures
        pair_texts(pairs).len() == pairs.len(),
        0 <= i < pairs.len() ==> pair_texts(pairs)[i] == (pairs[i].0@, pairs[i].1@),
{
}

} // verus!
