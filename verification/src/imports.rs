//! The symbols that objects import, by name.

use crate::bytes::{place, precedes, precedes_irreflexive, precedes_transitive, Place};
use vstd::prelude::*;
use vstd::string::*;
use vstd::utf8::*;

verus! {

/// Whether the linker must resolve an import or may leave it null.
///
/// A weak import that nothing provides is resolved to zero rather than being an
/// error, so reporting it as one that will fail the load would be a false alarm.
#[derive(Debug, Clone, Copy, PartialEq, Eq, Structural)]
pub enum Binding {
    /// Must resolve, or the load fails.
    Strong,
    /// May resolve to nothing.
    Weak,
}

/// The imports `m` after `name` has been met once more, with `binding`. Strong wins:
/// if anything requires a symbol, it is required.
pub open spec fn recorded(
    m: Map<Seq<char>, Binding>,
    name: Seq<char>,
    binding: Binding,
) -> Map<Seq<char>, Binding> {
    if m.contains_key(name) && binding == Binding::Weak {
        m
    } else {
        m.insert(name, binding)
    }
}

/// `m` has `name`, and as a symbol that must resolve.
pub open spec fn requires_symbol(m: Map<Seq<char>, Binding>, name: Seq<char>) -> bool {
    m.contains_key(name) && m[name] == Binding::Strong
}

/// What two sets of imports come to together: every name of either, strong where
/// either requires it.
pub open spec fn united(
    a: Map<Seq<char>, Binding>,
    b: Map<Seq<char>, Binding>,
) -> Map<Seq<char>, Binding> {
    Map::new(
        |name: Seq<char>| a.contains_key(name) || b.contains_key(name),
        |name: Seq<char>|
            if requires_symbol(a, name) || requires_symbol(b, name) {
                Binding::Strong
            } else {
                Binding::Weak
            },
    )
}

/// The name `a` comes before the name `b`: names are ordered by their UTF-8 bytes.
pub open spec fn name_precedes(a: Seq<char>, b: Seq<char>) -> bool {
    precedes(encode_utf8(a), encode_utf8(b))
}

/// Every symbol an object imports, and whether it has to be answered.
///
/// Each name stands once, and the names are kept in ascending order.
#[derive(Debug)]
pub struct Imports {
    entries: Vec<(String, Binding)>,
}

/// The entries are in strictly ascending order of their names.
pub open spec fn ascending(entries: Seq<(String, Binding)>) -> bool {
    forall|i: int, j: int|
        0 <= i < j < entries.len() ==> name_precedes(
            (#[trigger] entries[i]).0@,
            (#[trigger] entries[j]).0@,
        )
}

/// An entry of `entries` is named `name`.
pub open spec fn names(entries: Seq<(String, Binding)>, name: Seq<char>) -> bool {
    exists|i: int| 0 <= i < entries.len() && (#[trigger] entries[i]).0@ == name
}

/// The binding each name of `entries` has.
pub open spec fn bindings(entries: Seq<(String, Binding)>) -> Map<Seq<char>, Binding> {
    Map::new(
        |name: Seq<char>| names(entries, name),
        |name: Seq<char>|
            entries[choose|i: int|
                0 <= i < entries.len() && (#[trigger] entries[i]).0@ == name].1,
    )
}

impl View for Imports {
    type V = Map<Seq<char>, Binding>;

    closed spec fn view(&self) -> Map<Seq<char>, Binding> {
        bindings(self.entries@)
    }
}

/// Two entries of an ascending list with the same name are one entry.
proof fn ascending_distinct(entries: Seq<(String, Binding)>, i: int, j: int)
    requires
        ascending(entries),
        0 <= i < entries.len(),
        0 <= j < entries.len(),
        entries[i].0@ == entries[j].0@,
    ensures
        i == j,
{
    precedes_irreflexive(encode_utf8(entries[i].0@));
    if i < j {
        assert(name_precedes(entries[i].0@, entries[j].0@));
    } else if j < i {
        assert(name_precedes(entries[j].0@, entries[i].0@));
    }
}

/// The map of an ascending list gives each entry's own binding.
proof fn bindings_at(entries: Seq<(String, Binding)>, i: int)
    requires
        ascending(entries),
        0 <= i < entries.len(),
    ensures
        bindings(entries).contains_key(entries[i].0@),
        bindings(entries)[entries[i].0@] == entries[i].1,
{
    let name = entries[i].0@;
    let k = choose|k: int| 0 <= k < entries.len() && (#[trigger] entries[k]).0@ == name;
    ascending_distinct(entries, i, k);
}

/// Every name that `entries` lists is before `name`, up to position `k`, and after it
/// from there on.
spec fn splits(entries: Seq<(String, Binding)>, name: Seq<char>, k: int) -> bool {
    &&& 0 <= k <= entries.len()
    &&& forall|i: int| 0 <= i < k ==> name_precedes((#[trigger] entries[i]).0@, name)
    &&& forall|i: int| k <= i < entries.len() ==> name_precedes(name, (#[trigger] entries[i]).0@)
}

/// Where `name` stands in an ascending list, or where it would have to be put.
fn locate(entries: &Vec<(String, Binding)>, name: &str) -> (at: Result<usize, usize>)
    requires
        ascending(entries@),
    ensures
        match at {
            Ok(i) => i < entries@.len() && entries@[i as int].0@ == name@,
            Err(k) => splits(entries@, name@, k as int) && !names(entries@, name@),
        },
{
    let mut lo: usize = 0;
    let mut hi: usize = entries.len();
    while lo < hi
        invariant
            ascending(entries@),
            lo <= hi <= entries@.len(),
            forall|i: int| 0 <= i < lo ==> name_precedes((#[trigger] entries@[i]).0@, name@),
            forall|i: int|
                hi <= i < entries@.len() ==> name_precedes(name@, (#[trigger] entries@[i]).0@),
        decreases hi - lo,
    {
        let mid: usize = lo + (hi - lo) / 2;
        match place(entries[mid].0.as_str().as_bytes(), name.as_bytes()) {
            Place::Same => {
                proof {
                    encode_utf8_decode_utf8(entries@[mid as int].0@);
                    encode_utf8_decode_utf8(name@);
                }
                return Ok(mid);
            },
            Place::Before => {
                assert forall|i: int| 0 <= i < mid + 1 implies name_precedes(
                    (#[trigger] entries@[i]).0@,
                    name@,
                ) by {
                    if i < mid {
                        assert(name_precedes(entries@[i].0@, entries@[mid as int].0@));
                        precedes_transitive(
                            encode_utf8(entries@[i].0@),
                            encode_utf8(entries@[mid as int].0@),
                            encode_utf8(name@),
                        );
                    }
                }
                lo = mid + 1;
            },
            Place::After => {
                assert forall|i: int| mid <= i < entries@.len() implies name_precedes(
                    name@,
                    (#[trigger] entries@[i]).0@,
                ) by {
                    if mid < i {
                        assert(name_precedes(entries@[mid as int].0@, entries@[i].0@));
                        precedes_transitive(
                            encode_utf8(name@),
                            encode_utf8(entries@[mid as int].0@),
                            encode_utf8(entries@[i].0@),
                        );
                    }
                }
                hi = mid;
            },
        }
    }
    assert(!names(entries@, name@)) by {
        precedes_irreflexive(encode_utf8(name@));
    }
    Err(lo)
}

/// Putting a new name where it belongs keeps the list ascending and adds just that name.
proof fn inserting(entries: Seq<(String, Binding)>, entry: (String, Binding), k: int)
    requires
        ascending(entries),
        splits(entries, entry.0@, k),
        !names(entries, entry.0@),
    ensures
        ascending(entries.insert(k, entry)),
        bindings(entries.insert(k, entry)) == bindings(entries).insert(entry.0@, entry.1),
{
    let after = entries.insert(k, entry);
    assert forall|i: int, j: int| 0 <= i < j < after.len() implies name_precedes(
        (#[trigger] after[i]).0@,
        (#[trigger] after[j]).0@,
    ) by {
        let a = if i < k { i } else { i - 1 };
        let b = if j < k { j } else { j - 1 };
        if i != k {
            assert(after[i] == entries[a]);
        }
        if j != k {
            assert(after[j] == entries[b]);
        }
    }
    assert forall|name: Seq<char>| names(after, name) == (name == entry.0@ || names(entries, name)) by {
        if names(after, name) {
            let i = choose|i: int| 0 <= i < after.len() && (#[trigger] after[i]).0@ == name;
            if i < k {
                assert(entries[i].0@ == name);
            } else if i > k {
                assert(entries[i - 1].0@ == name);
            }
        }
        if names(entries, name) {
            let i = choose|i: int| 0 <= i < entries.len() && (#[trigger] entries[i]).0@ == name;
            if i < k {
                assert(after[i].0@ == name);
            } else {
                assert(after[i + 1].0@ == name);
            }
        }
        assert(after[k].0@ == entry.0@);
    }
    let wanted = bindings(entries).insert(entry.0@, entry.1);
    assert forall|name: Seq<char>| #[trigger] names(after, name) implies bindings(after)[name]
        == wanted[name] by {
        bindings_at(after, k);
        if name != entry.0@ {
            let i = choose|i: int| 0 <= i < entries.len() && (#[trigger] entries[i]).0@ == name;
            bindings_at(entries, i);
            bindings_at(after, if i < k { i } else { i + 1 });
        }
    }
    assert(bindings(after) =~= wanted);
}

/// Changing the binding of an entry changes just that name's binding.
proof fn rebinding(entries: Seq<(String, Binding)>, i: int, entry: (String, Binding))
    requires
        ascending(entries),
        0 <= i < entries.len(),
        entry.0@ == entries[i].0@,
    ensures
        ascending(entries.update(i, entry)),
        bindings(entries.update(i, entry)) == bindings(entries).insert(entry.0@, entry.1),
{
    let after = entries.update(i, entry);
    assert forall|j: int| 0 <= j < entries.len() implies (#[trigger] after[j]).0@
        == entries[j].0@ by {}
    assert forall|a: int, b: int| 0 <= a < b < after.len() implies name_precedes(
        (#[trigger] after[a]).0@,
        (#[trigger] after[b]).0@,
    ) by {
        assert(name_precedes(entries[a].0@, entries[b].0@));
    }
    assert forall|name: Seq<char>| names(after, name) == names(entries, name) by {
        if names(after, name) {
            let j = choose|j: int| 0 <= j < after.len() && (#[trigger] after[j]).0@ == name;
            assert(entries[j].0@ == name);
        }
        if names(entries, name) {
            let j = choose|j: int| 0 <= j < entries.len() && (#[trigger] entries[j]).0@ == name;
            assert(after[j].0@ == name);
        }
    }
    let wanted = bindings(entries).insert(entry.0@, entry.1);
    bindings_at(after, i);
    assert forall|name: Seq<char>| #[trigger] names(after, name) implies bindings(after)[name]
        == wanted[name] by {
        if name != entry.0@ {
            let j = choose|j: int| 0 <= j < entries.len() && (#[trigger] entries[j]).0@ == name;
            bindings_at(entries, j);
            bindings_at(after, j);
        }
    }
    assert(names(after, entry.0@));
    assert(bindings(after) =~= wanted);
}

/// An ascending list has as many names as entries.
proof fn count_names(entries: Seq<(String, Binding)>)
    requires
        ascending(entries),
    ensures
        bindings(entries).dom().finite(),
        bindings(entries).dom().len() == entries.len(),
    decreases entries.len(),
{
    let dom = bindings(entries).dom();
    if entries.len() == 0 {
        assert(dom =~= Set::empty());
    } else {
        let front = entries.drop_last();
        let name = entries.last().0@;
        assert(ascending(front)) by {
            assert forall|i: int, j: int| 0 <= i < j < front.len() implies name_precedes(
                (#[trigger] front[i]).0@,
                (#[trigger] front[j]).0@,
            ) by {
                assert(front[i] == entries[i] && front[j] == entries[j]);
            }
        }
        count_names(front);
        assert(!names(front, name)) by {
            if names(front, name) {
                let i = choose|i: int| 0 <= i < front.len() && (#[trigger] front[i]).0@ == name;
                ascending_distinct(entries, i, entries.len() - 1);
            }
        }
        assert forall|n: Seq<char>| dom.contains(n) == bindings(front).dom().insert(name).contains(n) by {
            if names(entries, n) {
                let i = choose|i: int| 0 <= i < entries.len() && (#[trigger] entries[i]).0@ == n;
                if i < front.len() {
                    assert(front[i].0@ == n);
                }
            }
            if names(front, n) {
                let i = choose|i: int| 0 <= i < front.len() && (#[trigger] front[i]).0@ == n;
                assert(entries[i].0@ == n);
            }
            assert(entries[entries.len() - 1].0@ == name);
        }
        assert(dom =~= bindings(front).dom().insert(name));
    }
}

/// One more entry of an ascending list adds just its name.
proof fn appending(entries: Seq<(String, Binding)>, i: int)
    requires
        ascending(entries),
        0 <= i < entries.len(),
    ensures
        !names(entries.take(i), entries[i].0@),
        bindings(entries.take(i + 1)) == bindings(entries.take(i)).insert(
            entries[i].0@,
            entries[i].1,
        ),
{
    let front = entries.take(i);
    let name = entries[i].0@;
    assert(ascending(front)) by {
        assert forall|a: int, b: int| 0 <= a < b < front.len() implies name_precedes(
            (#[trigger] front[a]).0@,
            (#[trigger] front[b]).0@,
        ) by {
            assert(front[a] == entries[a] && front[b] == entries[b]);
        }
    }
    assert(!names(front, name)) by {
        if names(front, name) {
            let j = choose|j: int| 0 <= j < front.len() && (#[trigger] front[j]).0@ == name;
            ascending_distinct(entries, i, j);
        }
    }
    assert(splits(front, name, i)) by {
        assert forall|a: int| 0 <= a < i implies name_precedes((#[trigger] front[a]).0@, name) by {
            assert(name_precedes(entries[a].0@, entries[i].0@));
        }
    }
    inserting(front, entries[i], i);
    assert(front.insert(i, entries[i]) =~= entries.take(i + 1));
}

/// Uniting with one more name is recording that name.
proof fn uniting_one(
    a: Map<Seq<char>, Binding>,
    b: Map<Seq<char>, Binding>,
    name: Seq<char>,
    binding: Binding,
)
    requires
        !b.contains_key(name),
    ensures
        united(a, b.insert(name, binding)) == recorded(united(a, b), name, binding),
{
    assert(united(a, b.insert(name, binding)) =~= recorded(united(a, b), name, binding));
}

/// It does not matter in which order two sets of imports are united.
pub proof fn uniting_commutes(a: Map<Seq<char>, Binding>, b: Map<Seq<char>, Binding>)
    ensures
        united(a, b) == united(b, a),
{
    assert(united(a, b) =~= united(b, a));
}

/// It does not matter how three sets of imports are grouped when they are united.
pub proof fn uniting_associates(
    a: Map<Seq<char>, Binding>,
    b: Map<Seq<char>, Binding>,
    c: Map<Seq<char>, Binding>,
)
    ensures
        united(united(a, b), c) == united(a, united(b, c)),
{
    assert(united(united(a, b), c) =~= united(a, united(b, c)));
}

/// A set of imports united with itself, or with no imports, is that set.
pub proof fn uniting_keeps(a: Map<Seq<char>, Binding>)
    ensures
        united(a, a) == a,
        united(a, Map::empty()) == a,
{
    assert(united(a, a) =~= a);
    assert(united(a, Map::empty()) =~= a);
}

/// Strong wins: a symbol is required by a union exactly when one of the two sets
/// requires it, whatever the other says of it.
pub proof fn strong_wins(
    a: Map<Seq<char>, Binding>,
    b: Map<Seq<char>, Binding>,
    name: Seq<char>,
)
    ensures
        requires_symbol(united(a, b), name) <==> requires_symbol(a, name) || requires_symbol(
            b,
            name,
        ),
        united(a, b).contains_key(name) <==> a.contains_key(name) || b.contains_key(name),
{
}

/// Recording the same two facts in either order comes to the same imports.
pub proof fn recording_commutes(
    m: Map<Seq<char>, Binding>,
    n1: Seq<char>,
    b1: Binding,
    n2: Seq<char>,
    b2: Binding,
)
    ensures
        recorded(recorded(m, n1, b1), n2, b2) == recorded(recorded(m, n2, b2), n1, b1),
{
    assert(recorded(recorded(m, n1, b1), n2, b2) =~= recorded(recorded(m, n2, b2), n1, b1));
}

impl Imports {
    #[verifier::type_invariant]
    spec fn well_formed(self) -> bool {
        ascending(self.entries@)
    }

    /// No imports at all.
    pub fn new() -> (none: Imports)
        ensures
            none@ == Map::<Seq<char>, Binding>::empty(),
    {
        let none = Imports { entries: Vec::new() };
        assert(none@ =~= Map::<Seq<char>, Binding>::empty());
        none
    }

    /// How many symbols are imported.
    pub fn len(&self) -> (n: usize)
        ensures
            n == self@.dom().len(),
            self@.dom().finite(),
    {
        proof {
            use_type_invariant(self);
            count_names(self.entries@);
        }
        self.entries.len()
    }

    /// Whether nothing is imported.
    pub fn is_empty(&self) -> (none: bool)
        ensures
            none == (self@ == Map::<Seq<char>, Binding>::empty()),
    {
        let none = self.entries.len() == 0;
        proof {
            use_type_invariant(self);
            if none {
                assert(self@ =~= Map::<Seq<char>, Binding>::empty());
            } else {
                bindings_at(self.entries@, 0);
            }
        }
        none
    }

    /// The binding of the import named `name`.
    pub fn get(&self, name: &str) -> (binding: Option<&Binding>)
        ensures
            match binding {
                Some(b) => self@.contains_key(name@) && self@[name@] == *b,
                None => !self@.contains_key(name@),
            },
    {
        proof {
            use_type_invariant(self);
        }
        match locate(&self.entries, name) {
            Ok(i) => {
                proof {
                    bindings_at(self.entries@, i as int);
                }
                Some(&self.entries[i].1)
            },
            Err(_) => None,
        }
    }

    /// Whether a symbol named `name` is imported.
    pub fn contains_key(&self, name: &str) -> (found: bool)
        ensures
            found == self@.contains_key(name@),
    {
        self.get(name).is_some()
    }

    /// The imports in ascending order of their names.
    pub fn entries(&self) -> (entries: &Vec<(String, Binding)>)
        ensures
            ascending(entries@),
            bindings(entries@) == self@,
            forall|i: int|
                0 <= i < entries@.len() ==> self@.contains_key((#[trigger] entries@[i]).0@)
                    && self@[entries@[i].0@] == entries@[i].1,
            forall|name: Seq<char>| #[trigger]
                self@.contains_key(name) ==> exists|i: int|
                    0 <= i < entries@.len() && (#[trigger] entries@[i]).0@ == name,
            forall|i: int, j: int|
                0 <= i < j < entries@.len() ==> precedes(
                    encode_utf8((#[trigger] entries@[i]).0@),
                    encode_utf8((#[trigger] entries@[j]).0@),
                ),
    {
        proof {
            use_type_invariant(self);
            let all = self.entries@;
            assert forall|i: int| 0 <= i < all.len() implies self@.contains_key(
                (#[trigger] all[i]).0@,
            ) && self@[all[i].0@] == all[i].1 by {
                bindings_at(all, i);
            }
            assert forall|i: int, j: int| 0 <= i < j < all.len() implies precedes(
                encode_utf8((#[trigger] all[i]).0@),
                encode_utf8((#[trigger] all[j]).0@),
            ) by {
                assert(name_precedes(all[i].0@, all[j].0@));
            }
        }
        &self.entries
    }

    /// Notes that `name` is imported with `binding`. A name that is already there keeps
    /// its place, and becomes strong if it was not and `binding` is.
    pub fn record(&mut self, name: &str, binding: Binding)
        ensures
            final(self)@ == recorded(old(self)@, name@, binding),
    {
        proof {
            use_type_invariant(&*self);
        }
        match locate(&self.entries, name) {
            Ok(i) => {
                proof {
                    bindings_at(self.entries@, i as int);
                }
                if binding == Binding::Strong {
                    let mut entries: Vec<(String, Binding)> = Vec::new();
                    std::mem::swap(&mut self.entries, &mut entries);
                    proof {
                        rebinding(entries@, i as int, (entries@[i as int].0, binding));
                    }
                    entries[i].1 = binding;
                    self.entries = entries;
                }
            },
            Err(k) => {
                let entry = (name.to_owned(), binding);
                let mut entries: Vec<(String, Binding)> = Vec::new();
                std::mem::swap(&mut self.entries, &mut entries);
                proof {
                    inserting(entries@, entry, k as int);
                }
                entries.insert(k, entry);
                self.entries = entries;
            },
        }
    }

    /// Adds everything that `other` imports.
    pub fn absorb(&mut self, other: &Imports)
        ensures
            final(self)@ == united(old(self)@, other@),
    {
        let ghost before = self@;
        let entries = other.entries();
        let mut i: usize = 0;
        assert(entries@.take(0) =~= Seq::empty());
        assert(united(before, bindings(entries@.take(0))) =~= before);
        while i < entries.len()
            invariant
                i <= entries@.len(),
                ascending(entries@),
                self@ == united(before, bindings(entries@.take(i as int))),
            decreases entries@.len() - i,
        {
            proof {
                appending(entries@, i as int);
                uniting_one(
                    before,
                    bindings(entries@.take(i as int)),
                    entries@[i as int].0@,
                    entries@[i as int].1,
                );
            }
            self.record(entries[i].0.as_str(), entries[i].1);
            i += 1;
        }
        assert(entries@.take(i as int) =~= entries@);
    }
}

// ---- What holds of every set of imports ----

/// Recording a name makes it an import, strong if it was or the new binding is, and
/// leaves every other name as it was.
pub proof fn recording_notes_just_the_name(
    m: Map<Seq<char>, Binding>,
    name: Seq<char>,
    binding: Binding,
    other: Seq<char>,
)
    ensures
        recorded(m, name, binding).contains_key(name),
        recorded(m, name, binding)[name] == Binding::Strong <==> binding == Binding::Strong || (
        m.contains_key(name) && m[name] == Binding::Strong),
        other != name ==> recorded(m, name, binding).contains_key(other) == m.contains_key(other),
        other != name && m.contains_key(other) ==> recorded(m, name, binding)[other] == m[other],
{
}

/// A union has the names of either set, each strong exactly where one of the two has it
/// strong.
pub proof fn a_union_has_the_names_of_either(
    a: Map<Seq<char>, Binding>,
    b: Map<Seq<char>, Binding>,
    name: Seq<char>,
)
    ensures
        united(a, b).contains_key(name) <==> a.contains_key(name) || b.contains_key(name),
        united(a, b).contains_key(name) ==> (united(a, b)[name] == Binding::Strong <==> (
        a.contains_key(name) && a[name] == Binding::Strong) || (b.contains_key(name) && b[name]
            == Binding::Strong)),
{
}

} // verus!
