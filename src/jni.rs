use vstd::prelude::*;

use crate::mmap::{
    MemoryMapping, MappingPlan, PlanError, Segment, PT_LOAD, align_down, image_span, load_segments, plan_error,
    plan_mapping, plan_ops, seg_start,
};
use crate::reloc::{
    Arch, MemoryWrite, Relocation, needs_symbol, relocation_kind, relocation_write, spec_kind,
    spec_relocation_write,
};
use crate::symbols::{
    DynamicSymbols, LinkingSymbol, SymbolName, SymbolView, UNDEFINED_SYMBOL_VALUE,
    hash_index, image_address, image_offset, spec_from_override, spec_from_symbol,
    spec_hash_index, symbol_view,
};

verus! {

/// ELF type of a shared object.
pub const ET_DYN: u16 = 3;

/// Why a loader could not be created or completed.
#[derive(Clone, Debug, PartialEq, Eq)]
pub enum Error {
    FileNotFound,
    FailedToOpen,
    NotDynamicObject,
    MemoryMapFailed(String),
    NoDynamicSection,
}

/// An entry of a map keyed by name that keeps the order of insertion.
#[derive(Clone, Debug)]
pub struct NamedEntry<V> {
    pub name: String,
    pub value: V,
}

/// The entries as (name, value) pairs.
pub open spec fn entries_view<V>(s: Seq<NamedEntry<V>>) -> Seq<(Seq<char>, V)> {
    s.map_values(|e: NamedEntry<V>| (e.name@, e.value))
}

/// No two entries share a name.
pub open spec fn keys_unique<V>(s: Seq<(Seq<char>, V)>) -> bool {
    forall|i: int, j: int| 0 <= i < j < s.len() ==> s[i].0 != s[j].0
}

/// Whether some entry carries `name`.
pub open spec fn has_key<V>(s: Seq<(Seq<char>, V)>, name: Seq<char>) -> bool {
    exists|i: int| 0 <= i < s.len() && s[i].0 == name
}

/// The position of the entry that carries `name`.
pub open spec fn key_index<V>(s: Seq<(Seq<char>, V)>, name: Seq<char>) -> int {
    choose|i: int| 0 <= i < s.len() && s[i].0 == name
}

/// The value stored under `name`, if any.
pub open spec fn entry_lookup<V>(s: Seq<(Seq<char>, V)>, name: Seq<char>) -> Option<V> {
    if has_key(s, name) {
        Some(s[key_index(s, name)].1)
    } else {
        None
    }
}

/// The entries after storing `value` under `name`: in place where the name
/// is present, else at the end.
pub open spec fn entry_insert<V>(s: Seq<(Seq<char>, V)>, name: Seq<char>, value: V) -> Seq<(Seq<char>, V)> {
    if has_key(s, name) {
        s.update(key_index(s, name), (name, value))
    } else {
        s.push((name, value))
    }
}

/// Each value after an insertion is the inserted one or the one that stood
/// at that position.
proof fn lemma_insert_values<V>(s: Seq<(Seq<char>, V)>, name: Seq<char>, v: V, k: int)
    requires
        0 <= k < entry_insert(s, name, v).len(),
    ensures
        entry_insert(s, name, v)[k].1 == v || (k < s.len() && entry_insert(s, name, v)[k].1 == s[k].1),
{
    if has_key(s, name) {
        let p = key_index(s, name);
        assert(0 <= p < s.len());
        if k != p {
            assert(entry_insert(s, name, v)[k] == s[k]);
        }
    } else {
        if k < s.len() {
            assert(entry_insert(s, name, v)[k] == s[k]);
        }
    }
}

/// Finds the position of `name` among entries with unique names.
fn find_entry<V>(entries: &Vec<NamedEntry<V>>, name: &String) -> (r: Option<usize>)
    requires
        keys_unique(entries_view(entries@)),
    ensures
        r is None <==> !has_key(entries_view(entries@), name@),
        r matches Some(i) ==> i < entries@.len() && i == key_index(entries_view(entries@), name@),
{
    let ghost v = entries_view(entries@);
    let mut i: usize = 0;
    while i < entries.len()
        invariant
            0 <= i <= entries@.len(),
            v == entries_view(entries@),
            keys_unique(v),
            forall|j: int| 0 <= j < i ==> v[j].0 != name@,
        decreases entries@.len() - i,
    {
        if entries[i].name == *name {
            proof {
                assert(v[i as int].0 == name@);
                let k = key_index(v, name@);
                assert(0 <= k < v.len() && v[k].0 == name@);
                if k < i {
                    assert(v[k].0 != v[i as int].0);
                }
                if k > i {
                    assert(v[i as int].0 != v[k].0);
                }
            }
            return Some(i);
        }
        i = i + 1;
    }
    None
}

/// Stores `value` under `name`, keeping the order of insertion.
fn insert_entry<V>(entries: &mut Vec<NamedEntry<V>>, name: String, value: V)
    requires
        keys_unique(entries_view(old(entries)@)),
    ensures
        entries_view(final(entries)@) == entry_insert(entries_view(old(entries)@), name@, value),
        keys_unique(entries_view(final(entries)@)),
{
    let ghost v = entries_view(entries@);
    let ghost nm = name@;
    match find_entry(entries, &name) {
        Some(i) => {
            entries.set(i, NamedEntry { name, value });
            proof {
                assert(entries_view(entries@) =~= v.update(i as int, (nm, value)));
            }
        },
        None => {
            entries.push(NamedEntry { name, value });
            proof {
                assert(entries_view(entries@) =~= v.push((nm, value)));
            }
        },
    }
}

/// The value stored under `name`.
fn lookup_entry<V: Copy>(entries: &Vec<NamedEntry<V>>, name: &String) -> (r: Option<V>)
    requires
        keys_unique(entries_view(entries@)),
    ensures
        r == entry_lookup(entries_view(entries@), name@),
{
    match find_entry(entries, name) {
        Some(i) => Some(entries[i].value),
        None => None,
    }
}

/// What `.dynamic` gives: the DT_NEEDED names and the DT_RUNPATH.
#[derive(Clone, Debug)]
pub struct DynamicInfo {
    pub needed: Vec<String>,
    pub runpath: Option<String>,
}

/// `.got.plt`: its file virtual address and its slots as the file has them.
#[derive(Clone, Debug)]
pub struct GotPlt {
    pub address: u64,
    pub entries: Vec<u64>,
}

/// What the loader reads from an object's ELF file.
#[derive(Clone, Debug)]
pub struct ObjectInfo {
    pub e_type: u16,
    pub arch: Arch,
    pub segments: Vec<Segment>,
    /// Absent where the file has no `.dynamic` or no `.dynstr`.
    pub dynamic: Option<DynamicInfo>,
    pub symbols: Option<DynamicSymbols>,
    /// `.rel.dyn` then `.rela.dyn`.
    pub dyn_relocations: Vec<Relocation>,
    pub rel_plt: Vec<Relocation>,
    pub rela_plt: Vec<Relocation>,
    pub got_plt: Option<GotPlt>,
}

/// Where the lazy PLT path sends unresolved calls: the trampoline, which
/// finds each loader's PLT data record through `.got.plt[1]`.
#[derive(Clone, Copy, Debug, PartialEq, Eq)]
pub struct PltInstall {
    pub trampoline: u64,
}

/// One loaded shared object.
#[derive(Clone, Debug)]
pub struct JNI {
    pub path: String,
    pub name: String,
    pub info: ObjectInfo,
    pub mapping: MemoryMapping,
    /// The page start of the lowest PT_LOAD virtual address of the file:
    /// the file address that the image base stands for.
    pub base_virtual_address: u64,
    /// Dependency SONAME to loader index; `None` for a dependency that is
    /// known but not loaded.
    pub dependencies: Vec<NamedEntry<Option<usize>>>,
    pub loaded_dependencies: bool,
    /// Symbol name to override; `None` declares the symbol undefined.
    pub symbol_overrides: Vec<NamedEntry<Option<u64>>>,
    /// The address of this loader's PLT data record, which stays in place
    /// while the loader lives.
    pub plt_data: u64,
}

/// The characters after the last `/`.
pub open spec fn spec_file_name(path: Seq<char>) -> Seq<char>
    decreases path.len(),
{
    if path.len() == 0 {
        Seq::empty()
    } else if path.last() == '/' {
        Seq::empty()
    } else {
        spec_file_name(path.drop_last()).push(path.last())
    }
}

/// The last component of a path.
pub fn file_name(path: &str) -> (r: String)
    ensures
        r@ == spec_file_name(path@),
{
    let n = path.unicode_len();
    let mut start: usize = n;
    proof {
        assert(path@.take(n as int) =~= path@);
        assert(path@.subrange(n as int, n as int) =~= Seq::<char>::empty());
        assert(spec_file_name(path@) + Seq::<char>::empty() =~= spec_file_name(path@));
    }
    while start > 0 && path.get_char(start - 1) != '/'
        invariant
            0 <= start <= n,
            n == path@.len(),
            spec_file_name(path@) == spec_file_name(path@.take(start as int)) + path@.subrange(
                start as int,
                n as int,
            ),
        decreases start,
    {
        proof {
            let t = path@.take(start as int);
            assert(t.drop_last() =~= path@.take(start - 1));
            assert(t.last() == path@[start - 1]);
            assert(path@.subrange(start - 1, n as int) =~= seq![path@[start - 1]] + path@.subrange(
                start as int,
                n as int,
            ));
            assert(spec_file_name(t) == spec_file_name(path@.take(start - 1)).push(path@[start - 1]));
            assert(spec_file_name(path@.take(start - 1)).push(path@[start - 1]) + path@.subrange(
                start as int,
                n as int,
            ) =~= spec_file_name(path@.take(start - 1)) + path@.subrange(start - 1, n as int));
        }
        start = start - 1;
    }
    proof {
        assert(spec_file_name(path@.take(start as int)) =~= Seq::empty());
        assert(path@.take(n as int) =~= path@);
    }
    let tail = path.substring_char(start, n);
    tail.to_owned()
}

/// The lowest PT_LOAD virtual address: that of the first PT_LOAD entry.
pub open spec fn spec_first_load_vaddr(segments: Seq<Segment>) -> u64 {
    let l = load_segments(segments);
    if l.len() == 0 {
        0
    } else {
        l[0].p_vaddr
    }
}

/// The first PT_LOAD entries of a table are the loads of a prefix.
proof fn lemma_loads_prefix(s: Seq<Segment>, i: int)
    requires
        0 <= i <= s.len(),
        load_segments(s.take(i)).len() == 0,
    ensures
        i < s.len() && s[i].p_type == PT_LOAD ==> load_segments(s).len() > 0 && load_segments(s)[0] == s[i],
        i < s.len() && s[i].p_type != PT_LOAD ==> load_segments(s.take(i + 1)).len() == 0,
        i == s.len() ==> load_segments(s).len() == 0,
    decreases s.len() - i,
{
    if i == s.len() {
        assert(s.take(i) =~= s);
    } else {
        assert(s.take(i + 1).drop_last() =~= s.take(i));
        if s[i].p_type == PT_LOAD {
            lemma_loads_keep_first(s, i + 1);
        }
    }
}

/// Once the loads of a prefix are non-empty, their first stays first.
proof fn lemma_loads_keep_first(s: Seq<Segment>, j: int)
    requires
        1 <= j <= s.len(),
        load_segments(s.take(j)).len() > 0,
    ensures
        load_segments(s).len() > 0,
        load_segments(s)[0] == load_segments(s.take(j))[0],
    decreases s.len() - j,
{
    if j == s.len() {
        assert(s.take(j) =~= s);
    } else {
        assert(s.take(j + 1).drop_last() =~= s.take(j));
        lemma_loads_keep_first(s, j + 1);
    }
}

/// The lowest PT_LOAD virtual address of a table.
fn first_load_vaddr(segments: &Vec<Segment>) -> (r: u64)
    ensures
        r == spec_first_load_vaddr(segments@),
{
    let mut i: usize = 0;
    while i < segments.len()
        invariant
            0 <= i <= segments@.len(),
            load_segments(segments@.take(i as int)).len() == 0,
        decreases segments@.len() - i,
    {
        proof {
            lemma_loads_prefix(segments@, i as int);
        }
        if segments[i].p_type == PT_LOAD {
            return segments[i].p_vaddr;
        }
        i = i + 1;
    }
    proof {
        lemma_loads_prefix(segments@, i as int);
    }
    0
}

/// The error message for a plan that cannot be made.
pub fn plan_error_reason(e: PlanError) -> (r: String)
    ensures
        r@.len() > 0,
{
    let s = match e {
        PlanError::NoLoadSegments => "no loadable segment",
        PlanError::AlignmentTooLarge => "segment alignment larger than the page size",
        PlanError::BadLayout => "loadable segments overlap or exceed the address space",
    };
    proof {
        reveal_strlit("no loadable segment");
        reveal_strlit("segment alignment larger than the page size");
        reveal_strlit("loadable segments overlap or exceed the address space");
    }
    s.to_owned()
}

impl JNI {
    /// Checks that the file is a shared object with a `.dynamic` section and
    /// plans its image. The failures come in this order: not a shared
    /// object, no plan for its segments, no `.dynamic`.
    pub fn prepare(info: &ObjectInfo, page_size: u64) -> (r: Result<MappingPlan, Error>)
        requires
            page_size > 0,
        ensures
            info.e_type != ET_DYN ==> r == Err::<MappingPlan, Error>(Error::NotDynamicObject),
            info.e_type == ET_DYN && plan_error(load_segments(info.segments@), page_size as int) is Some ==> (
            r matches Err(e) && e is MemoryMapFailed),
            info.e_type == ET_DYN && plan_error(load_segments(info.segments@), page_size as int) is None
                && info.dynamic is None ==> r == Err::<MappingPlan, Error>(Error::NoDynamicSection),
            r is Ok <==> (info.e_type == ET_DYN && plan_error(load_segments(info.segments@), page_size as int) is None
                && info.dynamic is Some),
            r matches Ok(plan) ==> plan.size == image_span(load_segments(info.segments@), page_size as int)
                && plan.ops@ == plan_ops(load_segments(info.segments@), page_size as int),
    {
        if info.e_type != ET_DYN {
            return Err(Error::NotDynamicObject);
        }
        let plan = match plan_mapping(&info.segments, page_size) {
            Ok(plan) => plan,
            Err(e) => {
                return Err(Error::MemoryMapFailed(plan_error_reason(e)));
            },
        };
        if info.dynamic.is_none() {
            return Err(Error::NoDynamicSection);
        }
        Ok(plan)
    }

    /// The image of this object matches its segments for page size `page`:
    /// they plan, the image spans them, its base stands for the first
    /// segment's page start, and it ends within the address space.
    pub open spec fn image_matches(&self, page: int) -> bool {
        let l = load_segments(self.info.segments@);
        &&& page > 0
        &&& plan_error(l, page) is None
        &&& self.base_virtual_address == seg_start(l[0], page)
        &&& self.mapping.size == image_span(l, page)
        &&& self.mapping.base + self.mapping.size <= u64::MAX
    }

    /// A loader for the object at `path`, read as `info` and mapped at
    /// `mapping` for page size `page_size`, with its PLT data record at
    /// `plt_data`. Image addresses count from the page start of the first
    /// PT_LOAD segment. It has no dependency and no override yet.
    pub fn new(path: String, info: ObjectInfo, mapping: MemoryMapping, page_size: u64, plt_data: u64) -> (r: JNI)
        requires
            page_size > 0,
            plan_error(load_segments(info.segments@), page_size as int) is None,
            mapping.size == image_span(load_segments(info.segments@), page_size as int),
            mapping.base + mapping.size <= u64::MAX,
        ensures
            r.image_matches(page_size as int),
            r.plt_data == plt_data,
            r.path == path,
            r.name@ == spec_file_name(path@),
            r.info == info,
            r.mapping == mapping,
            r.dependencies@.len() == 0,
            !r.loaded_dependencies,
            r.symbol_overrides@.len() == 0,
    {
        let name = file_name(path.as_str());
        let base_virtual_address = align_down(first_load_vaddr(&info.segments), page_size);
        JNI {
            path,
            name,
            info,
            mapping,
            base_virtual_address,
            dependencies: Vec::new(),
            loaded_dependencies: false,
            symbol_overrides: Vec::new(),
            plt_data,
        }
    }

    /// Name and override tables have unique keys.
    pub open spec fn wf(&self) -> bool {
        &&& keys_unique(entries_view(self.dependencies@))
        &&& keys_unique(entries_view(self.symbol_overrides@))
    }

    /// Translates a file virtual address into this object's image.
    pub fn get_offset(&self, offset: u64) -> (r: u64)
        ensures
            r == image_address(self.mapping.base, self.base_virtual_address, offset),
    {
        image_offset(self.mapping.base, self.base_virtual_address, offset)
    }

    /// Registers an override for `symbol_name`: `Some(address)` to use that
    /// address, `None` to declare the symbol undefined.
    pub fn override_symbol(&mut self, symbol_name: &str, new_value: Option<u64>)
        requires
            old(self).wf(),
        ensures
            final(self).wf(),
            entries_view(final(self).symbol_overrides@) == entry_insert(
                entries_view(old(self).symbol_overrides@),
                symbol_name@,
                new_value,
            ),
            final(self).dependencies == old(self).dependencies,
            final(self).info == old(self).info,
            final(self).mapping == old(self).mapping,
            final(self).base_virtual_address == old(self).base_virtual_address,
            final(self).loaded_dependencies == old(self).loaded_dependencies,
            final(self).path == old(self).path,
            final(self).name == old(self).name,
    {
        insert_entry(&mut self.symbol_overrides, symbol_name.to_owned(), new_value);
    }
}


/// The address an override stands for: its value, or the undefined-symbol
/// sentinel for an override without one.
pub open spec fn override_address(v: Option<u64>) -> u64 {
    match v {
        Some(a) => a,
        None => UNDEFINED_SYMBOL_VALUE,
    }
}

/// The override that applies to `name`, where overrides are consulted.
pub open spec fn applicable_override(o: JNI, name: Seq<char>, inc: bool) -> Option<Option<u64>> {
    if inc {
        entry_lookup(entries_view(o.symbol_overrides@), name)
    } else {
        None
    }
}

/// The `.dynsym` entry at `index` of an object, as a linking symbol.
pub open spec fn spec_local_by_index(o: JNI, index: u32, inc: bool) -> Option<SymbolView> {
    match o.info.symbols {
        None => None,
        Some(d) => if index as int >= d.entries@.len() {
            None
        } else {
            let e = d.entries@[index as int];
            match e.name {
                SymbolName::Unreadable => None,
                SymbolName::Anonymous => Some(
                    spec_from_symbol(e, None, o.mapping.base, o.base_virtual_address),
                ),
                SymbolName::Named(n) => match applicable_override(o, n@, inc) {
                    Some(v) => Some(spec_from_override(e, Some(n@), override_address(v))),
                    None => Some(spec_from_symbol(e, Some(n@), o.mapping.base, o.base_virtual_address)),
                },
            }
        },
    }
}

/// The symbol that an object's hash tables give for `name`.
pub open spec fn spec_local_by_name(o: JNI, name: Seq<char>, inc: bool) -> Option<SymbolView> {
    match o.info.symbols {
        None => None,
        Some(d) => match spec_hash_index(d, name) {
            Some(Some(i)) => if i >= d.entries@.len() {
                None
            } else {
                let e = d.entries@[i as int];
                match applicable_override(o, name, inc) {
                    Some(v) => Some(spec_from_override(e, Some(name), override_address(v))),
                    None => Some(spec_from_symbol(e, Some(name), o.mapping.base, o.base_virtual_address)),
                }
            },
            _ => None,
        },
    }
}

impl JNI {
    /// Looks up the `.dynsym` entry at `index`. With `include_overrides`, a
    /// named symbol with an override gets the override's address (the
    /// sentinel for an override without one).
    pub fn find_local_symbol_by_index(&self, index: u32, include_overrides: bool) -> (r: Option<LinkingSymbol>)
        requires
            self.wf(),
        ensures
            symbol_view(r) == spec_local_by_index(*self, index, include_overrides),
    {
        match &self.info.symbols {
            None => None,
            Some(d) => {
                if index as usize >= d.entries.len() {
                    return None;
                }
                let e = &d.entries[index as usize];
                match &e.name {
                    SymbolName::Unreadable => None,
                    SymbolName::Anonymous => Some(
                        LinkingSymbol::from(e, None, self.mapping.base, self.base_virtual_address),
                    ),
                    SymbolName::Named(n) => {
                        if include_overrides {
                            match lookup_entry(&self.symbol_overrides, n) {
                                Some(v) => {
                                    let address = match v {
                                        Some(a) => a,
                                        None => UNDEFINED_SYMBOL_VALUE,
                                    };
                                    return Some(LinkingSymbol::from_override(e, Some(n.clone()), address));
                                },
                                None => {},
                            }
                        }
                        Some(LinkingSymbol::from(e, Some(n.clone()), self.mapping.base, self.base_virtual_address))
                    },
                }
            },
        }
    }

    /// Looks `symbol_name` up through `.gnu.hash`, then `.hash`; `.dynsym`
    /// is not scanned. With `include_overrides`, an override of the found
    /// symbol supplies its address.
    pub fn find_local_symbol_by_name(&self, symbol_name: &str, include_overrides: bool) -> (r: Option<LinkingSymbol>)
        requires
            self.wf(),
        ensures
            symbol_view(r) == spec_local_by_name(*self, symbol_name@, include_overrides),
    {
        match &self.info.symbols {
            None => None,
            Some(d) => match hash_index(d, symbol_name) {
                Some(Some(i)) => {
                    if i >= d.entries.len() {
                        return None;
                    }
                    let e = &d.entries[i];
                    let name = symbol_name.to_owned();
                    if include_overrides {
                        match lookup_entry(&self.symbol_overrides, &name) {
                            Some(v) => {
                                let address = match v {
                                    Some(a) => a,
                                    None => UNDEFINED_SYMBOL_VALUE,
                                };
                                return Some(LinkingSymbol::from_override(e, Some(name), address));
                            },
                            None => {},
                        }
                    }
                    Some(LinkingSymbol::from(e, Some(name), self.mapping.base, self.base_virtual_address))
                },
                _ => None,
            },
        }
    }
}

/// A set of loaders, indexed by position, with their initialization flags.
/// Dependencies are edges between positions.
pub struct LoaderSet {
    pub objects: Vec<JNI>,
    pub initialized: Vec<bool>,
}

/// Every dependency edge points into the set.
pub open spec fn deps_in_range(objs: Seq<JNI>) -> bool {
    forall|i: int, k: int|
        0 <= i < objs.len() && 0 <= k < objs[i].dependencies@.len() ==> match #[trigger] objs[i].dependencies@[k].value {
            Some(d) => d < objs.len(),
            None => true,
        }
}

/// How many flags are clear.
pub open spec fn count_clear(s: Seq<bool>) -> nat
    decreases s.len(),
{
    if s.len() == 0 {
        0
    } else {
        count_clear(s.drop_last()) + if s.last() {
            0nat
        } else {
            1nat
        }
    }
}

proof fn lemma_count_clear_set(s: Seq<bool>, i: int)
    requires
        0 <= i < s.len(),
        !s[i],
    ensures
        count_clear(s.update(i, true)) + 1 == count_clear(s),
    decreases s.len(),
{
    let u = s.update(i, true);
    if i == s.len() - 1 {
        assert(u.drop_last() =~= s.drop_last());
    } else {
        assert(u.drop_last() =~= s.drop_last().update(i, true));
        lemma_count_clear_set(s.drop_last(), i);
    }
}

proof fn lemma_count_clear_monotone(a: Seq<bool>, b: Seq<bool>)
    requires
        a.len() == b.len(),
        forall|j: int| 0 <= j < a.len() && a[j] ==> b[j],
    ensures
        count_clear(b) <= count_clear(a),
    decreases a.len(),
{
    if a.len() > 0 {
        lemma_count_clear_monotone(a.drop_last(), b.drop_last());
    }
}

proof fn lemma_count_clear_all(n: nat)
    ensures
        count_clear(Seq::new(n, |_i: int| false)) == n,
    decreases n,
{
    if n > 0 {
        assert(Seq::new(n, |_i: int| false).drop_last() =~= Seq::new((n - 1) as nat, |_i: int| false));
        lemma_count_clear_all((n - 1) as nat);
    }
}

/// Global lookup from object `id`: depth-first over its dependencies in
/// insertion order, each dependency's own tables before its dependencies.
/// An entry found without an address (undefined there, no override) does
/// not end the search.
/// Objects marked in `visiting` are on the lookup stack and are not entered
/// again.
pub open spec fn spec_global(
    objs: Seq<JNI>,
    id: int,
    name: Seq<char>,
    inc: bool,
    visiting: Seq<bool>,
    fuel: nat,
) -> Option<SymbolView>
    decreases fuel, 0int,
{
    if !(0 <= id < objs.len()) || id >= visiting.len() || visiting[id] || fuel == 0 {
        None
    } else {
        spec_scan(objs, id, 0, name, inc, visiting.update(id, true), (fuel - 1) as nat)
    }
}

/// The dependencies of `id` from position `k` on.
pub open spec fn spec_scan(
    objs: Seq<JNI>,
    id: int,
    k: int,
    name: Seq<char>,
    inc: bool,
    visiting: Seq<bool>,
    fuel: nat,
) -> Option<SymbolView>
    decreases fuel, objs[id].dependencies@.len() - k,
{
    if !(0 <= id < objs.len()) || k < 0 || k >= objs[id].dependencies@.len() {
        None
    } else {
        match objs[id].dependencies@[k].value {
            Some(d) if d < objs.len() => {
                let found = match spec_local_by_name(objs[d as int], name, inc) {
                    Some(s) if s.address is Some => Some(s),
                    _ => spec_global(objs, d as int, name, inc, visiting, fuel),
                };
                if found is Some {
                    found
                } else {
                    spec_scan(objs, id, k + 1, name, inc, visiting, fuel)
                }
            },
            _ => spec_scan(objs, id, k + 1, name, inc, visiting, fuel),
        }
    }
}

/// The global lookup of `name` that starts at `id` with an empty stack.
pub open spec fn spec_find_global(objs: Seq<JNI>, id: int, name: Seq<char>, inc: bool) -> Option<SymbolView> {
    spec_global(objs, id, name, inc, Seq::new(objs.len(), |_i: int| false), objs.len())
}

impl LoaderSet {
    pub open spec fn wf(&self) -> bool {
        &&& self.objects@.len() == self.initialized@.len()
        &&& forall|i: int| 0 <= i < self.objects@.len() ==> (#[trigger] self.objects@[i]).wf()
        &&& deps_in_range(self.objects@)
    }

    /// An empty set.
    pub fn new() -> (r: LoaderSet)
        ensures
            r.wf(),
            r.objects@.len() == 0,
    {
        LoaderSet { objects: Vec::new(), initialized: Vec::new() }
    }

    /// Depth-first search of the dependencies of `id`, guarded by `visiting`,
    /// which comes back unchanged.
    fn search(&self, id: usize, name: &str, include_overrides: bool, visiting: Vec<bool>) -> (r: (Option<
        LinkingSymbol,
    >, Vec<bool>))
        requires
            self.wf(),
            id < self.objects@.len(),
            visiting@.len() == self.objects@.len(),
        ensures
            r.1@ == visiting@,
            symbol_view(r.0) == spec_global(
                self.objects@,
                id as int,
                name@,
                include_overrides,
                visiting@,
                count_clear(visiting@),
            ),
        decreases count_clear(visiting@),
    {
        let ghost objs = self.objects@;
        let ghost v0 = visiting@;
        let mut visiting = visiting;
        if visiting[id] {
            return (None, visiting);
        }
        proof {
            lemma_count_clear_set(v0, id as int);
        }
        visiting.set(id, true);
        let ghost v1 = visiting@;
        let ghost fuel = (count_clear(v0) - 1) as nat;
        let n_deps = self.objects[id].dependencies.len();
        let mut k: usize = 0;
        #[verifier::loop_isolation(false)]
        while k < n_deps
            invariant
                self.wf(),
                objs == self.objects@,
                id < objs.len(),
                n_deps == objs[id as int].dependencies@.len(),
                0 <= k <= n_deps,
                visiting@ == v1,
                count_clear(v1) == fuel,
                count_clear(v1) + 1 == count_clear(v0),
                spec_global(objs, id as int, name@, include_overrides, v0, count_clear(v0)) == spec_scan(
                    objs,
                    id as int,
                    k as int,
                    name@,
                    include_overrides,
                    v1,
                    fuel,
                ),
                v0.len() == objs.len(),
                !v0[id as int],
                v1 == v0.update(id as int, true),
            decreases n_deps - k,
        {
            let target = self.objects[id].dependencies[k].value;
            match target {
                Some(d) => {
                    proof {
                        assert(match objs[id as int].dependencies@[k as int].value {
                            Some(d) => d < objs.len(),
                            None => true,
                        });
                    }
                    let local = self.objects[d].find_local_symbol_by_name(name, include_overrides);
                    let defined = match &local {
                        Some(s) => s.address.is_some(),
                        None => false,
                    };
                    let found = match local {
                        Some(s) if defined => Some(s),
                        _ => {
                            let (g, back) = self.search(d, name, include_overrides, visiting);
                            visiting = back;
                            g
                        },
                    };
                    if found.is_some() {
                        visiting.set(id, false);
                        proof {
                            assert(visiting@ =~= v0);
                        }
                        return (found, visiting);
                    }
                },
                None => {},
            }
            k = k + 1;
        }
        visiting.set(id, false);
        proof {
            assert(visiting@ =~= v0);
        }
        (None, visiting)
    }

    /// Looks `symbol_name` up among the dependencies of `id`, depth-first in
    /// insertion order; an object already on the lookup stack is skipped.
    pub fn find_global_symbol(&self, id: usize, symbol_name: &str, include_overrides: bool) -> (r: Option<
        LinkingSymbol,
    >)
        requires
            self.wf(),
            id < self.objects@.len(),
        ensures
            symbol_view(r) == spec_find_global(self.objects@, id as int, symbol_name@, include_overrides),
    {
        let n = self.objects.len();
        let mut visiting: Vec<bool> = Vec::new();
        let mut i: usize = 0;
        while i < n
            invariant
                0 <= i <= n,
                n == self.objects@.len(),
                visiting@ == Seq::new(i as nat, |_i: int| false),
            decreases n - i,
        {
            visiting.push(false);
            proof {
                assert(visiting@ =~= Seq::new((i + 1) as nat, |_i: int| false));
            }
            i = i + 1;
        }
        proof {
            lemma_count_clear_all(n as nat);
        }
        let (r, _) = self.search(id, symbol_name, include_overrides, visiting);
        r
    }
}


/// The marker written to `.got.plt[0]` when the lazy PLT path is installed.
pub const PLT_MARKER: u64 = 0xCAFEBABE;

/// The address of a symbol that a relocation names, for object `id`: the
/// local entry (or its override), else, for a named entry without an
/// address, the global lookup. Symbol index 0 names no symbol.
pub open spec fn spec_resolve(objs: Seq<JNI>, id: int, sym: u32) -> Option<u64> {
    if sym == 0 {
        None
    } else {
        match spec_local_by_index(objs[id], sym, true) {
            None => None,
            Some(l) => if l.address is Some {
                l.address
            } else {
                match l.name {
                    None => None,
                    Some(n) => match spec_find_global(objs, id, n, true) {
                        Some(g) => g.address,
                        None => None,
                    },
                }
            },
        }
    }
}

/// The write of one relocation of object `id`; none where the type writes
/// nothing or its symbol cannot be resolved.
pub open spec fn spec_object_reloc(objs: Seq<JNI>, id: int, rel: Relocation) -> Option<MemoryWrite> {
    let o = objs[id];
    let kind = spec_kind(o.info.arch, rel.rel_type);
    let target = image_address(o.mapping.base, o.base_virtual_address, rel.offset);
    if needs_symbol(kind) {
        match spec_resolve(objs, id, rel.symbol) {
            Some(a) => spec_relocation_write(kind, target, o.mapping.base, rel.addend, a),
            None => None,
        }
    } else {
        spec_relocation_write(kind, target, o.mapping.base, rel.addend, 0)
    }
}

/// The writes of a list of relocations of object `id`, in order.
pub open spec fn spec_reloc_writes(objs: Seq<JNI>, id: int, rels: Seq<Relocation>) -> Seq<MemoryWrite>
    decreases rels.len(),
{
    if rels.len() == 0 {
        Seq::empty()
    } else {
        let w = spec_reloc_writes(objs, id, rels.drop_last());
        match spec_object_reloc(objs, id, rels.last()) {
            Some(x) => w.push(x),
            None => w,
        }
    }
}

proof fn lemma_reloc_writes_concat(objs: Seq<JNI>, id: int, a: Seq<Relocation>, b: Seq<Relocation>)
    ensures
        spec_reloc_writes(objs, id, a + b) == spec_reloc_writes(objs, id, a) + spec_reloc_writes(objs, id, b),
    decreases b.len(),
{
    if b.len() == 0 {
        assert(a + b =~= a);
        assert(spec_reloc_writes(objs, id, a) + Seq::<MemoryWrite>::empty() =~= spec_reloc_writes(objs, id, a));
    } else {
        assert((a + b).drop_last() =~= a + b.drop_last());
        assert((a + b).last() == b.last());
        lemma_reloc_writes_concat(objs, id, a, b.drop_last());
        let wa = spec_reloc_writes(objs, id, a);
        let wb = spec_reloc_writes(objs, id, b.drop_last());
        match spec_object_reloc(objs, id, b.last()) {
            Some(x) => {
                assert((wa + wb).push(x) =~= wa + wb.push(x));
            },
            None => {},
        }
    }
}

/// The address of slot `i` of a table of 8-byte slots at `a`.
pub open spec fn got_slot(a: u64, i: int) -> u64 {
    ((a + 8 * i) % 0x1_0000_0000_0000_0000) as u64
}

/// The `.got.plt` writes of the lazy PLT path: the marker, the object's PLT
/// data record and the trampoline in slots 0 to 2, and each later slot moved
/// from a file address to an image address. A table of fewer than three
/// slots is left alone.
pub open spec fn spec_got_writes(o: JNI, plt: PltInstall) -> Seq<MemoryWrite> {
    match o.info.got_plt {
        None => Seq::empty(),
        Some(g) => if g.entries@.len() < 3 {
            Seq::empty()
        } else {
            let a = image_address(o.mapping.base, o.base_virtual_address, g.address);
            seq![
                MemoryWrite::Word64 { address: got_slot(a, 0), value: PLT_MARKER },
                MemoryWrite::Word64 { address: got_slot(a, 1), value: o.plt_data },
                MemoryWrite::Word64 { address: got_slot(a, 2), value: plt.trampoline },
            ] + Seq::new(
                (g.entries@.len() - 3) as nat,
                |i: int|
                    MemoryWrite::Word64 {
                        address: got_slot(a, i + 3),
                        value: image_address(o.mapping.base, o.base_virtual_address, g.entries@[i + 3]),
                    },
            )
        },
    }
}

/// The relocations that `initialize` applies: `.rel.dyn` and `.rela.dyn`
/// always, `.rel.plt` and `.rela.plt` too where the lazy path is not used.
pub open spec fn relocations_for(o: JNI, plt: Option<PltInstall>) -> Seq<Relocation> {
    if plt is None {
        o.info.dyn_relocations@ + o.info.rel_plt@ + o.info.rela_plt@
    } else {
        o.info.dyn_relocations@
    }
}

/// Everything that initializing object `id` itself writes.
pub open spec fn spec_own_writes(objs: Seq<JNI>, id: int, plt: Option<PltInstall>) -> Seq<MemoryWrite> {
    spec_reloc_writes(objs, id, relocations_for(objs[id], plt)) + match plt {
        Some(p) => spec_got_writes(objs[id], p),
        None => Seq::empty(),
    }
}

/// The writes of the objects in `order`, one after the other.
pub open spec fn flatten_writes(objs: Seq<JNI>, order: Seq<int>, plt: Option<PltInstall>) -> Seq<MemoryWrite>
    decreases order.len(),
{
    if order.len() == 0 {
        Seq::empty()
    } else {
        flatten_writes(objs, order.drop_last(), plt) + spec_own_writes(objs, order.last(), plt)
    }
}

proof fn lemma_flatten_concat(objs: Seq<JNI>, a: Seq<int>, b: Seq<int>, plt: Option<PltInstall>)
    ensures
        flatten_writes(objs, a + b, plt) == flatten_writes(objs, a, plt) + flatten_writes(objs, b, plt),
    decreases b.len(),
{
    if b.len() == 0 {
        assert(a + b =~= a);
        assert(flatten_writes(objs, a, plt) + Seq::<MemoryWrite>::empty() =~= flatten_writes(objs, a, plt));
    } else {
        assert((a + b).drop_last() =~= a + b.drop_last());
        assert((a + b).last() == b.last());
        lemma_flatten_concat(objs, a, b.drop_last(), plt);
        let fa = flatten_writes(objs, a, plt);
        let fb = flatten_writes(objs, b.drop_last(), plt);
        let w = spec_own_writes(objs, b.last(), plt);
        assert((fa + fb) + w =~= fa + (fb + w));
    }
}

/// What one call of `initialize` did: `order` lists, once each, the objects
/// whose flag it set, and the writes it appended are theirs in that order.
pub open spec fn init_effect(
    objs: Seq<JNI>,
    before: Seq<bool>,
    after: Seq<bool>,
    order: Seq<int>,
    appended: Seq<MemoryWrite>,
    plt: Option<PltInstall>,
) -> bool {
    &&& order.no_duplicates()
    &&& forall|i: int| 0 <= i < order.len() ==> 0 <= #[trigger] order[i] < before.len()
    &&& forall|j: int| 0 <= j < before.len() ==> (order.contains(j) <==> (after[j] && !before[j]))
    &&& appended == flatten_writes(objs, order, plt)
}

/// Every dependency of an initialized object that `initialize` reached is
/// initialized.
pub open spec fn deps_initialized(objs: Seq<JNI>, init: Seq<bool>, j: int) -> bool {
    forall|k: int|
        0 <= k < objs[j].dependencies@.len() ==> match #[trigger] objs[j].dependencies@[k].value {
            Some(d) => init[d as int],
            None => true,
        }
}

proof fn lemma_slot_address(a: u64, i: u64)
    ensures
        a.wrapping_add(i.wrapping_mul(8)) == got_slot(a, i as int),
{
    let m = 0x1_0000_0000_0000_0000int;
    let p = (i * 8) % m;
    vstd::arithmetic::div_mod::lemma_mod_bound(i * 8, m);
    vstd::arithmetic::div_mod::lemma_small_mod(a as nat, m as nat);
    vstd::arithmetic::div_mod::lemma_add_mod_noop(a as int, i * 8, m);
    if a + p < m {
        vstd::arithmetic::div_mod::lemma_small_mod((a as nat + p) as nat, m as nat);
    } else {
        vstd::arithmetic::div_mod::lemma_fundamental_div_mod_converse(a + p, m, 1, a + p - m);
    }
    assert(a + i * 8 == a + 8 * i);
}

impl LoaderSet {
    /// Resolves the symbol that a relocation of object `id` names.
    pub fn resolve_symbol(&self, id: usize, sym: u32) -> (r: Option<u64>)
        requires
            self.wf(),
            id < self.objects@.len(),
        ensures
            r == spec_resolve(self.objects@, id as int, sym),
    {
        if sym == 0 {
            return None;
        }
        assert(self.objects@[id as int].wf());
        match self.objects[id].find_local_symbol_by_index(sym, true) {
            None => None,
            Some(local) => {
                if local.address.is_some() {
                    return local.address;
                }
                match &local.name {
                    None => None,
                    Some(n) => match self.find_global_symbol(id, n.as_str(), true) {
                        Some(g) => g.address,
                        None => None,
                    },
                }
            },
        }
    }

    /// The write of one relocation of object `id`.
    pub fn relocation(&self, id: usize, rel: &Relocation) -> (r: Option<MemoryWrite>)
        requires
            self.wf(),
            id < self.objects@.len(),
        ensures
            r == spec_object_reloc(self.objects@, id as int, *rel),
    {
        let o = &self.objects[id];
        let kind = relocation_kind(o.info.arch, rel.rel_type);
        let target = o.get_offset(rel.offset);
        match kind {
            crate::reloc::RelocationKind::SymbolPlusAddend | crate::reloc::RelocationKind::PcRelative32
            | crate::reloc::RelocationKind::SymbolOnly => {
                match self.resolve_symbol(id, rel.symbol) {
                    Some(a) => relocation_write(kind, target, o.mapping.base, rel.addend, a),
                    None => None,
                }
            },
            _ => relocation_write(kind, target, o.mapping.base, rel.addend, 0),
        }
    }

    /// Appends the writes of `rels`, relocations of object `id`.
    fn append_relocation_writes(&self, id: usize, rels: &Vec<Relocation>, writes: &mut Vec<MemoryWrite>)
        requires
            self.wf(),
            id < self.objects@.len(),
        ensures
            final(writes)@ == old(writes)@ + spec_reloc_writes(self.objects@, id as int, rels@),
    {
        let ghost w0 = writes@;
        let mut i: usize = 0;
        while i < rels.len()
            invariant
                self.wf(),
                id < self.objects@.len(),
                0 <= i <= rels@.len(),
                writes@ == w0 + spec_reloc_writes(self.objects@, id as int, rels@.take(i as int)),
            decreases rels@.len() - i,
        {
            let ghost before = writes@;
            proof {
                assert(rels@.take(i + 1).drop_last() =~= rels@.take(i as int));
                assert(rels@.take(i + 1).last() == rels@[i as int]);
            }
            match self.relocation(id, &rels[i]) {
                Some(w) => {
                    writes.push(w);
                    proof {
                        assert(writes@ =~= w0 + spec_reloc_writes(self.objects@, id as int, rels@.take(i + 1)));
                    }
                },
                None => {},
            }
            i = i + 1;
        }
        proof {
            assert(rels@.take(rels@.len() as int) =~= rels@);
        }
    }

    /// Appends the `.got.plt` writes of the lazy PLT path for object `id`.
    fn append_got_writes(&self, id: usize, plt: PltInstall, writes: &mut Vec<MemoryWrite>)
        requires
            self.wf(),
            id < self.objects@.len(),
        ensures
            final(writes)@ == old(writes)@ + spec_got_writes(self.objects@[id as int], plt),
    {
        let o = &self.objects[id];
        let ghost w0 = writes@;
        match &o.info.got_plt {
            None => {
                assert(writes@ =~= w0 + Seq::<MemoryWrite>::empty());
            },
            Some(g) => {
                if g.entries.len() < 3 {
                    assert(writes@ =~= w0 + Seq::<MemoryWrite>::empty());
                    return;
                }
                let a = o.get_offset(g.address);
                proof {
                    lemma_slot_address(a, 0);
                    lemma_slot_address(a, 1);
                    lemma_slot_address(a, 2);
                }
                writes.push(MemoryWrite::Word64 { address: a.wrapping_add(0u64.wrapping_mul(8)), value: PLT_MARKER });
                writes.push(MemoryWrite::Word64 { address: a.wrapping_add(1u64.wrapping_mul(8)), value: o.plt_data });
                writes.push(MemoryWrite::Word64 { address: a.wrapping_add(2u64.wrapping_mul(8)), value: plt.trampoline });
                let ghost head = writes@;
                let ghost rest = Seq::new(
                    (g.entries@.len() - 3) as nat,
                    |i: int|
                        MemoryWrite::Word64 {
                            address: got_slot(a, i + 3),
                            value: image_address(o.mapping.base, o.base_virtual_address, g.entries@[i + 3]),
                        },
                );
                let mut i: usize = 3;
                while i < g.entries.len()
                    invariant
                        3 <= i <= g.entries@.len(),
                        writes@ == head + rest.take(i - 3),
                        rest.len() == g.entries@.len() - 3,
                        forall|j: int| 0 <= j < rest.len() ==> #[trigger] rest[j] == (MemoryWrite::Word64 {
                            address: got_slot(a, j + 3),
                            value: image_address(o.mapping.base, o.base_virtual_address, g.entries@[j + 3]),
                        }),
                    decreases g.entries@.len() - i,
                {
                    proof {
                        lemma_slot_address(a, i as u64);
                    }
                    let value = o.get_offset(g.entries[i]);
                    writes.push(MemoryWrite::Word64 { address: a.wrapping_add((i as u64).wrapping_mul(8)), value });
                    proof {
                        assert(rest[i - 3] == (MemoryWrite::Word64 { address: got_slot(a, i as int), value }));
                        assert(writes@ =~= head + rest.take(i + 1 - 3));
                    }
                    i = i + 1;
                }
                proof {
                    assert(rest.take(rest.len() as int) =~= rest);
                    assert(writes@ =~= w0 + spec_got_writes(self.objects@[id as int], plt));
                }
            },
        }
    }

    /// Appends everything that initializing object `id` itself writes.
    fn append_own_writes(&self, id: usize, plt: Option<PltInstall>, writes: &mut Vec<MemoryWrite>)
        requires
            self.wf(),
            id < self.objects@.len(),
        ensures
            final(writes)@ == old(writes)@ + spec_own_writes(self.objects@, id as int, plt),
    {
        let ghost w0 = writes@;
        let ghost objs = self.objects@;
        let o = &self.objects[id];
        self.append_relocation_writes(id, &o.info.dyn_relocations, writes);
        match plt {
            None => {
                self.append_relocation_writes(id, &o.info.rel_plt, writes);
                self.append_relocation_writes(id, &o.info.rela_plt, writes);
                proof {
                    let d = o.info.dyn_relocations@;
                    let r1 = o.info.rel_plt@;
                    let r2 = o.info.rela_plt@;
                    lemma_reloc_writes_concat(objs, id as int, d, r1);
                    lemma_reloc_writes_concat(objs, id as int, d + r1, r2);
                    assert(writes@ =~= w0 + spec_own_writes(objs, id as int, plt));
                }
            },
            Some(p) => {
                self.append_got_writes(id, p, writes);
                proof {
                    assert(writes@ =~= w0 + spec_own_writes(objs, id as int, plt));
                }
            },
        }
    }
}


proof fn lemma_no_dup_concat(a: Seq<int>, b: Seq<int>)
    requires
        a.no_duplicates(),
        b.no_duplicates(),
        forall|x: int| a.contains(x) ==> !b.contains(x),
    ensures
        (a + b).no_duplicates(),
        forall|x: int| (a + b).contains(x) <==> (a.contains(x) || b.contains(x)),
{
    let c = a + b;
    assert forall|i: int, j: int| 0 <= i < c.len() && 0 <= j < c.len() && i != j implies c[i] != c[j] by {
        if i < a.len() && j >= a.len() {
            assert(a.contains(c[i]));
            assert(b.contains(c[j]));
        } else if j < a.len() && i >= a.len() {
            assert(a.contains(c[j]));
            assert(b.contains(c[i]));
        } else if i >= a.len() {
            assert(b[i - a.len()] != b[j - a.len()]);
        }
    }
    assert forall|x: int| c.contains(x) <==> (a.contains(x) || b.contains(x)) by {
        if c.contains(x) {
            let i = choose|i: int| 0 <= i < c.len() && c[i] == x;
            if i < a.len() {
                assert(a[i] == x);
            } else {
                assert(b[i - a.len()] == x);
            }
        }
        if a.contains(x) {
            let i = choose|i: int| 0 <= i < a.len() && a[i] == x;
            assert(c[i] == x);
        }
        if b.contains(x) {
            let i = choose|i: int| 0 <= i < b.len() && b[i] == x;
            assert(c[a.len() + i] == x);
        }
    }
}

/// `lv` gives each object a level above those of its dependencies.
pub open spec fn levelled(objs: Seq<JNI>, lv: Seq<nat>) -> bool {
    &&& lv.len() == objs.len()
    &&& forall|i: int, k: int|
        0 <= i < objs.len() && 0 <= k < objs[i].dependencies@.len() ==> match #[trigger] objs[i].dependencies@[k].value {
            Some(d) => d < objs.len() && lv[d as int] < lv[i],
            None => true,
        }
}

/// The dependency graph has no cycle: levels can be given to its objects.
pub open spec fn acyclic(objs: Seq<JNI>) -> bool {
    exists|lv: Seq<nat>| levelled(objs, lv)
}

/// In `order`, every dependency of an object that was not initialized
/// `before` comes earlier than the object.
pub open spec fn deps_first(objs: Seq<JNI>, order: Seq<int>, before: Seq<bool>) -> bool {
    forall|i: int, k: int|
        0 <= i < order.len() && 0 <= k < objs[order[i]].dependencies@.len() ==> match
            #[trigger] objs[order[i]].dependencies@[k].value {
            Some(d) => before[d as int] || order.take(i).contains(d as int),
            None => true,
        }
}

proof fn lemma_order_step(
    objs: Seq<JNI>,
    lv: Seq<nat>,
    id: int,
    init0: Seq<bool>,
    before: Seq<bool>,
    after: Seq<bool>,
    acc: Seq<int>,
    o: Seq<int>,
    d: int,
)
    requires
        levelled(objs, lv),
        0 <= id < objs.len(),
        0 <= d < objs.len(),
        lv[d] < lv[id],
        init0.len() == objs.len(),
        before.len() == objs.len(),
        after.len() == objs.len(),
        forall|j: int| 0 <= j < objs.len() ==> (acc.contains(j) <==> (before[j] && !init0[j] && j != id)),
        forall|i: int| 0 <= i < acc.len() ==> 0 <= #[trigger] acc[i] < objs.len() && lv[acc[i]] < lv[id],
        deps_first(objs, acc, init0),
        forall|j: int| 0 <= j < objs.len() ==> (o.contains(j) <==> (after[j] && !before[j])),
        forall|i: int| 0 <= i < o.len() ==> 0 <= #[trigger] o[i] < objs.len() && lv[o[i]] <= lv[d],
        deps_first(objs, o, before),
    ensures
        deps_first(objs, acc + o, init0),
        forall|i: int| 0 <= i < (acc + o).len() ==> 0 <= #[trigger] (acc + o)[i] < objs.len() && lv[(acc + o)[i]]
            < lv[id],
{
    let c = acc + o;
    assert forall|i: int| 0 <= i < c.len() implies 0 <= #[trigger] c[i] < objs.len() && lv[c[i]] < lv[id] by {
        if i >= acc.len() {
            assert(c[i] == o[i - acc.len()]);
        }
    }
    assert forall|i: int, k: int| 0 <= i < c.len() && 0 <= k < objs[c[i]].dependencies@.len() implies match
        #[trigger] objs[c[i]].dependencies@[k].value {
        Some(e) => init0[e as int] || c.take(i).contains(e as int),
        None => true,
    } by {
        if i < acc.len() {
            assert(c[i] == acc[i]);
            assert(c.take(i) =~= acc.take(i));
            assert(match objs[acc[i]].dependencies@[k].value {
                Some(e) => init0[e as int] || acc.take(i).contains(e as int),
                None => true,
            });
        } else {
            let t = i - acc.len();
            let x = o[t];
            assert(c[i] == x);
            assert(match objs[x].dependencies@[k].value {
                Some(e) => e < objs.len() && lv[e as int] < lv[x],
                None => true,
            });
            assert(match objs[o[t]].dependencies@[k].value {
                Some(e) => before[e as int] || o.take(t).contains(e as int),
                None => true,
            });
            match objs[x].dependencies@[k].value {
                Some(e) => {
                    let e = e as int;
                    if !init0[e] {
                        if o.take(t).contains(e) {
                            let q = choose|q: int| 0 <= q < o.take(t).len() && o.take(t)[q] == e;
                            assert(c.take(i)[acc.len() + q] == e);
                        } else {
                            assert(before[e]);
                            assert(e != id);
                            assert(acc.contains(e));
                            let q = choose|q: int| 0 <= q < acc.len() && acc[q] == e;
                            assert(c.take(i)[q] == e);
                        }
                    }
                },
                None => {},
            }
        }
    }
}

proof fn lemma_order_finish(objs: Seq<JNI>, lv: Seq<nat>, id: int, init0: Seq<bool>, fin: Seq<bool>, acc: Seq<int>)
    requires
        levelled(objs, lv),
        0 <= id < objs.len(),
        init0.len() == objs.len(),
        fin.len() == objs.len(),
        forall|j: int| 0 <= j < objs.len() ==> (acc.contains(j) <==> (fin[j] && !init0[j] && j != id)),
        forall|i: int| 0 <= i < acc.len() ==> 0 <= #[trigger] acc[i] < objs.len() && lv[acc[i]] < lv[id],
        deps_first(objs, acc, init0),
        deps_initialized(objs, fin, id),
    ensures
        deps_first(objs, acc.push(id), init0),
        forall|i: int| 0 <= i < acc.push(id).len() ==> #[trigger] lv[acc.push(id)[i]] <= lv[id],
{
    let c = acc.push(id);
    assert forall|i: int| 0 <= i < c.len() implies #[trigger] lv[c[i]] <= lv[id] by {
        if i < acc.len() {
            assert(c[i] == acc[i]);
        }
    }
    assert forall|i: int, k: int| 0 <= i < c.len() && 0 <= k < objs[c[i]].dependencies@.len() implies match
        #[trigger] objs[c[i]].dependencies@[k].value {
        Some(e) => init0[e as int] || c.take(i).contains(e as int),
        None => true,
    } by {
        if i < acc.len() {
            assert(c[i] == acc[i]);
            assert(c.take(i) =~= acc.take(i));
            assert(match objs[acc[i]].dependencies@[k].value {
                Some(e) => init0[e as int] || acc.take(i).contains(e as int),
                None => true,
            });
        } else {
            assert(c[i] == id);
            assert(c.take(i) =~= acc);
            assert(match objs[id].dependencies@[k].value {
                Some(e) => e < objs.len() && lv[e as int] < lv[id],
                None => true,
            });
            assert(match objs[id].dependencies@[k].value {
                Some(e) => fin[e as int],
                None => true,
            });
        }
    }
}

impl LoaderSet {
    #[verifier::rlimit(60)]
    fn init_rec(
        &mut self,
        id: usize,
        plt: Option<PltInstall>,
        writes: &mut Vec<MemoryWrite>,
        Ghost(lv): Ghost<Seq<nat>>,
    ) -> (order: Ghost<Seq<int>>)
        requires
            old(self).wf(),
            id < old(self).objects@.len(),
        ensures
            final(self).wf(),
            final(self).objects@ == old(self).objects@,
            final(self).initialized@.len() == old(self).initialized@.len(),
            final(self).initialized@[id as int],
            forall|j: int|
                0 <= j < old(self).initialized@.len() && old(self).initialized@[j]
                    ==> final(self).initialized@[j],
            forall|j: int|
                0 <= j < old(self).initialized@.len() && final(self).initialized@[j]
                    && !old(self).initialized@[j] ==> deps_initialized(
                    old(self).objects@,
                    final(self).initialized@,
                    j,
                ),
            old(self).initialized@[id as int] ==> final(self).initialized@ == old(self).initialized@
                && order@.len() == 0,
            init_effect(
                old(self).objects@,
                old(self).initialized@,
                final(self).initialized@,
                order@,
                final(writes)@.skip(old(writes)@.len() as int),
                plt,
            ),
            final(writes)@.len() >= old(writes)@.len(),
            final(writes)@.take(old(writes)@.len() as int) == old(writes)@,
            levelled(old(self).objects@, lv) ==> deps_first(old(self).objects@, order@, old(self).initialized@),
            levelled(old(self).objects@, lv) ==> forall|i: int|
                0 <= i < order@.len() ==> #[trigger] lv[order@[i]] <= lv[id as int],
        decreases count_clear(old(self).initialized@),
    {
        let ghost objs = self.objects@;
        let ghost init0 = self.initialized@;
        let ghost w0 = writes@;
        let ghost n = objs.len();
        if self.initialized[id] {
            proof {
                assert(writes@.skip(w0.len() as int) =~= Seq::<MemoryWrite>::empty());
                assert(writes@.take(w0.len() as int) =~= w0);
                assert(Seq::<int>::empty().no_duplicates());
            }
            return Ghost(Seq::empty());
        }
        proof {
            lemma_count_clear_set(init0, id as int);
        }
        self.initialized.set(id, true);
        let ghost init1 = self.initialized@;
        assert(forall|j: int| 0 <= j < n && init0[j] ==> init1[j]);
        let ghost mut acc: Seq<int> = Seq::empty();
        proof {
            assert(w0 + flatten_writes(objs, acc, plt) =~= w0);
        }
        let n_deps = self.objects[id].dependencies.len();
        let mut k: usize = 0;
        #[verifier::loop_isolation(false)]
        while k < n_deps
            invariant
                self.wf(),
                self.objects@ == objs,
                n_deps == objs[id as int].dependencies@.len(),
                0 <= k <= n_deps,
                self.initialized@.len() == n,
                self.initialized@[id as int],
                forall|j: int| 0 <= j < n && init1[j] ==> self.initialized@[j],
                forall|j: int|
                    0 <= j < n ==> (acc.contains(j) <==> (self.initialized@[j] && !init0[j] && j != id)),
                acc.no_duplicates(),
                forall|i: int| 0 <= i < acc.len() ==> 0 <= #[trigger] acc[i] < n,
                writes@ == w0 + flatten_writes(objs, acc, plt),
                levelled(objs, lv) ==> deps_first(objs, acc, init0),
                levelled(objs, lv) ==> forall|i: int|
                    0 <= i < acc.len() ==> 0 <= #[trigger] acc[i] < n && lv[acc[i]] < lv[id as int],
                forall|kk: int|
                    0 <= kk < k ==> match #[trigger] objs[id as int].dependencies@[kk].value {
                        Some(d) => self.initialized@[d as int],
                        None => true,
                    },
                forall|j: int|
                    0 <= j < n && self.initialized@[j] && !init0[j] && j != id ==> deps_initialized(
                        objs,
                        self.initialized@,
                        j,
                    ),
            decreases n_deps - k,
        {
            let target = self.objects[id].dependencies[k].value;
            match target {
                Some(d) => {
                    proof {
                        assert(match objs[id as int].dependencies@[k as int].value {
                            Some(d) => d < objs.len(),
                            None => true,
                        });
                    }
                    let ghost before = self.initialized@;
                    let ghost wb = writes@;
                    proof {
                        lemma_count_clear_monotone(init1, before);
                    }
                    let Ghost(o) = self.init_rec(d, plt, writes, Ghost(lv));
                    let ghost after = self.initialized@;
                    proof {
                        let appended = writes@.skip(wb.len() as int);
                        assert(writes@ =~= wb + appended);
                        assert forall|x: int| acc.contains(x) implies !o.contains(x) by {
                            if o.contains(x) {
                                let i = choose|i: int| 0 <= i < o.len() && o[i] == x;
                                assert(0 <= o[i] < n);
                            }
                        }
                        lemma_no_dup_concat(acc, o);
                        lemma_flatten_concat(objs, acc, o, plt);
                        assert forall|j: int| 0 <= j < n implies ((acc + o).contains(j) <==> (after[j] && !init0[j]
                            && j != id)) by {
                            assert(init0[j] ==> init1[j]);
                            assert(init1[j] ==> before[j]);
                            assert(before[j] ==> after[j]);
                            assert(o.contains(j) <==> (after[j] && !before[j]));
                            assert(acc.contains(j) <==> (before[j] && !init0[j] && j != id));
                            assert(before[id as int]);
                        }
                        assert forall|i: int| 0 <= i < (acc + o).len() implies 0 <= #[trigger] (acc + o)[i] < n by {
                            if i >= acc.len() {
                                assert((acc + o)[i] == o[i - acc.len()]);
                            }
                        }
                        assert forall|j: int|
                            0 <= j < n && after[j] && !init0[j] && j != id implies deps_initialized(
                            objs,
                            after,
                            j,
                        ) by {
                            if before[j] {
                                assert forall|kk: int| 0 <= kk < objs[j].dependencies@.len() implies match
                                    #[trigger] objs[j].dependencies@[kk].value {
                                    Some(d) => after[d as int],
                                    None => true,
                                } by {
                                    assert(deps_in_range(objs));
                                    assert(match objs[j].dependencies@[kk].value {
                                        Some(d) => d < objs.len(),
                                        None => true,
                                    });
                                }
                            }
                        }
                        assert forall|kk: int| 0 <= kk < k + 1 implies match
                            #[trigger] objs[id as int].dependencies@[kk].value {
                            Some(d) => after[d as int],
                            None => true,
                        } by {
                            assert(match objs[id as int].dependencies@[kk].value {
                                Some(d) => d < objs.len(),
                                None => true,
                            });
                        }
                        if levelled(objs, lv) {
                            assert(match objs[id as int].dependencies@[k as int].value {
                                Some(d) => d < objs.len() && lv[d as int] < lv[id as int],
                                None => true,
                            });
                            lemma_order_step(objs, lv, id as int, init0, before, after, acc, o, d as int);
                        }
                        acc = acc + o;
                        assert(writes@ =~= w0 + flatten_writes(objs, acc, plt));
                    }
                },
                None => {},
            }
            k = k + 1;
        }
        let ghost wl = writes@;
        self.append_own_writes(id, plt, writes);
        proof {
            let order = acc.push(id as int);
            assert(!acc.contains(id as int));
            assert(order.drop_last() =~= acc);
            assert forall|i: int, j: int| 0 <= i < order.len() && 0 <= j < order.len() && i != j implies order[i]
                != order[j] by {
                if i < acc.len() && j < acc.len() {
                } else if i < acc.len() {
                    assert(acc.contains(order[i]));
                } else if j < acc.len() {
                    assert(acc.contains(order[j]));
                }
            }
            assert forall|j: int| 0 <= j < n implies (order.contains(j) <==> (self.initialized@[j] && !init0[j])) by {
                if order.contains(j) && j != id {
                    let i = choose|i: int| 0 <= i < order.len() && order[i] == j;
                    assert(acc[i] == j);
                    assert(acc.contains(j));
                }
                if acc.contains(j) {
                    let i = choose|i: int| 0 <= i < acc.len() && acc[i] == j;
                    assert(order[i] == j);
                }
                assert(order[acc.len() as int] == id);
            }
            assert(writes@ =~= w0 + flatten_writes(objs, order, plt));
            assert(writes@.skip(w0.len() as int) =~= flatten_writes(objs, order, plt));
            assert(writes@.take(w0.len() as int) =~= w0);
            assert(deps_initialized(objs, self.initialized@, id as int));
            if levelled(objs, lv) {
                lemma_order_finish(objs, lv, id as int, init0, self.initialized@, acc);
            }
            acc = order;
        }
        Ghost(acc)
    }

    /// Initializes object `id`: first, depth-first, every dependency not yet
    /// initialized (so, without cycles, each object's writes come after those
    /// of its newly initialized dependencies), then its own relocations, then, where `plt` is given,
    /// the lazy PLT slots. The writes to make are appended to `writes`; an
    /// object's flag is set before its dependencies are visited, so each
    /// object is initialized at most once, even in a diamond. A second call
    /// does nothing.
    pub fn initialize(&mut self, id: usize, plt: Option<PltInstall>, writes: &mut Vec<MemoryWrite>)
        requires
            old(self).wf(),
            id < old(self).objects@.len(),
        ensures
            final(self).wf(),
            final(self).objects@ == old(self).objects@,
            final(self).initialized@.len() == old(self).initialized@.len(),
            final(self).initialized@[id as int],
            forall|j: int|
                0 <= j < old(self).initialized@.len() && old(self).initialized@[j]
                    ==> final(self).initialized@[j],
            forall|j: int|
                0 <= j < old(self).initialized@.len() && final(self).initialized@[j]
                    && !old(self).initialized@[j] ==> deps_initialized(
                    old(self).objects@,
                    final(self).initialized@,
                    j,
                ),
            old(self).initialized@[id as int] ==> final(self).initialized@ == old(self).initialized@
                && final(writes)@ == old(writes)@,
            final(writes)@.len() >= old(writes)@.len(),
            final(writes)@.take(old(writes)@.len() as int) == old(writes)@,
            exists|order: Seq<int>|
                #[trigger] init_effect(
                    old(self).objects@,
                    old(self).initialized@,
                    final(self).initialized@,
                    order,
                    final(writes)@.skip(old(writes)@.len() as int),
                    plt,
                ) && (acyclic(old(self).objects@) ==> deps_first(old(self).objects@, order, old(self).initialized@)),
    {
        let ghost w0 = writes@;
        let ghost objs = self.objects@;
        let ghost init0 = self.initialized@;
        let ghost lv = choose|lv: Seq<nat>| levelled(self.objects@, lv);
        let Ghost(order) = self.init_rec(id, plt, writes, Ghost(lv));
        proof {
            if acyclic(objs) {
                assert(levelled(objs, lv));
            }
            assert(acyclic(objs) ==> deps_first(objs, order, init0));
            if order.len() == 0 {
                assert(writes@.skip(w0.len() as int) == flatten_writes(self.objects@, order, plt));
                assert(writes@ =~= writes@.take(w0.len() as int) + writes@.skip(w0.len() as int));
            }
            assert(init_effect(objs, init0, self.initialized@, order, writes@.skip(w0.len() as int), plt) && (acyclic(
                objs,
            ) ==> deps_first(objs, order, init0)));
        }
    }
}


/// The address `PltData`'s callback returns where a lazy PLT entry cannot be
/// resolved.
pub const PLT_RESOLUTION_FAILED: u64 = 0xBADBABE;

/// The characters of each string.
pub open spec fn strings_view(v: Seq<String>) -> Seq<Seq<char>> {
    v.map_values(|s: String| s@)
}

/// The DT_NEEDED names still to locate: those not registered as
/// dependencies, each once, in the order of `.dynamic`.
pub open spec fn spec_pending(needed: Seq<Seq<char>>, deps: Seq<(Seq<char>, Option<usize>)>) -> Seq<Seq<char>>
    decreases needed.len(),
{
    if needed.len() == 0 {
        Seq::empty()
    } else {
        let p = spec_pending(needed.drop_last(), deps);
        let x = needed.last();
        if has_key(deps, x) || p.contains(x) {
            p
        } else {
            p.push(x)
        }
    }
}

/// What `get_symbol` gives for `name` in object `id`: the local symbol where
/// it is defined, else the global one, as its image address and size.
pub open spec fn spec_get_symbol(objs: Seq<JNI>, id: int, name: Seq<char>) -> Option<(u64, u64)> {
    let found = match spec_local_by_name(objs[id], name, false) {
        Some(x) if x.address is Some => Some(x),
        _ => spec_find_global(objs, id, name, false),
    };
    match found {
        Some(x) => match x.address {
            Some(a) => Some((a, x.size)),
            None => None,
        },
        None => None,
    }
}

/// The PLT relocation at `index`: `.rela.plt` where it has one, else
/// `.rel.plt`.
pub open spec fn spec_plt_entry(o: JNI, index: int) -> Option<Relocation> {
    if 0 <= index < o.info.rela_plt@.len() {
        Some(o.info.rela_plt@[index])
    } else if 0 <= index < o.info.rel_plt@.len() {
        Some(o.info.rel_plt@[index])
    } else {
        None
    }
}

/// What the lazy PLT path does for entry `index` of object `id`: the write
/// that binds its slot, and the resolved address to jump to.
pub open spec fn spec_plt_callback(objs: Seq<JNI>, id: int, index: int) -> Option<(MemoryWrite, u64)> {
    let o = objs[id];
    match spec_plt_entry(o, index) {
        None => None,
        Some(rel) => match spec_resolve(objs, id, rel.symbol) {
            None => None,
            Some(a) => Some(
                (
                    MemoryWrite::Word64 {
                        address: image_address(o.mapping.base, o.base_virtual_address, rel.offset),
                        value: crate::reloc::spec_add_addend(a, rel.addend),
                    },
                    a,
                ),
            ),
        },
    }
}

/// Whether `v` holds a string with the characters of `s`.
fn contains_name(v: &Vec<String>, s: &String) -> (r: bool)
    ensures
        r == strings_view(v@).contains(s@),
{
    let mut i: usize = 0;
    while i < v.len()
        invariant
            0 <= i <= v@.len(),
            forall|j: int| 0 <= j < i ==> v@[j]@ != s@,
        decreases v@.len() - i,
    {
        if v[i] == *s {
            assert(strings_view(v@)[i as int] == s@);
            return true;
        }
        i = i + 1;
    }
    proof {
        if strings_view(v@).contains(s@) {
            let j = choose|j: int| 0 <= j < strings_view(v@).len() && strings_view(v@)[j] == s@;
            assert(v@[j]@ == s@);
        }
    }
    false
}

impl LoaderSet {
    /// Adds a loader to the set; it gets the next position.
    pub fn add(&mut self, jni: JNI) -> (r: usize)
        requires
            old(self).wf(),
            jni.wf(),
            forall|k: int|
                0 <= k < jni.dependencies@.len() ==> match #[trigger] jni.dependencies@[k].value {
                    Some(d) => d < old(self).objects@.len(),
                    None => true,
                },
        ensures
            final(self).wf(),
            r == old(self).objects@.len(),
            final(self).objects@ == old(self).objects@.push(jni),
            final(self).initialized@ == old(self).initialized@.push(false),
    {
        let r = self.objects.len();
        self.objects.push(jni);
        self.initialized.push(false);
        proof {
            let objs = self.objects@;
            assert forall|i: int| 0 <= i < objs.len() implies (#[trigger] objs[i]).wf() by {
                if i < r {
                    assert(objs[i] == old(self).objects@[i]);
                }
            }
            assert forall|i: int, k: int|
                0 <= i < objs.len() && 0 <= k < objs[i].dependencies@.len() implies match
                #[trigger] objs[i].dependencies@[k].value {
                Some(d) => d < objs.len(),
                None => true,
            } by {
                if i < r {
                    assert(objs[i] == old(self).objects@[i]);
                }
            }
        }
        r
    }

    /// Registers `name` as a dependency of object `id`: `Some(position)` for
    /// a loader of the set, `None` for one that is not to be looked for
    /// (its symbols are expected to be overridden).
    pub fn add_dependency(&mut self, id: usize, name: &str, lib: Option<usize>)
        requires
            old(self).wf(),
            id < old(self).objects@.len(),
            lib matches Some(d) ==> d < old(self).objects@.len(),
        ensures
            final(self).wf(),
            final(self).initialized@ == old(self).initialized@,
            final(self).objects@.len() == old(self).objects@.len(),
            forall|i: int| 0 <= i < old(self).objects@.len() && i != id ==> final(self).objects@[i] == old(self).objects@[i],
            entries_view(final(self).objects@[id as int].dependencies@) == entry_insert(
                entries_view(old(self).objects@[id as int].dependencies@),
                name@,
                lib,
            ),
            final(self).objects@[id as int].symbol_overrides == old(self).objects@[id as int].symbol_overrides,
            final(self).objects@[id as int].info == old(self).objects@[id as int].info,
            final(self).objects@[id as int].mapping == old(self).objects@[id as int].mapping,
            final(self).objects@[id as int].base_virtual_address == old(self).objects@[id as int].base_virtual_address,
            final(self).objects@[id as int].loaded_dependencies == old(self).objects@[id as int].loaded_dependencies,
    {
        let ghost objs = self.objects@;
        let mut o = self.objects.remove(id);
        assert(o == objs[id as int]);
        assert(o.wf());
        let ghost deps0 = entries_view(o.dependencies@);
        insert_entry(&mut o.dependencies, name.to_owned(), lib);
        self.objects.insert(id, o);
        proof {
            let objs2 = self.objects@;
            assert(objs2 =~= objs.update(id as int, o));
            let dv = entries_view(o.dependencies@);
            assert forall|i: int| 0 <= i < objs2.len() implies (#[trigger] objs2[i]).wf() by {
                if i != id {
                    assert(objs2[i] == objs[i]);
                }
            }
            assert forall|i: int, k: int|
                0 <= i < objs2.len() && 0 <= k < objs2[i].dependencies@.len() implies match
                #[trigger] objs2[i].dependencies@[k].value {
                Some(d) => d < objs2.len(),
                None => true,
            } by {
                if i != id {
                    assert(objs2[i] == objs[i]);
                } else {
                    assert(objs2[i] == o);
                    assert(dv[k].1 == o.dependencies@[k].value);
                    lemma_insert_values(deps0, name@, lib, k);
                    if k < deps0.len() {
                        assert(deps0[k] == (objs[id as int].dependencies@[k].name@, objs[id as int].dependencies@[k].value));
                    }
                }
            }
        }
    }

    /// Registers an override for `symbol_name` in object `id`.
    pub fn override_symbol(&mut self, id: usize, symbol_name: &str, new_value: Option<u64>)
        requires
            old(self).wf(),
            id < old(self).objects@.len(),
        ensures
            final(self).wf(),
            final(self).initialized@ == old(self).initialized@,
            final(self).objects@.len() == old(self).objects@.len(),
            forall|i: int| 0 <= i < old(self).objects@.len() && i != id ==> final(self).objects@[i] == old(self).objects@[i],
            entries_view(final(self).objects@[id as int].symbol_overrides@) == entry_insert(
                entries_view(old(self).objects@[id as int].symbol_overrides@),
                symbol_name@,
                new_value,
            ),
            final(self).objects@[id as int].dependencies == old(self).objects@[id as int].dependencies,
            final(self).objects@[id as int].info == old(self).objects@[id as int].info,
            final(self).objects@[id as int].mapping == old(self).objects@[id as int].mapping,
            final(self).objects@[id as int].base_virtual_address == old(self).objects@[id as int].base_virtual_address,
            final(self).objects@[id as int].loaded_dependencies == old(self).objects@[id as int].loaded_dependencies,
    {
        let ghost objs = self.objects@;
        let mut o = self.objects.remove(id);
        assert(o == objs[id as int]);
        o.override_symbol(symbol_name, new_value);
        self.objects.insert(id, o);
        proof {
            let objs2 = self.objects@;
            assert(objs2 =~= objs.update(id as int, o));
            assert forall|i: int| 0 <= i < objs2.len() implies (#[trigger] objs2[i]).wf() by {
                if i != id {
                    assert(objs2[i] == objs[i]);
                }
            }
            assert forall|i: int, k: int|
                0 <= i < objs2.len() && 0 <= k < objs2[i].dependencies@.len() implies match
                #[trigger] objs2[i].dependencies@[k].value {
                Some(d) => d < objs2.len(),
                None => true,
            } by {
                assert(objs2[i].dependencies == objs[i].dependencies);
            }
        }
    }

    /// Starts loading the dependencies of object `id`: marks them loaded and
    /// returns the DT_NEEDED names that are not registered yet, each once,
    /// for the caller to locate and register. Fails without `.dynamic`. A
    /// second call finds nothing to do and changes nothing.
    pub fn load_dependencies(&mut self, id: usize) -> (r: Result<Vec<String>, Error>)
        requires
            old(self).wf(),
            id < old(self).objects@.len(),
        ensures
            final(self).wf(),
            final(self).initialized@ == old(self).initialized@,
            old(self).objects@[id as int].loaded_dependencies ==> (final(self).objects@ == old(self).objects@
                && (r matches Ok(v) && v@.len() == 0)),
            !old(self).objects@[id as int].loaded_dependencies ==> final(self).objects@ == old(
                self,
            ).objects@.update(id as int, JNI { loaded_dependencies: true, ..old(self).objects@[id as int] }),
            !old(self).objects@[id as int].loaded_dependencies ==> match old(self).objects@[id as int].info.dynamic {
                None => r == Err::<Vec<String>, Error>(Error::NoDynamicSection),
                Some(d) => (r matches Ok(v) && strings_view(v@) == spec_pending(
                    strings_view(d.needed@),
                    entries_view(old(self).objects@[id as int].dependencies@),
                )),
            },
    {
        if self.objects[id].loaded_dependencies {
            return Ok(Vec::new());
        }
        let ghost objs = self.objects@;
        let mut o = self.objects.remove(id);
        assert(o == objs[id as int]);
        o.loaded_dependencies = true;
        let result = match &o.info.dynamic {
            None => Err(Error::NoDynamicSection),
            Some(d) => {
                let mut pending: Vec<String> = Vec::new();
                let mut i: usize = 0;
                while i < d.needed.len()
                    invariant
                        0 <= i <= d.needed@.len(),
                        o.wf(),
                        strings_view(pending@) == spec_pending(
                            strings_view(d.needed@.take(i as int)),
                            entries_view(o.dependencies@),
                        ),
                    decreases d.needed@.len() - i,
                {
                    let name = &d.needed[i];
                    proof {
                        assert(strings_view(d.needed@.take(i + 1)).drop_last() =~= strings_view(d.needed@.take(i as int)));
                        assert(strings_view(d.needed@.take(i + 1)).last() == name@);
                    }
                    let registered = find_entry(&o.dependencies, name).is_some();
                    if !registered && !contains_name(&pending, name) {
                        pending.push(name.clone());
                        proof {
                            assert(strings_view(pending@) =~= spec_pending(
                                strings_view(d.needed@.take(i as int)),
                                entries_view(o.dependencies@),
                            ).push(name@));
                        }
                    }
                    i = i + 1;
                }
                proof {
                    assert(d.needed@.take(d.needed@.len() as int) =~= d.needed@);
                }
                Ok(pending)
            },
        };
        self.objects.insert(id, o);
        proof {
            let objs2 = self.objects@;
            assert(objs2 =~= objs.update(id as int, o));
            assert forall|i: int| 0 <= i < objs2.len() implies (#[trigger] objs2[i]).wf() by {
                if i != id {
                    assert(objs2[i] == objs[i]);
                }
            }
            assert forall|i: int, k: int|
                0 <= i < objs2.len() && 0 <= k < objs2[i].dependencies@.len() implies match
                #[trigger] objs2[i].dependencies@[k].value {
                Some(d) => d < objs2.len(),
                None => true,
            } by {
                assert(objs2[i].dependencies == objs[i].dependencies);
            }
        }
        result
    }

    /// The image address and size of `symbol_name` as seen from object `id`:
    /// its own tables first, then its dependencies.
    pub fn get_symbol(&self, id: usize, symbol_name: &str) -> (r: Option<(u64, u64)>)
        requires
            self.wf(),
            id < self.objects@.len(),
        ensures
            r == spec_get_symbol(self.objects@, id as int, symbol_name@),
    {
        assert(self.objects@[id as int].wf());
        let local = self.objects[id].find_local_symbol_by_name(symbol_name, false);
        let defined = match &local {
            Some(x) => x.address.is_some(),
            None => false,
        };
        let found = match local {
            Some(x) if defined => Some(x),
            _ => self.find_global_symbol(id, symbol_name, false),
        };
        match found {
            Some(x) => match x.address {
                Some(a) => Some((a, x.size)),
                None => None,
            },
            None => None,
        }
    }

    /// Resolves PLT entry `reloc_index` of object `id` on its first call: the
    /// write that binds the GOT slot, so later calls bypass the trampoline,
    /// and the address to jump to.
    pub fn plt_callback(&self, id: usize, reloc_index: usize) -> (r: Option<(MemoryWrite, u64)>)
        requires
            self.wf(),
            id < self.objects@.len(),
        ensures
            r == spec_plt_callback(self.objects@, id as int, reloc_index as int),
    {
        let o = &self.objects[id];
        let rel = if reloc_index < o.info.rela_plt.len() {
            o.info.rela_plt[reloc_index]
        } else if reloc_index < o.info.rel_plt.len() {
            o.info.rel_plt[reloc_index]
        } else {
            return None;
        };
        match self.resolve_symbol(id, rel.symbol) {
            None => None,
            Some(a) => {
                let target = o.get_offset(rel.offset);
                Some((MemoryWrite::Word64 { address: target, value: crate::reloc::add_addend(a, rel.addend) }, a))
            },
        }
    }

    /// What a guest's `dlsym(handle, name)` returns: the symbol's address in
    /// object `handle`, or the undefined-symbol sentinel.
    pub fn dlsym(&self, handle: usize, symbol_name: &str) -> (r: u64)
        requires
            self.wf(),
            handle < self.objects@.len(),
        ensures
            r == match spec_get_symbol(self.objects@, handle as int, symbol_name@) {
                Some(p) => p.0,
                None => UNDEFINED_SYMBOL_VALUE,
            },
    {
        match self.get_symbol(handle, symbol_name) {
            Some((a, _)) => a,
            None => UNDEFINED_SYMBOL_VALUE,
        }
    }
}


/// Whether a relocation binds a GOT slot to its symbol's address.
pub open spec fn binds_got_slot(arch: Arch, rel: Relocation) -> bool {
    match arch {
        Arch::X86_64 => rel.rel_type == crate::reloc::R_X86_64_GLOB_DAT || rel.rel_type
            == crate::reloc::R_X86_64_JUMP_SLOT,
        Arch::Aarch64 => (rel.rel_type == crate::reloc::R_AARCH64_GLOB_DAT || rel.rel_type
            == crate::reloc::R_AARCH64_JUMP_SLOT) && rel.addend == 0,
    }
}

/// Relocation `rel` of object `id` names a `.dynsym` entry called `name`.
pub open spec fn names_symbol(o: JNI, rel: Relocation, name: Seq<char>) -> bool {
    &&& rel.symbol != 0
    &&& o.info.symbols matches Some(d)
    &&& (rel.symbol as int) < d.entries@.len()
    &&& d.entries@[rel.symbol as int].name matches SymbolName::Named(n)
    &&& n@ == name
}

/// The value of the last 8-byte write to `addr` in `ws`, if any.
pub open spec fn last_write(ws: Seq<MemoryWrite>, addr: u64) -> Option<u64>
    decreases ws.len(),
{
    if ws.len() == 0 {
        None
    } else {
        match ws.last() {
            MemoryWrite::Word64 { address, value } if address == addr => Some(value),
            _ => last_write(ws.drop_last(), addr),
        }
    }
}

proof fn lemma_last_write_concat(a: Seq<MemoryWrite>, b: Seq<MemoryWrite>, addr: u64)
    ensures
        last_write(a + b, addr) == match last_write(b, addr) {
            Some(v) => Some(v),
            None => last_write(a, addr),
        },
    decreases b.len(),
{
    if b.len() == 0 {
        assert(a + b =~= a);
    } else {
        assert((a + b).drop_last() =~= a + b.drop_last());
        assert((a + b).last() == b.last());
        lemma_last_write_concat(a, b.drop_last(), addr);
    }
}

/// The address of a relocation's write.
pub open spec fn write_address(w: MemoryWrite) -> u64 {
    match w {
        MemoryWrite::Word64 { address, .. } => address,
        MemoryWrite::Word32 { address, .. } => address,
    }
}

proof fn lemma_reloc_write_address(objs: Seq<JNI>, id: int, rel: Relocation)
    requires
        0 <= id < objs.len(),
    ensures
        spec_object_reloc(objs, id, rel) matches Some(w) ==> write_address(w) == image_address(
            objs[id].mapping.base,
            objs[id].base_virtual_address,
            rel.offset,
        ),
{
}

proof fn lemma_image_address_injective(base: u64, vbase: u64, o1: u64, o2: u64)
    requires
        o1 != o2,
    ensures
        image_address(base, vbase, o1) != image_address(base, vbase, o2),
{
}

/// The last write to the slot of relocation `k` among the writes of `rels`
/// is that relocation's, where no other entry has its offset.
proof fn lemma_reloc_last_write(objs: Seq<JNI>, id: int, rels: Seq<Relocation>, k: int, v: u64)
    requires
        0 <= id < objs.len(),
        0 <= k < rels.len(),
        spec_object_reloc(objs, id, rels[k]) == Some(
            MemoryWrite::Word64 {
                address: image_address(objs[id].mapping.base, objs[id].base_virtual_address, rels[k].offset),
                value: v,
            },
        ),
        forall|j: int| 0 <= j < rels.len() && j != k ==> #[trigger] rels[j].offset != rels[k].offset,
    ensures
        last_write(
            spec_reloc_writes(objs, id, rels),
            image_address(objs[id].mapping.base, objs[id].base_virtual_address, rels[k].offset),
        ) == Some(v),
    decreases rels.len(),
{
    let addr = image_address(objs[id].mapping.base, objs[id].base_virtual_address, rels[k].offset);
    let n = rels.len() - 1;
    let prev = spec_reloc_writes(objs, id, rels.drop_last());
    if k == n {
        assert(spec_reloc_writes(objs, id, rels) == prev.push(
            MemoryWrite::Word64 { address: addr, value: v },
        ));
        assert(prev.push(MemoryWrite::Word64 { address: addr, value: v }).drop_last() =~= prev);
    } else {
        assert(rels.drop_last()[k] == rels[k]);
        assert forall|j: int| 0 <= j < rels.drop_last().len() && j != k implies #[trigger] rels.drop_last()[j].offset
            != rels.drop_last()[k].offset by {
            assert(rels.drop_last()[j] == rels[j]);
        }
        lemma_reloc_last_write(objs, id, rels.drop_last(), k, v);
        lemma_reloc_write_address(objs, id, rels.last());
        lemma_image_address_injective(
            objs[id].mapping.base,
            objs[id].base_virtual_address,
            rels.last().offset,
            rels[k].offset,
        );
        match spec_object_reloc(objs, id, rels.last()) {
            Some(x) => {
                assert(prev.push(x).drop_last() =~= prev);
            },
            None => {},
        }
    }
}

/// Within the writes of one initialization, a slot that only object `id`
/// writes holds what `id`'s own writes leave in it.
proof fn lemma_flatten_last_write(
    objs: Seq<JNI>,
    order: Seq<int>,
    plt: Option<PltInstall>,
    id: int,
    addr: u64,
    v: u64,
)
    requires
        order.contains(id),
        last_write(spec_own_writes(objs, id, plt), addr) == Some(v),
        forall|j: int| order.contains(j) && j != id ==> last_write(#[trigger] spec_own_writes(objs, j, plt), addr)
            is None,
    ensures
        last_write(flatten_writes(objs, order, plt), addr) == Some(v),
    decreases order.len(),
{
    let rest = order.drop_last();
    lemma_last_write_concat(flatten_writes(objs, rest, plt), spec_own_writes(objs, order.last(), plt), addr);
    if order.last() != id {
        let i = choose|i: int| 0 <= i < order.len() && order[i] == id;
        assert(rest[i] == id);
        assert forall|j: int| rest.contains(j) && j != id implies last_write(
            #[trigger] spec_own_writes(objs, j, plt),
            addr,
        ) is None by {
            let q = choose|q: int| 0 <= q < rest.len() && rest[q] == j;
            assert(order[q] == j);
        }
        assert(order.contains(order.last()));
        lemma_flatten_last_write(objs, rest, plt, id, addr, v);
    }
}

/// The slot of relocation `k` of object `id`, where `initialize` binds
/// symbol `name` that an override maps to `v`, ends the initialization
/// holding the override's address (the sentinel for `None`), provided no
/// other relocation of the object has that offset and no other object
/// initialized with it writes that slot. Lazy PLT slots are left out.
proof fn lemma_override_slot(
    objs: Seq<JNI>,
    before: Seq<bool>,
    after: Seq<bool>,
    order: Seq<int>,
    appended: Seq<MemoryWrite>,
    id: int,
    k: int,
    name: Seq<char>,
    v: Option<u64>,
)
    requires
        init_effect(objs, before, after, order, appended, None),
        0 <= id < objs.len(),
        id < before.len(),
        !before[id],
        after[id],
        objs[id].wf(),
        0 <= k < relocations_for(objs[id], None).len(),
        binds_got_slot(objs[id].info.arch, relocations_for(objs[id], None)[k]),
        names_symbol(objs[id], relocations_for(objs[id], None)[k], name),
        entry_lookup(entries_view(objs[id].symbol_overrides@), name) == Some(v),
        forall|j: int|
            0 <= j < relocations_for(objs[id], None).len() && j != k ==> #[trigger] relocations_for(
                objs[id],
                None,
            )[j].offset != relocations_for(objs[id], None)[k].offset,
        forall|j: int|
            order.contains(j) && j != id ==> last_write(
                #[trigger] spec_own_writes(objs, j, None),
                image_address(
                    objs[id].mapping.base,
                    objs[id].base_virtual_address,
                    relocations_for(objs[id], None)[k].offset,
                ),
            ) is None,
    ensures
        last_write(
            appended,
            image_address(
                objs[id].mapping.base,
                objs[id].base_virtual_address,
                relocations_for(objs[id], None)[k].offset,
            ),
        ) == Some(override_address(v)),
{
    let o = objs[id];
    let rels = relocations_for(o, None);
    let rel = rels[k];
    let addr = image_address(o.mapping.base, o.base_virtual_address, rel.offset);
    assert(spec_resolve(objs, id, rel.symbol) == Some(override_address(v)));
    assert(spec_object_reloc(objs, id, rel) == Some(MemoryWrite::Word64 { address: addr, value: override_address(v) }));
    lemma_reloc_last_write(objs, id, rels, k, override_address(v));
    let rw = spec_reloc_writes(objs, id, rels);
    assert(spec_own_writes(objs, id, None) == rw + Seq::<MemoryWrite>::empty());
    lemma_last_write_concat(rw, Seq::<MemoryWrite>::empty(), addr);
    assert(last_write(Seq::<MemoryWrite>::empty(), addr) == None::<u64>);
    assert(order.contains(id));
    lemma_flatten_last_write(objs, order, None, id, addr, override_address(v));
}

/// A symbol overridden with address `a`: once `initialize` has run without
/// the lazy PLT path (`init_effect` describes its writes), every slot that a
/// relocation of the object binds to the symbol is last written with `a`,
/// where no other relocation of the object has that offset and no other
/// object initialized with it writes the slot.
pub proof fn override_slot_after_initialize(
    objs: Seq<JNI>,
    before: Seq<bool>,
    after: Seq<bool>,
    order: Seq<int>,
    appended: Seq<MemoryWrite>,
    id: int,
    k: int,
    name: Seq<char>,
    a: u64,
)
    requires
        init_effect(objs, before, after, order, appended, None),
        0 <= id < objs.len(),
        id < before.len(),
        !before[id],
        after[id],
        objs[id].wf(),
        0 <= k < relocations_for(objs[id], None).len(),
        binds_got_slot(objs[id].info.arch, relocations_for(objs[id], None)[k]),
        names_symbol(objs[id], relocations_for(objs[id], None)[k], name),
        entry_lookup(entries_view(objs[id].symbol_overrides@), name) == Some(Some(a)),
        forall|j: int|
            0 <= j < relocations_for(objs[id], None).len() && j != k ==> #[trigger] relocations_for(
                objs[id],
                None,
            )[j].offset != relocations_for(objs[id], None)[k].offset,
        forall|j: int|
            order.contains(j) && j != id ==> last_write(
                #[trigger] spec_own_writes(objs, j, None),
                image_address(
                    objs[id].mapping.base,
                    objs[id].base_virtual_address,
                    relocations_for(objs[id], None)[k].offset,
                ),
            ) is None,
    ensures
        last_write(
            appended,
            image_address(
                objs[id].mapping.base,
                objs[id].base_virtual_address,
                relocations_for(objs[id], None)[k].offset,
            ),
        ) == Some(a),
{
    lemma_override_slot(objs, before, after, order, appended, id, k, name, Some(a));
}

/// A symbol declared undefined by an override: once `initialize` has run
/// without the lazy PLT path, every slot that a relocation of the object
/// binds to it is last written with the undefined-symbol sentinel, under the
/// same conditions.
pub proof fn undefined_slot_after_initialize(
    objs: Seq<JNI>,
    before: Seq<bool>,
    after: Seq<bool>,
    order: Seq<int>,
    appended: Seq<MemoryWrite>,
    id: int,
    k: int,
    name: Seq<char>,
)
    requires
        init_effect(objs, before, after, order, appended, None),
        0 <= id < objs.len(),
        id < before.len(),
        !before[id],
        after[id],
        objs[id].wf(),
        0 <= k < relocations_for(objs[id], None).len(),
        binds_got_slot(objs[id].info.arch, relocations_for(objs[id], None)[k]),
        names_symbol(objs[id], relocations_for(objs[id], None)[k], name),
        entry_lookup(entries_view(objs[id].symbol_overrides@), name) == Some(None::<u64>),
        forall|j: int|
            0 <= j < relocations_for(objs[id], None).len() && j != k ==> #[trigger] relocations_for(
                objs[id],
                None,
            )[j].offset != relocations_for(objs[id], None)[k].offset,
        forall|j: int|
            order.contains(j) && j != id ==> last_write(
                #[trigger] spec_own_writes(objs, j, None),
                image_address(
                    objs[id].mapping.base,
                    objs[id].base_virtual_address,
                    relocations_for(objs[id], None)[k].offset,
                ),
            ) is None,
    ensures
        last_write(
            appended,
            image_address(
                objs[id].mapping.base,
                objs[id].base_virtual_address,
                relocations_for(objs[id], None)[k].offset,
            ),
        ) == Some(UNDEFINED_SYMBOL_VALUE),
{
    lemma_override_slot(objs, before, after, order, appended, id, k, name, None);
}

} // verus!
