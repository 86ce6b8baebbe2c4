//! Native modules side by side: the combined JavaScript contract exports
//! every component and every command under its own name, so a name may be
//! exported once and a type declared by two modules must be declared the
//! same way; and a renderer's reference to a component is resolved by the
//! first module whose exact contract it names.
use vstd::prelude::*;
use crate::native::{declares, position_in, texts};
use crate::text::{join2, same_text};
use crate::host::{decimal_spec, decimal_usize};

verus! {

broadcast use vstd::string::group_string_axioms;

/// What one module exports: its component names, its command names and its
/// type declarations as (name, declaration) pairs.
#[derive(Debug)]
pub struct ModuleExports {
    pub components: Vec<String>,
    pub commands: Vec<String>,
    pub types: Vec<(String, String)>,
}

/// A module's exports as plain text.
pub struct ExportsView {
    pub components: Seq<Seq<char>>,
    pub commands: Seq<Seq<char>>,
    pub types: Seq<(Seq<char>, Seq<char>)>,
}

pub open spec fn pairs(v: Seq<(String, String)>) -> Seq<(Seq<char>, Seq<char>)> {
    v.map_values(|e: (String, String)| (e.0@, e.1@))
}

pub open spec fn exports_view(m: ModuleExports) -> ExportsView {
    ExportsView { components: texts(m.components@), commands: texts(m.commands@), types: pairs(m.types@) }
}

pub open spec fn modules_view(ms: Seq<ModuleExports>) -> Seq<ExportsView> {
    ms.map_values(|m: ModuleExports| exports_view(m))
}

/// The first of `names` that was exported before, by `seen` or earlier in
/// `names`.
pub open spec fn first_repeat(names: Seq<Seq<char>>, seen: Seq<Seq<char>>) -> Option<Seq<char>>
    decreases names.len(),
{
    if names.len() == 0 {
        None
    } else if seen.contains(names[0]) {
        Some(names[0])
    } else {
        first_repeat(names.drop_first(), seen.push(names[0]))
    }
}

/// Whether `known` declares type `name` other than as `decl`.
pub open spec fn conflicts(known: Seq<(Seq<char>, Seq<char>)>, name: Seq<char>, decl: Seq<char>) -> bool {
    exists|i: int| 0 <= i < known.len() && (#[trigger] known[i]).0 == name && known[i].1 != decl
}

/// The first of `decls` that contradicts a declaration made before.
pub open spec fn first_conflict(
    decls: Seq<(Seq<char>, Seq<char>)>,
    known: Seq<(Seq<char>, Seq<char>)>,
) -> Option<Seq<char>>
    decreases decls.len(),
{
    if decls.len() == 0 {
        None
    } else if conflicts(known, decls[0].0, decls[0].1) {
        Some(decls[0].0)
    } else {
        first_conflict(decls.drop_first(), known.push(decls[0]))
    }
}

/// The first problem of the modules `ms`, taken in order, after the
/// components `comps`, the commands `cmds` and the types `known` of the
/// modules before them: a component exported twice, then a command
/// exported twice, then a type declared two ways.
pub open spec fn exports_problem(
    ms: Seq<ExportsView>,
    comps: Seq<Seq<char>>,
    cmds: Seq<Seq<char>>,
    known: Seq<(Seq<char>, Seq<char>)>,
) -> Option<Seq<char>>
    decreases ms.len(),
{
    if ms.len() == 0 {
        None
    } else {
        let m = ms[0];
        match first_repeat(m.components, comps) {
            Some(n) => Some("duplicate native export "@ + n),
            None => match first_repeat(m.commands, cmds) {
                Some(n) => Some("duplicate native command "@ + n),
                None => match first_conflict(m.types, known) {
                    Some(n) => Some("conflicting native type "@ + n),
                    None => exports_problem(
                        ms.drop_first(),
                        comps + m.components,
                        cmds + m.commands,
                        known + m.types,
                    ),
                },
            },
        }
    }
}

/// Walks `names` against the names exported so far, adding each to `seen`
/// until one repeats.
fn find_repeat(names: &Vec<String>, seen: &mut Vec<String>) -> (r: Option<usize>)
    ensures
        match r {
            Some(i) => i < names@.len() && first_repeat(texts(names@), texts(old(seen)@)) == Some(
                names@[i as int]@,
            ),
            None => first_repeat(texts(names@), texts(old(seen)@)) is None && texts(final(seen)@)
                == texts(old(seen)@) + texts(names@),
        },
{
    let ghost all = texts(names@);
    let ghost start = texts(seen@);
    let mut i: usize = 0;
    proof {
        assert(all.skip(0) =~= all);
        assert(start + all.take(0) =~= start);
    }
    while i < names.len()
        invariant
            i <= names@.len(),
            all == texts(names@),
            start == texts(old(seen)@),
            texts(seen@) == start + all.take(i as int),
            first_repeat(all, start) == first_repeat(all.skip(i as int), texts(seen@)),
        decreases names@.len() - i,
    {
        let ghost rest = all.skip(i as int);
        let ghost now = texts(seen@);
        proof {
            assert(rest[0] == names@[i as int]@);
            assert(rest.drop_first() =~= all.skip(i + 1));
        }
        let found = position_in(seen, names[i].as_str());
        if found.is_some() {
            proof {
                let q = found.unwrap() as int;
                assert(now[q] == rest[0]);
                assert(now.contains(rest[0]));
                assert(first_repeat(rest, now) == Some(rest[0]));
            }
            return Some(i);
        }
        proof {
            assert(!now.contains(rest[0])) by {
                if now.contains(rest[0]) {
                    let q = choose|q: int| 0 <= q < now.len() && now[q] == rest[0];
                    assert(declares(now, rest[0]));
                }
            }
        }
        let c = String::from_str(names[i].as_str());
        seen.push(c);
        proof {
            assert(texts(seen@) =~= now.push(rest[0]));
            assert(all.take(i + 1) =~= all.take(i as int).push(all[i as int]));
            assert(texts(seen@) =~= start + all.take(i + 1));
        }
        i = i + 1;
    }
    proof {
        assert(all.take(all.len() as int) =~= all);
        assert(all.skip(all.len() as int) =~= Seq::<Seq<char>>::empty());
    }
    None
}

/// Whether `known` declares `name` other than as `decl`.
fn find_conflict_in(known: &Vec<(String, String)>, name: &str, decl: &str) -> (r: bool)
    ensures
        r == conflicts(pairs(known@), name@, decl@),
{
    let ghost k = pairs(known@);
    let mut i: usize = 0;
    while i < known.len()
        invariant
            i <= known@.len(),
            k == pairs(known@),
            forall|j: int| 0 <= j < i ==> !((#[trigger] k[j]).0 == name@ && k[j].1 != decl@),
        decreases known@.len() - i,
    {
        if same_text(known[i].0.as_str(), name) && !same_text(known[i].1.as_str(), decl) {
            assert(k[i as int].0 == name@ && k[i as int].1 != decl@);
            return true;
        }
        i = i + 1;
    }
    false
}

/// Walks `decls` against the declarations made so far, adding each to
/// `known` until one contradicts an earlier one.
fn find_conflict(decls: &Vec<(String, String)>, known: &mut Vec<(String, String)>) -> (r: Option<
    usize,
>)
    ensures
        match r {
            Some(i) => i < decls@.len() && first_conflict(pairs(decls@), pairs(old(known)@)) == Some(
                decls@[i as int].0@,
            ),
            None => first_conflict(pairs(decls@), pairs(old(known)@)) is None && pairs(final(known)@)
                == pairs(old(known)@) + pairs(decls@),
        },
{
    let ghost all = pairs(decls@);
    let ghost start = pairs(known@);
    let mut i: usize = 0;
    proof {
        assert(all.skip(0) =~= all);
        assert(start + all.take(0) =~= start);
    }
    while i < decls.len()
        invariant
            i <= decls@.len(),
            all == pairs(decls@),
            start == pairs(old(known)@),
            pairs(known@) == start + all.take(i as int),
            first_conflict(all, start) == first_conflict(all.skip(i as int), pairs(known@)),
        decreases decls@.len() - i,
    {
        let ghost rest = all.skip(i as int);
        let ghost now = pairs(known@);
        proof {
            assert(rest[0] == (decls@[i as int].0@, decls@[i as int].1@));
            assert(rest.drop_first() =~= all.skip(i + 1));
        }
        if find_conflict_in(known, decls[i].0.as_str(), decls[i].1.as_str()) {
            assert(first_conflict(rest, now) == Some(rest[0].0));
            return Some(i);
        }
        let e = (String::from_str(decls[i].0.as_str()), String::from_str(decls[i].1.as_str()));
        known.push(e);
        proof {
            assert(pairs(known@) =~= now.push(rest[0]));
            assert(all.take(i + 1) =~= all.take(i as int).push(all[i as int]));
            assert(pairs(known@) =~= start + all.take(i + 1));
        }
        i = i + 1;
    }
    proof {
        assert(all.take(all.len() as int) =~= all);
        assert(all.skip(all.len() as int) =~= Seq::<(Seq<char>, Seq<char>)>::empty());
    }
    None
}

/// Checks that the modules can share one contract: no component or command
/// exported twice, no type declared two ways. The first problem, module by
/// module, is reported.
pub fn check_exports(modules: &Vec<ModuleExports>) -> (r: Result<(), String>)
    ensures
        match r {
            Ok(()) => exports_problem(modules_view(modules@), seq![], seq![], seq![]) is None,
            Err(m) => exports_problem(modules_view(modules@), seq![], seq![], seq![]) == Some(m@),
        },
{
    let ghost all = modules_view(modules@);
    let mut comps: Vec<String> = Vec::new();
    let mut cmds: Vec<String> = Vec::new();
    let mut known: Vec<(String, String)> = Vec::new();
    let mut i: usize = 0;
    proof {
        assert(texts(comps@) =~= Seq::<Seq<char>>::empty());
        assert(texts(cmds@) =~= Seq::<Seq<char>>::empty());
        assert(pairs(known@) =~= Seq::<(Seq<char>, Seq<char>)>::empty());
        assert(all.skip(0) =~= all);
    }
    while i < modules.len()
        invariant
            i <= modules@.len(),
            all == modules_view(modules@),
            exports_problem(all, seq![], seq![], seq![]) == exports_problem(
                all.skip(i as int),
                texts(comps@),
                texts(cmds@),
                pairs(known@),
            ),
        decreases modules@.len() - i,
    {
        let m = &modules[i];
        let ghost rest = all.skip(i as int);
        let ghost v = exports_view(*m);
        let ghost c0 = texts(comps@);
        let ghost d0 = texts(cmds@);
        let ghost k0 = pairs(known@);
        proof {
            assert(rest[0] == v);
            assert(rest.drop_first() =~= all.skip(i + 1));
        }
        if let Some(j) = find_repeat(&m.components, &mut comps) {
            return Err(join2("duplicate native export ", m.components[j].as_str()));
        }
        if let Some(j) = find_repeat(&m.commands, &mut cmds) {
            return Err(join2("duplicate native command ", m.commands[j].as_str()));
        }
        if let Some(j) = find_conflict(&m.types, &mut known) {
            return Err(join2("conflicting native type ", m.types[j].0.as_str()));
        }
        i = i + 1;
    }
    proof {
        assert(all.skip(all.len() as int) =~= Seq::<ExportsView>::empty());
    }
    Ok(())
}

/// `before`, the number, `after` for each module number below `n`, joined
/// by `sep`.
pub open spec fn numbered(n: nat, before: Seq<char>, after: Seq<char>, sep: Seq<char>) -> Seq<char>
    decreases n,
{
    if n == 0 {
        Seq::empty()
    } else if n == 1 {
        before + decimal_spec(0) + after
    } else {
        numbered((n - 1) as nat, before, after, sep) + sep + before + decimal_spec((n - 1) as nat)
            + after
    }
}

/// The per-module names of the combined contract, such as
/// `NativeClient0 & NativeClient1` or `...useNative0(),...useNative1()`.
pub fn numbered_list(n: usize, before: &str, after: &str, sep: &str) -> (r: String)
    ensures
        r@ == numbered(n as nat, before@, after@, sep@),
{
    let mut out = String::new();
    let mut i: usize = 0;
    while i < n
        invariant
            i <= n,
            out@ == numbered(i as nat, before@, after@, sep@),
        decreases n - i,
    {
        if i > 0 {
            out.append(sep);
        }
        out.append(before);
        out.append(decimal_usize(i).as_str());
        out.append(after);
        i = i + 1;
    }
    out
}

/// The type of the combined client: the intersection of the module
/// clients, or the empty object type when there are no modules.
pub fn client_type(n: usize) -> (r: String)
    ensures
        r@ == (if n == 0 {
            "{}"@
        } else {
            numbered(n as nat, "NativeClient"@, ""@, " & "@)
        }),
{
    if n == 0 {
        String::from_str("{}")
    } else {
        numbered_list(n, "NativeClient", "", " & ")
    }
}

/// Whether two byte strings are equal.
pub fn same_bytes(a: &[u8], b: &[u8]) -> (r: bool)
    ensures
        r == (a@ == b@),
{
    if a.len() != b.len() {
        return false;
    }
    let mut i: usize = 0;
    while i < a.len()
        invariant
            i <= a@.len(),
            a@.len() == b@.len(),
            forall|j: int| 0 <= j < i ==> a@[j] == b@[j],
        decreases a@.len() - i,
    {
        if a[i] != b[i] {
            return false;
        }
        i = i + 1;
    }
    assert(a@ =~= b@);
    true
}

/// What identifies a linked module to the renderer: its id, the digest of
/// its contract, and how many components it registers.
#[derive(Debug)]
pub struct ModuleKey {
    pub id: [u8; 16],
    pub digest: [u8; 32],
    pub component_count: usize,
}

/// The component index an entry number names: entries count from 1, and
/// entry 0 wraps around to the largest number.
pub open spec fn entry_index(entry: u32) -> int {
    if entry == 0 {
        u32::MAX as int
    } else {
        entry - 1
    }
}

/// Whether a module resolves a request for `entry` at `version` of the
/// contract `(provider, digest)`.
pub open spec fn resolves(m: ModuleKey, provider: Seq<u8>, digest: Seq<u8>, entry: u32, version: u32) -> bool {
    &&& m.id@ == provider
    &&& m.digest@ == digest
    &&& version == 1
    &&& entry_index(entry) < m.component_count
}

impl ModuleKey {
    /// The component a renderer's extension reference names in this module:
    /// the contract must be this module's exact one, at version 1.
    pub fn resolve(&self, provider: &[u8; 16], digest: &[u8; 32], entry: u32, version: u32) -> (r:
        Option<usize>)
        ensures
            r == (if resolves(*self, provider@, digest@, entry, version) {
                Some(entry_index(entry) as usize)
            } else {
                None
            }),
    {
        if !same_bytes(&self.id, provider) || !same_bytes(&self.digest, digest) || version != 1 {
            return None;
        }
        let index: usize = if entry == 0 {
            u32::MAX as usize
        } else {
            (entry - 1) as usize
        };
        if index < self.component_count {
            Some(index)
        } else {
            None
        }
    }
}

/// The first of `modules` that resolves the reference, and the component
/// it names there.
pub fn resolve_in(
    modules: &Vec<ModuleKey>,
    provider: &[u8; 16],
    digest: &[u8; 32],
    entry: u32,
    version: u32,
) -> (r: Option<(usize, usize)>)
    ensures
        match r {
            Some((m, c)) => m < modules@.len() && resolves(modules@[m as int], provider@, digest@, entry, version)
                && c == entry_index(entry) && forall|k: int|
                0 <= k < m ==> !resolves(#[trigger] modules@[k], provider@, digest@, entry, version),
            None => forall|k: int|
                0 <= k < modules@.len() ==> !resolves(#[trigger] modules@[k], provider@, digest@, entry, version),
        },
{
    let mut k: usize = 0;
    while k < modules.len()
        invariant
            k <= modules@.len(),
            forall|j: int| 0 <= j < k ==> !resolves(#[trigger] modules@[j], provider@, digest@, entry, version),
        decreases modules@.len() - k,
    {
        if let Some(c) = modules[k].resolve(provider, digest, entry, version) {
            return Some((k, c));
        }
        k = k + 1;
    }
    None
}

} // verus!
